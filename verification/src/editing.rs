//! Editing a configuration by hand: moving paths between the included and
//! the excluded ones, removing them, and adding, removing and changing filters.
use vstd::prelude::*;

use crate::config::{sorted_version, texts, Config};
use crate::filters::{regex_compiles, spec_pattern_compiles};
use crate::sort::{sort_by_key, sorted_by_key, SortKey};
use crate::text::str_equal;

verus! {

broadcast use vstd::seq_lib::group_to_multiset_ensures;

/// `i` is the position of the first string whose text is `x`.
pub open spec fn first_equal(v: Seq<String>, x: Seq<char>, i: int) -> bool {
    &&& 0 <= i < v.len()
    &&& v[i]@ == x
    &&& forall|j: int| 0 <= j < i ==> v[j]@ != x
}

/// `new` is `old` without its first string whose text is `x`, or `old` itself
/// when no string has that text.
pub open spec fn without_first(new: Seq<String>, old: Seq<String>, x: Seq<char>) -> bool {
    &&& (forall|j: int| 0 <= j < old.len() ==> old[j]@ != x) ==> new == old
    &&& (exists|j: int| 0 <= j < old.len() && old[j]@ == x) ==> exists|i: int|
        first_equal(old, x, i) && new == old.remove(i)
}

/// No text is both in `a` and in `b`.
pub open spec fn texts_apart(a: Seq<String>, b: Seq<String>) -> bool {
    forall|i: int, j: int| 0 <= i < a.len() && 0 <= j < b.len() ==> a[i]@ != b[j]@
}

/// No two strings of `v` have the same text.
pub open spec fn distinct_texts(v: Seq<String>) -> bool {
    forall|i: int, j: int| 0 <= i < j < v.len() ==> v[i]@ != v[j]@
}

/// The settings other than the three lists are the same.
pub open spec fn same_settings(a: Config, b: Config) -> bool {
    &&& a.output == b.output
    &&& a.incremental == b.incremental
    &&& a.quality == b.quality
    &&& a.local == b.local
    &&& a.threads == b.threads
    &&& a.time == b.time
    &&& a.link_depth == b.link_depth
    &&& a.origin == b.origin
}

/// The position of the first string whose text is `x`.
fn find_text(v: &Vec<String>, x: &str) -> (r: Option<usize>)
    ensures
        r is None ==> forall|j: int| 0 <= j < v@.len() ==> v@[j]@ != x@,
        r matches Some(i) ==> first_equal(v@, x@, i as int),
{
    let mut i: usize = 0;
    while i < v.len()
        invariant
            i <= v@.len(),
            forall|j: int| 0 <= j < i ==> v@[j]@ != x@,
        decreases v.len() - i,
    {
        if str_equal(v[i].as_str(), x) {
            return Some(i);
        }
        i = i + 1;
    }
    None
}

/// Removes the first string whose text is `x`, if there is one.
fn remove_first(v: &mut Vec<String>, x: &str)
    ensures
        without_first(final(v)@, old(v)@, x@),
{
    match find_text(v, x) {
        Some(i) => {
            v.remove(i);
        },
        None => {},
    }
}

/// Removes the string at `i` when there is one.
fn remove_at(v: &mut Vec<String>, i: usize)
    ensures
        i < old(v)@.len() ==> final(v)@ == old(v)@.remove(i as int),
        i >= old(v)@.len() ==> final(v)@ == old(v)@,
{
    if i < v.len() {
        v.remove(i);
    }
}

impl Config {
    /// Includes a path: it leaves the excluded paths (its first copy there)
    /// and joins the included ones, which are sorted again.
    pub fn include_path(&mut self, path: String)
        ensures
            without_first(final(self).exclude@, old(self).exclude@, path@),
            sorted_version(final(self).includes@, old(self).includes@.push(path)),
            final(self).regex == old(self).regex,
            same_settings(*final(self), *old(self)),
    {
        remove_first(&mut self.exclude, path.as_str());
        let mut includes: Vec<String> = Vec::new();
        std::mem::swap(&mut includes, &mut self.includes);
        includes.push(path);
        self.includes = sort_by_key(includes);
    }

    /// Excludes a path: it leaves the included paths (its first copy there)
    /// and joins the excluded ones, which are sorted again.
    pub fn exclude_path(&mut self, path: String)
        ensures
            without_first(final(self).includes@, old(self).includes@, path@),
            sorted_version(final(self).exclude@, old(self).exclude@.push(path)),
            final(self).regex == old(self).regex,
            same_settings(*final(self), *old(self)),
    {
        remove_first(&mut self.includes, path.as_str());
        let mut exclude: Vec<String> = Vec::new();
        std::mem::swap(&mut exclude, &mut self.exclude);
        exclude.push(path);
        self.exclude = sort_by_key(exclude);
    }

    /// Removes the included path at `i`, when there is one.
    pub fn remove_include(&mut self, i: usize)
        ensures
            removed_at(final(self).includes@, old(self).includes@, i as nat),
            final(self).exclude == old(self).exclude,
            final(self).regex == old(self).regex,
            same_settings(*final(self), *old(self)),
    {
        remove_at(&mut self.includes, i);
    }

    /// Removes the excluded path at `i`, when there is one.
    pub fn remove_exclude(&mut self, i: usize)
        ensures
            removed_at(final(self).exclude@, old(self).exclude@, i as nat),
            final(self).includes == old(self).includes,
            final(self).regex == old(self).regex,
            same_settings(*final(self), *old(self)),
    {
        remove_at(&mut self.exclude, i);
    }

    /// Adds an empty filter at the end.
    pub fn add_filter(&mut self)
        ensures
            texts(final(self).regex@) == texts(old(self).regex@).push(Seq::<char>::empty()),
            final(self).includes == old(self).includes,
            final(self).exclude == old(self).exclude,
            same_settings(*final(self), *old(self)),
    {
        let ghost prev = self.regex@;
        self.regex.push(String::new());
        assert(texts(self.regex@) =~= texts(prev).push(Seq::<char>::empty()));
    }

    /// Removes the filter at `i`, when there is one.
    pub fn remove_filter(&mut self, i: usize)
        ensures
            removed_at(final(self).regex@, old(self).regex@, i as nat),
            final(self).includes == old(self).includes,
            final(self).exclude == old(self).exclude,
            same_settings(*final(self), *old(self)),
    {
        remove_at(&mut self.regex, i);
    }

    /// Changes the filter at `i` to `text`; a filter is only stored when it
    /// is there and `regex` accepts the text as a regular expression. Says
    /// whether it was stored.
    pub fn set_filter(&mut self, i: usize, text: String) -> (r: bool)
        ensures
            r == (i < old(self).regex@.len() && spec_pattern_compiles(text@)),
            r ==> final(self).regex@ == old(self).regex@.update(i as int, text),
            !r ==> final(self).regex@ == old(self).regex@,
            final(self).includes == old(self).includes,
            final(self).exclude == old(self).exclude,
            same_settings(*final(self), *old(self)),
    {
        if i >= self.regex.len() || !regex_compiles(text.as_str()) {
            return false;
        }
        let ghost prev = self.regex@;
        self.regex.remove(i);
        self.regex.insert(i, text);
        assert(self.regex@ =~= prev.update(i as int, text));
        true
    }
}

/// The included and the excluded paths are each sorted, and no path is in both.
pub open spec fn lists_in_order(includes: Seq<String>, exclude: Seq<String>) -> bool {
    &&& sorted_by_key(includes)
    &&& sorted_by_key(exclude)
    &&& texts_apart(includes, exclude)
}

/// `new` is `old` without its string at `i`, or `old` itself when there is none.
pub open spec fn removed_at(new: Seq<String>, old: Seq<String>, i: nat) -> bool {
    &&& i < old.len() ==> new == old.remove(i as int)
    &&& i >= old.len() ==> new == old
}

proof fn lemma_remove_sorted(s: Seq<String>, k: int)
    requires
        sorted_by_key(s),
        0 <= k < s.len(),
    ensures
        sorted_by_key(s.remove(k)),
{
    let r = s.remove(k);
    assert forall|a: int, b: int| #![trigger r[a], r[b]] 0 <= a < b < r.len() implies r[a].key_le(&r[b]) by {
        let a2 = if a < k { a } else { a + 1 };
        let b2 = if b < k { b } else { b + 1 };
        assert(r[a] == s[a2] && r[b] == s[b2]);
    }
}

proof fn lemma_removed_at_kept(new: Seq<String>, old: Seq<String>, i: nat)
    requires
        removed_at(new, old, i),
        sorted_by_key(old),
    ensures
        sorted_by_key(new),
        forall|j: int| 0 <= j < new.len() ==> old.contains(#[trigger] new[j]),
{
    if i < old.len() {
        lemma_remove_sorted(old, i as int);
        assert forall|j: int| 0 <= j < new.len() implies old.contains(#[trigger] new[j]) by {
            if j < i {
                assert(new[j] == old[j]);
            } else {
                assert(new[j] == old[j + 1]);
            }
        }
    } else {
        assert forall|j: int| 0 <= j < new.len() implies old.contains(#[trigger] new[j]) by {
            assert(new[j] == old[j]);
        }
    }
}

/// Removing a path by its position, from the included or from the excluded
/// ones, keeps both sorted and apart.
pub proof fn lemma_remove_keeps_lists(
    includes: Seq<String>,
    exclude: Seq<String>,
    new_includes: Seq<String>,
    new_exclude: Seq<String>,
    i: nat,
)
    requires
        lists_in_order(includes, exclude),
        (removed_at(new_includes, includes, i) && new_exclude == exclude) || (new_includes
            == includes && removed_at(new_exclude, exclude, i)),
    ensures
        lists_in_order(new_includes, new_exclude),
{
    if removed_at(new_includes, includes, i) && new_exclude == exclude {
        lemma_removed_at_kept(new_includes, includes, i);
        assert forall|a: int, b: int|
            0 <= a < new_includes.len() && 0 <= b < new_exclude.len() implies new_includes[a]@
            != new_exclude[b]@ by {
            assert(includes.contains(new_includes[a]));
        }
    } else {
        lemma_removed_at_kept(new_exclude, exclude, i);
        assert forall|a: int, b: int|
            0 <= a < new_includes.len() && 0 <= b < new_exclude.len() implies new_includes[a]@
            != new_exclude[b]@ by {
            assert(exclude.contains(new_exclude[b]));
        }
    }
}

/// Moving a path to the included ones (`include_path`) keeps the included
/// and the excluded paths each sorted and apart, when they were and no
/// excluded path was there twice: the path is then included and no longer
/// excluded.
pub proof fn lemma_include_keeps_apart(
    includes: Seq<String>,
    exclude: Seq<String>,
    path: String,
    new_includes: Seq<String>,
    new_exclude: Seq<String>,
)
    requires
        lists_in_order(includes, exclude),
        distinct_texts(exclude),
        sorted_version(new_includes, includes.push(path)),
        without_first(new_exclude, exclude, path@),
    ensures
        lists_in_order(new_includes, new_exclude),
        texts(new_includes).contains(path@),
        !texts(new_exclude).contains(path@),
{
    if exists|j: int| 0 <= j < exclude.len() && exclude[j]@ == path@ {
        let i = choose|i: int| first_equal(exclude, path@, i) && new_exclude == exclude.remove(i);
        lemma_remove_sorted(exclude, i);
    }
    let pushed = includes.push(path);
    assert(pushed.to_multiset() == includes.to_multiset().insert(path));
    // Every excluded path left was excluded before, and none has the path's text.
    assert forall|j: int| 0 <= j < new_exclude.len() implies (exists|k: int|
        0 <= k < exclude.len() && #[trigger] new_exclude[j] == exclude[k]) && new_exclude[j]@
        != path@ by {
        if forall|m: int| 0 <= m < exclude.len() ==> exclude[m]@ != path@ {
            assert(new_exclude[j] == exclude[j]);
        } else {
            let i = choose|i: int| first_equal(exclude, path@, i) && new_exclude == exclude.remove(i);
            if j < i {
                assert(new_exclude[j] == exclude[j]);
                assert(exclude[j]@ != path@);
            } else {
                assert(new_exclude[j] == exclude[j + 1]);
                assert(exclude[i]@ != exclude[j + 1]@);
            }
        }
    }
    assert(pushed.contains(path)) by {
        assert(pushed[includes.len() as int] == path);
    }
    assert(pushed.to_multiset().count(path) > 0);
    assert(new_includes.to_multiset().count(path) > 0);
    assert(new_includes.contains(path));
    let k = choose|k: int| 0 <= k < new_includes.len() && new_includes[k] == path;
    assert(texts(new_includes)[k] == path@);
    assert forall|a: int, b: int|
        0 <= a < new_includes.len() && 0 <= b < new_exclude.len() implies new_includes[a]@
        != new_exclude[b]@ by {
        let x = new_includes[a];
        assert(new_includes.contains(x));
        assert(pushed.to_multiset().count(x) > 0);
        if x != path {
            assert(includes.contains(x));
            let c = choose|c: int| 0 <= c < includes.len() && includes[c] == x;
            let e = choose|e: int| 0 <= e < exclude.len() && new_exclude[b] == exclude[e];
            assert(includes[c]@ != exclude[e]@);
        }
    }
    if texts(new_exclude).contains(path@) {
        let j = choose|j: int| 0 <= j < texts(new_exclude).len() && texts(new_exclude)[j] == path@;
        assert(new_exclude[j]@ == path@);
    }
}

/// Moving a path to the excluded ones (`exclude_path`) keeps the included
/// and the excluded paths each sorted and apart, when they were and no
/// included path was there twice: the path is then excluded and no longer
/// included.
pub proof fn lemma_exclude_keeps_apart(
    includes: Seq<String>,
    exclude: Seq<String>,
    path: String,
    new_includes: Seq<String>,
    new_exclude: Seq<String>,
)
    requires
        lists_in_order(includes, exclude),
        distinct_texts(includes),
        sorted_version(new_exclude, exclude.push(path)),
        without_first(new_includes, includes, path@),
    ensures
        lists_in_order(new_includes, new_exclude),
        texts(new_exclude).contains(path@),
        !texts(new_includes).contains(path@),
{
    assert(texts_apart(exclude, includes)) by {
        assert forall|a: int, b: int| 0 <= a < exclude.len() && 0 <= b < includes.len() implies exclude[a]@ != includes[b]@ by {
            assert(includes[b]@ != exclude[a]@);
        }
    }
    lemma_include_keeps_apart(exclude, includes, path, new_exclude, new_includes);
    assert forall|a: int, b: int| 0 <= a < new_includes.len() && 0 <= b < new_exclude.len() implies new_includes[a]@ != new_exclude[b]@ by {
        assert(new_exclude[b]@ != new_includes[a]@);
    }
}

} // verus!
