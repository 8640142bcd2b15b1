//! Looking for the files to back up: the directories still to look into,
//! which paths are left out, and whether a path is backed up.
use path_absolutize::Absolutize;
use regex::RegexSet;
use std::path::Path;
use vstd::prelude::*;

use crate::components::{
    compare_paths, lemma_child_order, lemma_parts_transitive, lemma_parts_trichotomy, parts_of,
    path_child, path_eq, path_inside, path_lt, PathOrder,
};
use crate::compression::{clean_path, spec_clean_path};
use crate::config::{non_empty, texts};
use crate::errors::spec_io_error_kind;
use crate::filters::{
    regex_set_is_match, regex_set_new, regex_set_patterns, spec_pattern_matches,
    spec_patterns_compile, spec_set_matches,
};
use crate::files::FileInfo;
use crate::sort::{sort_by_key, sorted_by_key, SortKey};
use crate::text::{chars_of, concat, copy_string, str_equal};

verus! {

broadcast use vstd::seq_lib::group_to_multiset_ensures;

/// The absolute form `path_absolutize` gives a path from the directory `cwd`
/// (`Absolutize::absolutize_from`), as text.
pub uninterp spec fn spec_absolutize_from(path: Seq<char>, cwd: Seq<char>) -> Seq<char>;

/// The characters special to regular expressions (`regex_syntax::is_meta_character`).
pub open spec fn is_regex_meta(c: char) -> bool {
    c == '\\' || c == '.' || c == '+' || c == '*' || c == '?' || c == '(' || c == ')' || c == '|'
        || c == '[' || c == ']' || c == '{' || c == '}' || c == '^' || c == '$' || c == '#'
        || c == '&' || c == '-' || c == '~'
}

/// The text `regex::escape` gives: each character special to regular
/// expressions has a backslash put before it.
pub open spec fn spec_regex_escape(text: Seq<char>) -> Seq<char>
    decreases text.len(),
{
    if text.len() == 0 {
        Seq::<char>::empty()
    } else {
        let rest = spec_regex_escape(text.drop_last());
        let c = text.last();
        if is_regex_meta(c) {
            rest + seq!['\\', c]
        } else {
            rest.push(c)
        }
    }
}

/// The directory a path is in, as `Path::parent` gives it, as text.
pub uninterp spec fn spec_parent(path: Seq<char>) -> Option<Seq<char>>;

/// A directory that paths can be made absolute from: an absolute path that
/// is the root or names something below it (only slashes, more than one,
/// name nothing below the root and have no directory above them).
pub open spec fn usable_cwd(cwd: Seq<char>) -> bool {
    &&& is_absolute(cwd)
    &&& (cwd == seq!['/'] || exists|i: int| 0 <= i < cwd.len() && cwd[i] != '/')
}

/// Whether paths can be made absolute from a directory (see `usable_cwd`).
pub fn is_usable_cwd(cwd: &str) -> (r: bool)
    ensures
        r == usable_cwd(cwd@),
{
    let v = chars_of(cwd);
    if v.len() == 0 || v[0] != '/' {
        return false;
    }
    if v.len() == 1 {
        assert(cwd@ =~= seq!['/']);
        return true;
    }
    let mut i: usize = 0;
    while i < v.len()
        invariant
            i <= v@.len(),
            v@ == cwd@,
            v@.len() > 1,
            v@[0] == '/',
            forall|k: int| 0 <= k < i ==> v@[k] == '/',
        decreases v.len() - i,
    {
        if v[i] != '/' {
            assert(cwd@[i as int] != '/');
            return true;
        }
        i = i + 1;
    }
    assert(cwd@ != seq!['/']) by {
        assert(cwd@.len() > 1);
    }
    false
}

/// Makes a path absolute from the directory `cwd` (`Absolutize::absolutize_from`,
/// which on Unix always gives a path; from a directory that `usable_cwd`
/// refuses it can end with no part and panic); the path is what the named
/// function gives.
#[verifier::external_body]
pub(crate) fn absolutize_from(path: &str, cwd: &str) -> (r: Result<String, std::io::Error>)
    requires
        usable_cwd(cwd@),
    ensures
        r is Ok,
        r matches Ok(p) ==> p@ == spec_absolutize_from(path@, cwd@),
{
    match Path::new(path).absolutize_from(cwd) {
        Ok(p) => Ok(p.to_string_lossy().to_string()),
        Err(e) => Err(e),
    }
}

/// Escapes the characters special to regular expressions (`regex::escape`,
/// which puts a backslash before each, see `spec_regex_escape`). As its documentation says,
/// the escaped text is a literal: between `^` and `$` it matches the text.
#[verifier::external_body]
pub(crate) fn regex_escape(text: &str) -> (r: String)
    ensures
        r@ == spec_regex_escape(text@),
        spec_pattern_matches(seq!['^'] + r@ + seq!['$'], text@),
{
    regex::escape(text)
}

/// The directory a path is in (`Path::parent`), which is the path without its
/// last part and so shorter than it; the result is what the named function gives.
#[verifier::external_body]
pub(crate) fn parent(path: &str) -> (r: Option<String>)
    ensures
        r matches Some(p) ==> spec_parent(path@) == Some(p@) && p@.len() < path@.len(),
        r is None ==> spec_parent(path@) is None,
{
    match Path::new(path).parent() {
        Some(p) => Some(p.to_string_lossy().to_string()),
        None => None,
    }
}

/// An error of input that is not valid (`std::io::Error::new` with
/// `ErrorKind::InvalidInput`), made from a regular expression error.
#[verifier::external_body]
fn invalid_input(e: regex::Error) -> (r: std::io::Error)
    ensures
        spec_io_error_kind(r) == "InvalidInput"@,
{
    std::io::Error::new(std::io::ErrorKind::InvalidInput, e)
}

/// A path that starts at the root (`Path::is_absolute` on Unix).
pub open spec fn is_absolute(path: Seq<char>) -> bool {
    path.len() > 0 && path[0] == '/'
}

/// The pattern that leaves out exactly one path.
pub open spec fn exclusion_pattern(path: Seq<char>) -> Seq<char> {
    seq!['^'] + spec_regex_escape(path) + seq!['$']
}

/// Files ordered by path, from the last.
pub struct PathDesc(pub FileInfo);

/// Files ordered by path, from the first.
pub struct PathAsc(pub FileInfo);

impl SortKey for PathDesc {
    open spec fn key_le(&self, other: &Self) -> bool {
        !path_lt(self.0@, other.0@)
    }

    proof fn lemma_key_le_total(a: &Self, b: &Self) {
        lemma_parts_trichotomy(
            crate::components::parts_of(a.0@),
            crate::components::parts_of(b.0@),
        );
    }

    proof fn lemma_key_le_transitive(a: &Self, b: &Self, c: &Self) {
        let (x, y, z) = (
            crate::components::parts_of(a.0@),
            crate::components::parts_of(b.0@),
            crate::components::parts_of(c.0@),
        );
        lemma_parts_trichotomy(x, y);
        lemma_parts_trichotomy(y, z);
        if crate::components::parts_lt(y, x) && crate::components::parts_lt(z, y) {
            lemma_parts_transitive(z, y, x);
        }
        lemma_parts_trichotomy(x, z);
        if crate::components::parts_lt(x, z) && crate::components::parts_lt(y, x) {
            lemma_parts_transitive(y, x, z);
        }
        if crate::components::parts_lt(x, z) && crate::components::parts_lt(z, y) {
            lemma_parts_transitive(x, z, y);
        }
    }

    fn less_or_equal(&self, other: &Self) -> (r: bool) {
        compare_paths(self.0.get_string().as_str(), other.0.get_string().as_str())
            != PathOrder::Less
    }
}

impl SortKey for PathAsc {
    open spec fn key_le(&self, other: &Self) -> bool {
        !path_lt(other.0@, self.0@)
    }

    proof fn lemma_key_le_total(a: &Self, b: &Self) {
        lemma_parts_trichotomy(
            crate::components::parts_of(a.0@),
            crate::components::parts_of(b.0@),
        );
    }

    proof fn lemma_key_le_transitive(a: &Self, b: &Self, c: &Self) {
        let (x, y, z) = (
            crate::components::parts_of(a.0@),
            crate::components::parts_of(b.0@),
            crate::components::parts_of(c.0@),
        );
        lemma_parts_trichotomy(x, y);
        lemma_parts_trichotomy(y, z);
        if crate::components::parts_lt(z, y) && crate::components::parts_lt(y, x) {
            lemma_parts_transitive(z, y, x);
        }
        lemma_parts_trichotomy(x, z);
        if crate::components::parts_lt(z, x) && crate::components::parts_lt(x, y) {
            lemma_parts_transitive(z, x, y);
        }
        if crate::components::parts_lt(y, z) && crate::components::parts_lt(z, x) {
            lemma_parts_transitive(y, z, x);
        }
    }

    fn less_or_equal(&self, other: &Self) -> (r: bool) {
        compare_paths(other.0.get_string().as_str(), self.0.get_string().as_str())
            != PathOrder::Less
    }
}

/// The paths of files.
pub open spec fn file_paths(v: Seq<FileInfo>) -> Seq<Seq<char>> {
    v.map_values(|f: FileInfo| f@)
}

/// Paths ordered from the last to the first.
pub open spec fn sorted_desc(v: Seq<Seq<char>>) -> bool {
    forall|i: int, j: int| #![trigger v[i], v[j]] 0 <= i < j < v.len() ==> !path_lt(v[i], v[j])
}

/// Paths ordered from the first to the last.
pub open spec fn sorted_asc(v: Seq<Seq<char>>) -> bool {
    forall|i: int, j: int| #![trigger v[i], v[j]] 0 <= i < j < v.len() ==> !path_lt(v[j], v[i])
}

/// Files sorted by path, from the last.
fn sort_desc(v: Vec<FileInfo>) -> (r: Vec<FileInfo>)
    ensures
        file_paths(r@).to_multiset() == file_paths(v@).to_multiset(),
        sorted_desc(file_paths(r@)),
{
    let ghost orig = v@;
    let mut rest = v;
    let mut wrapped: Vec<PathDesc> = Vec::new();
    while rest.len() > 0
        invariant
            file_paths(orig) == file_paths(rest@) + wrapped@.map_values(|w: PathDesc| w.0@).reverse(),
        decreases rest.len(),
    {
        let ghost before = rest@;
        let x = rest.pop().unwrap();
        assert(file_paths(before) =~= file_paths(rest@).push(x@));
        let ghost prev = wrapped@;
        wrapped.push(PathDesc(x));
        assert(wrapped@.map_values(|w: PathDesc| w.0@).reverse() =~= seq![x@] + prev.map_values(
            |w: PathDesc| w.0@,
        ).reverse());
    }
    let ghost wv = wrapped@.map_values(|w: PathDesc| w.0@);
    assert(file_paths(orig) =~= wv.reverse());
    let ghost wq = wrapped@;
    let sorted = sort_by_key(wrapped);
    proof {
        crate::sort::lemma_map_multiset(sorted@, wq, |w: PathDesc| w.0@);
        wv.lemma_reverse_to_multiset();
    }
    let ghost sq = sorted@;
    let ghost sv = sorted@.map_values(|w: PathDesc| w.0@);
    let mut sorted = sorted;
    let mut out_rev: Vec<FileInfo> = Vec::new();
    while sorted.len() > 0
        invariant
            sv == sorted@.map_values(|w: PathDesc| w.0@) + file_paths(out_rev@).reverse(),
        decreases sorted.len(),
    {
        let ghost before = sorted@;
        let x = sorted.pop().unwrap();
        assert(before.map_values(|w: PathDesc| w.0@) =~= sorted@.map_values(|w: PathDesc| w.0@).push(x.0@));
        let ghost prev = out_rev@;
        out_rev.push(x.0);
        assert(file_paths(out_rev@).reverse() =~= seq![x.0@] + file_paths(prev).reverse());
    }
    let mut out: Vec<FileInfo> = Vec::new();
    while out_rev.len() > 0
        invariant
            sv == file_paths(out@) + file_paths(out_rev@).reverse(),
        decreases out_rev.len(),
    {
        let ghost before = out_rev@;
        let x = out_rev.pop().unwrap();
        assert(file_paths(before).reverse() =~= seq![x@] + file_paths(out_rev@).reverse()) by {
            assert(file_paths(before) =~= file_paths(out_rev@).push(x@));
        }
        let ghost prev = out@;
        out.push(x);
        assert(file_paths(out@) =~= file_paths(prev).push(x@));
    }
    assert(file_paths(out@) =~= sv);
    assert forall|i: int, j: int| #![trigger sv[i], sv[j]] 0 <= i < j < sv.len() implies !path_lt(sv[i], sv[j]) by {
        assert(sq[i].key_le(&sq[j]));
        assert(sv[i] == sq[i].0@);
        assert(sv[j] == sq[j].0@);
    }
    out
}

/// Files sorted by path, from the first.
fn sort_asc(v: Vec<FileInfo>) -> (r: Vec<FileInfo>)
    ensures
        file_paths(r@).to_multiset() == file_paths(v@).to_multiset(),
        sorted_asc(file_paths(r@)),
{
    let ghost orig = v@;
    let mut rest = v;
    let mut wrapped: Vec<PathAsc> = Vec::new();
    while rest.len() > 0
        invariant
            file_paths(orig) == file_paths(rest@) + wrapped@.map_values(|w: PathAsc| w.0@).reverse(),
        decreases rest.len(),
    {
        let ghost before = rest@;
        let x = rest.pop().unwrap();
        assert(file_paths(before) =~= file_paths(rest@).push(x@));
        let ghost prev = wrapped@;
        wrapped.push(PathAsc(x));
        assert(wrapped@.map_values(|w: PathAsc| w.0@).reverse() =~= seq![x@] + prev.map_values(
            |w: PathAsc| w.0@,
        ).reverse());
    }
    let ghost wv = wrapped@.map_values(|w: PathAsc| w.0@);
    assert(file_paths(orig) =~= wv.reverse());
    let ghost wq = wrapped@;
    let sorted = sort_by_key(wrapped);
    proof {
        crate::sort::lemma_map_multiset(sorted@, wq, |w: PathAsc| w.0@);
        wv.lemma_reverse_to_multiset();
    }
    let ghost sq = sorted@;
    let ghost sv = sorted@.map_values(|w: PathAsc| w.0@);
    let mut sorted = sorted;
    let mut out_rev: Vec<FileInfo> = Vec::new();
    while sorted.len() > 0
        invariant
            sv == sorted@.map_values(|w: PathAsc| w.0@) + file_paths(out_rev@).reverse(),
        decreases sorted.len(),
    {
        let ghost before = sorted@;
        let x = sorted.pop().unwrap();
        assert(before.map_values(|w: PathAsc| w.0@) =~= sorted@.map_values(|w: PathAsc| w.0@).push(x.0@));
        let ghost prev = out_rev@;
        out_rev.push(x.0);
        assert(file_paths(out_rev@).reverse() =~= seq![x.0@] + file_paths(prev).reverse());
    }
    let mut out: Vec<FileInfo> = Vec::new();
    while out_rev.len() > 0
        invariant
            sv == file_paths(out@) + file_paths(out_rev@).reverse(),
        decreases out_rev.len(),
    {
        let ghost before = out_rev@;
        let x = out_rev.pop().unwrap();
        assert(file_paths(before).reverse() =~= seq![x@] + file_paths(out_rev@).reverse()) by {
            assert(file_paths(before) =~= file_paths(out_rev@).push(x@));
        }
        let ghost prev = out@;
        out.push(x);
        assert(file_paths(out@) =~= file_paths(prev).push(x@));
    }
    assert(file_paths(out@) =~= sv);
    assert forall|i: int, j: int| #![trigger sv[i], sv[j]] 0 <= i < j < sv.len() implies !path_lt(sv[j], sv[i]) by {
        assert(sq[i].key_le(&sq[j]));
        assert(sv[i] == sq[i].0@);
        assert(sv[j] == sq[j].0@);
    }
    out
}

/// How the walk through the directory entries (sorted from the first) and the
/// files still to look at (sorted from the last, the next at the end) ends:
/// the files still to look at, the position reached, and whether the
/// positions from there on need sorting again. An entry equal to the file at
/// the position replaces it; the position moves down for an entry that is not
/// before that file.
pub open spec fn walk(stack: Seq<Seq<char>>, temp: Seq<Seq<char>>, count: int, needs: bool) -> (
    Seq<Seq<char>>,
    int,
    bool,
)
    decreases temp.len(),
{
    if temp.len() == 0 || count < 0 || count >= stack.len() {
        (stack, count, needs)
    } else {
        let t = temp[0];
        let s = stack[count];
        if path_lt(t, s) {
            walk(stack, temp.drop_first(), count, needs)
        } else if path_eq(t, s) {
            if count == 0 {
                (stack.remove(count), 0, needs)
            } else {
                walk(stack.remove(count), temp.drop_first(), count - 1, needs)
            }
        } else {
            if count == 0 {
                (stack, 0, true)
            } else {
                walk(stack, temp.drop_first(), count - 1, true)
            }
        }
    }
}

/// The files still to look at after the entries of a directory (sorted from
/// the first) are added, before any sorting again: the walked files, then the
/// entries with the first at the end.
pub open spec fn after_walk(stack: Seq<Seq<char>>, temp: Seq<Seq<char>>) -> (Seq<Seq<char>>, int, bool) {
    if temp.len() == 0 {
        (stack, stack.len() as int, false)
    } else if stack.len() == 0 {
        (temp.reverse(), 0, false)
    } else {
        let (w, c, n) = walk(stack, temp, stack.len() - 1, false);
        (w + temp.reverse(), c, n)
    }
}

pub proof fn lemma_walk_range(stack: Seq<Seq<char>>, temp: Seq<Seq<char>>, count: int, needs: bool)
    requires
        0 <= count < stack.len(),
    ensures
        0 <= walk(stack, temp, count, needs).1 <= walk(stack, temp, count, needs).0.len(),
        !needs && !walk(stack, temp, count, needs).2 ==> walk(stack, temp, count, needs).1 >= 0,
    decreases temp.len(),
{
    if temp.len() > 0 {
        let t = temp[0];
        let s = stack[count];
        if path_lt(t, s) {
            lemma_walk_range(stack, temp.drop_first(), count, needs);
        } else if path_eq(t, s) {
            if count > 0 {
                lemma_walk_range(stack.remove(count), temp.drop_first(), count - 1, needs);
            }
        } else {
            if count > 0 {
                lemma_walk_range(stack, temp.drop_first(), count - 1, true);
            }
        }
    }
}

/// Walking never loses a file still to look at: each is kept, or an entry
/// equal to it was found.
pub proof fn lemma_walk_keeps(stack: Seq<Seq<char>>, temp: Seq<Seq<char>>, count: int, needs: bool, x: Seq<char>)
    requires
        0 <= count < stack.len(),
        stack.contains(x),
    ensures
        walk(stack, temp, count, needs).0.contains(x) || exists|i: int|
            0 <= i < temp.len() && path_eq(#[trigger] temp[i], x),
    decreases temp.len(),
{
    if temp.len() > 0 {
        let t = temp[0];
        let s = stack[count];
        if path_lt(t, s) {
            lemma_walk_keeps(stack, temp.drop_first(), count, needs, x);
            lemma_found_later(temp, x);
        } else if path_eq(t, s) {
            if s == x {
                assert(path_eq(temp[0], x));
            } else {
                let st = stack.remove(count);
                assert(st.contains(x)) by {
                    let k = choose|k: int| 0 <= k < stack.len() && stack[k] == x;
                    if k < count {
                        assert(st[k] == x);
                    } else {
                        assert(k != count);
                        assert(st[k - 1] == x);
                    }
                }
                if count > 0 {
                    lemma_walk_keeps(st, temp.drop_first(), count - 1, needs, x);
                    lemma_found_later(temp, x);
                }
            }
        } else {
            if count > 0 {
                lemma_walk_keeps(stack, temp.drop_first(), count - 1, true, x);
                lemma_found_later(temp, x);
            }
        }
    }
}

proof fn lemma_found_later(temp: Seq<Seq<char>>, x: Seq<char>)
    requires
        temp.len() > 0,
    ensures
        (exists|i: int| 0 <= i < temp.drop_first().len() && path_eq(#[trigger] temp.drop_first()[i], x))
            ==> exists|i: int| 0 <= i < temp.len() && path_eq(#[trigger] temp[i], x),
{
    if exists|i: int| 0 <= i < temp.drop_first().len() && path_eq(#[trigger] temp.drop_first()[i], x) {
        let i = choose|i: int| 0 <= i < temp.drop_first().len() && path_eq(#[trigger] temp.drop_first()[i], x);
        assert(temp[i + 1] == temp.drop_first()[i]);
    }
}

/// The files still to look at, `f`, after the entries `t` of a directory
/// (sorted from the first) were added to the files `stack`: the walked files
/// and the entries (see `after_walk`), with the part from the position
/// reached sorted again from the last when the walk found it needed.
pub open spec fn dir_added(stack: Seq<Seq<char>>, t: Seq<Seq<char>>, f: Seq<Seq<char>>) -> bool {
    let (w, c, n) = after_walk(stack, t);
    &&& 0 <= c <= w.len()
    &&& f.len() == w.len()
    &&& !n ==> f == w
    &&& n ==> f.take(c) == w.take(c) && sorted_desc(f.skip(c)) && f.skip(c).to_multiset()
        == w.skip(c).to_multiset()
}

/// Adding the entries of a directory loses nothing: every entry is still to
/// look at, and so is every file that was, unless an entry equal to it took
/// its place.
pub proof fn lemma_dir_added_keeps(stack: Seq<Seq<char>>, t: Seq<Seq<char>>, f: Seq<Seq<char>>, x: Seq<char>)
    requires
        dir_added(stack, t, f),
    ensures
        t.contains(x) ==> f.contains(x),
        stack.contains(x) ==> f.contains(x) || exists|i: int| 0 <= i < t.len() && path_eq(#[trigger] t[i], x),
{
    let (w, c, n) = after_walk(stack, t);
    assert(forall|y: Seq<char>| w.contains(y) ==> f.contains(y)) by {
        assert forall|y: Seq<char>| w.contains(y) implies f.contains(y) by {
            if n {
                let k = choose|k: int| 0 <= k < w.len() && w[k] == y;
                if k < c {
                    assert(w.take(c)[k] == y);
                    assert(f.take(c)[k] == y);
                    assert(f[k] == y);
                } else {
                    assert(w.skip(c)[k - c] == y);
                    assert(w.skip(c).to_multiset().count(y) > 0);
                    assert(f.skip(c).to_multiset().count(y) > 0);
                    assert(f.skip(c).contains(y));
                    let m = choose|m: int| 0 <= m < f.skip(c).len() && f.skip(c)[m] == y;
                    assert(f[m + c] == y);
                }
            }
        }
    }
    if t.len() == 0 {
        assert(w == stack);
    } else if stack.len() == 0 {
        assert(w == t.reverse());
        if t.contains(x) {
            let k = choose|k: int| 0 <= k < t.len() && t[k] == x;
            assert(t.reverse()[t.len() - 1 - k] == x);
        }
    } else {
        let (w0, c0, n0) = walk(stack, t, stack.len() - 1, false);
        assert(w == w0 + t.reverse());
        if t.contains(x) {
            let k = choose|k: int| 0 <= k < t.len() && t[k] == x;
            assert(t.reverse()[t.len() - 1 - k] == x);
            assert(w[w0.len() + t.len() - 1 - k] == x);
        }
        if stack.contains(x) {
            lemma_walk_keeps(stack, t, stack.len() - 1, false, x);
            if w0.contains(x) {
                let k = choose|k: int| 0 <= k < w0.len() && w0[k] == x;
                assert(w[k] == x);
            }
        }
    }
}

/// Paths strictly ordered from the last to the first (no two equal).
pub open spec fn strictly_desc(v: Seq<Seq<char>>) -> bool {
    forall|i: int, j: int| #![trigger v[i], v[j]] 0 <= i < j < v.len() ==> path_lt(v[j], v[i])
}

/// Paths strictly ordered from the first to the last (no two equal).
pub open spec fn strictly_asc(v: Seq<Seq<char>>) -> bool {
    forall|i: int, j: int| #![trigger v[i], v[j]] 0 <= i < j < v.len() ==> path_lt(v[i], v[j])
}

/// Every file still to look at that is inside the directory `dir` is one
/// of its entries `t`.
pub open spec fn entries_cover(dir: Seq<char>, stack: Seq<Seq<char>>, t: Seq<Seq<char>>) -> bool {
    forall|k: int|
        0 <= k < stack.len() && path_inside(dir, #[trigger] stack[k]) ==> exists|j: int|
            0 <= j < t.len() && path_eq(#[trigger] t[j], stack[k])
}

proof fn lemma_path_lt_trans(a: Seq<char>, b: Seq<char>, c: Seq<char>)
    requires
        path_lt(a, b),
        path_lt(b, c),
    ensures
        path_lt(a, c),
{
    lemma_parts_transitive(parts_of(a), parts_of(b), parts_of(c));
}

proof fn lemma_path_order(a: Seq<char>, b: Seq<char>)
    ensures
        path_lt(a, b) || path_eq(a, b) || path_lt(b, a),
        !(path_lt(a, b) && path_lt(b, a)),
        path_eq(a, b) ==> !path_lt(a, b) && !path_lt(b, a),
{
    lemma_parts_trichotomy(parts_of(a), parts_of(b));
    lemma_parts_trichotomy(parts_of(a), parts_of(a));
}

/// Walking entries of a directory that cover the files inside it (see
/// `lemma_dir_added_in_order`) against files in order never finds an entry
/// after the file at the position: the walked files stay in order, are
/// files that were there, and come after every entry.
proof fn lemma_walk_in_order(
    dir: Seq<char>,
    stack: Seq<Seq<char>>,
    temp: Seq<Seq<char>>,
    count: int,
    needs: bool,
)
    requires
        stack.len() > 0,
        count == stack.len() - 1,
        strictly_desc(stack),
        forall|k: int| 0 <= k < stack.len() ==> path_lt(dir, #[trigger] stack[k]),
        strictly_asc(temp),
        forall|j: int| 0 <= j < temp.len() ==> path_child(dir, #[trigger] temp[j]),
        entries_cover(dir, stack, temp),
    ensures
        walk(stack, temp, count, needs).2 == needs,
        strictly_desc(walk(stack, temp, count, needs).0),
        forall|i: int|
            0 <= i < walk(stack, temp, count, needs).0.len() ==> exists|k: int|
                0 <= k < stack.len() && #[trigger] walk(stack, temp, count, needs).0[i] == stack[k],
        forall|i: int, j: int|
            0 <= i < walk(stack, temp, count, needs).0.len() && 0 <= j < temp.len() ==> path_lt(
                #[trigger] temp[j],
                #[trigger] walk(stack, temp, count, needs).0[i],
            ),
    decreases temp.len(),
{
    let w = walk(stack, temp, count, needs).0;
    if temp.len() == 0 {
        assert forall|i: int| 0 <= i < w.len() implies exists|k: int|
            0 <= k < stack.len() && #[trigger] w[i] == stack[k] by {
            assert(w[i] == stack[i]);
        }
        return;
    }
    let t = temp[0];
    let s = stack[count];
    let rest = temp.drop_first();
    assert forall|i: int, j: int| #![trigger rest[i], rest[j]] 0 <= i < j < rest.len() implies path_lt(
        rest[i],
        rest[j],
    ) by {
        assert(rest[i] == temp[i + 1] && rest[j] == temp[j + 1]);
    }
    assert forall|j: int| 0 <= j < rest.len() implies path_child(dir, #[trigger] rest[j]) by {
        assert(rest[j] == temp[j + 1]);
    }
    lemma_path_order(t, s);
    if path_lt(t, s) {
        assert(entries_cover(dir, stack, rest)) by {
            assert forall|k: int| 0 <= k < stack.len() && path_inside(dir, #[trigger] stack[k]) implies exists|j: int|
                0 <= j < rest.len() && path_eq(#[trigger] rest[j], stack[k]) by {
                let j = choose|j: int| 0 <= j < temp.len() && path_eq(#[trigger] temp[j], stack[k]);
                if j == 0 {
                    if k < count {
                        lemma_path_lt_trans(t, s, stack[k]);
                    }
                    lemma_path_order(t, stack[k]);
                }
                assert(rest[j - 1] == temp[j]);
            }
        }
        lemma_walk_in_order(dir, stack, rest, count, needs);
        assert forall|i: int, j: int| 0 <= i < w.len() && 0 <= j < temp.len() implies path_lt(
            #[trigger] temp[j],
            #[trigger] w[i],
        ) by {
            if j > 0 {
                assert(temp[j] == rest[j - 1]);
            } else {
                let k = choose|k: int| 0 <= k < stack.len() && #[trigger] w[i] == stack[k];
                if k < count {
                    lemma_path_lt_trans(t, s, stack[k]);
                }
            }
        }
    } else if path_eq(t, s) {
        if count == 0 {
            assert(w.len() == 0);
        } else {
            let st = stack.remove(count);
            assert forall|i: int, j: int| #![trigger st[i], st[j]] 0 <= i < j < st.len() implies path_lt(
                st[j],
                st[i],
            ) by {
                assert(st[i] == stack[i] && st[j] == stack[j]);
            }
            assert forall|k: int| 0 <= k < st.len() implies path_lt(dir, #[trigger] st[k]) by {
                assert(st[k] == stack[k]);
            }
            assert(entries_cover(dir, st, rest)) by {
                assert forall|k: int| 0 <= k < st.len() && path_inside(dir, #[trigger] st[k]) implies exists|j: int|
                    0 <= j < rest.len() && path_eq(#[trigger] rest[j], st[k]) by {
                    assert(st[k] == stack[k]);
                    let j = choose|j: int| 0 <= j < temp.len() && path_eq(#[trigger] temp[j], stack[k]);
                    if j == 0 {
                        assert(path_lt(s, stack[k]));
                        lemma_path_order(s, stack[k]);
                    }
                    assert(rest[j - 1] == temp[j]);
                }
            }
            lemma_walk_in_order(dir, st, rest, count - 1, needs);
            assert forall|i: int| 0 <= i < w.len() implies exists|k: int|
                0 <= k < stack.len() && #[trigger] w[i] == stack[k] by {
                let k = choose|k: int| 0 <= k < st.len() && #[trigger] w[i] == st[k];
                assert(st[k] == stack[k]);
            }
            assert forall|i: int, j: int| 0 <= i < w.len() && 0 <= j < temp.len() implies path_lt(
                #[trigger] temp[j],
                #[trigger] w[i],
            ) by {
                if j > 0 {
                    assert(temp[j] == rest[j - 1]);
                } else {
                    let k = choose|k: int| 0 <= k < st.len() && #[trigger] w[i] == st[k];
                    assert(st[k] == stack[k]);
                    assert(path_lt(s, stack[k]));
                    assert(parts_of(t) == parts_of(s));
                }
            }
        }
    } else {
        lemma_child_order(dir, t, s);
        if path_inside(dir, s) {
            let j = choose|j: int| 0 <= j < temp.len() && path_eq(#[trigger] temp[j], s);
            if j > 0 {
                assert(path_lt(temp[0], temp[j]));
                assert(parts_of(temp[j]) == parts_of(s));
            }
        }
        assert(false);
    }
}

/// When the files still to look at are in order (from the last, no two
/// equal) and all come after the directory just read, and its entries (no
/// two equal) include every one of those files inside it, adding the
/// entries keeps the files in order and all after the directory, and never
/// needs sorting: the next file taken is always the first of those left.
pub proof fn lemma_dir_added_in_order(
    dir: Seq<char>,
    stack: Seq<Seq<char>>,
    t: Seq<Seq<char>>,
    f: Seq<Seq<char>>,
)
    requires
        dir_added(stack, t, f),
        strictly_desc(stack),
        forall|k: int| 0 <= k < stack.len() ==> path_lt(dir, #[trigger] stack[k]),
        sorted_asc(t),
        forall|i: int, j: int| #![trigger t[i], t[j]] 0 <= i < j < t.len() ==> !path_eq(t[i], t[j]),
        forall|j: int| 0 <= j < t.len() ==> path_child(dir, #[trigger] t[j]),
        entries_cover(dir, stack, t),
    ensures
        !after_walk(stack, t).2,
        strictly_desc(f),
        forall|k: int| 0 <= k < f.len() ==> path_lt(dir, #[trigger] f[k]),
{
    assert(strictly_asc(t)) by {
        assert forall|i: int, j: int| #![trigger t[i], t[j]] 0 <= i < j < t.len() implies path_lt(t[i], t[j]) by {
            lemma_path_order(t[i], t[j]);
        }
    }
    let r = t.reverse();
    assert forall|a: int, b: int| #![trigger r[a], r[b]] 0 <= a < b < r.len() implies path_lt(r[b], r[a]) by {
        assert(r[a] == t[t.len() - 1 - a] && r[b] == t[t.len() - 1 - b]);
    }
    assert forall|a: int| 0 <= a < r.len() implies path_lt(dir, #[trigger] r[a]) by {
        assert(r[a] == t[t.len() - 1 - a]);
        lemma_child_order(dir, t[t.len() - 1 - a], dir);
    }
    if t.len() == 0 {
    } else if stack.len() == 0 {
        assert(f =~= r);
    } else {
        lemma_walk_in_order(dir, stack, t, stack.len() - 1, false);
        let w = walk(stack, t, stack.len() - 1, false).0;
        assert(f == w + r);
        assert forall|i: int, j: int| #![trigger f[i], f[j]] 0 <= i < j < f.len() implies path_lt(f[j], f[i]) by {
            if j < w.len() {
                assert(f[i] == w[i] && f[j] == w[j]);
            } else if i >= w.len() {
                assert(f[i] == r[i - w.len()] && f[j] == r[j - w.len()]);
            } else {
                assert(f[i] == w[i]);
                assert(f[j] == r[j - w.len()]);
                assert(r[j - w.len()] == t[t.len() - 1 - (j - w.len())]);
            }
        }
        assert forall|k: int| 0 <= k < f.len() implies path_lt(dir, #[trigger] f[k]) by {
            if k < w.len() {
                assert(f[k] == w[k]);
                let m = choose|m: int| 0 <= m < stack.len() && #[trigger] w[k] == stack[m];
            } else {
                assert(f[k] == r[k - w.len()]);
            }
        }
    }
}

/// One step of the search, over paths: the next file or directory `p` is
/// taken from the files still to look at `s` (`pop`), its entries `t` (none
/// for a file; sorted from the first, no two equal, each in `p`, and among
/// them every file still to look at that is inside `p`) are added
/// (`add_entry`, `finish_dir`), and `f` is what is left to look at.
pub open spec fn crawl_step(s: Seq<Seq<char>>, p: Seq<char>, t: Seq<Seq<char>>, f: Seq<Seq<char>>) -> bool {
    &&& s.len() > 0
    &&& p == s.last()
    &&& sorted_asc(t)
    &&& forall|i: int, j: int| #![trigger t[i], t[j]] 0 <= i < j < t.len() ==> !path_eq(t[i], t[j])
    &&& forall|j: int| 0 <= j < t.len() ==> path_child(p, #[trigger] t[j])
    &&& entries_cover(p, s.drop_last(), t)
    &&& dir_added(s.drop_last(), t, f)
}

proof fn lemma_crawl_prefix(
    stacks: Seq<Seq<Seq<char>>>,
    popped: Seq<Seq<char>>,
    entries: Seq<Seq<Seq<char>>>,
    n: int,
)
    requires
        0 <= n <= popped.len(),
        stacks.len() == popped.len() + 1,
        entries.len() == popped.len(),
        strictly_desc(stacks[0]),
        forall|i: int|
            0 <= i < popped.len() ==> crawl_step(
                #[trigger] stacks[i],
                popped[i],
                entries[i],
                stacks[i + 1],
            ),
    ensures
        strictly_desc(stacks[n]),
        n > 0 ==> forall|k: int| 0 <= k < stacks[n].len() ==> path_lt(popped[n - 1], #[trigger] stacks[n][k]),
        strictly_asc(popped.take(n)),
    decreases n,
{
    if n > 0 {
        let m = n - 1;
        lemma_crawl_prefix(stacks, popped, entries, m);
        let s = stacks[m];
        let p = popped[m];
        assert(crawl_step(stacks[m], popped[m], entries[m], stacks[m + 1]));
        let rest = s.drop_last();
        assert(strictly_desc(rest)) by {
            assert forall|i: int, j: int| #![trigger rest[i], rest[j]] 0 <= i < j < rest.len() implies path_lt(rest[j], rest[i]) by {
                assert(rest[i] == s[i] && rest[j] == s[j]);
            }
        }
        assert forall|k: int| 0 <= k < rest.len() implies path_lt(p, #[trigger] rest[k]) by {
            assert(rest[k] == s[k]);
            assert(p == s[s.len() - 1]);
        }
        lemma_dir_added_in_order(p, rest, entries[m], stacks[n]);
        let pre = popped.take(n);
        assert forall|i: int, j: int| #![trigger pre[i], pre[j]] 0 <= i < j < pre.len() implies path_lt(pre[i], pre[j]) by {
            assert(pre[i] == popped[i] && pre[j] == popped[j]);
            if j < m {
                assert(popped.take(m)[i] == popped[i] && popped.take(m)[j] == popped[j]);
            } else {
                if m > 0 {
                    let q = popped[m - 1];
                    assert(path_lt(q, s[s.len() - 1]));
                    if i < m - 1 {
                        assert(popped.take(m)[i] == popped[i] && popped.take(m)[m - 1] == q);
                        lemma_path_lt_trans(popped[i], q, p);
                    }
                }
            }
        }
    }
}

/// The search takes the files and directories strictly in order, each after
/// the one before, when it starts from paths in order (from the last, no two
/// equal) and each step is a `crawl_step`: `popped[i]` is taken from
/// `stacks[i]`, its entries are `entries[i]`, and `stacks[i + 1]` is what is
/// left to look at. The files still to look at stay in order throughout.
pub proof fn lemma_crawl_in_order(
    stacks: Seq<Seq<Seq<char>>>,
    popped: Seq<Seq<char>>,
    entries: Seq<Seq<Seq<char>>>,
)
    requires
        stacks.len() == popped.len() + 1,
        entries.len() == popped.len(),
        strictly_desc(stacks[0]),
        forall|i: int|
            0 <= i < popped.len() ==> crawl_step(
                #[trigger] stacks[i],
                popped[i],
                entries[i],
                stacks[i + 1],
            ),
    ensures
        strictly_asc(popped),
        forall|i: int| 0 <= i < stacks.len() ==> strictly_desc(#[trigger] stacks[i]),
{
    lemma_crawl_prefix(stacks, popped, entries, popped.len() as int);
    assert(popped.take(popped.len() as int) =~= popped);
    assert forall|i: int| 0 <= i < stacks.len() implies strictly_desc(#[trigger] stacks[i]) by {
        lemma_crawl_prefix(stacks, popped, entries, i);
    }
}

/// The search for the files to back up: the files and directories still to
/// look at (the next at the end), the entries of the directory being read,
/// the patterns of paths left out, and whether paths are kept relative.
pub struct FileCrawler {
    pub stack: Vec<FileInfo>,
    pub temp: Vec<FileInfo>,
    pub regex: RegexSet,
    pub local: bool,
}

/// A path as the search uses it: cleaned when paths are kept relative, else
/// made absolute from the directory `cwd`.
pub open spec fn prepared(path: Seq<char>, local: bool, cwd: Seq<char>) -> Seq<char> {
    if local {
        spec_clean_path(path)
    } else {
        spec_absolutize_from(path, cwd)
    }
}

/// Whether a path (found looking from an included directory, or asked about)
/// is backed up: a path the search starts from is; a path that a pattern
/// matches is not; else as its directory is (when that is given), or as the
/// directory it is in (looked up the same way), and never the current or an
/// empty path. A relative path is compared with the starting paths after
/// being made absolute from `cwd` when paths are absolute.
pub open spec fn spec_check_path(
    stack: Seq<Seq<char>>,
    patterns: Seq<Seq<char>>,
    local: bool,
    cwd: Option<Seq<char>>,
    path: Seq<char>,
    parent_included: Option<bool>,
) -> bool
    decreases path.len(),
{
    let p = if !local && !is_absolute(path) {
        match cwd {
            Some(c) => spec_absolutize_from(path, c),
            None => path,
        }
    } else {
        path
    };
    if exists|i: int| 0 <= i < stack.len() && path_eq(p, #[trigger] stack[i]) {
        true
    } else if spec_set_matches(patterns, path) {
        false
    } else {
        match parent_included {
            Some(b) => b,
            None => if path.len() == 0 || path == seq!['.'] {
                false
            } else {
                match spec_parent(path) {
                    Some(q) => if q.len() < path.len() {
                        spec_check_path(stack, patterns, local, cwd, q, None)
                    } else {
                        false
                    },
                    None => false,
                }
            },
        }
    }
}

/// The path a path is compared with the starting paths as (see `spec_check_path`).
pub open spec fn compared_path(local: bool, cwd: Option<Seq<char>>, path: Seq<char>) -> Seq<char> {
    if !local && !is_absolute(path) {
        match cwd {
            Some(c) => spec_absolutize_from(path, c),
            None => path,
        }
    } else {
        path
    }
}

/// A path that a pattern leaves out is not backed up, whatever its directory
/// is, unless the search starts from it.
pub proof fn lemma_left_out_not_backed_up(
    stack: Seq<Seq<char>>,
    patterns: Seq<Seq<char>>,
    local: bool,
    cwd: Option<Seq<char>>,
    path: Seq<char>,
    parent_included: Option<bool>,
)
    requires
        spec_set_matches(patterns, path),
        !exists|i: int| 0 <= i < stack.len() && path_eq(compared_path(local, cwd, path), #[trigger] stack[i]),
    ensures
        !spec_check_path(stack, patterns, local, cwd, path, parent_included),
{
}

/// A path the search starts from is backed up, whatever the patterns say.
pub proof fn lemma_start_backed_up(
    stack: Seq<Seq<char>>,
    patterns: Seq<Seq<char>>,
    local: bool,
    cwd: Option<Seq<char>>,
    path: Seq<char>,
    parent_included: Option<bool>,
    i: int,
)
    requires
        0 <= i < stack.len(),
        path_eq(compared_path(local, cwd, path), stack[i]),
    ensures
        spec_check_path(stack, patterns, local, cwd, path, parent_included),
{
}

/// The exclusion patterns of paths.
pub open spec fn exclusion_patterns(paths: Seq<Seq<char>>) -> Seq<Seq<char>> {
    paths.map_values(|p: Seq<char>| exclusion_pattern(p))
}

/// The paths as the search uses them.
pub open spec fn prepared_all(paths: Seq<Seq<char>>, local: bool, cwd: Seq<char>) -> Seq<Seq<char>> {
    paths.map_values(|p: Seq<char>| prepared(p, local, cwd))
}

/// Prepares paths: cleaned when kept relative, else made absolute from `cwd`.
fn prepare_paths(paths: &Vec<String>, local: bool, cwd: &str) -> (r: Vec<String>)
    requires
        !local && paths@.len() > 0 ==> usable_cwd(cwd@),
    ensures
        texts(r@) == prepared_all(texts(paths@), local, cwd@),
{
    let mut out: Vec<String> = Vec::new();
    let mut i: usize = 0;
    while i < paths.len()
        invariant
            i <= paths@.len(),
            !local && paths@.len() > 0 ==> usable_cwd(cwd@),
            texts(out@) == prepared_all(texts(paths@.take(i as int)), local, cwd@),
        decreases paths.len() - i,
    {
        let p = if local {
            clean_path(paths[i].as_str())
        } else {
            match absolutize_from(paths[i].as_str(), cwd) {
                Ok(p) => p,
                Err(_) => copy_string(paths[i].as_str()),
            }
        };
        let ghost prev = out@;
        out.push(p);
        assert(paths@.take(i + 1) =~= paths@.take(i as int).push(paths@[i as int]));
        assert(texts(out@) =~= texts(prev).push(prepared(paths@[i as int]@, local, cwd@)));
        assert(prepared_all(texts(paths@.take(i + 1)), local, cwd@) =~= prepared_all(
            texts(paths@.take(i as int)),
            local,
            cwd@,
        ).push(prepared(paths@[i as int]@, local, cwd@)));
        i = i + 1;
    }
    assert(paths@.take(paths@.len() as int) =~= paths@);
    out
}

/// The filters that are not empty followed by the exclusion patterns of the
/// excluded paths: the patterns of paths left out.
fn left_out_patterns(filter: &Vec<String>, excluded: &Vec<String>) -> (r: Vec<String>)
    ensures
        texts(r@) == non_empty(texts(filter@)) + exclusion_patterns(texts(excluded@)),
        forall|j: int|
            0 <= j < excluded@.len() ==> spec_pattern_matches(
                exclusion_pattern(#[trigger] excluded@[j]@),
                excluded@[j]@,
            ),
{
    let mut out: Vec<String> = Vec::new();
    let mut i: usize = 0;
    assert(texts(filter@.take(0)) =~= Seq::<Seq<char>>::empty());
    while i < filter.len()
        invariant
            i <= filter@.len(),
            texts(out@) == non_empty(texts(filter@.take(i as int))),
        decreases filter.len() - i,
    {
        let ghost prev = out@;
        assert(texts(filter@.take(i + 1)).drop_last() =~= texts(filter@.take(i as int)));
        assert(texts(filter@.take(i + 1)).last() == filter@[i as int]@);
        if !filter[i].as_str().is_empty() {
            out.push(copy_string(filter[i].as_str()));
            assert(texts(out@) =~= texts(prev).push(filter@[i as int]@));
        }
        i = i + 1;
    }
    assert(filter@.take(filter@.len() as int) =~= filter@);
    let ghost base = texts(out@);
    let mut j: usize = 0;
    while j < excluded.len()
        invariant
            j <= excluded@.len(),
            texts(out@) == base + exclusion_patterns(texts(excluded@.take(j as int))),
            forall|k: int|
                0 <= k < j ==> spec_pattern_matches(
                    exclusion_pattern(#[trigger] excluded@[k]@),
                    excluded@[k]@,
                ),
        decreases excluded.len() - j,
    {
        let e = regex_escape(excluded[j].as_str());
        let a = concat("^", e.as_str());
        let pat = concat(a.as_str(), "$");
        proof {
            reveal_strlit("^");
            reveal_strlit("$");
        }
        let ghost prev = out@;
        out.push(pat);
        assert(excluded@.take(j + 1) =~= excluded@.take(j as int).push(excluded@[j as int]));
        assert(pat@ =~= exclusion_pattern(excluded@[j as int]@));
        assert(texts(out@) =~= texts(prev).push(pat@));
        assert(exclusion_patterns(texts(excluded@.take(j + 1))) =~= exclusion_patterns(
            texts(excluded@.take(j as int)),
        ).push(exclusion_pattern(excluded@[j as int]@)));
        j = j + 1;
    }
    assert(excluded@.take(excluded@.len() as int) =~= excluded@);
    out
}

/// The files to start from, as records.
fn as_files(paths: Vec<String>) -> (r: Vec<FileInfo>)
    ensures
        file_paths(r@) == texts(paths@),
{
    let ghost orig = paths@;
    let mut rest = paths;
    let mut rev: Vec<FileInfo> = Vec::new();
    while rest.len() > 0
        invariant
            texts(orig) == texts(rest@) + file_paths(rev@).reverse(),
        decreases rest.len(),
    {
        let ghost before = rest@;
        let x = rest.pop().unwrap();
        assert(texts(before) =~= texts(rest@).push(x@));
        let ghost prev = rev@;
        rev.push(FileInfo::from_string(x));
        assert(file_paths(rev@).reverse() =~= seq![x@] + file_paths(prev).reverse());
    }
    let mut out: Vec<FileInfo> = Vec::new();
    while rev.len() > 0
        invariant
            texts(orig) == file_paths(out@) + file_paths(rev@).reverse(),
        decreases rev.len(),
    {
        let ghost before = rev@;
        let x = rev.pop().unwrap();
        assert(file_paths(before).reverse() =~= seq![x@] + file_paths(rev@).reverse()) by {
            assert(file_paths(before) =~= file_paths(rev@).push(x@));
        }
        let ghost prev = out@;
        out.push(x);
        assert(file_paths(out@) =~= file_paths(prev).push(x@));
    }
    assert(file_paths(out@) =~= texts(orig));
    out
}

impl FileCrawler {
    /// A search from the included paths, leaving out the excluded paths and
    /// the paths that a non-empty filter matches; paths are cleaned when kept
    /// relative (`local`), else made absolute from the current directory
    /// `cwd` (whose error is the search's when it is needed). The paths to
    /// start from are kept sorted from the last.
    pub fn new(
        includes: &Vec<String>,
        exclude: &Vec<String>,
        filter: &Vec<String>,
        local: bool,
        cwd: std::io::Result<String>,
    ) -> (r: Result<Self, std::io::Error>)
        requires
            !local ==> (cwd matches Ok(c) ==> usable_cwd(c@)),
        ensures
            !local && (includes@.len() > 0 || exclude@.len() > 0) && cwd is Err ==> r == Err::<
                Self,
                std::io::Error,
            >(cwd->Err_0),
            (local || cwd is Ok || (includes@.len() == 0 && exclude@.len() == 0)) ==> ({
                let c = match cwd {
                    Ok(c) => c@,
                    Err(_) => Seq::<char>::empty(),
                };
                let patterns = non_empty(texts(filter@)) + exclusion_patterns(
                    prepared_all(texts(exclude@), local, c),
                );
                &&& r is Ok <==> spec_patterns_compile(patterns)
                &&& r matches Err(e) ==> spec_io_error_kind(e) == "InvalidInput"@
                &&& r matches Ok(fc) ==> {
                    &&& file_paths(fc.stack@).to_multiset() == prepared_all(
                        texts(includes@),
                        local,
                        c,
                    ).to_multiset()
                    &&& sorted_desc(file_paths(fc.stack@))
                    &&& regex_set_patterns(fc.regex) == patterns
                    &&& forall|j: int|
                        0 <= j < exclude@.len() ==> spec_set_matches(
                            patterns,
                            prepared(#[trigger] exclude@[j]@, local, c),
                        )
                    &&& fc.temp@.len() == 0
                    &&& fc.local == local
                }
            }),
    {
        let c: String = match cwd {
            Ok(c) => c,
            Err(e) => {
                if !local && (includes.len() > 0 || exclude.len() > 0) {
                    return Err(e);
                }
                String::new()
            },
        };
        let roots = prepare_paths(includes, local, c.as_str());
        let excluded = prepare_paths(exclude, local, c.as_str());
        let patterns = left_out_patterns(filter, &excluded);
        proof {
            let pv = texts(patterns@);
            let nf = non_empty(texts(filter@));
            let ex = prepared_all(texts(exclude@), local, c@);
            assert forall|j: int| 0 <= j < exclude@.len() implies spec_set_matches(
                pv,
                prepared(#[trigger] exclude@[j]@, local, c@),
            ) by {
                assert(texts(excluded@)[j] == ex[j]);
                assert(excluded@[j]@ == ex[j]);
                assert(spec_pattern_matches(exclusion_pattern(excluded@[j]@), excluded@[j]@));
                assert(pv[nf.len() + j] == exclusion_patterns(ex)[j]);
                assert(spec_pattern_matches(pv[nf.len() + j], prepared(exclude@[j]@, local, c@)));
            }
        }
        let stack = sort_desc(as_files(roots));
        match regex_set_new(&patterns) {
            Ok(regex) => Ok(FileCrawler { stack, temp: Vec::new(), regex, local }),
            Err(e) => Err(invalid_input(e)),
        }
    }

    /// Whether a path is backed up (see `spec_check_path`); `cwd` is the
    /// current directory, when it is known.
    pub fn check_path(&self, path: &str, parent_included: Option<bool>, cwd: &Option<String>) -> (r: bool)
        requires
            !self.local ==> (cwd matches Some(c) ==> usable_cwd(c@)),
        ensures
            r == spec_check_path(
                file_paths(self.stack@),
                regex_set_patterns(self.regex),
                self.local,
                match cwd {
                    Some(c) => Some(c@),
                    None => None,
                },
                path@,
                parent_included,
            ),
        decreases path@.len(),
    {
        let v = chars_of(path);
        let absolute = v.len() > 0 && v[0] == '/';
        let p: String = if !self.local && !absolute {
            match cwd {
                Some(c) => match absolutize_from(path, c.as_str()) {
                    Ok(a) => a,
                    Err(_) => copy_string(path),
                },
                None => copy_string(path),
            }
        } else {
            copy_string(path)
        };
        let ghost sp = file_paths(self.stack@);
        let ghost c_view: Option<Seq<char>> = match cwd {
            Some(c) => Some(c@),
            None => None,
        };
        let ghost want = if !self.local && !is_absolute(path@) {
            match c_view {
                Some(c) => spec_absolutize_from(path@, c),
                None => path@,
            }
        } else {
            path@
        };
        assert(absolute == is_absolute(path@));
        assert(p@ == want);
        let mut i: usize = 0;
        while i < self.stack.len()
            invariant
                i <= self.stack@.len(),
                sp == file_paths(self.stack@),
                p@ == want,
                want == (if !self.local && !is_absolute(path@) {
                    match c_view {
                        Some(c) => spec_absolutize_from(path@, c),
                        None => path@,
                    }
                } else {
                    path@
                }),
                c_view == (match cwd {
                    Some(c) => Some(c@),
                    None => None::<Seq<char>>,
                }),
                forall|k: int| 0 <= k < i ==> !path_eq(p@, #[trigger] sp[k]),
            decreases self.stack.len() - i,
        {
            if compare_paths(p.as_str(), self.stack[i].get_string().as_str()) == PathOrder::Equal {
                assert(path_eq(want, sp[i as int]));
                return true;
            }
            i = i + 1;
        }
        assert(!exists|k: int| 0 <= k < sp.len() && path_eq(want, #[trigger] sp[k]));
        if regex_set_is_match(&self.regex, path) {
            return false;
        }
        match parent_included {
            Some(b) => b,
            None => {
                proof {
                    reveal_strlit(".");
                }
                assert("."@ =~= seq!['.']);
                if path.is_empty() || str_equal(path, ".") {
                    return false;
                }
                match parent(path) {
                    Some(q) => self.check_path(q.as_str(), None, cwd),
                    None => false,
                }
            },
        }
    }

    /// Takes the next file or directory to look at.
    pub fn pop(&mut self) -> (r: Option<FileInfo>)
        ensures
            old(self).stack@.len() == 0 ==> r is None && final(self).stack@ == old(self).stack@,
            old(self).stack@.len() > 0 ==> r == Some(old(self).stack@.last()) && final(self).stack@
                == old(self).stack@.drop_last(),
            final(self).temp == old(self).temp,
            final(self).regex == old(self).regex,
            final(self).local == old(self).local,
    {
        self.stack.pop()
    }

    /// Takes an entry of the directory being read (by its path): the path is
    /// cleaned when paths are kept relative and it is relative, and kept
    /// unless a pattern leaves it out.
    pub fn add_entry(&mut self, path: String)
        ensures
            ({
                let q = if old(self).local && !is_absolute(path@) {
                    spec_clean_path(path@)
                } else {
                    path@
                };
                &&& spec_set_matches(regex_set_patterns(old(self).regex), q) ==> final(self).temp
                    == old(self).temp
                &&& !spec_set_matches(regex_set_patterns(old(self).regex), q) ==> file_paths(
                    final(self).temp@,
                ) == file_paths(old(self).temp@).push(q)
            }),
            final(self).stack == old(self).stack,
            final(self).regex == old(self).regex,
            final(self).local == old(self).local,
    {
        let v = chars_of(path.as_str());
        let absolute = v.len() > 0 && v[0] == '/';
        let q = if self.local && !absolute {
            clean_path(path.as_str())
        } else {
            path
        };
        if !regex_set_is_match(&self.regex, q.as_str()) {
            let ghost prev = self.temp@;
            self.temp.push(FileInfo::from_string(q));
            assert(file_paths(self.temp@) =~= file_paths(prev).push(q@));
        }
    }

    /// Adds the entries of the directory just read to the files still to look
    /// at. The entries are sorted from the first; walking them against the
    /// files still to look at, from the next one down, drops each file that an
    /// entry equals and finds from where the files need sorting again; the
    /// entries are then put on top, the first one next, and that top part is
    /// sorted again when needed.
    pub fn finish_dir(&mut self)
        ensures
            final(self).temp@.len() == 0,
            final(self).regex == old(self).regex,
            final(self).local == old(self).local,
            exists|t: Seq<Seq<char>>|
                #![trigger after_walk(file_paths(old(self).stack@), t)]
                {
                    &&& sorted_asc(t)
                    &&& t.to_multiset() == file_paths(old(self).temp@).to_multiset()
                    &&& dir_added(file_paths(old(self).stack@), t, file_paths(final(self).stack@))
                },
    {
        let mut taken: Vec<FileInfo> = Vec::new();
        std::mem::swap(&mut taken, &mut self.temp);
        let temp = sort_asc(taken);
        let ghost t = file_paths(temp@);
        let ghost s0 = file_paths(self.stack@);
        if temp.len() == 0 {
            assert(t.to_multiset().len() == 0);
            assert(after_walk(s0, t) == (s0, s0.len() as int, false));
            return;
        }
        let mut count: usize = self.stack.len();
        let mut needs: bool = false;
        if count > 0 {
            count = count - 1;
            let mut k: usize = 0;
            let mut stop: bool = false;
            assert(t.skip(0) =~= t);
            while k < temp.len() && !stop
                invariant
                    k <= temp@.len(),
                    t == file_paths(temp@),
                    s0.len() > 0,
                    !stop ==> count < self.stack@.len(),
                    stop ==> count == 0 && count <= self.stack@.len(),
                    self.temp@.len() == 0,
                    self.regex == old(self).regex,
                    self.local == old(self).local,
                    walk(s0, t, s0.len() - 1, false) == (if stop {
                        (file_paths(self.stack@), count as int, needs)
                    } else {
                        walk(file_paths(self.stack@), t.skip(k as int), count as int, needs)
                    }),
                decreases temp.len() - k,
            {
                let ghost sk = file_paths(self.stack@);
                assert(t.skip(k as int)[0] == t[k as int]);
                assert(t.skip(k as int).drop_first() =~= t.skip(k + 1));
                assert(sk[count as int] == self.stack@[count as int]@);
                let ord = compare_paths(
                    temp[k].get_string().as_str(),
                    self.stack[count].get_string().as_str(),
                );
                match ord {
                    PathOrder::Less => {},
                    PathOrder::Equal => {
                        let ghost before = self.stack@;
                        self.stack.remove(count);
                        assert(file_paths(self.stack@) =~= file_paths(before).remove(count as int));
                        if count == 0 {
                            stop = true;
                        } else {
                            count = count - 1;
                        }
                    },
                    PathOrder::Greater => {
                        needs = true;
                        if count == 0 {
                            stop = true;
                        } else {
                            count = count - 1;
                        }
                    },
                }
                k = k + 1;
            }
            if !stop {
                assert(t.skip(k as int).len() == 0);
            }
            proof {
                lemma_walk_range(s0, t, s0.len() - 1, false);
            }
        } else {
            assert(s0.len() == 0);
        }
        let ghost w0 = file_paths(self.stack@);
        let ghost c0 = count as int;
        assert(after_walk(s0, t) == (w0 + t.reverse(), c0, needs));
        let mut temp = temp;
        while temp.len() > 0
            invariant
                file_paths(self.stack@) + file_paths(temp@).reverse() == w0 + t.reverse(),
                self.temp@.len() == 0,
                self.regex == old(self).regex,
                self.local == old(self).local,
            decreases temp.len(),
        {
            let ghost before_t = temp@;
            let ghost before_s = self.stack@;
            let x = temp.pop().unwrap();
            self.stack.push(x);
            assert(file_paths(before_t) =~= file_paths(temp@).push(x@));
            assert(file_paths(self.stack@) =~= file_paths(before_s).push(x@));
            assert(file_paths(before_t).reverse() =~= seq![x@] + file_paths(temp@).reverse());
            assert(file_paths(self.stack@) + file_paths(temp@).reverse() =~= file_paths(before_s)
                + file_paths(before_t).reverse());
        }
        assert(file_paths(temp@).reverse() =~= Seq::<Seq<char>>::empty());
        assert(file_paths(self.stack@) =~= w0 + t.reverse());
        if needs {
            let ghost w = file_paths(self.stack@);
            let suffix = self.stack.split_off(count);
            let ghost pre = self.stack@;
            assert(file_paths(suffix@) =~= w.skip(c0));
            assert(file_paths(pre) =~= w.take(c0));
            let mut sorted = sort_desc(suffix);
            let ghost sv = sorted@;
            self.stack.append(&mut sorted);
            assert(file_paths(self.stack@) =~= file_paths(pre) + file_paths(sv));
            proof {
                let f = file_paths(self.stack@);
                assert(f.take(c0) =~= w.take(c0));
                assert(f.skip(c0) =~= file_paths(sv));
                assert(file_paths(sv).to_multiset().len() == file_paths(sv).len());
                assert(w.skip(c0).to_multiset().len() == w.skip(c0).len());
                assert(f.len() == w.len());
            }
        }
        assert(s0 == file_paths(old(self).stack@));
        assert(dir_added(s0, t, file_paths(self.stack@)));
        assert(after_walk(file_paths(old(self).stack@), t) == after_walk(s0, t));
    }
}

} // verus!
