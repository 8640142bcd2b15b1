//! Restoring files from a backup: which files are asked for, and which
//! archive entries are restored while the archive is read in order.
use regex::RegexSet;
use vstd::prelude::*;

use crate::backup::CONFIG_DEFAULT_NAME;
use crate::config::{texts, Config};
use crate::errors::{invalid_data, spec_io_error_kind, spec_io_error_text};
use crate::filters::{regex_set_is_match, regex_set_patterns, spec_set_matches};
use crate::lists::{flag_of, spec_entries, spec_included, split_lines, FileListString, FILE_LIST_V1};
use crate::merge::paths_of;
use crate::paths::{file_name, join, spec_file_name, spec_join};
use crate::sort::{lemma_map_multiset, sort_by_key, sorted_by_key};
use crate::text::{copy_string, str_equal, str_less, text_lt};
use crate::utils::{spec_strip_absolute, strip_absolute_from_path};

verus! {

broadcast use vstd::seq_lib::group_to_multiset_ensures;

/// Decides whether only the chosen backup is restored (not the backups it
/// builds on): always for a backup that is not incremental, else when asked,
/// in which case the config is marked as not incremental.
pub fn decide_only_this(config: &mut Config, only_this: bool) -> (r: bool)
    ensures
        r == (!old(config).incremental || only_this),
        final(config).incremental == (old(config).incremental && !only_this),
        final(config).includes == old(config).includes,
        final(config).exclude == old(config).exclude,
        final(config).regex == old(config).regex,
        final(config).output == old(config).output,
        final(config).quality == old(config).quality,
        final(config).time == old(config).time,
        final(config).origin == old(config).origin,
{
    if config.incremental {
        if only_this {
            config.incremental = false;
        }
        only_this
    } else {
        true
    }
}

/// The paths a restore can choose from: the included files of the chosen
/// backup only, or every file its list names.
pub open spec fn restore_candidates(version: u8, content: Seq<char>, only_this: bool) -> Seq<
    Seq<char>,
> {
    if only_this {
        spec_included(version, split_lines(content))
    } else {
        paths_of(spec_entries(version, content))
    }
}

/// The paths that some pattern matches, in order.
pub open spec fn matching(paths: Seq<Seq<char>>, patterns: Seq<Seq<char>>) -> Seq<Seq<char>>
    decreases paths.len(),
{
    if paths.len() == 0 {
        paths
    } else {
        let rest = matching(paths.drop_last(), patterns);
        if spec_set_matches(patterns, paths.last()) {
            rest.push(paths.last())
        } else {
            rest
        }
    }
}

/// The paths chosen from the list before the explicitly named files are added.
pub open spec fn chosen_from_list(
    version: u8,
    content: Seq<char>,
    filter: Option<Seq<Seq<char>>>,
    names: Seq<Seq<char>>,
    only_this: bool,
) -> Seq<Seq<char>> {
    match filter {
        Some(p) => matching(restore_candidates(version, content, only_this), p),
        None => if names.len() == 0 {
            restore_candidates(version, content, only_this)
        } else {
            Seq::<Seq<char>>::empty()
        },
    }
}

/// The list can be read as far as choosing from it needs.
pub open spec fn list_readable_for(list: FileListString, only_this: bool) -> bool {
    if only_this {
        list.included_readable()
    } else {
        list.entries_readable()
    }
}

/// The paths of a backup's list to restore.
fn candidates(list: &FileListString, only_this: bool) -> (r: Vec<String>)
    requires
        list_readable_for(*list, only_this),
    ensures
        texts(r@) == restore_candidates(list.version(), list.content(), only_this),
{
    if only_this {
        list.iter_included()
    } else {
        let entries = list.iter();
        let mut out: Vec<String> = Vec::new();
        let mut i: usize = 0;
        while i < entries.len()
            invariant
                i <= entries@.len(),
                crate::lists::pairs_view(entries@) == spec_entries(list.version(), list.content()),
                texts(out@) == paths_of(crate::lists::pairs_view(entries@.take(i as int))),
            decreases entries.len() - i,
        {
            let ghost prev = out@;
            out.push(copy_string(entries[i].1.as_str()));
            assert(entries@.take(i + 1) =~= entries@.take(i as int).push(entries@[i as int]));
            assert(texts(out@) =~= texts(prev).push(entries@[i as int].1@));
            assert(paths_of(crate::lists::pairs_view(entries@.take(i + 1))) =~= paths_of(
                crate::lists::pairs_view(entries@.take(i as int)),
            ).push(entries@[i as int].1@));
            i = i + 1;
        }
        assert(entries@.take(entries@.len() as int) =~= entries@);
        out
    }
}

/// The paths that some pattern of the set matches, in order.
fn keep_matching(paths: Vec<String>, set: &RegexSet) -> (r: Vec<String>)
    ensures
        texts(r@) == matching(texts(paths@), regex_set_patterns(*set)),
{
    let ghost pats = regex_set_patterns(*set);
    let mut out: Vec<String> = Vec::new();
    let mut i: usize = 0;
    while i < paths.len()
        invariant
            i <= paths@.len(),
            pats == regex_set_patterns(*set),
            texts(out@) == matching(texts(paths@.take(i as int)), pats),
        decreases paths.len() - i,
    {
        let ghost prev = out@;
        assert(texts(paths@.take(i + 1)).drop_last() =~= texts(paths@.take(i as int)));
        assert(texts(paths@.take(i + 1)).last() == paths@[i as int]@);
        if regex_set_is_match(set, paths[i].as_str()) {
            out.push(copy_string(paths[i].as_str()));
            assert(texts(out@) =~= texts(prev).push(paths@[i as int]@));
        }
        i = i + 1;
    }
    assert(paths@.take(paths@.len() as int) =~= paths@);
    out
}

/// The files to restore from a backup: those of its list that a filter
/// matches (when there is a filter), else all of them unless files are named;
/// named files are added and then everything is sorted.
pub fn restore_selection(
    list: &FileListString,
    filter: Option<&RegexSet>,
    names: Vec<String>,
    only_this: bool,
) -> (r: Vec<String>)
    requires
        (filter is Some || names@.len() == 0) ==> list_readable_for(*list, only_this),
    ensures
        ({
            let base = chosen_from_list(
                list.version(),
                list.content(),
                match filter {
                    Some(s) => Some(regex_set_patterns(*s)),
                    None => None,
                },
                texts(names@),
                only_this,
            );
            &&& names@.len() == 0 ==> texts(r@) == base
            &&& names@.len() > 0 ==> texts(r@).to_multiset() == (base + texts(
                names@,
            )).to_multiset() && sorted_by_key(r@)
        }),
{
    let mut chosen: Vec<String> = match filter {
        Some(set) => keep_matching(candidates(list, only_this), set),
        None => if names.len() == 0 {
            candidates(list, only_this)
        } else {
            Vec::new()
        },
    };
    if names.len() > 0 {
        let ghost base = chosen@;
        let mut more = names;
        let ghost named = more@;
        chosen.append(&mut more);
        let ghost joined = chosen@;
        assert(joined =~= base + named);
        let sorted = sort_by_key(chosen);
        proof {
            lemma_map_multiset(sorted@, joined, |s: String| s@);
            assert(texts(joined) =~= texts(base) + texts(named));
        }
        sorted
    } else {
        chosen
    }
}

/// The position of the first file asked for, from `pos` on, that does not
/// come before the archive entry `name` (the number of files when there is none).
pub open spec fn first_not_below(sel: Seq<Seq<char>>, pos: int, name: Seq<char>) -> int
    decreases sel.len() - pos,
{
    if pos < 0 || pos >= sel.len() {
        sel.len() as int
    } else if text_lt(sel[pos], name) {
        first_not_below(sel, pos + 1, name)
    } else {
        pos
    }
}

pub proof fn lemma_first_not_below_range(sel: Seq<Seq<char>>, pos: int, name: Seq<char>)
    requires
        0 <= pos <= sel.len(),
    ensures
        pos <= first_not_below(sel, pos, name) <= sel.len(),
        forall|k: int| pos <= k < first_not_below(sel, pos, name) ==> text_lt(#[trigger] sel[k], name),
        first_not_below(sel, pos, name) < sel.len() ==> !text_lt(
            sel[first_not_below(sel, pos, name)],
            name,
        ),
    decreases sel.len() - pos,
{
    if pos < sel.len() && text_lt(sel[pos], name) {
        lemma_first_not_below_range(sel, pos + 1, name);
    }
}

/// The walk through the entries of an archive while restoring the files asked for.
///
/// When the archive is sorted (its list is of the second format), the files
/// asked for are taken in order: an entry is restored when it is the next
/// file asked for, and files passed by are not in the archive. Otherwise the
/// files not yet found are looked up for every entry.
pub struct RestoreScan {
    pub selection: Vec<String>,
    pub pos: usize,
    pub unsorted: bool,
    pub recursive: bool,
    pub not_found: Vec<String>,
    pub done: bool,
}

/// What to do with one archive entry.
pub struct EntryDecision {
    /// Files asked for that are now known not to be in the archive, to report.
    pub missing: Vec<String>,
    /// Whether the entry is restored.
    pub restore: bool,
}

/// The scan's state is consistent.
pub open spec fn scan_ok(s: RestoreScan) -> bool {
    &&& s.pos <= s.selection@.len()
    &&& !s.unsorted && !s.done ==> s.pos < s.selection@.len()
}

impl RestoreScan {
    /// Starts restoring the files asked for: in an unsorted archive every
    /// file asked for is looked for, in sorted order; with none asked for,
    /// nothing is left to do.
    pub fn start(selection: Vec<String>, unsorted: bool, recursive: bool) -> (r: Self)
        ensures
            scan_ok(r),
            texts(r.selection@) == texts(selection@),
            r.pos == 0,
            r.unsorted == unsorted,
            r.recursive == recursive,
            r.done == (selection@.len() == 0),
            !unsorted ==> r.not_found@.len() == 0,
            unsorted ==> r.not_found@.to_multiset() == selection@.to_multiset() && sorted_by_key(
                r.not_found@,
            ),
    {
        let mut kept: Vec<String> = Vec::new();
        let mut i: usize = 0;
        while i < selection.len()
            invariant
                i <= selection@.len(),
                texts(kept@) == texts(selection@.take(i as int)),
            decreases selection.len() - i,
        {
            let ghost prev = kept@;
            kept.push(copy_string(selection[i].as_str()));
            assert(selection@.take(i + 1) =~= selection@.take(i as int).push(selection@[i as int]));
            assert(texts(kept@) =~= texts(prev).push(selection@[i as int]@));
            i = i + 1;
        }
        assert(selection@.take(selection@.len() as int) =~= selection@);
        let done = selection.len() == 0;
        let not_found = if unsorted {
            sort_by_key(selection)
        } else {
            Vec::new()
        };
        RestoreScan { selection: kept, pos: 0, unsorted, recursive, not_found, done }
    }

    /// Takes the next archive entry (by its path): says which files asked for
    /// are now known to be missing (to report, unless the restore goes on to
    /// older backups, which then look for them) and whether to restore the entry.
    pub fn on_entry(&mut self, name: &str) -> (r: EntryDecision)
        requires
            scan_ok(*old(self)),
            !old(self).done,
        ensures
            scan_ok(*final(self)),
            final(self).selection == old(self).selection,
            final(self).unsorted == old(self).unsorted,
            final(self).recursive == old(self).recursive,
            !old(self).unsorted ==> ({
                let sel = texts(old(self).selection@);
                let k = first_not_below(sel, old(self).pos as int, name@);
                let skipped = sel.subrange(old(self).pos as int, k);
                &&& old(self).recursive ==> texts(final(self).not_found@) == texts(
                    old(self).not_found@,
                ) + skipped && r.missing@.len() == 0
                &&& !old(self).recursive ==> texts(r.missing@) == skipped && final(self).not_found
                    == old(self).not_found
                &&& k == sel.len() ==> !r.restore && final(self).done
                &&& k < sel.len() ==> r.restore == (sel[k] == name@) && final(self).pos == k + (
                if r.restore {
                    1int
                } else {
                    0int
                }) && final(self).done == (final(self).pos == sel.len())
            }),
            old(self).unsorted ==> ({
                &&& r.missing@.len() == 0
                &&& r.restore == texts(old(self).not_found@).contains(name@)
                &&& r.restore ==> exists|i: int|
                    0 <= i < old(self).not_found@.len() && (#[trigger] old(
                        self,
                    ).not_found@[i])@ == name@ && final(self).not_found@ == old(
                        self,
                    ).not_found@.remove(i)
                &&& !r.restore ==> final(self).not_found == old(self).not_found
                &&& final(self).done == (r.restore && final(self).not_found@.len() == 0)
                &&& final(self).pos == old(self).pos
            }),
    {
        if self.unsorted {
            let mut i: usize = 0;
            while i < self.not_found.len()
                invariant
                    i <= self.not_found@.len(),
                    forall|k: int| 0 <= k < i ==> (#[trigger] self.not_found@[k])@ != name@,
                    self.selection == old(self).selection,
                    self.not_found == old(self).not_found,
                    self.pos == old(self).pos,
                    self.unsorted == old(self).unsorted,
                    self.recursive == old(self).recursive,
                    self.done == old(self).done,
                    scan_ok(*old(self)),
                    self.unsorted,
                decreases self.not_found.len() - i,
            {
                if str_equal(self.not_found[i].as_str(), name) {
                    self.not_found.remove(i);
                    self.done = self.not_found.len() == 0;
                    assert(texts(old(self).not_found@)[i as int] == name@);
                    return EntryDecision { missing: Vec::new(), restore: true };
                }
                i = i + 1;
            }
            assert(!texts(self.not_found@).contains(name@)) by {
                if texts(self.not_found@).contains(name@) {
                    let k = choose|k: int|
                        0 <= k < texts(self.not_found@).len() && texts(self.not_found@)[k]
                            == name@;
                    assert(self.not_found@[k]@ == name@);
                }
            }
            return EntryDecision { missing: Vec::new(), restore: false };
        }
        let ghost sel = texts(self.selection@);
        proof {
            lemma_first_not_below_range(sel, self.pos as int, name@);
        }
        let ghost k = first_not_below(sel, self.pos as int, name@);
        let ghost start = self.pos as int;
        let mut missing: Vec<String> = Vec::new();
        let ghost nf0 = texts(self.not_found@);
        while self.pos < self.selection.len() && str_less(self.selection[self.pos].as_str(), name)
            invariant
                sel == texts(self.selection@),
                start <= self.pos <= k,
                k == first_not_below(sel, start, name@),
                start <= k <= sel.len(),
                forall|j: int| start <= j < k ==> text_lt(#[trigger] sel[j], name@),
                k < sel.len() ==> !text_lt(sel[k], name@),
                self.recursive ==> texts(self.not_found@) == nf0 + sel.subrange(
                    start,
                    self.pos as int,
                ) && missing@.len() == 0,
                !self.recursive ==> texts(missing@) == sel.subrange(start, self.pos as int)
                    && texts(self.not_found@) == nf0,
                !self.recursive ==> self.not_found == old(self).not_found,
                self.selection == old(self).selection,
                self.unsorted == old(self).unsorted,
                self.recursive == old(self).recursive,
                nf0 == texts(old(self).not_found@),
                start == old(self).pos,
                !self.done,
            decreases self.selection.len() - self.pos,
        {
            let item = copy_string(self.selection[self.pos].as_str());
            assert(sel[self.pos as int] == item@);
            assert(sel.subrange(start, self.pos + 1) =~= sel.subrange(start, self.pos as int).push(
                item@,
            ));
            if self.recursive {
                let ghost prev = self.not_found@;
                self.not_found.push(item);
                assert(texts(self.not_found@) =~= texts(prev).push(item@));
            } else {
                let ghost prev = missing@;
                missing.push(item);
                assert(texts(missing@) =~= texts(prev).push(item@));
            }
            self.pos = self.pos + 1;
        }
        assert(self.pos == k) by {
            if self.pos < k {
                assert(text_lt(sel[self.pos as int], name@));
            }
        }
        if self.pos == self.selection.len() {
            self.done = true;
            return EntryDecision { missing, restore: false };
        }
        let restore = str_equal(self.selection[self.pos].as_str(), name);
        assert(sel[k] == self.selection@[self.pos as int]@);
        if restore {
            self.pos = self.pos + 1;
        }
        self.done = self.pos == self.selection.len();
        EntryDecision { missing, restore }
    }

    /// Whether no more entries need to be looked at.
    pub fn is_done(&self) -> (r: bool)
        ensures
            r == self.done,
    {
        self.done
    }

    /// The files asked for that were not found, once the archive has ended
    /// (or no more entries are needed), taking the scan apart: in an
    /// unsorted archive those not met; in a sorted one, those passed over
    /// (when restoring from older backups too) followed by those the archive
    /// ended before. Every file asked for is thus restored, reported missing
    /// on the way, or here.
    pub fn into_not_found(self) -> (r: Vec<String>)
        requires
            scan_ok(self),
        ensures
            self.unsorted ==> r@ == self.not_found@,
            !self.unsorted ==> texts(r@) == texts(self.not_found@) + texts(self.selection@).skip(
                self.pos as int,
            ),
    {
        let mut out = self.not_found;
        if !self.unsorted {
            let ghost base = texts(out@);
            let ghost sel = texts(self.selection@);
            let mut i = self.pos;
            assert(sel.subrange(self.pos as int, self.pos as int) =~= Seq::<Seq<char>>::empty());
            while i < self.selection.len()
                invariant
                    self.pos <= i <= self.selection@.len(),
                    sel == texts(self.selection@),
                    texts(out@) == base + sel.subrange(self.pos as int, i as int),
                decreases self.selection.len() - i,
            {
                let ghost prev = out@;
                out.push(copy_string(self.selection[i].as_str()));
                assert(texts(out@) =~= texts(prev).push(sel[i as int]));
                assert(sel.subrange(self.pos as int, i + 1) =~= sel.subrange(self.pos as int, i as int).push(
                    sel[i as int],
                ));
                i = i + 1;
            }
            assert(sel.subrange(self.pos as int, sel.len() as int) =~= sel.skip(self.pos as int));
        }
        out
    }
}

/// Whether an archive is unsorted: its second entry (by path) is a list of
/// the first format, which old backups wrote without sorting their files.
pub fn is_unsorted_archive(second_entry: &str) -> (r: bool)
    ensures
        r == (second_entry@ == FILE_LIST_V1@),
{
    str_equal(second_entry, FILE_LIST_V1)
}

/// An error of kind `InvalidData` with the given message.
pub open spec fn is_invalid_data(e: std::io::Error, message: Seq<char>) -> bool {
    spec_io_error_kind(e) == "InvalidData"@ && spec_io_error_text(e) == message
}

/// The message of an archive without entries.
pub const EMPTY_BACKUP: &'static str = "The backup is empty";

/// The message of an archive without a second entry.
pub const MISSING_LIST: &'static str = "The file list is missing";

/// The message of an archive whose second entry is not the file list.
pub const NOT_A_LIST: &'static str = "The second file of the backup is not the file list";

/// The message of an archive whose first entry is not the config.
pub const NOT_A_CONFIG: &'static str = "The backup does not start with a config file";

/// The config text of a backup from its first archive entry: it must be
/// there, be readable and be named `config.yml` (by its path); then its text
/// is the config.
pub fn get_config_from_backup(
    first: Option<std::io::Result<(String, std::io::Result<String>)>>,
) -> (r: std::io::Result<String>)
    ensures
        first is None ==> (r matches Err(e) && is_invalid_data(e, EMPTY_BACKUP@)),
        first matches Some(Err(e)) ==> r == Err::<String, std::io::Error>(e),
        first matches Some(Ok((name, _))) && name@ != CONFIG_DEFAULT_NAME@ ==> (r matches Err(e)
            && is_invalid_data(e, NOT_A_CONFIG@)),
        match first {
            Some(Ok((name, content))) => name@ == CONFIG_DEFAULT_NAME@ ==> match content {
                Ok(text) => r matches Ok(t) && t@ == text@,
                Err(e) => r == Err::<String, std::io::Error>(e),
            },
            _ => true,
        },
{
    match first {
        None => Err(invalid_data(EMPTY_BACKUP)),
        Some(Err(e)) => Err(e),
        Some(Ok((name, content))) => {
            if !str_equal(name.as_str(), CONFIG_DEFAULT_NAME) {
                return Err(invalid_data(NOT_A_CONFIG));
            }
            match content {
                Ok(text) => Ok(text),
                Err(e) => Err(e),
            }
        },
    }
}

/// The file list of a backup from its first two archive entries: the first
/// must be there; the second must be there, be readable and be named
/// `files.csv` (by its path); then its text is the list.
pub fn get_list_from_backup(
    first: Option<std::io::Result<String>>,
    second: Option<std::io::Result<(String, std::io::Result<String>)>>,
) -> (r: std::io::Result<String>)
    ensures
        first is None ==> (r matches Err(e) && is_invalid_data(e, EMPTY_BACKUP@)),
        first is Some && second is None ==> (r matches Err(e) && is_invalid_data(e, MISSING_LIST@)),
        first is Some ==> (second matches Some(Err(e)) ==> r == Err::<String, std::io::Error>(e)),
        first is Some ==> (second matches Some(Ok((name, _))) && name@ != FILE_LIST_V1@ ==> (r matches Err(
            e,
        ) && is_invalid_data(e, NOT_A_LIST@))),
        first is Some ==> match second {
            Some(Ok((name, content))) => name@ == FILE_LIST_V1@ ==> match content {
                Ok(text) => r matches Ok(t) && t@ == text@,
                Err(e) => r == Err::<String, std::io::Error>(e),
            },
            _ => true,
        },
{
    if first.is_none() {
        return Err(invalid_data(EMPTY_BACKUP));
    }
    match second {
        None => Err(invalid_data(MISSING_LIST)),
        Some(Err(e)) => Err(e),
        Some(Ok((name, content))) => {
            if !str_equal(name.as_str(), FILE_LIST_V1) {
                return Err(invalid_data(NOT_A_LIST));
            }
            match content {
                Ok(text) => Ok(text),
                Err(e) => Err(e),
            }
        },
    }
}

/// Where a restored file goes: where it was, when no output directory is
/// given; else in the output directory, under its path made relative, or
/// (flattened) under its last part alone; a flattened path without a last
/// part has nowhere to go.
pub open spec fn spec_restore_target(
    path: Seq<char>,
    output: Option<Seq<char>>,
    flatten: bool,
) -> Option<Seq<char>> {
    match output {
        None => Some(path),
        Some(o) => if flatten {
            match spec_file_name(path) {
                Some(n) => Some(spec_join(o, n)),
                None => None,
            }
        } else {
            Some(spec_join(o, spec_strip_absolute(path)))
        },
    }
}

/// Where a restored file goes (see `spec_restore_target`); flattening needs
/// an output directory.
pub fn restore_target(path: &str, output: &Option<String>, flatten: bool) -> (r: Option<String>)
    requires
        flatten ==> output is Some,
    ensures
        r matches Some(t) ==> spec_restore_target(
            path@,
            match output {
                Some(o) => Some(o@),
                None => None,
            },
            flatten,
        ) == Some(t@),
        r is None ==> spec_restore_target(
            path@,
            match output {
                Some(o) => Some(o@),
                None => None,
            },
            flatten,
        ) is None,
        output is None ==> (r matches Some(t) && t@ == path@),
        match output {
            Some(o) => if flatten {
                match spec_file_name(path@) {
                    Some(n) => (r matches Some(t) && t@ == spec_join(o@, n)),
                    None => r is None,
                }
            } else {
                (r matches Some(t) && t@ == spec_join(o@, spec_strip_absolute(path@)))
            },
            None => true,
        },
{
    match output {
        None => Some(copy_string(path)),
        Some(o) => {
            if flatten {
                match file_name(path) {
                    Some(n) => Some(join(o.as_str(), n.as_str())),
                    None => None,
                }
            } else {
                let rel = strip_absolute_from_path(path);
                Some(join(o.as_str(), rel.as_str()))
            }
        },
    }
}

} // verus!
