//! The list of files of a backup: as records while backing up, and as the
//! text file stored in the archive (`files.csv` or `files_v2.csv`).
use vstd::prelude::*;

use crate::datetime::{opt_before, opt_is_before, DateTime};
use crate::errors::{BackupError, FileAccessError};
use crate::files::FileInfo;
use crate::sort::{sort_by_key, sorted_by_key};
use crate::text::{chars_of, str_equal, string_from_chars};

verus! {

/// The name of a stored list of the first format (paths only).
pub const FILE_LIST_V1: &'static str = "files.csv";

/// The name of a stored list of the second format (a flag and a path per line).
pub const FILE_LIST_V2: &'static str = "files_v2.csv";

/// The pieces of a text between line breaks (`str::split('\n')`): there is
/// always at least one, and an empty text has one empty piece.
pub open spec fn split_lines(s: Seq<char>) -> Seq<Seq<char>>
    decreases s.len(),
{
    if s.len() == 0 {
        seq![Seq::<char>::empty()]
    } else {
        let r = split_lines(s.drop_last());
        if s.last() == '\n' {
            r.push(Seq::<char>::empty())
        } else {
            r.update(r.len() - 1, r.last().push(s.last()))
        }
    }
}

/// Lines joined with line breaks between them.
pub open spec fn join_lines(ls: Seq<Seq<char>>) -> Seq<char>
    decreases ls.len(),
{
    if ls.len() == 0 {
        Seq::<char>::empty()
    } else if ls.len() == 1 {
        ls[0]
    } else {
        join_lines(ls.drop_last()) + seq!['\n'] + ls.last()
    }
}

/// Lines each followed by a line break.
pub open spec fn terminated_lines(ls: Seq<Seq<char>>) -> Seq<char>
    decreases ls.len(),
{
    if ls.len() == 0 {
        Seq::<char>::empty()
    } else {
        terminated_lines(ls.drop_last()) + ls.last() + seq!['\n']
    }
}

pub open spec fn has_no_newline(s: Seq<char>) -> bool {
    !s.contains('\n')
}

/// The number of bytes UTF-8 takes for a character.
pub open spec fn utf8_width(c: char) -> int {
    if (c as int) < 0x80 {
        1
    } else if (c as int) < 0x800 {
        2
    } else if (c as int) < 0x10000 {
        3
    } else {
        4
    }
}

/// A line whose first two bytes end on a character boundary, so that the
/// text after them can be taken.
pub open spec fn sliceable(l: Seq<char>) -> bool {
    ||| (l.len() >= 1 && utf8_width(l[0]) == 2)
    ||| (l.len() >= 2 && utf8_width(l[0]) == 1 && utf8_width(l[1]) == 1)
}

/// The text of a line after its first two bytes.
pub open spec fn after_flag(l: Seq<char>) -> Seq<char> {
    if l.len() >= 1 && utf8_width(l[0]) == 2 {
        l.skip(1)
    } else {
        l.skip(2)
    }
}

/// A line of the second format marks an included file by starting with `1`.
pub open spec fn flag_of(l: Seq<char>) -> bool {
    l.len() > 0 && l[0] == '1'
}

/// The entry that a stored line stands for.
pub open spec fn entry_of(version: u8, l: Seq<char>) -> (bool, Seq<char>) {
    if version == 2 {
        (flag_of(l), after_flag(l))
    } else {
        (true, l)
    }
}

/// The entries (included flag and path) that a stored list stands for.
pub open spec fn spec_entries(version: u8, content: Seq<char>) -> Seq<(bool, Seq<char>)> {
    split_lines(content).map_values(|l: Seq<char>| entry_of(version, l))
}

/// The paths of the included files among stored lines.
pub open spec fn spec_included(version: u8, lines: Seq<Seq<char>>) -> Seq<Seq<char>>
    decreases lines.len(),
{
    if lines.len() == 0 {
        Seq::<Seq<char>>::empty()
    } else {
        let rest = spec_included(version, lines.drop_last());
        let l = lines.last();
        if version != 2 {
            rest.push(l)
        } else if flag_of(l) {
            rest.push(after_flag(l))
        } else {
            rest
        }
    }
}

/// The format of a stored list, known by the name of its archive entry.
pub open spec fn version_of_name(name: Seq<char>) -> Option<u8> {
    if name == FILE_LIST_V1@ {
        Some(1u8)
    } else if name == FILE_LIST_V2@ {
        Some(2u8)
    } else {
        None
    }
}

/// The name of the archive entry a list of the given format is stored under.
pub open spec fn stored_name(version: u8) -> Seq<char> {
    if version == 2 {
        FILE_LIST_V2@
    } else {
        FILE_LIST_V1@
    }
}

/// The paths of the entries marked included, in order.
pub open spec fn included_paths(entries: Seq<(bool, Seq<char>)>) -> Seq<Seq<char>>
    decreases entries.len(),
{
    if entries.len() == 0 {
        Seq::<Seq<char>>::empty()
    } else {
        let rest = included_paths(entries.drop_last());
        if entries.last().0 {
            rest.push(entries.last().1)
        } else {
            rest
        }
    }
}

/// The stored line of an entry: its flag, a comma and its path.
pub open spec fn entry_line(flag: bool, path: Seq<char>) -> Seq<char> {
    seq![if flag { '1' } else { '0' }, ','] + path
}

/// The stored text of a list of entries.
pub open spec fn list_text(items: Seq<(bool, Seq<char>)>) -> Seq<char> {
    join_lines(items.map_values(|e: (bool, Seq<char>)| entry_line(e.0, e.1)))
}

/// The flag and path of each record of a list.
pub open spec fn record_entries(items: Seq<(bool, FileInfo)>) -> Seq<(bool, Seq<char>)> {
    items.map_values(|e: (bool, FileInfo)| (e.0, e.1@))
}

/// The flag and text of each entry.
pub open spec fn pairs_view(items: Seq<(bool, String)>) -> Seq<(bool, Seq<char>)> {
    items.map_values(|e: (bool, String)| (e.0, e.1@))
}

pub proof fn lemma_split_lines_nonempty(s: Seq<char>)
    ensures
        split_lines(s).len() >= 1,
    decreases s.len(),
{
    if s.len() > 0 {
        lemma_split_lines_nonempty(s.drop_last());
    }
}

/// Splitting text that ends in text without line breaks extends the last piece.
pub proof fn lemma_split_append_plain(p: Seq<char>, t: Seq<char>)
    requires
        has_no_newline(t),
    ensures
        split_lines(p + t) == split_lines(p).update(
            split_lines(p).len() - 1,
            split_lines(p).last() + t,
        ),
    decreases t.len(),
{
    lemma_split_lines_nonempty(p);
    if t.len() == 0 {
        assert(p + t =~= p);
        assert(split_lines(p).last() + t =~= split_lines(p).last());
        assert(split_lines(p).update(split_lines(p).len() - 1, split_lines(p).last())
            =~= split_lines(p));
    } else {
        let t0 = t.drop_last();
        assert(!t0.contains('\n')) by {
            if t0.contains('\n') {
                let k = choose|k: int| 0 <= k < t0.len() && t0[k] == '\n';
                assert(t[k] == '\n');
            }
        }
        lemma_split_append_plain(p, t0);
        assert((p + t).drop_last() =~= p + t0);
        assert((p + t).last() == t.last());
        assert(t.last() != '\n') by {
            assert(t[t.len() - 1] == t.last());
        }
        lemma_split_lines_nonempty(p + t0);
        assert(split_lines(p).last() + t =~= (split_lines(p).last() + t0).push(t.last()));
    }
}

/// Text joined from lines without line breaks splits back into those lines.
pub proof fn lemma_split_join(ls: Seq<Seq<char>>)
    requires
        ls.len() >= 1,
        forall|i: int| 0 <= i < ls.len() ==> has_no_newline(#[trigger] ls[i]),
    ensures
        split_lines(join_lines(ls)) == ls,
    decreases ls.len(),
{
    if ls.len() == 1 {
        lemma_split_append_plain(Seq::<char>::empty(), ls[0]);
        assert(Seq::<char>::empty() + ls[0] =~= ls[0]);
        assert(Seq::<char>::empty() + ls[0] =~= ls[0]);
        assert(split_lines(join_lines(ls)) =~= ls);
    } else {
        let init = ls.drop_last();
        lemma_split_join(init);
        let p = join_lines(init) + seq!['\n'];
        assert(p.drop_last() =~= join_lines(init));
        assert(split_lines(p) == split_lines(join_lines(init)).push(Seq::<char>::empty()));
        lemma_split_append_plain(p, ls.last());
        assert(Seq::<char>::empty() + ls.last() =~= ls.last());
        assert(split_lines(join_lines(ls)) =~= ls);
    }
}

/// Lines each followed by a break are the joined lines with a final break.
pub proof fn lemma_terminated_join(ls: Seq<Seq<char>>)
    requires
        ls.len() >= 1,
    ensures
        terminated_lines(ls) == join_lines(ls).push('\n'),
    decreases ls.len(),
{
    if ls.len() == 1 {
        assert(terminated_lines(ls.drop_last()) =~= Seq::<char>::empty());
        assert(terminated_lines(ls) =~= join_lines(ls).push('\n'));
    } else {
        lemma_terminated_join(ls.drop_last());
        assert(terminated_lines(ls) =~= join_lines(ls).push('\n'));
    }
}

/// The stored line of an entry whose path has no line break has none either.
pub proof fn lemma_entry_line_plain(flag: bool, path: Seq<char>)
    requires
        has_no_newline(path),
    ensures
        has_no_newline(entry_line(flag, path)),
        sliceable(entry_line(flag, path)),
        flag_of(entry_line(flag, path)) == flag,
        after_flag(entry_line(flag, path)) == path,
{
    let l = entry_line(flag, path);
    assert(l[0] == (if flag { '1' } else { '0' }));
    assert(l[1] == ',');
    if l.contains('\n') {
        let k = choose|k: int| 0 <= k < l.len() && l[k] == '\n';
        assert(path[k - 2] == '\n');
    }
    assert(l.skip(2) =~= path);
}

/// The pieces of a text between line breaks.
fn split_into_lines(s: &[char]) -> (r: Vec<Vec<char>>)
    ensures
        r@.map_values(|l: Vec<char>| l@) == split_lines(s@),
{
    let mut done: Vec<Vec<char>> = Vec::new();
    let mut cur: Vec<char> = Vec::new();
    let mut i: usize = 0;
    assert(s@.take(0) =~= Seq::<char>::empty());
    assert(done@.map_values(|l: Vec<char>| l@).push(cur@) =~= split_lines(s@.take(0)));
    while i < s.len()
        invariant
            i <= s.len(),
            done@.map_values(|l: Vec<char>| l@).push(cur@) == split_lines(s@.take(i as int)),
        decreases s.len() - i,
    {
        let c = s[i];
        let ghost prev = done@.map_values(|l: Vec<char>| l@).push(cur@);
        assert(s@.take(i + 1).drop_last() =~= s@.take(i as int));
        assert(s@.take(i + 1).last() == c);
        if c == '\n' {
            done.push(cur);
            cur = Vec::new();
            assert(done@.map_values(|l: Vec<char>| l@).push(cur@) =~= prev.push(
                Seq::<char>::empty(),
            ));
        } else {
            cur.push(c);
            assert(done@.map_values(|l: Vec<char>| l@).push(cur@) =~= prev.update(
                prev.len() - 1,
                prev.last().push(c),
            ));
        }
        i = i + 1;
    }
    assert(s@.take(s.len() as int) =~= s@);
    done.push(cur);
    done
}

/// Whether a character takes two bytes in UTF-8.
fn is_two_byte_char(c: char) -> (r: bool)
    ensures
        r == (utf8_width(c) == 2),
{
    c >= '\u{80}' && '\u{800}' > c
}

/// Whether a character takes one byte in UTF-8.
fn is_one_byte_char(c: char) -> (r: bool)
    ensures
        r == (utf8_width(c) == 1),
{
    '\u{80}' > c
}

/// The characters of `l` from index `k` on, as a string.
fn string_from_index(l: &Vec<char>, k: usize) -> (r: String)
    requires
        k <= l@.len(),
    ensures
        r@ == l@.skip(k as int),
{
    let mut v: Vec<char> = Vec::new();
    let mut i: usize = k;
    while i < l.len()
        invariant
            k <= i <= l@.len(),
            v@ == l@.subrange(k as int, i as int),
        decreases l.len() - i,
    {
        v.push(l[i]);
        assert(l@.subrange(k as int, i + 1) =~= l@.subrange(k as int, i as int).push(l@[i as int]));
        i = i + 1;
    }
    assert(l@.subrange(k as int, l@.len() as int) =~= l@.skip(k as int));
    string_from_chars(v.as_slice())
}

/// Whether a stored line starts with the mark of an included file.
fn line_flag(l: &Vec<char>) -> (r: bool)
    ensures
        r == flag_of(l@),
{
    l.len() > 0 && l[0] == '1'
}

/// The path of a stored line of the second format.
fn line_path(l: &Vec<char>) -> (r: String)
    requires
        sliceable(l@),
    ensures
        r@ == after_flag(l@),
{
    if l.len() >= 1 && is_two_byte_char(l[0]) {
        string_from_index(l, 1)
    } else {
        string_from_index(l, 2)
    }
}

/// The file records found for a backup, each with whether it goes into the
/// backup (a file that changed since the previous backup, or every file).
pub struct FileListVec {
    items: Vec<(bool, FileInfo)>,
}

/// The records that crawling yields: the files found, each included when
/// there is no previous backup time or it changed at or after that time.
pub open spec fn crawl_entries(
    found: Seq<Result<FileInfo, FileAccessError>>,
    time: Option<DateTime>,
) -> Seq<(bool, FileInfo)>
    decreases found.len(),
{
    if found.len() == 0 {
        Seq::<(bool, FileInfo)>::empty()
    } else {
        let rest = crawl_entries(found.drop_last(), time);
        match found.last() {
            Ok(fi) => rest.push((included_since(fi.time, time), fi)),
            Err(_) => rest,
        }
    }
}

/// A file changed at `file_time` goes into a backup that follows one made at `prev`.
pub open spec fn included_since(file_time: Option<DateTime>, prev: Option<DateTime>) -> bool {
    match prev {
        None => true,
        Some(p) => !opt_before(file_time, Some(p)),
    }
}

/// Every file found has its modification time (needed to compare it with a previous backup).
pub open spec fn found_have_times(found: Seq<Result<FileInfo, FileAccessError>>) -> bool {
    forall|i: int| 0 <= i < found.len() ==> (#[trigger] found[i] matches Ok(fi) ==> fi.time is Some)
}

impl FileListVec {
    /// The records, in order.
    pub closed spec fn items(&self) -> Seq<(bool, FileInfo)> {
        self.items@
    }

    /// An empty list.
    pub fn new() -> (r: Self)
        ensures
            r.items() == Seq::<(bool, FileInfo)>::empty(),
    {
        FileListVec { items: Vec::new() }
    }

    /// Adds a record at the end.
    pub fn push(&mut self, included: bool, file: FileInfo)
        ensures
            final(self).items() == old(self).items().push((included, file)),
    {
        self.items.push((included, file))
    }

    /// The number of records.
    pub fn len(&self) -> (r: usize)
        ensures
            r == self.items().len(),
    {
        self.items.len()
    }

    /// The record at position `i`.
    pub fn get(&self, i: usize) -> (r: &(bool, FileInfo))
        requires
            i < self.items().len(),
        ensures
            *r == self.items()[i as int],
    {
        &self.items[i]
    }

    /// Sorts the records by path.
    pub fn sort_unstable(&mut self)
        ensures
            final(self).items().to_multiset() == old(self).items().to_multiset(),
            sorted_by_key(final(self).items()),
    {
        let mut items: Vec<(bool, FileInfo)> = Vec::new();
        std::mem::swap(&mut items, &mut self.items);
        self.items = sort_by_key(items);
    }

    /// The list of the files found by crawling, sorted by path, each marked
    /// as included when it changed since the previous backup time (every
    /// file when there is none); what could not be read is left out.
    pub fn crawl(found: Vec<Result<FileInfo, FileAccessError>>, time: Option<DateTime>) -> (r: Self)
        requires
            time is Some ==> found_have_times(found@),
        ensures
            r.items().to_multiset() == crawl_entries(found@, time).to_multiset(),
            sorted_by_key(r.items()),
    {
        let ghost orig = found@;
        let mut found = found;
        let mut rev: Vec<(bool, FileInfo)> = Vec::new();
        let mut picked: Vec<(bool, FileInfo)> = Vec::new();
        while found.len() > 0
            invariant
                crawl_entries(orig, time) == crawl_entries(found@, time) + picked@.reverse(),
                time is Some ==> found_have_times(found@),
            decreases found.len(),
        {
            let ghost before = found@;
            let item = found.pop().unwrap();
            assert(before.drop_last() =~= found@);
            assert(before.last() == item);
            match item {
                Ok(fi) => {
                    let inc = match time {
                        None => true,
                        Some(t) => {
                            assert(before[before.len() - 1] matches Ok(f) ==> f.time is Some);
                            !opt_is_before(&fi.time, &Some(t))
                        },
                    };
                    let ghost old_picked = picked@;
                    picked.push((inc, fi));
                    assert(picked@.reverse() =~= seq![(inc, fi)] + old_picked.reverse());
                },
                Err(_) => {},
            }
        }
        assert(crawl_entries(found@, time) =~= Seq::<(bool, FileInfo)>::empty());
        proof {
            picked@.lemma_reverse_to_multiset();
        }
        let items = sort_by_key(picked);
        FileListVec { items }
    }
}

/// The stored list of the files of a backup, with the format it is written in.
#[derive(Debug)]
pub struct FileListString {
    list: String,
    version: u8,
}

impl FileListString {
    /// The stored text.
    pub closed spec fn content(&self) -> Seq<char> {
        self.list@
    }

    /// The format: 2 for lines with a flag, otherwise paths only.
    pub closed spec fn version(&self) -> u8 {
        self.version
    }

    /// Every line of the second format has a flag to read.
    pub open spec fn entries_readable(&self) -> bool {
        self.version() == 2 ==> forall|i: int|
            0 <= i < split_lines(self.content()).len() ==> sliceable(
                #[trigger] split_lines(self.content())[i],
            )
    }

    /// Every line of the second format that marks an included file has a path to read.
    pub open spec fn included_readable(&self) -> bool {
        self.version() == 2 ==> forall|i: int|
            0 <= i < split_lines(self.content()).len() && flag_of(
                #[trigger] split_lines(self.content())[i],
            ) ==> sliceable(split_lines(self.content())[i])
    }

    /// A stored list read from the archive entry of the given name; an entry
    /// of another name is no file list.
    pub fn new(filename: &str, content: String) -> (r: Result<Self, BackupError>)
        ensures
            r is Ok <==> version_of_name(filename@) is Some,
            r matches Ok(l) ==> l.content() == content@ && version_of_name(filename@) == Some(
                l.version(),
            ),
            r matches Err(e) ==> e is Unspecified,
    {
        proof {
            reveal_strlit("files.csv");
            reveal_strlit("files_v2.csv");
            assert(FILE_LIST_V1@.len() != FILE_LIST_V2@.len());
        }
        let version: u8 = if str_equal(filename, FILE_LIST_V1) {
            1
        } else if str_equal(filename, FILE_LIST_V2) {
            2
        } else {
            return Err(BackupError::Unspecified);
        };
        Ok(Self { list: content, version })
    }

    /// The stored list of a list of file records (second format).
    pub fn from(files: &FileListVec) -> (r: Self)
        ensures
            r.version() == 2,
            r.content() == list_text(record_entries(files.items())),
    {
        let ghost lines = record_entries(files.items()).map_values(
            |e: (bool, Seq<char>)| entry_line(e.0, e.1),
        );
        let mut buf: Vec<char> = Vec::new();
        let mut i: usize = 0;
        assert(lines.take(0) =~= Seq::<Seq<char>>::empty());
        while i < files.len()
            invariant
                i <= files.items().len(),
                lines.len() == files.items().len(),
                lines == record_entries(files.items()).map_values(
                    |e: (bool, Seq<char>)| entry_line(e.0, e.1),
                ),
                buf@ == terminated_lines(lines.take(i as int)),
            decreases files.items().len() - i,
        {
            let e = files.get(i);
            buf.push(if e.0 { '1' } else { '0' });
            buf.push(',');
            let mut p = chars_of(e.1.get_string().as_str());
            buf.append(&mut p);
            buf.push('\n');
            assert(lines.take(i + 1).drop_last() =~= lines.take(i as int));
            assert(lines.take(i + 1).last() == lines[i as int]);
            assert(lines[i as int] =~= entry_line(e.0, e.1@));
            i = i + 1;
        }
        assert(lines.take(lines.len() as int) =~= lines);
        if buf.len() > 0 {
            proof {
                lemma_terminated_join(lines);
            }
            buf.pop();
            assert(buf@ =~= join_lines(lines));
        } else {
            assert(lines.len() == 0) by {
                if lines.len() > 0 {
                    lemma_terminated_join(lines);
                }
            }
        }
        Self { list: string_from_chars(buf.as_slice()), version: 2 }
    }

    /// The stored text.
    pub fn as_str(&self) -> (r: &str)
        ensures
            r@ == self.content(),
    {
        self.list.as_str()
    }

    /// Whether the entries can be read (see `entries_readable`).
    pub fn is_readable(&self) -> (r: bool)
        ensures
            r == self.entries_readable(),
    {
        if self.version != 2 {
            return true;
        }
        let chars = chars_of(self.list.as_str());
        let lines = split_into_lines(chars.as_slice());
        let ghost ls = lines@.map_values(|l: Vec<char>| l@);
        let mut i: usize = 0;
        while i < lines.len()
            invariant
                i <= lines@.len(),
                ls == split_lines(self.content()),
                ls == lines@.map_values(|l: Vec<char>| l@),
                ls.len() == lines@.len(),
                forall|k: int| 0 <= k < i ==> sliceable(#[trigger] ls[k]),
                self.version() == 2,
            decreases lines.len() - i,
        {
            let l = &lines[i];
            assert(ls[i as int] == l@);
            let ok = (l.len() >= 1 && is_two_byte_char(l[0])) || (l.len() >= 2 && is_one_byte_char(
                l[0],
            ) && is_one_byte_char(l[1]));
            if !ok {
                return false;
            }
            i = i + 1;
        }
        true
    }

    /// All entries: whether each file is included, and its path.
    pub fn iter(&self) -> (r: Vec<(bool, String)>)
        requires
            self.entries_readable(),
        ensures
            pairs_view(r@) == spec_entries(self.version(), self.content()),
    {
        let chars = chars_of(self.list.as_str());
        let lines = split_into_lines(chars.as_slice());
        let ghost ls = lines@.map_values(|l: Vec<char>| l@);
        let mut out: Vec<(bool, String)> = Vec::new();
        let mut i: usize = 0;
        while i < lines.len()
            invariant
                i <= lines@.len(),
                ls == split_lines(self.content()),
                ls == lines@.map_values(|l: Vec<char>| l@),
                ls.len() == lines@.len(),
                self.entries_readable(),
                pairs_view(out@) == ls.take(i as int).map_values(
                    |l: Seq<char>| entry_of(self.version(), l),
                ),
            decreases lines.len() - i,
        {
            let l = &lines[i];
            assert(ls[i as int] == l@);
            let e = if self.version == 2 {
                (line_flag(l), line_path(l))
            } else {
                (true, string_from_chars(l.as_slice()))
            };
            let ghost prev = out@;
            out.push(e);
            assert(pairs_view(out@) =~= pairs_view(prev).push((e.0, e.1@)));
            assert(ls.take(i + 1) =~= ls.take(i as int).push(l@));
            i = i + 1;
        }
        assert(ls.take(ls.len() as int) =~= ls);
        out
    }

    /// The paths of the included files.
    pub fn iter_included(&self) -> (r: Vec<String>)
        requires
            self.included_readable(),
        ensures
            r@.map_values(|s: String| s@) == spec_included(
                self.version(),
                split_lines(self.content()),
            ),
    {
        let chars = chars_of(self.list.as_str());
        let lines = split_into_lines(chars.as_slice());
        let ghost ls = lines@.map_values(|l: Vec<char>| l@);
        let mut out: Vec<String> = Vec::new();
        let mut i: usize = 0;
        assert(ls.take(0) =~= Seq::<Seq<char>>::empty());
        while i < lines.len()
            invariant
                i <= lines@.len(),
                ls == split_lines(self.content()),
                ls == lines@.map_values(|l: Vec<char>| l@),
                ls.len() == lines@.len(),
                self.included_readable(),
                out@.map_values(|s: String| s@) == spec_included(self.version(), ls.take(i as int)),
            decreases lines.len() - i,
        {
            let l = &lines[i];
            assert(ls[i as int] == l@);
            assert(ls.take(i + 1).drop_last() =~= ls.take(i as int));
            assert(ls.take(i + 1).last() == l@);
            let ghost prev = out@;
            if self.version != 2 {
                out.push(string_from_chars(l.as_slice()));
                assert(out@.map_values(|s: String| s@) =~= prev.map_values(|s: String| s@).push(
                    l@,
                ));
            } else if line_flag(l) {
                let p = line_path(l);
                out.push(p);
                assert(out@.map_values(|s: String| s@) =~= prev.map_values(|s: String| s@).push(
                    after_flag(l@),
                ));
            }
            i = i + 1;
        }
        assert(ls.take(ls.len() as int) =~= ls);
        out
    }

    /// The name of the archive entry the list is stored under.
    pub fn filename(&self) -> (r: &'static str)
        ensures
            r@ == stored_name(self.version()),
    {
        if self.version == 2 {
            FILE_LIST_V2
        } else {
            FILE_LIST_V1
        }
    }
}

/// A list stored from file records reads back as the same entries, in the
/// same order, when there is at least one record and no path holds a line
/// break; and every stored line has a flag to read.
pub proof fn lemma_stored_list_reads_back(items: Seq<(bool, Seq<char>)>)
    requires
        items.len() >= 1,
        forall|i: int| 0 <= i < items.len() ==> has_no_newline((#[trigger] items[i]).1),
    ensures
        spec_entries(2, list_text(items)) == items,
        forall|i: int|
            0 <= i < split_lines(list_text(items)).len() ==> sliceable(
                #[trigger] split_lines(list_text(items))[i],
            ),
{
    let lines = items.map_values(|e: (bool, Seq<char>)| entry_line(e.0, e.1));
    assert forall|i: int| 0 <= i < lines.len() implies has_no_newline(#[trigger] lines[i]) by {
        lemma_entry_line_plain(items[i].0, items[i].1);
    }
    lemma_split_join(lines);
    assert forall|i: int| 0 <= i < lines.len() implies entry_of(2, #[trigger] lines[i])
        == items[i] && sliceable(lines[i]) by {
        lemma_entry_line_plain(items[i].0, items[i].1);
    }
    assert(spec_entries(2, list_text(items)) =~= items);
}

/// Reading only the included files gives the paths of exactly the entries
/// that are marked included, in order.
pub proof fn lemma_included_are_marked_entries(version: u8, lines: Seq<Seq<char>>)
    ensures
        spec_included(version, lines) == included_paths(
            lines.map_values(|l: Seq<char>| entry_of(version, l)),
        ),
    decreases lines.len(),
{
    let entries = lines.map_values(|l: Seq<char>| entry_of(version, l));
    if lines.len() > 0 {
        lemma_included_are_marked_entries(version, lines.drop_last());
        assert(entries.drop_last() =~= lines.drop_last().map_values(
            |l: Seq<char>| entry_of(version, l),
        ));
    } else {
        assert(entries =~= Seq::<(bool, Seq<char>)>::empty());
    }
}

/// A list read back under the name it is stored under has the format it was written in.
pub proof fn lemma_stored_name_gives_version(version: u8)
    requires
        version == 1 || version == 2,
    ensures
        version_of_name(stored_name(version)) == Some(version),
{
    reveal_strlit("files.csv");
    reveal_strlit("files_v2.csv");
    assert(FILE_LIST_V1@.len() != FILE_LIST_V2@.len());
}

} // verus!
