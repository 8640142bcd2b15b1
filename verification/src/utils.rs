//! Helpers for paths, for telling configs from backups, and for picking
//! backups by their time.
use std::cmp::Ordering;
use vstd::prelude::*;
use vstd::std_specs::cmp::PartialOrdSpec;

use crate::backup::{BACKUP_FILE_EXTENSION, CONFIG_FILE_EXTENSION};
use crate::datetime::{
    lemma_before_irreflexive, lemma_before_transitive, lemma_before_trichotomy, opt_before, opt_is_before, parse_backup_file_name, spec_parse_datetime,
    DateTime, BACKUP_NAME_FORMAT,
};
use crate::paths::{file_name, spec_file_name};
use crate::config::is_output_file_path;
use crate::errors::BackupError;
use crate::sort::{sort_by_key, sorted_by_key, SortKey};
use crate::text::{chars_of, concat, str_ends_with, string_from_chars};

verus! {

/// `value` limited to the range from `min` to `max`, as `clamp` computes it
/// from the comparisons of `T`.
pub open spec fn spec_clamp<T: PartialOrd>(value: T, min: T, max: T) -> T {
    if value.partial_cmp_spec(&min) == Some(Ordering::Greater) {
        if value.partial_cmp_spec(&max) == Some(Ordering::Less) {
            value
        } else {
            max
        }
    } else {
        min
    }
}

/// Limits `value` to the range from `min` to `max`: `min` unless the value is
/// greater, `max` unless it is also less than that.
pub fn clamp<T: PartialOrd>(value: T, min: T, max: T) -> (r: T)
    ensures
        T::obeys_partial_cmp_spec() ==> r == spec_clamp(value, min, max),
{
    if value > min {
        if value < max {
            value
        } else {
            max
        }
    } else {
        min
    }
}

/// A text without the leading copies of the character `c`.
pub open spec fn trim_start(s: Seq<char>, c: char) -> Seq<char>
    decreases s.len(),
{
    if s.len() > 0 && s[0] == c {
        trim_start(s.drop_first(), c)
    } else {
        s
    }
}

/// A path made relative: without its leading dots, then without its leading
/// slashes. Every leading dot goes, so a relative `.bashrc` becomes `bashrc`.
pub open spec fn spec_strip_absolute(path: Seq<char>) -> Seq<char> {
    trim_start(trim_start(path, '.'), '/')
}

proof fn lemma_trim_start_suffix(s: Seq<char>, c: char)
    ensures
        trim_start(s, c).is_suffix_of(s),
        trim_start(s, c).len() > 0 ==> trim_start(s, c)[0] != c,
    decreases s.len(),
{
    if s.len() > 0 && s[0] == c {
        lemma_trim_start_suffix(s.drop_first(), c);
        let t = trim_start(s.drop_first(), c);
        assert(s.subrange(s.len() - t.len(), s.len() as int) =~= s.drop_first().subrange(
            s.drop_first().len() - t.len(),
            s.drop_first().len() as int,
        ));
    } else {
        assert(s.subrange(0, s.len() as int) =~= s);
    }
}

/// A path made relative is relative (it does not start with `/`) and is the
/// end of the path: only leading characters are dropped.
pub proof fn lemma_strip_absolute_relative(path: Seq<char>)
    ensures
        spec_strip_absolute(path).len() > 0 ==> spec_strip_absolute(path)[0] != '/',
        spec_strip_absolute(path).is_suffix_of(path),
{
    lemma_trim_start_suffix(path, '.');
    let d = trim_start(path, '.');
    lemma_trim_start_suffix(d, '/');
    let r = trim_start(d, '/');
    assert(r =~= path.subrange(path.len() - r.len(), path.len() as int)) by {
        assert(r =~= d.subrange(d.len() - r.len(), d.len() as int));
        assert(d =~= path.subrange(path.len() - d.len(), path.len() as int));
    }
}

/// The position of the first character of `s`, from `from` on, that is not `c`.
fn skip_char(s: &Vec<char>, from: usize, c: char) -> (r: usize)
    requires
        from <= s@.len(),
    ensures
        from <= r <= s@.len(),
        trim_start(s@.skip(from as int), c) == s@.skip(r as int),
{
    let mut i = from;
    while i < s.len() && s[i] == c
        invariant
            from <= i <= s@.len(),
            trim_start(s@.skip(from as int), c) == trim_start(s@.skip(i as int), c),
        decreases s.len() - i,
    {
        assert(s@.skip(i as int).drop_first() =~= s@.skip(i + 1));
        i = i + 1;
    }
    i
}

/// Makes a path relative, so that it can be placed under another directory
/// (`/server/path` becomes `server/path`, `../path` becomes `path`).
pub fn strip_absolute_from_path(path: &str) -> (r: String)
    ensures
        r@ == spec_strip_absolute(path@),
{
    let v = chars_of(path);
    assert(v@.skip(0) =~= v@);
    let i = skip_char(&v, 0, '.');
    let j = skip_char(&v, i, '/');
    let mut out: Vec<char> = Vec::new();
    let mut k = j;
    while k < v.len()
        invariant
            j <= k <= v@.len(),
            out@ == v@.subrange(j as int, k as int),
        decreases v.len() - k,
    {
        out.push(v[k]);
        assert(v@.subrange(j as int, k + 1) =~= v@.subrange(j as int, k as int).push(v@[k as int]));
        k = k + 1;
    }
    assert(v@.subrange(j as int, v@.len() as int) =~= v@.skip(j as int));
    string_from_chars(out.as_slice())
}

/// A path with text added to the end of its last part (`a.tar.zst` with
/// `.old` becomes `a.tar.zst.old`).
pub fn extend_pathbuf(path: String, extension: &str) -> (r: String)
    ensures
        r@ == path@ + extension@,
{
    concat(path.as_str(), extension)
}

/// What a path is on disk.
#[derive(Clone, Copy, Debug, PartialEq, Eq, Structural)]
pub enum PathKind {
    Dir,
    File,
    Other,
}

/// How a path given for a backup is to be read.
#[derive(Debug)]
pub enum ConfigPathType {
    /// A directory holding backups.
    Dir(String),
    /// A backup archive.
    Backup(String),
    /// A config file.
    Config(String),
}

/// A path ending in the config extension is a config file.
pub open spec fn is_config_name(path: Seq<char>) -> bool {
    CONFIG_FILE_EXTENSION@.is_suffix_of(path)
}

/// A path ending in the backup extension is a backup archive.
pub open spec fn is_backup_name(path: Seq<char>) -> bool {
    BACKUP_FILE_EXTENSION@.is_suffix_of(path)
}

impl ConfigPathType {
    /// Tells how a path is to be read from what it is on disk: a directory
    /// holds backups, a file is a config or a backup by its extension, and
    /// anything else is an invalid path; a path that cannot be looked at
    /// gives the error of looking at it.
    pub fn parse(path: String, kind: Result<PathKind, std::io::Error>) -> (r: Result<
        Self,
        BackupError,
    >)
        ensures
            kind matches Err(e) ==> r == Err::<ConfigPathType, BackupError>(BackupError::FileError(e)),
            kind matches Ok(PathKind::Dir) ==> (r matches Ok(ConfigPathType::Dir(p)) && p@
                == path@),
            kind matches Ok(PathKind::File) && is_config_name(path@) ==> (r matches Ok(
                ConfigPathType::Config(p),
            ) && p@ == path@),
            kind matches Ok(PathKind::File) && !is_config_name(path@) && is_backup_name(path@)
                ==> (r matches Ok(ConfigPathType::Backup(p)) && p@ == path@),
            kind matches Ok(PathKind::File) && !is_config_name(path@) && !is_backup_name(path@)
                ==> (r matches Err(BackupError::InvalidPath(p)) && p@ == path@),
            kind matches Ok(PathKind::Other) ==> (r matches Err(BackupError::InvalidPath(p)) && p@
                == path@),
    {
        match kind {
            Err(e) => Err(BackupError::FileError(e)),
            Ok(PathKind::Dir) => Ok(ConfigPathType::Dir(path)),
            Ok(PathKind::File) => {
                if str_ends_with(path.as_str(), CONFIG_FILE_EXTENSION) {
                    Ok(ConfigPathType::Config(path))
                } else if str_ends_with(path.as_str(), BACKUP_FILE_EXTENSION) {
                    Ok(ConfigPathType::Backup(path))
                } else {
                    Err(BackupError::InvalidPath(path))
                }
            },
            Ok(PathKind::Other) => Err(BackupError::InvalidPath(path)),
        }
    }
}

/// The time a backup was made at as its file name tells it, when the name
/// is one this program gives backups.
pub open spec fn spec_time_from_name(path: Seq<char>) -> Option<DateTime> {
    match spec_file_name(path) {
        Some(n) => spec_parse_datetime(n, BACKUP_NAME_FORMAT@),
        None => None,
    }
}

/// Reads the time a backup was made at from its file name (the first way of
/// telling the probable time of a backup; the other is the time its config
/// records, which takes reading the archive).
pub fn time_from_name(path: &str) -> (r: Option<DateTime>)
    ensures
        r == spec_time_from_name(path@),
        r matches Some(t) ==> t.valid(),
{
    match file_name(path) {
        Some(n) => match parse_backup_file_name(n.as_str()) {
            Ok(t) => Some(t),
            Err(_) => None,
        },
        None => None,
    }
}

/// Whether an entry of a directory of backups is a backup: a file whose name
/// ends with the extension of backups.
pub fn is_backup_entry(path: &str, is_file: bool) -> (r: bool)
    ensures
        r == (is_file && is_output_file_path(path@)),
{
    if !is_file {
        return false;
    }
    match file_name(path) {
        Some(n) => str_ends_with(n.as_str(), BACKUP_FILE_EXTENSION),
        None => false,
    }
}

/// A backup found on disk, with the time it was probably made at.
#[derive(Debug)]
pub struct Candidate {
    pub path: String,
    pub time: Option<DateTime>,
}

/// Backups are ordered by their probable times.
impl SortKey for Candidate {
    open spec fn key_le(&self, other: &Self) -> bool {
        !opt_before(other.time, self.time)
    }

    proof fn lemma_key_le_total(a: &Self, b: &Self) {
        if a.time is Some && b.time is Some {
            lemma_before_trichotomy(a.time->0, b.time->0);
        }
    }

    proof fn lemma_key_le_transitive(a: &Self, b: &Self, c: &Self) {
        if a.time is Some && b.time is Some {
            lemma_before_trichotomy(a.time->0, b.time->0);
        }
        if c.time is Some && b.time is Some {
            lemma_before_trichotomy(c.time->0, b.time->0);
        }
    }

    fn less_or_equal(&self, other: &Self) -> (r: bool) {
        !opt_is_before(&other.time, &self.time)
    }
}

/// The position of the last of the latest candidates (the one `max_by_key` picks).
pub open spec fn last_max_index(c: Seq<(Seq<char>, Option<DateTime>)>) -> int
    decreases c.len(),
{
    if c.len() <= 1 {
        0
    } else {
        let j = last_max_index(c.drop_last());
        if opt_before(c.last().1, c[j].1) {
            j
        } else {
            c.len() - 1
        }
    }
}

/// The latest of the candidates (the last one of them when several are equally late).
pub open spec fn spec_latest(c: Seq<(Seq<char>, Option<DateTime>)>) -> Option<Seq<char>> {
    if c.len() == 0 {
        None
    } else {
        Some(c[last_max_index(c)].0)
    }
}

/// The candidates made before the given time.
pub open spec fn spec_earlier(c: Seq<(Seq<char>, Option<DateTime>)>, time: Option<DateTime>) -> Seq<
    (Seq<char>, Option<DateTime>),
>
    decreases c.len(),
{
    if c.len() == 0 {
        c
    } else {
        let rest = spec_earlier(c.drop_last(), time);
        if opt_before(c.last().1, time) {
            rest.push(c.last())
        } else {
            rest
        }
    }
}

/// The backups found that could be looked at.
pub open spec fn ok_candidates(found: Seq<Result<Candidate, std::io::Error>>) -> Seq<Candidate>
    decreases found.len(),
{
    if found.len() == 0 {
        Seq::<Candidate>::empty()
    } else {
        let rest = ok_candidates(found.drop_last());
        match found.last() {
            Ok(c) => rest.push(c),
            Err(_) => rest,
        }
    }
}

/// The backups found that could be looked at, with their times.
pub open spec fn readable_candidates(found: Seq<Result<Candidate, std::io::Error>>) -> Seq<
    (Seq<char>, Option<DateTime>),
> {
    candidates_view(ok_candidates(found))
}

/// The backups that could not all be looked at.
pub open spec fn any_unreadable(found: Seq<Result<Candidate, std::io::Error>>) -> bool {
    exists|i: int| 0 <= i < found.len() && (#[trigger] found[i]) is Err
}

/// The paths and times of candidates.
pub open spec fn candidates_view(c: Seq<Candidate>) -> Seq<(Seq<char>, Option<DateTime>)> {
    c.map_values(|x: Candidate| (x.path@, x.time))
}

/// The backups found in one place (a backup file, or a directory of
/// backups), each with the time it was probably made at, in the order they
/// were found.
pub struct BackupIterator {
    found: Vec<Result<Candidate, std::io::Error>>,
}

impl BackupIterator {
    /// The backups found, in order.
    pub closed spec fn found(&self) -> Seq<Result<Candidate, std::io::Error>> {
        self.found@
    }

    /// The backups found, in order (each a backup or the error of looking at it).
    pub fn new(found: Vec<Result<Candidate, std::io::Error>>) -> (r: Self)
        ensures
            r.found() == found@,
    {
        BackupIterator { found }
    }

    /// The readable backups, with their times.
    fn readable(self) -> (r: Vec<Candidate>)
        ensures
            r@ == ok_candidates(self.found()),
    {
        let ghost orig = self.found@;
        let mut found = self.found;
        let mut rev: Vec<Candidate> = Vec::new();
        while found.len() > 0
            invariant
                ok_candidates(orig) == ok_candidates(found@) + rev@.reverse(),
            decreases found.len(),
        {
            let ghost before = found@;
            let item = found.pop().unwrap();
            assert(before.drop_last() =~= found@);
            match item {
                Ok(c) => {
                    let ghost prev = rev@;
                    rev.push(c);
                    assert(rev@.reverse() =~= seq![c] + prev.reverse());
                },
                Err(_) => {},
            }
        }
        let mut out: Vec<Candidate> = Vec::new();
        while rev.len() > 0
            invariant
                ok_candidates(orig) == out@ + rev@.reverse(),
            decreases rev.len(),
        {
            let ghost before = rev@;
            let c = rev.pop().unwrap();
            assert(before =~= rev@.push(c));
            out.push(c);
            assert(before.reverse() =~= seq![c] + rev@.reverse());
        }
        assert(ok_candidates(found@) =~= Seq::<Candidate>::empty());
        assert(rev@.reverse() =~= Seq::<Candidate>::empty());
        assert(out@ =~= ok_candidates(orig));
        out
    }

    /// The latest of the given candidates.
    fn latest_of(c: &Vec<Candidate>) -> (r: Option<String>)
        ensures
            r matches Some(p) ==> spec_latest(candidates_view(c@)) == Some(p@),
            r is None ==> spec_latest(candidates_view(c@)) is None,
    {
        if c.len() == 0 {
            return None;
        }
        let ghost cv = candidates_view(c@);
        let mut best: usize = 0;
        let mut i: usize = 1;
        while i < c.len()
            invariant
                1 <= i <= c@.len(),
                best < i,
                cv == candidates_view(c@),
                best == last_max_index(cv.take(i as int)),
            decreases c.len() - i,
        {
            assert(cv.take(i + 1).drop_last() =~= cv.take(i as int));
            assert(cv.take(i + 1).last() == cv[i as int]);
            assert(cv.take(i as int)[best as int] == cv[best as int]);
            if !opt_is_before(&c[i].time, &c[best].time) {
                best = i;
            }
            i = i + 1;
        }
        assert(cv.take(c.len() as int) =~= cv);
        Some(string_from_chars(chars_of(c[best].path.as_str()).as_slice()))
    }

    /// The latest readable backup (the last found of the equally late ones).
    pub fn get_latest(self) -> (r: Option<String>)
        ensures
            r matches Some(p) ==> spec_latest(readable_candidates(self.found())) == Some(p@),
            r is None ==> spec_latest(readable_candidates(self.found())) is None,
    {
        let c = self.readable();
        Self::latest_of(&c)
    }

    /// The latest readable backup made before `time` (the last found of the
    /// equally late ones).
    pub fn get_previous(self, time: Option<DateTime>) -> (r: Option<String>)
        ensures
            r matches Some(p) ==> spec_latest(spec_earlier(readable_candidates(self.found()), time))
                == Some(p@),
            r is None ==> spec_latest(spec_earlier(readable_candidates(self.found()), time)) is None,
    {
        let c = self.readable();
        let ghost cv = candidates_view(c@);
        let mut rest = c;
        let mut rev: Vec<Candidate> = Vec::new();
        while rest.len() > 0
            invariant
                spec_earlier(cv, time) == spec_earlier(candidates_view(rest@), time)
                    + candidates_view(rev@).reverse(),
            decreases rest.len(),
        {
            let ghost before = rest@;
            let x = rest.pop().unwrap();
            assert(candidates_view(before).drop_last() =~= candidates_view(rest@));
            assert(candidates_view(before).last() == (x.path@, x.time));
            if opt_is_before(&x.time, &time) {
                let ghost prev = rev@;
                rev.push(x);
                assert(candidates_view(rev@).reverse() =~= seq![(x.path@, x.time)]
                    + candidates_view(prev).reverse());
            }
        }
        assert(spec_earlier(candidates_view(rest@), time) =~= Seq::<
            (Seq<char>, Option<DateTime>),
        >::empty());
        let mut earlier: Vec<Candidate> = Vec::new();
        while rev.len() > 0
            invariant
                spec_earlier(cv, time) == candidates_view(earlier@) + candidates_view(
                    rev@,
                ).reverse(),
            decreases rev.len(),
        {
            let ghost before = rev@;
            let x = rev.pop().unwrap();
            assert(before =~= rev@.push(x));
            let ghost prev = earlier@;
            earlier.push(x);
            assert(candidates_view(before).reverse() =~= seq![(x.path@, x.time)]
                + candidates_view(rev@).reverse());
            assert(candidates_view(earlier@) =~= candidates_view(prev).push((x.path@, x.time)));
        }
        assert(candidates_view(rev@).reverse() =~= Seq::<(Seq<char>, Option<DateTime>)>::empty());
        assert(candidates_view(earlier@) =~= spec_earlier(cv, time));
        Self::latest_of(&earlier)
    }

    /// All backups in chronological order, or the first error of looking at one.
    pub fn get_all(self) -> (r: Result<Vec<String>, std::io::Error>)
        ensures
            r is Err <==> any_unreadable(self.found()),
            r matches Ok(v) ==> exists|s: Seq<Candidate>|
                {
                    &&& #[trigger] s.to_multiset() == ok_candidates(self.found()).to_multiset()
                    &&& sorted_by_key(s)
                    &&& v@.map_values(|p: String| p@) == s.map_values(|x: Candidate| x.path@)
                },
    {
        let ghost orig = self.found@;
        let mut found = self.found;
        let mut rev: Vec<Result<Candidate, std::io::Error>> = Vec::new();
        assert(orig.len() == found.len());
        while found.len() > 0
            invariant
                orig == found@ + rev@.reverse(),
                orig == self.found(),
                orig.len() <= usize::MAX,
            decreases found.len(),
        {
            let ghost before = found@;
            let x = found.pop().unwrap();
            assert(before =~= found@.push(x));
            let ghost prev = rev@;
            rev.push(x);
            assert(rev@.reverse() =~= seq![x] + prev.reverse());
        }
        assert(rev@.reverse() =~= orig);
        let mut ok: Vec<Candidate> = Vec::new();
        let mut n: usize = 0;
        while rev.len() > 0
            invariant
                n + rev@.len() == orig.len(),
                orig == self.found(),
                orig.len() <= usize::MAX,
                orig == orig.take(n as int) + rev@.reverse(),
                forall|k: int| 0 <= k < n ==> (#[trigger] orig[k]) is Ok,
                ok@ == ok_candidates(orig.take(n as int)),
            decreases rev.len(),
        {
            let ghost before = rev@;
            let x = rev.pop().unwrap();
            assert(before =~= rev@.push(x));
            assert(before.reverse() =~= seq![x] + rev@.reverse());
            assert(orig[n as int] == x) by {
                assert((orig.take(n as int) + before.reverse())[n as int] == x);
            }
            assert(orig.take(n + 1) =~= orig.take(n as int).push(x));
            assert(orig.take(n + 1).drop_last() =~= orig.take(n as int));
            match x {
                Err(e) => {
                    return Err(e);
                },
                Ok(c) => {
                    ok.push(c);
                },
            }
            assert(orig == orig.take(n + 1) + rev@.reverse());
            n = n + 1;
        }
        assert(orig.take(n as int) =~= orig);
        assert(!any_unreadable(orig));
        let sorted = sort_by_key(ok);
        let mut out: Vec<String> = Vec::new();
        let mut k: usize = 0;
        while k < sorted.len()
            invariant
                k <= sorted@.len(),
                out@.map_values(|p: String| p@) == sorted@.take(k as int).map_values(
                    |x: Candidate| x.path@,
                ),
            decreases sorted.len() - k,
        {
            let p = string_from_chars(chars_of(sorted[k].path.as_str()).as_slice());
            let ghost prev = out@;
            out.push(p);
            assert(sorted@.take(k + 1) =~= sorted@.take(k as int).push(sorted@[k as int]));
            assert(out@.map_values(|p: String| p@) =~= prev.map_values(|p: String| p@).push(
                sorted@[k as int].path@,
            ));
            k = k + 1;
        }
        assert(sorted@.take(sorted@.len() as int) =~= sorted@);
        Ok(out)
    }
}

/// The order of optional times is a strict weak order: never before itself,
/// and "not before" chains.
proof fn lemma_opt_before_order(a: Option<DateTime>, b: Option<DateTime>, c: Option<DateTime>)
    ensures
        !opt_before(a, a),
        opt_before(a, b) ==> !opt_before(b, a),
        !opt_before(a, b) && !opt_before(b, c) ==> !opt_before(a, c),
{
    if a is Some {
        lemma_before_irreflexive(a->0);
    }
    if a is Some && b is Some {
        lemma_before_trichotomy(a->0, b->0);
        if a->0.before(b->0) && b->0.before(a->0) {
            lemma_before_transitive(a->0, b->0, a->0);
        }
    }
    if a is Some && b is Some && c is Some {
        lemma_before_trichotomy(a->0, b->0);
        lemma_before_trichotomy(b->0, c->0);
        lemma_before_trichotomy(a->0, c->0);
        if a->0.before(c->0) && c->0.before(b->0) {
            lemma_before_transitive(a->0, c->0, b->0);
        }
        if b->0.before(a->0) && a->0.before(c->0) {
            lemma_before_transitive(b->0, a->0, c->0);
        }
    }
}

/// The latest backup is one of those found, and none found was made after it.
pub proof fn lemma_latest_is_newest(c: Seq<(Seq<char>, Option<DateTime>)>)
    requires
        c.len() > 0,
    ensures
        0 <= last_max_index(c) < c.len(),
        spec_latest(c) == Some(c[last_max_index(c)].0),
        forall|i: int| 0 <= i < c.len() ==> !opt_before(c[last_max_index(c)].1, #[trigger] c[i].1),
    decreases c.len(),
{
    if c.len() == 1 {
        lemma_opt_before_order(c[0].1, c[0].1, c[0].1);
    } else {
        let d = c.drop_last();
        lemma_latest_is_newest(d);
        let j = last_max_index(d);
        let l = c.len() - 1;
        assert forall|i: int| 0 <= i < c.len() implies !opt_before(c[last_max_index(c)].1, #[trigger] c[i].1) by {
            if i < l {
                assert(c[i] == d[i]);
                assert(!opt_before(d[j].1, d[i].1));
            }
            lemma_opt_before_order(c[l].1, c[j].1, c[i].1);
            lemma_opt_before_order(c[j].1, c[l].1, c[i].1);
            lemma_opt_before_order(c[i].1, c[i].1, c[i].1);
        }
    }
}

/// The backups made before a time are backups found, made before it, in the
/// order they were found; every backup found that was made before it is one
/// of them.
pub proof fn lemma_earlier_are_before(c: Seq<(Seq<char>, Option<DateTime>)>, time: Option<DateTime>)
    ensures
        forall|k: int| 0 <= k < spec_earlier(c, time).len() ==> opt_before(
            #[trigger] spec_earlier(c, time)[k].1,
            time,
        ) && c.contains(spec_earlier(c, time)[k]),
        forall|i: int| 0 <= i < c.len() && opt_before(#[trigger] c[i].1, time) ==> spec_earlier(
            c,
            time,
        ).contains(c[i]),
    decreases c.len(),
{
    if c.len() > 0 {
        let d = c.drop_last();
        lemma_earlier_are_before(d, time);
        let e = spec_earlier(c, time);
        let ed = spec_earlier(d, time);
        assert(e == if opt_before(c.last().1, time) {
            ed.push(c.last())
        } else {
            ed
        });
        assert forall|k: int| 0 <= k < e.len() implies opt_before(#[trigger] e[k].1, time)
            && c.contains(e[k]) by {
            if k < ed.len() {
                assert(e[k] == ed[k]);
                assert(opt_before(ed[k].1, time));
                assert(d.contains(ed[k]));
                let m = choose|m: int| 0 <= m < d.len() && d[m] == ed[k];
                assert(c[m] == d[m]);
            } else {
                assert(e[k] == c.last());
                assert(c[c.len() - 1] == c.last());
            }
        }
        assert forall|i: int| 0 <= i < c.len() && opt_before(#[trigger] c[i].1, time) implies e.contains(c[i]) by {
            if i < c.len() - 1 {
                assert(c[i] == d[i]);
                assert(ed.contains(d[i]));
                let m = choose|m: int| 0 <= m < ed.len() && ed[m] == d[i];
                assert(e[m] == ed[m]);
            } else {
                assert(e[e.len() - 1] == c.last());
            }
        }
    }
}

proof fn lemma_trim_start_head(s: Seq<char>, c: char)
    ensures
        trim_start(s, c).len() == 0 || trim_start(s, c)[0] != c,
    decreases s.len(),
{
    if s.len() > 0 && s[0] == c {
        lemma_trim_start_head(s.drop_first(), c);
    }
}

/// A path made relative does not start at the root.
pub proof fn lemma_stripped_is_relative(path: Seq<char>)
    ensures
        spec_strip_absolute(path).len() == 0 || spec_strip_absolute(path)[0] != '/',
{
    lemma_trim_start_head(trim_start(path, '.'), '/');
}

} // verus!
