//! Backups: the names inside an archive, and the rules for reading, restoring
//! and merging backups.
use vstd::prelude::*;

use crate::compression::{path_from_archive, spec_path_from_archive};
use crate::config::{is_output_file_path, texts, Config};
use crate::datetime::{spec_format_datetime, BACKUP_NAME_FORMAT};
use crate::paths::spec_join;
use crate::utils::{
    readable_candidates, spec_earlier, spec_latest, spec_time_from_name, time_from_name,
    BackupIterator,
};
use crate::datetime::{lemma_before_trichotomy, opt_before, opt_is_before, DateTime};
use crate::errors::BackupError;
use crate::files::FileInfo;
use crate::lists::{version_of_name, spec_entries, FileListString, FileListVec, record_entries};
use crate::merge::{lists_view, merge_lists, spec_merge, walk_ok, CopyWalk};
use crate::sort::{sort_by_key, sorted_by_key, SortKey};
use crate::text::{
    copy_string, lemma_text_lt_asymmetric, lemma_text_lt_irreflexive, lemma_text_lt_transitive,
    lemma_text_trichotomy, str_equal, str_less, text_le, text_lt,
};

verus! {

broadcast use vstd::seq_lib::group_to_multiset_ensures;

/// The extension of a backup archive.
pub const BACKUP_FILE_EXTENSION: &'static str = ".tar.zst";

/// The name of the config stored first in a backup.
pub const CONFIG_DEFAULT_NAME: &'static str = "config.yml";

/// The extension of a config file.
pub const CONFIG_FILE_EXTENSION: &'static str = ".yml";

/// The message of a merge of fewer than two backups.
pub const MERGE_TOO_FEW: &'static str = "At least two backups are needed for merging";

/// A backup archive and what has been read of it: its config and its file list.
#[derive(Debug)]
pub struct BackupReader {
    pub path: FileInfo,
    pub config: Option<Config>,
    pub list: Option<FileListString>,
}

/// The time a backup was made, as its config records it.
pub open spec fn reader_time(r: BackupReader) -> Option<DateTime> {
    match r.config {
        Some(c) => c.time,
        None => None,
    }
}

/// The config and the file list of a backup have been read, the config
/// holds the backup time and the file list can be read.
pub open spec fn meta_ready(r: BackupReader) -> bool {
    &&& r.config matches Some(c) && c.time is Some
    &&& r.list matches Some(l) && l.entries_readable()
}

impl BackupReader {
    /// A backup at the given path, nothing read yet.
    pub fn new(path: String) -> (r: Self)
        ensures
            r.path@ == path@,
            r.config is None,
            r.list is None,
    {
        BackupReader { path: FileInfo::from_string(path), config: None, list: None }
    }

    /// The latest backup of a config (found on disk as `latest`), with that
    /// config; no backup when none was found.
    pub fn from_config(config: Config, latest: Option<String>) -> (r: Result<Self, BackupError>)
        ensures
            latest is None ==> (r matches Err(BackupError::NoBackup(p)) && p@ == config.output@),
            latest matches Some(l) ==> (r matches Ok(b) && b.path@ == l@ && b.config == Some(config)
                && b.list is None),
    {
        match latest {
            None => Err(BackupError::NoBackup(config.output)),
            Some(prev) => Ok(BackupReader {
                path: FileInfo::from_string(prev),
                config: Some(config),
                list: None,
            }),
        }
    }

    /// Checks that the first entry of the archive (by its stored name) is the config.
    pub fn check_config_entry(&self, entry_name: &str) -> (r: Result<(), BackupError>)
        ensures
            r is Ok <==> spec_path_from_archive(entry_name@) == CONFIG_DEFAULT_NAME@,
            r matches Err(e) ==> (e matches BackupError::NoConfig(p) && p@ == self.path@),
    {
        let fi = path_from_archive(entry_name);
        if str_equal(fi.get_string().as_str(), CONFIG_DEFAULT_NAME) {
            Ok(())
        } else {
            Err(BackupError::NoConfig(self.path.clone_path()))
        }
    }

    /// Keeps the config read from the archive, remembered as coming from it.
    pub fn set_config(&mut self, config: Config)
        ensures
            final(self).path == old(self).path,
            final(self).list == old(self).list,
            final(self).config matches Some(c) && c.origin@ == old(self).path@ && c.includes
                == config.includes && c.exclude == config.exclude && c.regex == config.regex
                && c.output == config.output && c.incremental == config.incremental && c.quality
                == config.quality && c.local == config.local && c.threads == config.threads
                && c.time == config.time && c.link_depth == config.link_depth,
    {
        let mut conf = config;
        conf.origin = self.path.clone_path();
        self.config = Some(conf);
    }

    /// Keeps the file list read from the archive entry of the given stored
    /// name; an entry of another name means the list is missing.
    pub fn parse_list(&mut self, entry_name: &str, content: String) -> (r: Result<(), BackupError>)
        ensures
            final(self).path == old(self).path,
            final(self).config == old(self).config,
            r is Ok <==> version_of_name(spec_path_from_archive(entry_name@)) is Some,
            r is Ok ==> (final(self).list matches Some(l) && l.content() == content@ && Some(
                l.version(),
            ) == version_of_name(spec_path_from_archive(entry_name@))),
            r is Err ==> final(self).list == old(self).list,
            r matches Err(e) ==> (e matches BackupError::NoList(p) && p@ == old(self).path@),
    {
        let fi = path_from_archive(entry_name);
        match FileListString::new(fi.get_string().as_str(), content) {
            Ok(l) => {
                self.list = Some(l);
                Ok(())
            },
            Err(_) => Err(BackupError::NoList(self.path.clone_path())),
        }
    }

    /// Takes the file list out.
    pub fn move_list(&mut self) -> (r: Option<FileListString>)
        ensures
            r == old(self).list,
            final(self).list is None,
            final(self).path == old(self).path,
            final(self).config == old(self).config,
    {
        let mut l: Option<FileListString> = None;
        std::mem::swap(&mut l, &mut self.list);
        l
    }

    /// The time this backup was probably made at: as its file name tells
    /// it, else as its config records it.
    pub open spec fn probable_time(&self) -> Option<DateTime> {
        match spec_time_from_name(self.path@) {
            Some(t) => Some(t),
            None => reader_time(*self),
        }
    }

    /// The backup this one was made on top of, among the backups found in
    /// its backup directory: none unless this backup is incremental (as its
    /// config, read already, tells), else the latest made before it.
    pub fn get_previous(&self, backups: BackupIterator) -> (r: Option<BackupReader>)
        requires
            self.config is Some,
        ensures
            !self.config->0.incremental ==> r is None,
            self.config->0.incremental ==> match spec_latest(
                spec_earlier(readable_candidates(backups.found()), self.probable_time()),
            ) {
                Some(p) => r matches Some(b) && b.path@ == p && b.config is None && b.list is None,
                None => r is None,
            },
    {
        let incremental = match &self.config {
            Some(c) => c.incremental,
            None => false,
        };
        if !incremental {
            return None;
        }
        let time = match time_from_name(self.path.get_string().as_str()) {
            Some(t) => Some(t),
            None => match &self.config {
                Some(c) => c.time,
                None => None,
            },
        };
        match backups.get_previous(time) {
            Some(p) => Some(BackupReader::new(p)),
            None => None,
        }
    }

    /// Whether the backup is incremental, once its config has been read.
    pub fn check_incremental(&self) -> (r: Option<bool>)
        ensures
            self.config matches Some(c) ==> r == Some(c.incremental),
            self.config is None ==> r is None,
    {
        match &self.config {
            Some(c) => Some(c.incremental),
            None => None,
        }
    }
}

/// The time files must have changed at or after to go into a new backup:
/// none unless the backup is incremental; then the time the config gives,
/// else the time the config of the latest backup (`latest`, when one was
/// found) records.
pub open spec fn spec_prev_time(
    incremental: bool,
    time: Option<DateTime>,
    latest: Option<Result<Config, BackupError>>,
) -> Option<DateTime> {
    if !incremental {
        None
    } else {
        match time {
            Some(t) => Some(t),
            None => match latest {
                Some(Ok(c)) => c.time,
                _ => None,
            },
        }
    }
}

/// The paths of the records that are listed: every record when `all`,
/// else the included ones.
pub open spec fn listed_paths(items: Seq<(bool, FileInfo)>, all: bool) -> Seq<Seq<char>>
    decreases items.len(),
{
    if items.len() == 0 {
        Seq::<Seq<char>>::empty()
    } else {
        let rest = listed_paths(items.drop_last(), all);
        if all || items.last().0 {
            rest.push(items.last().1@)
        } else {
            rest
        }
    }
}

/// The paths of the records of a list that are listed (see `listed_paths`).
pub fn list_paths(list: &FileListVec, all: bool) -> (r: Vec<String>)
    ensures
        texts(r@) == listed_paths(list.items(), all),
{
    let mut out: Vec<String> = Vec::new();
    let ghost items = list.items();
    let mut i: usize = 0;
    while i < list.len()
        invariant
            i <= items.len(),
            items == list.items(),
            texts(out@) == listed_paths(items.take(i as int), all),
        decreases items.len() - i,
    {
        let item = list.get(i);
        let ghost prev = out@;
        assert(items.take(i + 1).drop_last() =~= items.take(i as int));
        assert(items.take(i + 1).last() == items[i as int]);
        if all || item.0 {
            out.push(item.1.copy_string());
            assert(texts(out@) =~= texts(prev).push(item.1@));
        }
        i = i + 1;
    }
    assert(items.take(items.len() as int) =~= items);
    out
}

/// The records of a list that are listed: every record when `all`, else
/// the included ones, in order.
pub open spec fn listed_files(items: Seq<(bool, FileInfo)>, all: bool) -> Seq<FileInfo>
    decreases items.len(),
{
    if items.len() == 0 {
        Seq::<FileInfo>::empty()
    } else {
        let rest = listed_files(items.drop_last(), all);
        if all || items.last().0 {
            rest.push(items.last().1)
        } else {
            rest
        }
    }
}

/// Two lists of files name the same files, with the same times and sizes.
pub open spec fn same_files(a: Seq<FileInfo>, b: Seq<FileInfo>) -> bool {
    &&& a.len() == b.len()
    &&& forall|i: int|
        0 <= i < a.len() ==> (#[trigger] a[i])@ == b[i]@ && a[i].time == b[i].time && a[i].size
            == b[i].size
}

/// Copies of the records of a list that are listed (see `listed_files`).
pub fn list_files(list: &FileListVec, all: bool) -> (r: Vec<FileInfo>)
    ensures
        same_files(r@, listed_files(list.items(), all)),
{
    let mut out: Vec<FileInfo> = Vec::new();
    let ghost items = list.items();
    let mut i: usize = 0;
    while i < list.len()
        invariant
            i <= items.len(),
            items == list.items(),
            same_files(out@, listed_files(items.take(i as int), all)),
        decreases items.len() - i,
    {
        let item = list.get(i);
        let ghost prev = out@;
        assert(items.take(i + 1).drop_last() =~= items.take(i as int));
        assert(items.take(i + 1).last() == items[i as int]);
        if all || item.0 {
            out.push(item.1.duplicate());
        }
        i = i + 1;
    }
    assert(items.take(items.len() as int) =~= items);
    out
}

/// Whether making a backup of a config needs the config of the latest backup
/// made of it (an incremental backup with no time of its own).
pub fn needs_latest(config: &Config) -> (r: bool)
    ensures
        r == (config.incremental && config.time is None),
{
    config.incremental && config.time.is_none()
}

/// A backup being made.
pub struct BackupWriter {
    pub path: String,
    pub config: Config,
    pub prev_time: Option<DateTime>,
    pub list: Option<FileListVec>,
    pub time: DateTime,
}

impl BackupWriter {
    /// A new backup of a config, made at `now`, in the backup directory
    /// `dir` unless the output names the file; `latest` is the config of the
    /// latest backup (or the error of reading it), when one was found and
    /// `needs_latest` asked for it. The error is that of reading it, when
    /// its time was needed.
    pub fn new(
        config: Config,
        now: DateTime,
        dir: &str,
        latest: Option<Result<Config, BackupError>>,
    ) -> (r: (Self, Option<BackupError>))
        requires
            now.valid(),
        ensures
            is_output_file_path(config.output@) ==> r.0.path@ == config.output@,
            !is_output_file_path(config.output@) ==> r.0.path@ == spec_join(
                dir@,
                spec_format_datetime(now, BACKUP_NAME_FORMAT@),
            ),
            r.0.config == config,
            r.0.prev_time == spec_prev_time(config.incremental, config.time, latest),
            r.0.list is None,
            r.0.time == now,
            r.1 is Some <==> (config.incremental && config.time is None && latest matches Some(
                Err(_),
            )),
            r.1 matches Some(e) ==> latest == Some(Err::<Config, BackupError>(e)),
    {
        let (prev_time, error) = if config.incremental {
            match config.time {
                Some(t) => (Some(t), None),
                None => match latest {
                    Some(Ok(c)) => (c.time, None),
                    Some(Err(e)) => (None, Some(e)),
                    None => (None, None),
                },
            }
        } else {
            (None, None)
        };
        let path = config.get_new_output(&now, dir);
        (BackupWriter { path, config, prev_time, list: None, time: now }, error)
    }

    /// Whether every file found is listed, not only those that changed since
    /// the previous backup: when asked, or when there is no previous backup.
    pub fn shows_all(&self, all: bool) -> (r: bool)
        ensures
            r == (all || self.prev_time is None),
    {
        all || self.prev_time.is_none()
    }

    /// Keeps the list of the files found.
    pub fn set_list(&mut self, list: FileListVec)
        ensures
            final(self).list == Some(list),
            final(self).path == old(self).path,
            final(self).config == old(self).config,
            final(self).prev_time == old(self).prev_time,
            final(self).time == old(self).time,
    {
        self.list = Some(list);
    }

    /// The files listed (see `shows_all`), in order.
    pub fn listed(&self, all: bool) -> (r: Vec<FileInfo>)
        requires
            self.list is Some,
        ensures
            same_files(r@, listed_files(self.list->0.items(), all || self.prev_time is None)),
    {
        let every = self.shows_all(all);
        match &self.list {
            Some(l) => list_files(l, every),
            None => Vec::new(),
        }
    }

    /// The files that go into the backup, in order.
    pub fn files_to_add(&self) -> (r: Vec<FileInfo>)
        requires
            self.list is Some,
        ensures
            same_files(r@, listed_files(self.list->0.items(), false)),
    {
        match &self.list {
            Some(l) => list_files(l, false),
            None => Vec::new(),
        }
    }

    /// The config stored in the backup: the backup's, with the time the
    /// backup is made at, which the writer keeps too.
    pub fn stored_config(&mut self) -> (r: Config)
        ensures
            final(self).config.time == Some(old(self).time),
            r.time == Some(old(self).time),
            texts(r.includes@) == texts(old(self).config.includes@),
            texts(r.exclude@) == texts(old(self).config.exclude@),
            texts(r.regex@) == texts(old(self).config.regex@),
            r.output@ == old(self).config.output@,
            r.incremental == old(self).config.incremental,
            r.quality == old(self).config.quality,
            r.local == old(self).config.local,
            r.threads == old(self).config.threads,
            r.link_depth == old(self).config.link_depth,
            r.origin@ == old(self).config.origin@,
            final(self).path == old(self).path,
            final(self).prev_time == old(self).prev_time,
            final(self).list == old(self).list,
            final(self).time == old(self).time,
    {
        self.config.time = Some(self.time);
        self.config.duplicate()
    }
}

/// Backups are ordered by their paths.
impl SortKey for BackupReader {
    open spec fn key_le(&self, other: &Self) -> bool {
        text_le(self.path@, other.path@)
    }

    proof fn lemma_key_le_total(a: &Self, b: &Self) {
        lemma_text_trichotomy(a.path@, b.path@);
    }

    proof fn lemma_key_le_transitive(a: &Self, b: &Self, c: &Self) {
        if text_lt(a.path@, b.path@) && text_lt(b.path@, c.path@) {
            lemma_text_lt_transitive(a.path@, b.path@, c.path@);
        }
    }

    fn less_or_equal(&self, other: &Self) -> (r: bool) {
        let r = !str_less(other.path.get_string().as_str(), self.path.get_string().as_str());
        proof {
            lemma_text_trichotomy(self.path@, other.path@);
            lemma_text_lt_asymmetric(self.path@, other.path@);
            lemma_text_lt_irreflexive(self.path@);
        }
        r
    }
}

/// Newer backups first; of backups made at the same time, the later path first.
pub open spec fn newer_first(a: BackupReader, b: BackupReader) -> bool {
    opt_before(reader_time(b), reader_time(a)) || (reader_time(a) == reader_time(b) && text_lt(
        b.path@,
        a.path@,
    ))
}

/// A backup, ordered newest first.
pub struct NewestFirst(pub BackupReader);

impl SortKey for NewestFirst {
    open spec fn key_le(&self, other: &Self) -> bool {
        !newer_first(other.0, self.0)
    }

    proof fn lemma_key_le_total(a: &Self, b: &Self) {
        lemma_text_trichotomy(a.0.path@, b.0.path@);
        lemma_text_lt_asymmetric(a.0.path@, b.0.path@);
        if reader_time(a.0) is Some && reader_time(b.0) is Some {
            lemma_before_trichotomy(reader_time(a.0)->0, reader_time(b.0)->0);
        }
    }

    proof fn lemma_key_le_transitive(a: &Self, b: &Self, c: &Self) {
        let (x, y, z) = (a.0, b.0, c.0);
        lemma_text_trichotomy(x.path@, y.path@);
        lemma_text_trichotomy(y.path@, z.path@);
        lemma_text_trichotomy(x.path@, z.path@);
        lemma_text_lt_asymmetric(x.path@, y.path@);
        lemma_text_lt_asymmetric(y.path@, z.path@);
        lemma_text_lt_asymmetric(x.path@, z.path@);
        if text_lt(z.path@, y.path@) && text_lt(y.path@, x.path@) {
            lemma_text_lt_transitive(z.path@, y.path@, x.path@);
        }
        if text_lt(y.path@, x.path@) && text_lt(x.path@, z.path@) {
            lemma_text_lt_transitive(y.path@, x.path@, z.path@);
        }
        if text_lt(z.path@, x.path@) && text_lt(x.path@, y.path@) {
            lemma_text_lt_transitive(z.path@, x.path@, y.path@);
        }
        if reader_time(x) is Some && reader_time(y) is Some {
            lemma_before_trichotomy(reader_time(x)->0, reader_time(y)->0);
        }
        if reader_time(y) is Some && reader_time(z) is Some {
            lemma_before_trichotomy(reader_time(y)->0, reader_time(z)->0);
        }
        if reader_time(x) is Some && reader_time(z) is Some {
            lemma_before_trichotomy(reader_time(x)->0, reader_time(z)->0);
        }
    }

    fn less_or_equal(&self, other: &Self) -> (r: bool) {
        let ta = match &self.0.config {
            Some(c) => c.time,
            None => None,
        };
        let tb = match &other.0.config {
            Some(c) => c.time,
            None => None,
        };
        let newer = opt_is_before(&ta, &tb) || (ta == tb && str_less(
            self.0.path.get_string().as_str(),
            other.0.path.get_string().as_str(),
        ));
        !newer
    }
}

/// The entries of the file lists of backups, in order.
pub open spec fn reader_lists(rs: Seq<BackupReader>) -> Seq<Seq<(bool, Seq<char>)>> {
    rs.map_values(|r: BackupReader| spec_entries(r.list->0.version(), r.list->0.content()))
}

/// Every backup of `part` is one of `whole`.
pub open spec fn drawn_from(part: Seq<BackupReader>, whole: Seq<BackupReader>) -> bool {
    forall|i: int| 0 <= i < part.len() ==> whole.contains(#[trigger] part[i])
}

/// Every path of a backup of `whole` is the path of a backup of `part`.
pub open spec fn covers_paths(part: Seq<BackupReader>, whole: Seq<BackupReader>) -> bool {
    forall|j: int|
        0 <= j < whole.len() ==> exists|i: int|
            0 <= i < part.len() && (#[trigger] part[i]).path@ == (#[trigger] whole[j]).path@
}

/// Backups ordered newest first (among backups of equal times, by path).
pub open spec fn newest_first_order(rs: Seq<BackupReader>) -> bool {
    forall|i: int, k: int| #![trigger rs[i], rs[k]] 0 <= i < k < rs.len() ==> newer_first(rs[i], rs[k])
}

/// No two backups have the same path.
pub open spec fn distinct_paths(rs: Seq<BackupReader>) -> bool {
    forall|i: int, k: int| #![trigger rs[i], rs[k]] 0 <= i < k < rs.len() ==> rs[i].path@ != rs[k].path@
}

/// Where the merged backup, once written at its temporary path, ends up.
#[derive(PartialEq, Eq, Structural, Debug, Clone, Copy)]
pub enum Placement {
    /// It was written at its path already.
    InPlace,
    /// It is moved to its path.
    Move,
    /// The file at its path is removed, then it is moved there.
    Replace,
}

/// Backups being merged into one.
pub struct BackupMerger {
    pub path: String,
    pub tmp_path: String,
    pub readers: Vec<BackupReader>,
    pub files: FileListVec,
    pub delete: bool,
    pub overwrite: bool,
    pub quality: Option<i32>,
    pub threads: Option<u32>,
}

/// One backup of each path, from backups sorted by path.
fn dedup_paths(sorted: Vec<BackupReader>) -> (r: Vec<BackupReader>)
    requires
        sorted_by_key(sorted@),
    ensures
        drawn_from(r@, sorted@),
        covers_paths(r@, sorted@),
        forall|i: int, k: int| #![trigger r@[i], r@[k]] 0 <= i < k < r@.len() ==> text_lt(r@[i].path@, r@[k].path@),
        r@.len() <= sorted@.len(),
{
    let ghost orig = sorted@;
    let total = sorted.len();
    assert(orig.len() == total);
    let mut rev: Vec<BackupReader> = Vec::new();
    let mut rest = sorted;
    while rest.len() > 0
        invariant
            orig == rest@ + rev@.reverse(),
            orig.len() <= usize::MAX,
        decreases rest.len(),
    {
        let ghost before = rest@;
        let x = rest.pop().unwrap();
        assert(before =~= rest@.push(x));
        let ghost prev = rev@;
        rev.push(x);
        assert(rev@.reverse() =~= seq![x] + prev.reverse());
    }
    assert(rev@.reverse() =~= orig);
    let mut out: Vec<BackupReader> = Vec::new();
    let mut n: usize = 0;
    while rev.len() > 0
        invariant
            n + rev@.len() == orig.len(),
            orig.len() <= usize::MAX,
            orig == orig.take(n as int) + rev@.reverse(),
            sorted_by_key(orig),
            drawn_from(out@, orig),
            covers_paths(out@, orig.take(n as int)),
            out@.len() <= n,
            forall|i: int, k: int| #![trigger out@[i], out@[k]] 0 <= i < k < out@.len() ==> text_lt(out@[i].path@, out@[k].path@),
            out@.len() > 0 ==> n > 0 && out@.last().path@ == orig[n - 1].path@,
        decreases rev.len(),
    {
        let ghost before = rev@;
        let x = rev.pop().unwrap();
        assert(before =~= rev@.push(x));
        assert(before.reverse() =~= seq![x] + rev@.reverse());
        assert(orig[n as int] == x) by {
            assert((orig.take(n as int) + before.reverse())[n as int] == x);
        }
        let keep = out.len() == 0 || !str_equal(
            out[out.len() - 1].path.get_string().as_str(),
            x.path.get_string().as_str(),
        );
        let ghost prev = out@;
        if keep {
            proof {
                if prev.len() > 0 {
                    assert(orig[n - 1].key_le(&orig[n as int]));
                }
                assert(orig.contains(x)) by {
                    assert(orig[n as int] == x);
                }
            }
            out.push(x);
            assert forall|i: int, k: int| #![trigger out@[i], out@[k]] 0 <= i < k < out@.len() implies text_lt(out@[i].path@, out@[k].path@) by {
                if k == out@.len() - 1 && i < k {
                    if i < k - 1 {
                        assert(text_lt(prev[i].path@, prev.last().path@));
                        lemma_text_lt_transitive(prev[i].path@, prev.last().path@, x.path@);
                    }
                }
            }
        }
        assert(orig.take(n + 1) =~= orig.take(n as int).push(x));
        assert forall|j: int| 0 <= j < orig.take(n + 1).len() implies exists|i: int|
            0 <= i < out@.len() && (#[trigger] out@[i]).path@ == (#[trigger] orig.take(n + 1)[j]).path@ by {
            if j < n {
                assert(orig.take(n + 1)[j] == orig.take(n as int)[j]);
                let i = choose|i: int| 0 <= i < prev.len() && (#[trigger] prev[i]).path@ == (#[trigger] orig.take(n as int)[j]).path@;
                assert(out@[i] == prev[i]);
            } else {
                assert(out@[out@.len() - 1].path@ == x.path@);
            }
        }
        assert(orig == orig.take(n + 1) + rev@.reverse());
        n = n + 1;
    }
    assert(orig.take(n as int) =~= orig);
    out
}

/// The backups ordered newest first.
fn order_newest_first(unique: Vec<BackupReader>) -> (r: Vec<BackupReader>)
    requires
        forall|i: int, k: int| #![trigger unique@[i], unique@[k]] 0 <= i < k < unique@.len() ==> text_lt(unique@[i].path@, unique@[k].path@),
    ensures
        drawn_from(r@, unique@),
        forall|j: int| 0 <= j < unique@.len() ==> r@.contains(#[trigger] unique@[j]),
        newest_first_order(r@),
        distinct_paths(r@),
{
    let ghost uq = unique@;
    let mut wrapped: Vec<NewestFirst> = Vec::new();
    let mut rest = unique;
    let mut rev: Vec<BackupReader> = Vec::new();
    while rest.len() > 0
        invariant
            uq == rest@ + rev@.reverse(),
        decreases rest.len(),
    {
        let ghost before = rest@;
        let x = rest.pop().unwrap();
        assert(before =~= rest@.push(x));
        let ghost prev = rev@;
        rev.push(x);
        assert(rev@.reverse() =~= seq![x] + prev.reverse());
    }
    assert(rev@.reverse() =~= uq);
    while rev.len() > 0
        invariant
            uq == wrapped@.map_values(|w: NewestFirst| w.0) + rev@.reverse(),
        decreases rev.len(),
    {
        let ghost before = rev@;
        let x = rev.pop().unwrap();
        assert(before =~= rev@.push(x));
        assert(before.reverse() =~= seq![x] + rev@.reverse());
        let ghost prev = wrapped@;
        wrapped.push(NewestFirst(x));
        assert(wrapped@.map_values(|w: NewestFirst| w.0) =~= prev.map_values(|w: NewestFirst| w.0).push(x));
    }
    assert(wrapped@.map_values(|w: NewestFirst| w.0) =~= uq);
    let ghost wq = wrapped@;
    let mut ordered = sort_by_key(wrapped);
    let ghost ow = ordered@;
    let mut out: Vec<BackupReader> = Vec::new();
    let mut back: Vec<NewestFirst> = Vec::new();
    while ordered.len() > 0
        invariant
            ow == ordered@ + back@.reverse(),
        decreases ordered.len(),
    {
        let ghost before = ordered@;
        let x = ordered.pop().unwrap();
        assert(before =~= ordered@.push(x));
        let ghost prev = back@;
        back.push(x);
        assert(back@.reverse() =~= seq![x] + prev.reverse());
    }
    assert(back@.reverse() =~= ow);
    while back.len() > 0
        invariant
            ow == out@.map_values(|r: BackupReader| NewestFirst(r)) + back@.reverse(),
        decreases back.len(),
    {
        let ghost before = back@;
        let x = back.pop().unwrap();
        assert(before =~= back@.push(x));
        assert(before.reverse() =~= seq![x] + back@.reverse());
        let ghost prev = out@;
        let NewestFirst(rd) = x;
        out.push(rd);
        assert(out@.map_values(|r: BackupReader| NewestFirst(r)) =~= prev.map_values(|r: BackupReader| NewestFirst(r)).push(NewestFirst(rd)));
    }
    let ghost res = out@;
    assert(res.map_values(|r: BackupReader| NewestFirst(r)) =~= ow);
    proof {
        assert forall|i: int| 0 <= i < res.len() implies uq.contains(#[trigger] res[i]) by {
            assert(ow[i] == NewestFirst(res[i]));
            assert(ow.to_multiset().count(ow[i]) > 0);
            assert(wq.contains(ow[i]));
            let j = choose|j: int| 0 <= j < wq.len() && wq[j] == ow[i];
            assert(uq[j] == wq[j].0);
        }
        assert forall|j: int| 0 <= j < uq.len() implies res.contains(#[trigger] uq[j]) by {
            assert(wq[j].0 == uq[j]);
            assert(wq.to_multiset().count(wq[j]) > 0);
            assert(ow.contains(wq[j]));
            let i = choose|i: int| 0 <= i < ow.len() && ow[i] == wq[j];
            assert(res[i] == ow[i].0);
        }
        assert(wq.no_duplicates()) by {
            assert forall|i: int, k: int| 0 <= i < wq.len() && 0 <= k < wq.len() && i != k implies wq[i] != wq[k] by {
                assert(uq[i] == wq[i].0);
                assert(uq[k] == wq[k].0);
                if i < k {
                    assert(text_lt(uq[i].path@, uq[k].path@));
                } else {
                    assert(text_lt(uq[k].path@, uq[i].path@));
                }
                lemma_text_lt_irreflexive(uq[i].path@);
            }
        }
        wq.lemma_multiset_has_no_duplicates();
        ow.lemma_multiset_has_no_duplicates_conv();
        assert forall|i: int, k: int| #![trigger res[i], res[k]] 0 <= i < k < res.len() implies newer_first(res[i], res[k]) && res[i].path@ != res[k].path@ by {
            assert(ow[i].key_le(&ow[k]));
            assert(ow.to_multiset().count(ow[i]) > 0);
            assert(ow.to_multiset().count(ow[k]) > 0);
            assert(wq.contains(ow[i]));
            assert(wq.contains(ow[k]));
            let a = choose|a: int| 0 <= a < wq.len() && wq[a] == ow[i];
            let b = choose|b: int| 0 <= b < wq.len() && wq[b] == ow[k];
            assert(uq[a] == res[i]);
            assert(uq[b] == res[k]);
            assert(a != b);
            if a < b {
                assert(text_lt(uq[a].path@, uq[b].path@));
            } else {
                assert(text_lt(uq[b].path@, uq[a].path@));
            }
            lemma_text_lt_asymmetric(res[i].path@, res[k].path@);
            lemma_text_lt_irreflexive(res[i].path@);
            if reader_time(res[i]) is Some && reader_time(res[k]) is Some {
                lemma_before_trichotomy(reader_time(res[i])->0, reader_time(res[k])->0);
            }
        }
    }
    out
}

/// One backup of each path, newest first.
fn select_readers(readers: Vec<BackupReader>) -> (r: Vec<BackupReader>)
    ensures
        drawn_from(r@, readers@),
        covers_paths(r@, readers@),
        newest_first_order(r@),
        distinct_paths(r@),
{
    let ghost input = readers@;
    let by_path = sort_by_key(readers);
    proof {
        assert forall|i: int| 0 <= i < by_path@.len() implies input.contains(#[trigger] by_path@[i]) by {
            assert(by_path@.to_multiset().count(by_path@[i]) > 0);
        }
        assert forall|j: int| 0 <= j < input.len() implies by_path@.contains(#[trigger] input[j]) by {
            assert(input.to_multiset().count(input[j]) > 0);
        }
    }
    let ghost bp = by_path@;
    let unique = dedup_paths(by_path);
    let ghost uq = unique@;
    let out = order_newest_first(unique);
    proof {
        assert forall|i: int| 0 <= i < out@.len() implies input.contains(#[trigger] out@[i]) by {
            assert(uq.contains(out@[i]));
            let u = choose|u: int| 0 <= u < uq.len() && uq[u] == out@[i];
            assert(bp.contains(uq[u]));
        }
        assert forall|j: int| 0 <= j < input.len() implies exists|i: int|
            0 <= i < out@.len() && (#[trigger] out@[i]).path@ == (#[trigger] input[j]).path@ by {
            assert(bp.contains(input[j]));
            let b = choose|b: int| 0 <= b < bp.len() && bp[b] == input[j];
            let u = choose|u: int| 0 <= u < uq.len() && (#[trigger] uq[u]).path@ == (#[trigger] bp[b]).path@;
            assert(out@.contains(uq[u]));
            let i = choose|i: int| 0 <= i < out@.len() && out@[i] == uq[u];
        }
    }
    out
}

/// The entries of the file lists of backups whose lists can be read.
fn collect_lists(rs: &Vec<BackupReader>) -> (r: Vec<Vec<(bool, String)>>)
    requires
        forall|j: int| 0 <= j < rs@.len() ==> meta_ready(#[trigger] rs@[j]),
    ensures
        lists_view(r@) == reader_lists(rs@),
{
    let mut lists: Vec<Vec<(bool, String)>> = Vec::new();
    let mut i: usize = 0;
    while i < rs.len()
        invariant
            i <= rs@.len(),
            forall|j: int| 0 <= j < rs@.len() ==> meta_ready(#[trigger] rs@[j]),
            lists_view(lists@) == reader_lists(rs@.take(i as int)),
        decreases rs.len() - i,
    {
        assert(meta_ready(rs@[i as int]));
        let l = rs[i].list.as_ref().unwrap();
        let ghost prev = lists@;
        lists.push(l.iter());
        assert(rs@.take(i + 1) =~= rs@.take(i as int).push(rs@[i as int]));
        assert(lists_view(lists@) =~= lists_view(prev).push(
            crate::lists::pairs_view(lists@[i as int]@),
        ));
        i = i + 1;
    }
    assert(rs@.take(rs@.len() as int) =~= rs@);
    lists
}

impl BackupMerger {
    /// Prepares a merge of backups: fewer than two are refused before anything
    /// is read of them; else their configs and file lists have been read. One
    /// backup of each path is kept, newest first; the merged list holds every
    /// file of every backup (when `all`) or the files of the newest backup
    /// (see `merge_lists` and `lemma_merge_all_is_union`); the merged backup
    /// goes to `path`, else replaces the newest backup.
    pub fn new(
        path: Option<String>,
        readers: Vec<BackupReader>,
        all: bool,
        delete: bool,
        overwrite: bool,
        quality: Option<i32>,
        threads: Option<u32>,
    ) -> (r: Result<Self, BackupError>)
        requires
            readers@.len() >= 2 ==> forall|i: int| 0 <= i < readers@.len() ==> meta_ready(#[trigger] readers@[i]),
        ensures
            readers@.len() < 2 ==> (r matches Err(BackupError::GenericError(m)) && m@
                == MERGE_TOO_FEW@),
            readers@.len() >= 2 ==> r is Ok,
            r matches Ok(m) ==> {
                &&& m.readers@.len() >= 1
                &&& drawn_from(m.readers@, readers@)
                &&& covers_paths(m.readers@, readers@)
                &&& newest_first_order(m.readers@)
                &&& distinct_paths(m.readers@)
                &&& record_entries(m.files.items()) == spec_merge(reader_lists(m.readers@), all)
                &&& path matches Some(p) ==> m.path@ == p@
                &&& path is None ==> m.path@ == m.readers@[0].path@
                &&& m.tmp_path@.len() == 0
                &&& m.delete == delete && m.overwrite == overwrite
                &&& m.quality == quality && m.threads == threads
            },
    {
        if readers.len() < 2 {
            return Err(BackupError::GenericError(MERGE_TOO_FEW));
        }
        let ghost input = readers@;
        let out = select_readers(readers);
        assert forall|j: int| 0 <= j < out@.len() implies meta_ready(#[trigger] out@[j]) by {
            assert(input.contains(out@[j]));
        }
        let lists = collect_lists(&out);
        let files = merge_lists(&lists, all);
        assert(out@.len() >= 1) by {
            assert(exists|i: int| 0 <= i < out@.len() && (#[trigger] out@[i]).path@ == (#[trigger] input[0]).path@);
        }
        let path = match path {
            Some(p) => p,
            None => out[0].path.clone_path(),
        };
        Ok(BackupMerger {
            path,
            tmp_path: String::new(),
            readers: out,
            files,
            delete,
            overwrite,
            quality,
            threads,
        })
    }

    /// What becomes of the merged backup written at the temporary path,
    /// given whether a file is at its path: nothing when the two paths are
    /// the same; else it is moved there, removing that file first when
    /// overwriting is allowed; a file there is an error otherwise.
    pub fn placement(&self, target_exists: bool) -> (r: Result<Placement, BackupError>)
        ensures
            self.path@ == self.tmp_path@ ==> r == Ok::<Placement, BackupError>(Placement::InPlace),
            self.path@ != self.tmp_path@ && !target_exists ==> r == Ok::<Placement, BackupError>(
                Placement::Move,
            ),
            self.path@ != self.tmp_path@ && target_exists && self.overwrite ==> r == Ok::<
                Placement,
                BackupError,
            >(Placement::Replace),
            self.path@ != self.tmp_path@ && target_exists && !self.overwrite ==> (r matches Err(
                BackupError::FileExists(p),
            ) && p@ == self.path@),
    {
        if str_equal(self.path.as_str(), self.tmp_path.as_str()) {
            Ok(Placement::InPlace)
        } else if !target_exists {
            Ok(Placement::Move)
        } else if self.overwrite {
            Ok(Placement::Replace)
        } else {
            Err(BackupError::FileExists(copy_string(self.path.as_str())))
        }
    }

    /// The compression quality and the number of threads of the merged
    /// backup: those asked for, else those of the newest backup.
    pub fn settings(&self) -> (r: (i32, u32))
        requires
            self.readers@.len() > 0,
            self.readers@[0].config is Some,
        ensures
            r.0 == match self.quality {
                Some(q) => q,
                None => self.readers@[0].config->0.quality as i32,
            },
            r.1 == match self.threads {
                Some(t) => t,
                None => self.readers@[0].config->0.threads,
            },
    {
        let (q0, t0) = match &self.readers[0].config {
            Some(c) => (c.quality as i32, c.threads),
            None => (0, 0),
        };
        let q = match self.quality {
            Some(q) => q,
            None => q0,
        };
        let t = match self.threads {
            Some(t) => t,
            None => t0,
        };
        (q, t)
    }

    /// The search for the files of the merged list (every one, in order) in
    /// the archives of the backups, newest first.
    pub fn copy_walk(&self) -> (r: CopyWalk)
        requires
            self.readers@.len() > 0,
        ensures
            walk_ok(r),
            texts(r.files@) == listed_paths(self.files.items(), true),
            r.file == 0,
            r.archive == 0,
            r.archives == self.readers@.len(),
    {
        CopyWalk::start(list_paths(&self.files, true), self.readers.len())
    }

    /// The backups, taking the merge apart.
    pub fn deconstruct(self) -> (r: Vec<BackupReader>)
        ensures
            r@ == self.readers@,
    {
        self.readers
    }
}

} // verus!
