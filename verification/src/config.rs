//! The configuration of a backup: what to back up, what to leave out and filter out,
//! where backups go, and how they are compressed.
use vstd::prelude::*;

use crate::backup::BACKUP_FILE_EXTENSION;
use crate::crawler::{
    absolutize_from, is_absolute, parent, spec_absolutize_from, spec_parent, usable_cwd,
};
use crate::datetime::{create_backup_file_name, spec_format_datetime, DateTime, BACKUP_NAME_FORMAT};
use crate::paths::{file_name, join, spec_file_name, spec_join};
use crate::sort::{lemma_sorted_texts_unique, sort_by_key, sorted_by_key};
use crate::text::{chars_of, copy_string, str_ends_with};

verus! {

/// The highest compression quality.
pub const QUALITY_MAX: u8 = 22;

/// The message of a config whose compression quality is out of range.
pub const QUALITY_ERROR: &'static str = "Compression Quality must be 0-22";

/// The number of processors as `num_cpus::get` counts them (never less than one).
#[verifier::external_body]
fn cpu_count() -> (n: usize)
    ensures
        n >= 1,
{
    num_cpus::get()
}

/// The low 32 bits of a count.
pub open spec fn low_bits(n: usize) -> u32 {
    n as u32
}

/// A number of processors as a `u32` (cut to its low 32 bits).
fn count_to_u32(n: usize) -> (r: u32)
    ensures
        r == low_bits(n),
{
    #[verifier::truncate]
    (n as u32)
}

/// The number of processors, the default number of threads.
pub fn cpus_u32() -> (r: u32)
    ensures
        exists|n: usize| n >= 1 && r == #[trigger] low_bits(n),
{
    let n = cpu_count();
    count_to_u32(n)
}

/// The default of `incremental`.
pub fn true_bool() -> (r: bool)
    ensures
        r,
{
    true
}

/// The default compression quality.
pub fn twenty_u8() -> (r: u8)
    ensures
        r == 20,
{
    20
}

/// The default link depth.
pub fn one_u32() -> (r: u32)
    ensures
        r == 1,
{
    1
}

/// The settings of a backup.
#[derive(Debug)]
pub struct Config {
    pub includes: Vec<String>,
    pub exclude: Vec<String>,
    pub regex: Vec<String>,
    pub output: String,
    pub incremental: bool,
    pub quality: u8,
    pub local: bool,
    pub threads: u32,
    pub time: Option<DateTime>,
    pub link_depth: u32,
    pub origin: String,
}

/// The texts of a list of strings.
pub open spec fn texts(v: Seq<String>) -> Seq<Seq<char>> {
    v.map_values(|s: String| s@)
}

/// The regular expressions added by default: files that are usually not worth backing up.
pub open spec fn default_ignores() -> Seq<Seq<char>> {
    seq![
        "[\\\\/]\\$RECYCLE.BIN$"@,
        "[\\\\/]Thumbs\\.db$"@,
        "[\\\\/]\\.?[Tt]rash(-.*|es|ed)?$"@,
        "\\.?(Te?mp|te?mp|TE?MP)$"@,
        "\\.?~?locks?(\\..*#)?$"@,
        "~$"@,
        "\\.bak\\d*$"@,
        "([Ll]og|LOG)(\\.|\\d|s|txt|old|dat|html)*$"@,
        "[\\\\/][Cc]rash(ed?s?| ?Reports?| ?[Pp]ad| ?_?[Dd]umps?|[pP]lan|\\.dmp|\\.mem|\\.txt|\\.log)*$"@,
        "[Cc]ached?s?$"@,
        "[\\\\/]\\.DS_Store$"@,
        "[Tt]elemetry"@,
        "[\\\\/][Dd]umps?$"@,
        "[\\\\/][Ss]entry$"@,
        "[\\\\/][Dd]esktop\\.ini$"@,
        "\\.part$"@,
        "\\.crdownload$"@,
    ]
}

/// The default filters, in order.
pub proof fn lemma_default_ignore_table()
    ensures
        default_ignores() == seq![
            "[\\\\/]\\$RECYCLE.BIN$"@,
            "[\\\\/]Thumbs\\.db$"@,
            "[\\\\/]\\.?[Tt]rash(-.*|es|ed)?$"@,
            "\\.?(Te?mp|te?mp|TE?MP)$"@,
            "\\.?~?locks?(\\..*#)?$"@,
            "~$"@,
            "\\.bak\\d*$"@,
            "([Ll]og|LOG)(\\.|\\d|s|txt|old|dat|html)*$"@,
            "[\\\\/][Cc]rash(ed?s?| ?Reports?| ?[Pp]ad| ?_?[Dd]umps?|[pP]lan|\\.dmp|\\.mem|\\.txt|\\.log)*$"@,
            "[Cc]ached?s?$"@,
            "[\\\\/]\\.DS_Store$"@,
            "[Tt]elemetry"@,
            "[\\\\/][Dd]umps?$"@,
            "[\\\\/][Ss]entry$"@,
            "[\\\\/][Dd]esktop\\.ini$"@,
            "\\.part$"@,
            "\\.crdownload$"@,
        ],
{
}

/// Every default filter but the one for telemetry matches only at the end of
/// a path (it ends in `$`), so it leaves out files by how their names end.
pub proof fn lemma_default_ignores_anchored()
    ensures
        default_ignores().len() == 17,
        forall|i: int|
            0 <= i < 17 && i != 11 ==> (#[trigger] default_ignores()[i]).len() > 0
                && default_ignores()[i].last() == '$',
{
    reveal_strlit("[\\\\/]\\$RECYCLE.BIN$");
    assert("[\\\\/]\\$RECYCLE.BIN$"@.last() == '$');
    reveal_strlit("[\\\\/]Thumbs\\.db$");
    assert("[\\\\/]Thumbs\\.db$"@.last() == '$');
    reveal_strlit("[\\\\/]\\.?[Tt]rash(-.*|es|ed)?$");
    assert("[\\\\/]\\.?[Tt]rash(-.*|es|ed)?$"@.last() == '$');
    reveal_strlit("\\.?(Te?mp|te?mp|TE?MP)$");
    assert("\\.?(Te?mp|te?mp|TE?MP)$"@.last() == '$');
    reveal_strlit("\\.?~?locks?(\\..*#)?$");
    assert("\\.?~?locks?(\\..*#)?$"@.last() == '$');
    reveal_strlit("~$");
    assert("~$"@.last() == '$');
    reveal_strlit("\\.bak\\d*$");
    assert("\\.bak\\d*$"@.last() == '$');
    reveal_strlit("([Ll]og|LOG)(\\.|\\d|s|txt|old|dat|html)*$");
    assert("([Ll]og|LOG)(\\.|\\d|s|txt|old|dat|html)*$"@.last() == '$');
    reveal_strlit("[\\\\/][Cc]rash(ed?s?| ?Reports?| ?[Pp]ad| ?_?[Dd]umps?|[pP]lan|\\.dmp|\\.mem|\\.txt|\\.log)*$");
    assert("[\\\\/][Cc]rash(ed?s?| ?Reports?| ?[Pp]ad| ?_?[Dd]umps?|[pP]lan|\\.dmp|\\.mem|\\.txt|\\.log)*$"@.last() == '$');
    reveal_strlit("[Cc]ached?s?$");
    assert("[Cc]ached?s?$"@.last() == '$');
    reveal_strlit("[\\\\/]\\.DS_Store$");
    assert("[\\\\/]\\.DS_Store$"@.last() == '$');
    reveal_strlit("[\\\\/][Dd]umps?$");
    assert("[\\\\/][Dd]umps?$"@.last() == '$');
    reveal_strlit("[\\\\/][Ss]entry$");
    assert("[\\\\/][Ss]entry$"@.last() == '$');
    reveal_strlit("[\\\\/][Dd]esktop\\.ini$");
    assert("[\\\\/][Dd]esktop\\.ini$"@.last() == '$');
    reveal_strlit("\\.part$");
    assert("\\.part$"@.last() == '$');
    reveal_strlit("\\.crdownload$");
    assert("\\.crdownload$"@.last() == '$');
}

fn default_ignore(i: usize) -> (r: &'static str)
    requires
        i < 17,
    ensures
        r@ == default_ignores()[i as int],
{
    match i {
        0 => "[\\\\/]\\$RECYCLE.BIN$",
        1 => "[\\\\/]Thumbs\\.db$",
        2 => "[\\\\/]\\.?[Tt]rash(-.*|es|ed)?$",
        3 => "\\.?(Te?mp|te?mp|TE?MP)$",
        4 => "\\.?~?locks?(\\..*#)?$",
        5 => "~$",
        6 => "\\.bak\\d*$",
        7 => "([Ll]og|LOG)(\\.|\\d|s|txt|old|dat|html)*$",
        8 => "[\\\\/][Cc]rash(ed?s?| ?Reports?| ?[Pp]ad| ?_?[Dd]umps?|[pP]lan|\\.dmp|\\.mem|\\.txt|\\.log)*$",
        9 => "[Cc]ached?s?$",
        10 => "[\\\\/]\\.DS_Store$",
        11 => "[Tt]elemetry",
        12 => "[\\\\/][Dd]umps?$",
        13 => "[\\\\/][Ss]entry$",
        14 => "[\\\\/][Dd]esktop\\.ini$",
        15 => "\\.part$",
        _ => "\\.crdownload$",
    }
}

/// The texts that are not empty, in order.
pub open spec fn non_empty(v: Seq<Seq<char>>) -> Seq<Seq<char>>
    decreases v.len(),
{
    if v.len() == 0 {
        v
    } else {
        let rest = non_empty(v.drop_last());
        if v.last().len() > 0 {
            rest.push(v.last())
        } else {
            rest
        }
    }
}

/// A backup path ending in the backup extension is the backup file itself,
/// not a directory of backups.
pub open spec fn is_output_file_path(output: Seq<char>) -> bool {
    match spec_file_name(output) {
        Some(n) => BACKUP_FILE_EXTENSION@.is_suffix_of(n),
        None => false,
    }
}

/// Where backups go when nothing else is known: the output, else the path
/// the config was read from, else the current directory.
pub open spec fn spec_output_here(output: Seq<char>, origin: Seq<char>) -> Seq<char> {
    if output.len() > 0 {
        output
    } else if origin.len() > 0 {
        origin
    } else {
        seq!['.']
    }
}

/// The directory of the backups of a config: the directory holding the
/// output when that is a file (the current one when it has none), else the
/// output; made absolute from the current directory `cwd` unless paths are
/// kept relative or it is absolute already (the current directory itself
/// when that is not known).
pub open spec fn spec_dir(
    output: Seq<char>,
    origin: Seq<char>,
    local: bool,
    is_file: bool,
    cwd: Option<Seq<char>>,
) -> Seq<char> {
    let o = spec_output_here(output, origin);
    let p = if is_file {
        match spec_parent(o) {
            Some(q) => q,
            None => seq!['.'],
        }
    } else {
        o
    };
    if local || is_absolute(p) {
        p
    } else {
        match cwd {
            Some(c) => spec_absolutize_from(p, c),
            None => seq!['.'],
        }
    }
}

/// A list of strings sorted, holding the same strings.
pub open spec fn sorted_version(new: Seq<String>, old: Seq<String>) -> bool {
    new.to_multiset() == old.to_multiset() && sorted_by_key(new)
}

/// A copy of a list of strings.
fn copy_strings(v: &Vec<String>) -> (r: Vec<String>)
    ensures
        texts(r@) == texts(v@),
{
    let mut out: Vec<String> = Vec::new();
    let mut i: usize = 0;
    while i < v.len()
        invariant
            i <= v@.len(),
            texts(out@) == texts(v@.take(i as int)),
        decreases v.len() - i,
    {
        let ghost prev = out@;
        out.push(copy_string(v[i].as_str()));
        assert(v@.take(i + 1) =~= v@.take(i as int).push(v@[i as int]));
        assert(texts(out@) =~= texts(prev).push(v@[i as int]@));
        assert(texts(v@.take(i + 1)) =~= texts(v@.take(i as int)).push(v@[i as int]@));
        i = i + 1;
    }
    assert(v@.take(v@.len() as int) =~= v@);
    out
}

/// The strings that are not empty, in order.
fn keep_non_empty(v: Vec<String>) -> (r: Vec<String>)
    ensures
        texts(r@) == non_empty(texts(v@)),
{
    let ghost orig = v@;
    let mut rest = v;
    let mut rev: Vec<String> = Vec::new();
    while rest.len() > 0
        invariant
            non_empty(texts(orig)) == non_empty(texts(rest@)) + texts(rev@).reverse(),
        decreases rest.len(),
    {
        let ghost before = rest@;
        let s = rest.pop().unwrap();
        assert(texts(before).drop_last() =~= texts(rest@));
        assert(texts(before).last() == s@);
        if !s.as_str().is_empty() {
            let ghost prev = rev@;
            rev.push(s);
            assert(texts(rev@).reverse() =~= seq![s@] + texts(prev).reverse());
        }
    }
    assert(non_empty(texts(rest@)) =~= Seq::<Seq<char>>::empty());
    let mut out: Vec<String> = Vec::new();
    while rev.len() > 0
        invariant
            non_empty(texts(orig)) == texts(out@) + texts(rev@).reverse(),
        decreases rev.len(),
    {
        let ghost before = rev@;
        let s = rev.pop().unwrap();
        assert(before =~= rev@.push(s));
        let ghost prev = out@;
        out.push(s);
        assert(texts(before).reverse() =~= seq![s@] + texts(rev@).reverse());
        assert(texts(out@) =~= texts(prev).push(s@));
    }
    assert(texts(rev@).reverse() =~= Seq::<Seq<char>>::empty());
    out
}

/// The directory of the backups is found from where backups go
/// (`get_output`): the output when there is one, whatever the config was
/// read from; else the path the config was read from, as if it were the
/// output; else the current directory.
pub proof fn lemma_dir_follows_output(
    output: Seq<char>,
    origin: Seq<char>,
    local: bool,
    is_file: bool,
    cwd: Option<Seq<char>>,
)
    ensures
        output.len() > 0 ==> spec_dir(output, origin, local, is_file, cwd) == spec_dir(
            output,
            Seq::empty(),
            local,
            is_file,
            cwd,
        ),
        output.len() == 0 && origin.len() > 0 ==> spec_dir(output, origin, local, is_file, cwd)
            == spec_dir(origin, Seq::empty(), local, is_file, cwd),
        output.len() == 0 && origin.len() == 0 ==> spec_dir(output, origin, local, is_file, cwd)
            == spec_dir(seq!['.'], Seq::empty(), local, is_file, cwd),
{
}

impl Config {
    /// An empty config: nothing included, incremental, quality 20, as many
    /// threads as processors, no time, link depth 1.
    pub fn new() -> (r: Self)
        ensures
            r.includes@.len() == 0,
            r.exclude@.len() == 0,
            r.regex@.len() == 0,
            r.output@.len() == 0,
            r.incremental,
            r.quality == 20,
            !r.local,
            r.time is None,
            r.link_depth == 1,
            r.origin@.len() == 0,
            exists|n: usize| n >= 1 && r.threads == #[trigger] low_bits(n),
    {
        Config {
            includes: Vec::new(),
            exclude: Vec::new(),
            regex: Vec::new(),
            output: String::new(),
            incremental: true,
            quality: 20,
            local: false,
            threads: cpus_u32(),
            time: None,
            origin: String::new(),
            link_depth: 1,
        }
    }

    /// A copy of the config.
    pub fn duplicate(&self) -> (r: Self)
        ensures
            texts(r.includes@) == texts(self.includes@),
            texts(r.exclude@) == texts(self.exclude@),
            texts(r.regex@) == texts(self.regex@),
            r.output@ == self.output@,
            r.incremental == self.incremental,
            r.quality == self.quality,
            r.local == self.local,
            r.threads == self.threads,
            r.time == self.time,
            r.link_depth == self.link_depth,
            r.origin@ == self.origin@,
    {
        Config {
            includes: copy_strings(&self.includes),
            exclude: copy_strings(&self.exclude),
            regex: copy_strings(&self.regex),
            output: copy_string(self.output.as_str()),
            incremental: self.incremental,
            quality: self.quality,
            local: self.local,
            threads: self.threads,
            time: self.time,
            link_depth: self.link_depth,
            origin: copy_string(self.origin.as_str()),
        }
    }

    /// Where backups go: the output path, else the path the config was read
    /// from, else the default directory (when `home`), else the current one.
    pub fn get_output(&self, home: bool, default_dir: &str) -> (r: String)
        ensures
            self.output@.len() > 0 ==> r@ == self.output@,
            self.output@.len() == 0 && self.origin@.len() > 0 ==> r@ == self.origin@,
            self.output@.len() == 0 && self.origin@.len() == 0 && home ==> r@ == default_dir@,
            self.output@.len() == 0 && self.origin@.len() == 0 && !home ==> r@ == seq!['.'],
    {
        if !self.output.as_str().is_empty() {
            copy_string(self.output.as_str())
        } else if !self.origin.as_str().is_empty() {
            copy_string(self.origin.as_str())
        } else if home {
            copy_string(default_dir)
        } else {
            proof {
                reveal_strlit(".");
            }
            copy_string(".")
        }
    }

    /// Sorts the included and excluded paths and drops empty filters.
    pub fn sort(&mut self)
        ensures
            sorted_version(final(self).includes@, old(self).includes@),
            sorted_version(final(self).exclude@, old(self).exclude@),
            texts(final(self).regex@) == non_empty(texts(old(self).regex@)),
            final(self).output == old(self).output,
            final(self).incremental == old(self).incremental,
            final(self).quality == old(self).quality,
            final(self).local == old(self).local,
            final(self).threads == old(self).threads,
            final(self).time == old(self).time,
            final(self).link_depth == old(self).link_depth,
            final(self).origin == old(self).origin,
    {
        let mut includes: Vec<String> = Vec::new();
        std::mem::swap(&mut includes, &mut self.includes);
        self.includes = sort_by_key(includes);
        let mut exclude: Vec<String> = Vec::new();
        std::mem::swap(&mut exclude, &mut self.exclude);
        self.exclude = sort_by_key(exclude);
        let mut regex: Vec<String> = Vec::new();
        std::mem::swap(&mut regex, &mut self.regex);
        self.regex = keep_non_empty(regex);
    }

    /// Whether the output is a backup file rather than a directory of backups.
    pub fn is_output_file(&self) -> (r: bool)
        ensures
            r == is_output_file_path(self.output@),
    {
        match file_name(self.output.as_str()) {
            Some(n) => str_ends_with(n.as_str(), BACKUP_FILE_EXTENSION),
            None => false,
        }
    }

    /// The directory of the backups: see `spec_dir`; `is_file` tells whether
    /// the output (as `get_output(false, ..)` gives it) is a file on disk,
    /// `cwd` is the current directory, when it is known.
    pub fn get_dir(&self, is_file: bool, cwd: &Option<String>) -> (r: String)
        requires
            cwd matches Some(c) ==> self.local || usable_cwd(c@),
        ensures
            r@ == spec_dir(
                self.output@,
                self.origin@,
                self.local,
                is_file,
                match cwd {
                    Some(c) => Some(c@),
                    None => None,
                },
            ),
            self.local && !is_file && self.output@.len() > 0 ==> r@ == self.output@,
            self.local && !is_file && self.output@.len() == 0 && self.origin@.len() > 0 ==> r@
                == self.origin@,
            self.local && is_file && self.output@.len() == 0 && self.origin@.len() > 0 ==> r@
                == match spec_parent(self.origin@) {
                Some(q) => q,
                None => seq!['.'],
            },
    {
        let o = self.get_output(false, "");
        assert(o@ == spec_output_here(self.output@, self.origin@));
        let p = if is_file {
            match parent(o.as_str()) {
                Some(q) => q,
                None => {
                    proof {
                        reveal_strlit(".");
                    }
                    assert("."@ =~= seq!['.']);
                    copy_string(".")
                },
            }
        } else {
            o
        };
        let v = chars_of(p.as_str());
        let absolute = v.len() > 0 && v[0] == '/';
        assert(absolute == is_absolute(p@));
        if self.local || absolute {
            p
        } else {
            match cwd {
                Some(c) => match absolutize_from(p.as_str(), c.as_str()) {
                    Ok(a) => a,
                    Err(_) => p,
                },
                None => {
                    proof {
                        reveal_strlit(".");
                    }
                    assert("."@ =~= seq!['.']);
                    copy_string(".")
                },
            }
        }
    }

    /// The path of a new backup made at `now`: the output file, or a file
    /// named by the time in the backup directory `dir`.
    pub fn get_new_output(&self, now: &DateTime, dir: &str) -> (r: String)
        requires
            now.valid(),
        ensures
            is_output_file_path(self.output@) ==> r@ == self.output@,
            !is_output_file_path(self.output@) ==> r@ == spec_join(
                dir@,
                spec_format_datetime(*now, BACKUP_NAME_FORMAT@),
            ),
    {
        if self.is_output_file() {
            copy_string(self.output.as_str())
        } else {
            let name = create_backup_file_name(now);
            join(dir, name.as_str())
        }
    }

    /// Adds the regular expressions of files that are usually not worth backing up.
    pub fn add_default_ignores(&mut self)
        ensures
            texts(final(self).regex@) == texts(old(self).regex@) + default_ignores(),
            final(self).includes == old(self).includes,
            final(self).exclude == old(self).exclude,
            final(self).output == old(self).output,
            final(self).incremental == old(self).incremental,
            final(self).quality == old(self).quality,
            final(self).local == old(self).local,
            final(self).threads == old(self).threads,
            final(self).time == old(self).time,
            final(self).link_depth == old(self).link_depth,
            final(self).origin == old(self).origin,
    {
        let ghost start = texts(self.regex@);
        let mut i: usize = 0;
        while i < 17
            invariant
                i <= 17,
                texts(self.regex@) == start + default_ignores().take(i as int),
                self.includes == old(self).includes,
                self.exclude == old(self).exclude,
                self.output == old(self).output,
                self.incremental == old(self).incremental,
                self.quality == old(self).quality,
                self.local == old(self).local,
                self.threads == old(self).threads,
                self.time == old(self).time,
                self.link_depth == old(self).link_depth,
                self.origin == old(self).origin,
            decreases 17 - i,
        {
            let ghost prev = self.regex@;
            self.regex.push(copy_string(default_ignore(i)));
            assert(texts(self.regex@) =~= texts(prev).push(default_ignores()[i as int]));
            assert(default_ignores().take(i + 1) =~= default_ignores().take(i as int).push(
                default_ignores()[i as int],
            ));
            i = i + 1;
        }
        assert(default_ignores().take(17) =~= default_ignores());
    }

    /// Whether a compression quality can be used (0 to 22).
    pub fn quality_in_range(quality: u8) -> (r: bool)
        ensures
            r == (quality <= QUALITY_MAX),
    {
        quality <= QUALITY_MAX
    }

    /// A config read from `origin`: refused when its compression quality is
    /// out of range, else remembered as coming from there.
    pub fn read_from(self, origin: String) -> (r: Result<Config, &'static str>)
        ensures
            self.quality > QUALITY_MAX ==> (r matches Err(e) && e@ == QUALITY_ERROR@),
            self.quality <= QUALITY_MAX ==> (r matches Ok(c) && c.origin@ == origin@
                && c.includes == self.includes && c.exclude == self.exclude && c.regex
                == self.regex && c.output == self.output && c.incremental == self.incremental
                && c.quality == self.quality && c.local == self.local && c.threads
                == self.threads && c.time == self.time && c.link_depth == self.link_depth),
    {
        if !Self::quality_in_range(self.quality) {
            return Err(QUALITY_ERROR);
        }
        let mut conf = self;
        conf.origin = origin;
        Ok(conf)
    }

    /// Prepares the config for writing: sorts it, and gives the copy to
    /// write, which keeps the time only when asked to.
    pub fn for_storage(&mut self, keep_time: bool) -> (r: Config)
        ensures
            sorted_version(final(self).includes@, old(self).includes@),
            sorted_version(final(self).exclude@, old(self).exclude@),
            texts(final(self).regex@) == non_empty(texts(old(self).regex@)),
            final(self).time == old(self).time,
            texts(r.includes@) == texts(final(self).includes@),
            texts(r.exclude@) == texts(final(self).exclude@),
            texts(r.regex@) == texts(final(self).regex@),
            r.output@ == old(self).output@,
            r.incremental == old(self).incremental,
            r.quality == old(self).quality,
            r.local == old(self).local,
            r.threads == old(self).threads,
            r.link_depth == old(self).link_depth,
            r.time == (if keep_time {
                old(self).time
            } else {
                None
            }),
    {
        self.sort();
        let mut c = self.duplicate();
        if !keep_time {
            c.time = None;
        }
        c
    }
}

/// Sorting a config that is already sorted changes none of its texts (so
/// writing a config, reading it back and writing it again gives the same text).
pub proof fn lemma_sort_idempotent(includes: Seq<String>, exclude: Seq<String>, new_includes: Seq<
    String,
>, new_exclude: Seq<String>)
    requires
        sorted_by_key(includes),
        sorted_by_key(exclude),
        sorted_version(new_includes, includes),
        sorted_version(new_exclude, exclude),
    ensures
        texts(new_includes) == texts(includes),
        texts(new_exclude) == texts(exclude),
{
    lemma_sorted_texts_unique(new_includes, includes);
    lemma_sorted_texts_unique(new_exclude, exclude);
}

/// Dropping empty filters from filters that have none changes nothing.
pub proof fn lemma_non_empty_idempotent(v: Seq<Seq<char>>)
    ensures
        non_empty(non_empty(v)) == non_empty(v),
    decreases v.len(),
{
    if v.len() > 0 {
        lemma_non_empty_idempotent(v.drop_last());
        let rest = non_empty(v.drop_last());
        if v.last().len() > 0 {
            assert(rest.push(v.last()).drop_last() =~= rest);
        }
    }
}

} // verus!
