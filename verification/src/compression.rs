//! How the paths of backed-up files are named inside a backup archive.
use vstd::prelude::*;

use crate::files::FileInfo;
use crate::text::{chars_of, chars_start_with, concat, str_equal, string_from_chars};

verus! {

/// The path `path_clean::clean` makes of a path (without `.` parts, with
/// `..` parts resolved lexically, `.` for nothing), as text.
pub uninterp spec fn spec_clean_path(path: Seq<char>) -> Seq<char>;

/// Cleans a path lexically with `path_clean::clean`; the result is what the
/// named cleaning gives.
#[verifier::external_body]
pub(crate) fn clean_path(path: &str) -> (r: String)
    ensures
        r@ == spec_clean_path(path@),
{
    path_clean::clean(path).to_string_lossy().to_string()
}

/// The prefix of the archive names of absolute paths.
pub const ABSOLUTE_PREFIX: &'static str = "abs";

/// The prefix of the archive names of relative paths.
pub const RELATIVE_PREFIX: &'static str = "rel/";

/// The archive name of the current directory.
pub const RELATIVE_ROOT: &'static str = "rel";

/// A path that starts at the root of the file system.
pub open spec fn has_root(path: Seq<char>) -> bool {
    path.len() > 0 && path[0] == '/'
}

/// The archive name of a path: an absolute path after `abs`, a relative one
/// cleaned after `rel/`.
pub open spec fn spec_path_to_archive(path: Seq<char>) -> Seq<char> {
    if has_root(path) {
        ABSOLUTE_PREFIX@ + path
    } else {
        RELATIVE_PREFIX@ + spec_clean_path(path)
    }
}

/// The path an archive name stands for.
pub open spec fn spec_path_from_archive(name: Seq<char>) -> Seq<char> {
    if RELATIVE_PREFIX@.is_prefix_of(name) {
        name.skip(RELATIVE_PREFIX@.len() as int)
    } else if ABSOLUTE_PREFIX@.is_prefix_of(name) {
        name.skip(ABSOLUTE_PREFIX@.len() as int)
    } else if name == RELATIVE_ROOT@ {
        seq!['.']
    } else {
        name
    }
}

/// The name a file is stored under in a backup archive.
pub fn path_to_archive(path: &str) -> (r: String)
    ensures
        r@ == spec_path_to_archive(path@),
{
    let v = chars_of(path);
    if v.len() > 0 && v[0] == '/' {
        concat(ABSOLUTE_PREFIX, path)
    } else {
        let c = clean_path(path);
        concat(RELATIVE_PREFIX, c.as_str())
    }
}

/// The characters of `v` from position `k` on.
fn chars_after(v: &Vec<char>, k: usize) -> (r: String)
    requires
        k <= v@.len(),
    ensures
        r@ == v@.skip(k as int),
{
    let mut out: Vec<char> = Vec::new();
    let mut i = k;
    while i < v.len()
        invariant
            k <= i <= v@.len(),
            out@ == v@.subrange(k as int, i as int),
        decreases v.len() - i,
    {
        out.push(v[i]);
        assert(v@.subrange(k as int, i + 1) =~= v@.subrange(k as int, i as int).push(v@[i as int]));
        i = i + 1;
    }
    assert(v@.subrange(k as int, v@.len() as int) =~= v@.skip(k as int));
    string_from_chars(out.as_slice())
}

/// The file an archive name stands for.
pub fn path_from_archive(name: &str) -> (r: FileInfo)
    ensures
        r@ == spec_path_from_archive(name@),
        r.time is None,
        r.size == 0,
{
    proof {
        reveal_strlit("rel/");
        reveal_strlit("abs");
    }
    let v = chars_of(name);
    let rel = chars_of(RELATIVE_PREFIX);
    let abs = chars_of(ABSOLUTE_PREFIX);
    if chars_start_with(v.as_slice(), rel.as_slice()) {
        FileInfo::from_string(chars_after(&v, 4))
    } else if chars_start_with(v.as_slice(), abs.as_slice()) {
        FileInfo::from_string(chars_after(&v, 3))
    } else if str_equal(name, RELATIVE_ROOT) {
        FileInfo::from_string(string_from_chars(&['.']))
    } else {
        FileInfo::from_string(string_from_chars(v.as_slice()))
    }
}

/// A file stored in a backup archive is read back under the same path when
/// the path is absolute, and under its cleaned form when it is relative.
pub proof fn lemma_archive_name_round_trip(path: Seq<char>)
    ensures
        spec_path_from_archive(spec_path_to_archive(path)) == (if has_root(path) {
            path
        } else {
            spec_clean_path(path)
        }),
{
    reveal_strlit("rel/");
    reveal_strlit("abs");
    let name = spec_path_to_archive(path);
    if has_root(path) {
        assert(name[0] == 'a');
        assert(!RELATIVE_PREFIX@.is_prefix_of(name)) by {
            if RELATIVE_PREFIX@.is_prefix_of(name) {
                assert(RELATIVE_PREFIX@[0] == name[0]);
            }
        }
        assert(ABSOLUTE_PREFIX@.is_prefix_of(name)) by {
            assert(ABSOLUTE_PREFIX@ =~= name.subrange(0, 3));
        }
        assert(name.skip(3) =~= path);
    } else {
        assert(RELATIVE_PREFIX@.is_prefix_of(name)) by {
            assert(RELATIVE_PREFIX@ =~= name.subrange(0, 4));
        }
        assert(name.skip(4) =~= spec_clean_path(path));
    }
}

} // verus!
