use regex::RegexSet;
use simple_backup::config::Config;
use simple_backup::lists::FileListString;
use simple_backup::restore::{
    decide_only_this, get_config_from_backup, get_list_from_backup, is_unsorted_archive, restore_selection, restore_target,
    RestoreScan,
};

fn strings(v: &[&str]) -> Vec<String> {
    v.iter().map(|s| s.to_string()).collect()
}

fn stored() -> FileListString {
    FileListString::new("files_v2.csv", "1,/a/x.txt\n0,/a/y.txt\n1,/b/z.rs".to_string()).unwrap()
}

#[test]
fn only_this_backup() {
    let mut c = Config::new();
    assert!(!decide_only_this(&mut c, false));
    assert!(c.incremental);
    assert!(decide_only_this(&mut c, true));
    assert!(!c.incremental);
    assert!(decide_only_this(&mut c, false));
}

#[test]
fn selection_of_files() {
    let l = stored();
    assert_eq!(restore_selection(&l, None, vec![], true), strings(&["/a/x.txt", "/b/z.rs"]));
    assert_eq!(
        restore_selection(&l, None, vec![], false),
        strings(&["/a/x.txt", "/a/y.txt", "/b/z.rs"])
    );
    let set = RegexSet::new(["\\.txt$"]).unwrap();
    assert_eq!(restore_selection(&l, Some(&set), vec![], false), strings(&["/a/x.txt", "/a/y.txt"]));
    assert_eq!(restore_selection(&l, Some(&set), vec![], true), strings(&["/a/x.txt"]));
    assert_eq!(
        restore_selection(&l, None, strings(&["/q", "/c"]), true),
        strings(&["/c", "/q"])
    );
    assert_eq!(
        restore_selection(&l, Some(&set), strings(&["/0"]), true),
        strings(&["/0", "/a/x.txt"])
    );
}

#[test]
fn sorted_scan_reports_missing_files() {
    let mut s = RestoreScan::start(strings(&["b", "d", "f"]), false, false);
    let d = s.on_entry("a");
    assert!(!d.restore && d.missing.is_empty());
    let d = s.on_entry("b");
    assert!(d.restore);
    let d = s.on_entry("e");
    assert!(!d.restore);
    assert_eq!(d.missing, strings(&["d"]));
    assert!(!s.is_done());
    let d = s.on_entry("f");
    assert!(d.restore);
    assert!(s.is_done());
}

#[test]
fn recursive_scan_keeps_missing_files() {
    let mut s = RestoreScan::start(strings(&["b", "d"]), false, true);
    let d = s.on_entry("c");
    assert!(!d.restore && d.missing.is_empty());
    let d = s.on_entry("z");
    assert!(!d.restore);
    assert!(s.is_done());
    assert_eq!(s.into_not_found(), strings(&["b", "d"]));
}

#[test]
fn unsorted_scan_looks_up_every_entry() {
    let mut s = RestoreScan::start(strings(&["d", "b"]), true, false);
    assert!(s.on_entry("b").restore);
    assert!(!s.on_entry("c").restore);
    assert!(!s.is_done());
    assert!(s.on_entry("d").restore);
    assert!(s.is_done());
    let s = RestoreScan::start(strings(&["d", "b"]), true, false);
    assert_eq!(s.into_not_found(), strings(&["b", "d"]));
}

#[test]
fn old_archives_are_unsorted() {
    assert!(is_unsorted_archive("files.csv"));
    assert!(!is_unsorted_archive("files_v2.csv"));
}

#[test]
fn list_from_the_second_entry() {
    let r = get_list_from_backup(None, None);
    assert_eq!(r.unwrap_err().kind(), std::io::ErrorKind::InvalidData);
    let r = get_list_from_backup(Some(Ok("config.yml".to_string())), None);
    assert_eq!(r.unwrap_err().to_string(), "The file list is missing");
    let r = get_list_from_backup(
        Some(Ok("config.yml".to_string())),
        Some(Ok(("other".to_string(), Ok("x".to_string())))),
    );
    assert_eq!(r.unwrap_err().to_string(), "The second file of the backup is not the file list");
    let r = get_list_from_backup(
        Some(Ok("config.yml".to_string())),
        Some(Ok(("files.csv".to_string(), Ok("a\nb".to_string())))),
    );
    assert_eq!(r.unwrap(), "a\nb");
}

#[test]
fn restore_targets() {
    let out = Some("/out".to_string());
    assert_eq!(restore_target("/a/b.txt", &None, false), Some("/a/b.txt".to_string()));
    assert_eq!(restore_target("/a/b.txt", &out, false), Some("/out/a/b.txt".to_string()));
    assert_eq!(restore_target("../a/b.txt", &out, false), Some("/out/a/b.txt".to_string()));
    assert_eq!(restore_target("/a/b.txt", &out, true), Some("/out/b.txt".to_string()));
    assert_eq!(restore_target("/", &out, true), None);
}

#[test]
fn config_from_the_first_entry() {
    let r = get_config_from_backup(None);
    assert_eq!(r.unwrap_err().to_string(), "The backup is empty");
    let r = get_config_from_backup(Some(Ok(("files.csv".to_string(), Ok("x".to_string())))));
    assert_eq!(r.unwrap_err().to_string(), "The backup does not start with a config file");
    let r = get_config_from_backup(Some(Ok((
        "config.yml".to_string(),
        Err(std::io::Error::new(std::io::ErrorKind::Other, "broken")),
    ))));
    assert_eq!(r.unwrap_err().to_string(), "broken");
    let r = get_config_from_backup(Some(Ok(("config.yml".to_string(), Ok("a: 1".to_string())))));
    assert_eq!(r.unwrap(), "a: 1");
}

#[test]
fn files_after_the_last_entry_are_not_found() {
    let mut s = RestoreScan::start(strings(&["a", "z"]), false, false);
    assert!(s.on_entry("a").restore);
    assert!(!s.is_done());
    assert_eq!(s.into_not_found(), strings(&["z"]));
    let mut s = RestoreScan::start(strings(&["b", "d", "f"]), false, true);
    assert!(!s.on_entry("c").restore);
    assert_eq!(s.into_not_found(), strings(&["b", "d", "f"]));
    let s = RestoreScan::start(vec![], false, false);
    assert!(s.is_done());
    assert!(s.into_not_found().is_empty());
}
