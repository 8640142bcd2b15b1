use simple_backup::backup::{needs_latest, BackupMerger, BackupReader, BackupWriter, Placement};
use simple_backup::config::Config;
use simple_backup::datetime::DateTime;
use simple_backup::errors::BackupError;
use simple_backup::files::FileInfo;
use simple_backup::lists::FileListVec;
use simple_backup::utils::{BackupIterator, Candidate};

fn at(day: u32) -> DateTime {
    DateTime { year: 2020, month: 2, day, hour: 20, minute: 20, second: 20, nanosecond: 0 }
}

fn reader(path: &str, day: u32, list: &str) -> BackupReader {
    let mut r = BackupReader::new(path.to_string());
    let mut c = Config::new();
    c.time = Some(at(day));
    r.set_config(c);
    r.parse_list("rel/files_v2.csv", list.to_string()).unwrap();
    r
}

#[test]
fn readers_check_their_entries() {
    let mut r = BackupReader::new("/b/x.tar.zst".to_string());
    assert_eq!(r.check_incremental(), None);
    assert!(r.check_config_entry("rel/config.yml").is_ok());
    assert!(matches!(
        r.check_config_entry("rel/other.yml"),
        Err(BackupError::NoConfig(p)) if p == "/b/x.tar.zst"
    ));
    assert!(matches!(
        r.parse_list("rel/list.txt", String::new()),
        Err(BackupError::NoList(p)) if p == "/b/x.tar.zst"
    ));
    assert!(r.parse_list("rel/files.csv", "a".to_string()).is_ok());
    assert_eq!(r.move_list().unwrap().iter_included(), vec!["a"]);
    assert!(r.move_list().is_none());
    r.set_config(Config::new());
    assert_eq!(r.config.as_ref().unwrap().origin, "/b/x.tar.zst");
    assert_eq!(r.check_incremental(), Some(true));
}

#[test]
fn readers_from_configs() {
    let mut c = Config::new();
    c.output = "/out".to_string();
    assert!(matches!(BackupReader::from_config(c, None), Err(BackupError::NoBackup(p)) if p == "/out"));
    let r = BackupReader::from_config(Config::new(), Some("/b/l.tar.zst".to_string())).unwrap();
    assert_eq!(r.path.get_string(), "/b/l.tar.zst");
}

fn found(items: &[(&str, Option<DateTime>)]) -> BackupIterator {
    BackupIterator::new(
        items
            .iter()
            .map(|(p, t)| Ok(Candidate { path: p.to_string(), time: *t }))
            .collect(),
    )
}

#[test]
fn previous_backups() {
    let r = reader("/b/backup_2020-02-05_20-20-20.tar.zst", 9, "");
    let backups = [("/b/one", Some(at(1))), ("/b/four", Some(at(4))), ("/b/six", Some(at(6)))];
    let p = r.get_previous(found(&backups)).unwrap();
    assert_eq!(p.path.get_string(), "/b/four");
    assert!(p.config.is_none());
    let r = reader("/b/named.tar.zst", 9, "");
    let p = r.get_previous(found(&backups)).unwrap();
    assert_eq!(p.path.get_string(), "/b/six");
    let mut r = reader("/b/named.tar.zst", 9, "");
    r.config.as_mut().unwrap().incremental = false;
    assert!(r.get_previous(found(&backups)).is_none());
}

#[test]
fn writers_pick_the_previous_time() {
    let now = at(10);
    let c = Config::new();
    assert!(needs_latest(&c));
    let mut latest = Config::new();
    latest.time = Some(at(3));
    let (w, e) = BackupWriter::new(c, now, "/b", Some(Ok(latest)));
    assert!(e.is_none());
    assert_eq!(w.prev_time, Some(at(3)));
    assert_eq!(w.path, "/b/backup_2020-02-10_20-20-20.tar.zst");
    assert!(!w.shows_all(false));
    assert!(w.shows_all(true));

    let mut c = Config::new();
    c.time = Some(at(1));
    assert!(!needs_latest(&c));
    let (w, e) = BackupWriter::new(c, now, "/b", None);
    assert!(e.is_none());
    assert_eq!(w.prev_time, Some(at(1)));

    let err = BackupError::GenericError("unreadable");
    let (w, e) = BackupWriter::new(Config::new(), now, "/b", Some(Err(err)));
    assert!(matches!(e, Some(BackupError::GenericError("unreadable"))));
    assert_eq!(w.prev_time, None);
    assert!(w.shows_all(false));

    let mut c = Config::new();
    c.incremental = false;
    c.time = Some(at(1));
    let (w, _) = BackupWriter::new(c, now, "/b", None);
    assert_eq!(w.prev_time, None);
}

#[test]
fn writers_list_and_add_files() {
    let mut c = Config::new();
    c.time = Some(at(1));
    let (mut w, _) = BackupWriter::new(c, at(10), "/b", None);
    let mut list = FileListVec::new();
    list.push(true, FileInfo::from_str("/a"));
    list.push(false, FileInfo::from_str("/b"));
    w.set_list(list);
    let names = |v: Vec<FileInfo>| v.iter().map(|f| f.copy_string()).collect::<Vec<String>>();
    assert_eq!(names(w.listed(false)), vec!["/a"]);
    assert_eq!(names(w.listed(true)), vec!["/a", "/b"]);
    assert_eq!(names(w.files_to_add()), vec!["/a"]);
    let stored = w.stored_config();
    assert_eq!(stored.time, Some(at(10)));
    assert_eq!(w.config.time, Some(at(10)));
}

#[test]
fn merging_backups() {
    let old = reader("/b/old.tar.zst", 1, "1,a\n1,c");
    let new = reader("/b/new.tar.zst", 5, "1,b\n0,c");
    let m = BackupMerger::new(None, vec![old, new], false, false, false, None, Some(3)).unwrap();
    assert_eq!(m.path, "/b/new.tar.zst");
    let files: Vec<(bool, String)> =
        (0..m.files.len()).map(|i| (m.files.get(i).0, m.files.get(i).1.copy_string())).collect();
    assert_eq!(files, vec![(true, "b".to_string()), (true, "c".to_string())]);
    assert_eq!(m.settings(), (20, 3));
    let w = m.copy_walk();
    assert_eq!(w.files, vec!["b", "c"]);
    assert_eq!(w.archives, 2);
    let readers = m.deconstruct();
    assert_eq!(readers[0].path.get_string(), "/b/new.tar.zst");
    assert_eq!(readers[1].path.get_string(), "/b/old.tar.zst");
}

#[test]
fn merging_needs_two_backups() {
    let one = BackupReader::new("a.tar.zst".to_string());
    assert!(matches!(
        BackupMerger::new(None, vec![one], false, false, false, None, None),
        Err(BackupError::GenericError("At least two backups are needed for merging"))
    ));
    let a = reader("/b/a.tar.zst", 1, "1,a");
    let b = reader("/b/a.tar.zst", 1, "1,a");
    let m = BackupMerger::new(Some("/o.tar.zst".to_string()), vec![a, b], true, false, false, None, None)
        .unwrap();
    assert_eq!(m.path, "/o.tar.zst");
    assert_eq!(m.deconstruct().len(), 1);
}

#[test]
fn placing_the_merged_backup() {
    let a = reader("/b/a.tar.zst", 1, "1,a");
    let b = reader("/b/b.tar.zst", 2, "1,a");
    let mut m = BackupMerger::new(None, vec![a, b], true, false, false, None, None).unwrap();
    m.tmp_path = m.path.clone();
    assert_eq!(m.placement(true).unwrap(), Placement::InPlace);
    m.tmp_path = format!("{}.tmp", m.path);
    assert_eq!(m.placement(false).unwrap(), Placement::Move);
    assert!(matches!(m.placement(true), Err(BackupError::FileExists(p)) if p == "/b/b.tar.zst"));
    m.overwrite = true;
    assert_eq!(m.placement(true).unwrap(), Placement::Replace);
}

#[test]
fn merging_keeps_one_backup_of_each_path() {
    let a = reader("/b/a.tar.zst", 1, "1,a");
    let b = reader("/b/a.tar.zst", 5, "1,b");
    let c = reader("/b/c.tar.zst", 3, "1,c");
    let m = BackupMerger::new(None, vec![a, b, c], true, false, false, None, None).unwrap();
    let readers = m.deconstruct();
    assert_eq!(readers.len(), 2);
    assert_ne!(readers[0].path.get_string(), readers[1].path.get_string());
}
