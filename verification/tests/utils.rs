use simple_backup::datetime::DateTime;
use simple_backup::errors::BackupError;
use simple_backup::utils::{
    clamp, extend_pathbuf, is_backup_entry, strip_absolute_from_path, time_from_name,
    BackupIterator, Candidate, ConfigPathType, PathKind,
};

fn at(year: i32, month: u32, day: u32, hour: u32, minute: u32, second: u32) -> DateTime {
    DateTime { year, month, day, hour, minute, second, nanosecond: 0 }
}

#[test]
fn strip_abs() {
    assert_eq!("server/path", strip_absolute_from_path("/server/path"));
    assert_eq!("path", strip_absolute_from_path("../path"));
}

#[test]
fn strip_keeps_relative_paths() {
    assert_eq!("a/b", strip_absolute_from_path("a/b"));
    assert_eq!("", strip_absolute_from_path("/"));
    assert_eq!("", strip_absolute_from_path(""));
    assert_eq!("x", strip_absolute_from_path(".//x"));
}

#[test]
fn stripped_paths_do_not_start_at_root() {
    for p in ["/a", "//a", "../../a", "./a", "/./a", "a", "...//"] {
        let s = strip_absolute_from_path(p);
        assert!(!s.starts_with('/'), "{} gave {}", p, s);
    }
}

#[test]
fn clamp_limits_values() {
    assert_eq!(clamp(5, 1, 10), 5);
    assert_eq!(clamp(0, 1, 10), 1);
    assert_eq!(clamp(12, 1, 10), 10);
    assert_eq!(clamp(1, 1, 10), 1);
    assert_eq!(clamp(10, 1, 10), 10);
}

#[test]
fn extend_adds_text_to_the_name() {
    assert_eq!(extend_pathbuf("a/b.tar.zst".to_string(), ".old"), "a/b.tar.zst.old");
    assert_eq!(extend_pathbuf(String::new(), ".tmp"), ".tmp");
}

#[test]
fn time_read_from_backup_names() {
    assert_eq!(
        time_from_name("dir/backup_2020-02-20_20-20-20.tar.zst"),
        Some(at(2020, 2, 20, 20, 20, 20))
    );
    assert_eq!(time_from_name("dir/other.tar.zst"), None);
    assert_eq!(time_from_name("/"), None);
}

#[test]
fn backup_entries_are_files_with_the_extension() {
    assert!(is_backup_entry("d/a.tar.zst", true));
    assert!(!is_backup_entry("d/a.tar.zst", false));
    assert!(!is_backup_entry("d/a.tar", true));
    assert!(!is_backup_entry("d/config.yml", true));
}

#[test]
fn config_path_types() {
    assert!(matches!(
        ConfigPathType::parse("d".to_string(), Ok(PathKind::Dir)),
        Ok(ConfigPathType::Dir(p)) if p == "d"
    ));
    assert!(matches!(
        ConfigPathType::parse("c.yml".to_string(), Ok(PathKind::File)),
        Ok(ConfigPathType::Config(p)) if p == "c.yml"
    ));
    assert!(matches!(
        ConfigPathType::parse("b.tar.zst".to_string(), Ok(PathKind::File)),
        Ok(ConfigPathType::Backup(p)) if p == "b.tar.zst"
    ));
    assert!(matches!(
        ConfigPathType::parse("x.txt".to_string(), Ok(PathKind::File)),
        Err(BackupError::InvalidPath(p)) if p == "x.txt"
    ));
    assert!(matches!(
        ConfigPathType::parse("x".to_string(), Ok(PathKind::Other)),
        Err(BackupError::InvalidPath(p)) if p == "x"
    ));
    let e = std::io::Error::new(std::io::ErrorKind::NotFound, "gone");
    assert!(matches!(
        ConfigPathType::parse("x".to_string(), Err(e)),
        Err(BackupError::FileError(_))
    ));
}

fn found(items: &[(&str, Option<DateTime>)]) -> Vec<Result<Candidate, std::io::Error>> {
    items
        .iter()
        .map(|(p, t)| Ok(Candidate { path: p.to_string(), time: *t }))
        .collect()
}

#[test]
fn backup_iterator_picks_by_time() {
    let t2 = at(2020, 2, 20, 20, 20, 20);
    let t3 = at(2020, 4, 24, 21, 20, 20);
    let t4 = at(2020, 4, 24, 22, 20, 20);
    let items = [("f3", Some(t3)), ("f2", Some(t2)), ("f4", Some(t4))];
    assert_eq!(BackupIterator::new(found(&items)).get_all().unwrap(), vec!["f2", "f3", "f4"]);
    assert_eq!(BackupIterator::new(found(&items)).get_latest(), Some("f4".to_string()));
    assert_eq!(
        BackupIterator::new(found(&items)).get_previous(Some(t4)),
        Some("f3".to_string())
    );
    assert_eq!(BackupIterator::new(found(&items)).get_previous(Some(t2)), None);
    assert_eq!(BackupIterator::new(found(&[])).get_latest(), None);
}

#[test]
fn backup_iterator_without_times() {
    // Backups whose time is unknown come first; of equal times the last found wins.
    let t = at(2021, 1, 1, 0, 0, 0);
    let items = [("a", None), ("b", None), ("c", Some(t))];
    assert_eq!(BackupIterator::new(found(&items)).get_latest(), Some("c".to_string()));
    assert_eq!(BackupIterator::new(found(&items)).get_previous(Some(t)), Some("b".to_string()));
    let same = [("a", None), ("b", None)];
    assert_eq!(BackupIterator::new(found(&same)).get_latest(), Some("b".to_string()));
}

#[test]
fn backup_iterator_errors() {
    let mut v = found(&[("a", None)]);
    v.push(Err(std::io::Error::new(std::io::ErrorKind::Other, "bad")));
    assert!(BackupIterator::new(v).get_all().is_err());
    let mut v = found(&[("a", None)]);
    v.push(Err(std::io::Error::new(std::io::ErrorKind::Other, "bad")));
    assert_eq!(BackupIterator::new(v).get_latest(), Some("a".to_string()));
}
