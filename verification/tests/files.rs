use simple_backup::datetime::DateTime;
use simple_backup::errors::FileAccessError;
use simple_backup::files::FileInfo;

#[test]
fn fileinfo_from() {
    let fi1 = FileInfo::from_string(String::from("cargo.toml"));
    let fi2 = FileInfo::from_str("cargo.toml");
    let fi3 = FileInfo::with_metadata(String::from("cargo.toml"), None, 0);
    assert_eq!(fi1.get_string(), fi2.get_string());
    assert_eq!(fi3.get_string(), fi2.get_string());
    assert_eq!(fi1.clone_path(), fi2.clone_path());
    assert_eq!(fi3.copy_string(), fi2.move_string());
    assert_eq!(fi1.consume_path(), "cargo.toml");
}

#[test]
fn duplicate_keeps_everything() {
    let t = DateTime { year: 2000, month: 1, day: 2, hour: 3, minute: 4, second: 5, nanosecond: 6 };
    let fi = FileInfo::with_metadata("a/b".to_string(), Some(t), 42);
    let d = fi.duplicate();
    assert_eq!(d.get_string(), "a/b");
    assert_eq!(d.time, Some(t));
    assert_eq!(d.size, 42);
}

#[test]
fn access_errors_keep_path_and_error() {
    let e = FileAccessError::new(
        std::io::Error::new(std::io::ErrorKind::NotFound, "missing"),
        "x/y".to_string(),
    );
    assert_eq!(e.path(), "x/y");
    assert_eq!(e.error().kind(), std::io::ErrorKind::NotFound);
}

#[test]
fn files_compare_by_path() {
    let a = FileInfo::from_str("a/b");
    let b = FileInfo::with_metadata("a/b".to_string(), None, 7);
    let c = FileInfo::from_str("a/c");
    assert!(a == b);
    assert!(a != c);
    assert_eq!(a.partial_cmp(&c), Some(std::cmp::Ordering::Less));
    assert_eq!(c.partial_cmp(&a), Some(std::cmp::Ordering::Greater));
    assert_eq!(a.partial_cmp(&b), Some(std::cmp::Ordering::Equal));
    assert!(a < c);
}
