use simple_backup::datetime::DateTime;
use simple_backup::errors::{BackupError, FileAccessError};
use simple_backup::files::FileInfo;
use simple_backup::lists::{FileListString, FileListVec};

fn at(day: u32) -> DateTime {
    DateTime { year: 2022, month: 6, day, hour: 12, minute: 0, second: 0, nanosecond: 0 }
}

#[test]
fn stored_list_reads_back() {
    let mut files = FileListVec::new();
    files.push(true, FileInfo::from_str("/a/x.txt"));
    files.push(false, FileInfo::from_str("/a/y.txt"));
    files.push(true, FileInfo::from_str("rel dir/z,1.txt"));
    let list = FileListString::from(&files);
    assert_eq!(list.as_str(), "1,/a/x.txt\n0,/a/y.txt\n1,rel dir/z,1.txt");
    assert_eq!(list.filename(), "files_v2.csv");
    assert!(list.is_readable());
    assert_eq!(
        list.iter(),
        vec![
            (true, "/a/x.txt".to_string()),
            (false, "/a/y.txt".to_string()),
            (true, "rel dir/z,1.txt".to_string())
        ]
    );
    assert_eq!(list.iter_included(), vec!["/a/x.txt", "rel dir/z,1.txt"]);
    let again = FileListString::new(list.filename(), list.as_str().to_string()).unwrap();
    assert_eq!(again.iter(), list.iter());
}

#[test]
fn first_format_includes_every_line() {
    let list = FileListString::new("files.csv", "a\nb".to_string()).unwrap();
    assert_eq!(list.filename(), "files.csv");
    assert_eq!(list.iter(), vec![(true, "a".to_string()), (true, "b".to_string())]);
    assert_eq!(list.iter_included(), vec!["a", "b"]);
}

#[test]
fn other_names_are_no_list() {
    assert!(matches!(
        FileListString::new("config.yml", String::new()),
        Err(BackupError::Unspecified)
    ));
}

#[test]
fn empty_list() {
    let files = FileListVec::new();
    let list = FileListString::from(&files);
    assert_eq!(list.as_str(), "");
}

#[test]
fn crawl_marks_changed_files() {
    let err = FileAccessError::new(
        std::io::Error::new(std::io::ErrorKind::PermissionDenied, "no"),
        "/secret".to_string(),
    );
    let found = vec![
        Ok(FileInfo::with_metadata("/b".to_string(), Some(at(3)), 5)),
        Err(err),
        Ok(FileInfo::with_metadata("/a".to_string(), Some(at(1)), 7)),
        Ok(FileInfo::with_metadata("/c".to_string(), Some(at(2)), 9)),
    ];
    let list = FileListVec::crawl(found, Some(at(2)));
    assert_eq!(list.len(), 3);
    let got: Vec<(bool, String)> =
        (0..list.len()).map(|i| (list.get(i).0, list.get(i).1.copy_string())).collect();
    assert_eq!(
        got,
        vec![(false, "/a".to_string()), (true, "/b".to_string()), (true, "/c".to_string())]
    );
    assert_eq!(list.get(0).1.size, 7);
}

#[test]
fn crawl_without_time_includes_all() {
    let found = vec![
        Ok(FileInfo::from_str("b")),
        Ok(FileInfo::from_str("a")),
    ];
    let list = FileListVec::crawl(found, None);
    assert!(list.get(0).0 && list.get(1).0);
    assert_eq!(list.get(0).1.copy_string(), "a");
}

#[test]
fn sorting_records() {
    let mut files = FileListVec::new();
    files.push(true, FileInfo::from_str("b"));
    files.push(false, FileInfo::from_str("a"));
    files.push(true, FileInfo::from_str("c"));
    files.sort_unstable();
    let got: Vec<String> = (0..files.len()).map(|i| files.get(i).1.copy_string()).collect();
    assert_eq!(got, vec!["a", "b", "c"]);
    assert!(!files.get(0).0);
}
