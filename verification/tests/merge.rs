use simple_backup::merge::{merge_lists, CopyStep, CopyWalk};

fn list(v: &[(bool, &str)]) -> Vec<(bool, String)> {
    v.iter().map(|(b, s)| (*b, s.to_string())).collect()
}

fn records(l: &simple_backup::lists::FileListVec) -> Vec<(bool, String)> {
    (0..l.len()).map(|i| (l.get(i).0, l.get(i).1.copy_string())).collect()
}

#[test]
fn merge_keeps_the_newest_files() {
    let lists = vec![
        list(&[(true, "a"), (false, "c")]),
        list(&[(true, "b"), (true, "c")]),
    ];
    let merged = merge_lists(&lists, false);
    assert_eq!(records(&merged), list(&[(true, "a"), (true, "c")]));
}

#[test]
fn merge_of_all_files_keeps_every_file() {
    let lists = vec![
        list(&[(true, "a"), (false, "c")]),
        list(&[(true, "b"), (true, "c")]),
    ];
    let merged = merge_lists(&lists, true);
    assert_eq!(records(&merged), list(&[(true, "a"), (true, "b"), (true, "c")]));
    let lists = vec![list(&[(true, "a")]), list(&[(false, "b")])];
    assert_eq!(records(&merge_lists(&lists, true)), list(&[(true, "a"), (false, "b")]));
}

#[test]
fn included_marks_follow_the_same_file() {
    let lists = vec![list(&[(false, "a")]), list(&[(true, "b")])];
    assert_eq!(records(&merge_lists(&lists, true)), list(&[(false, "a"), (true, "b")]));
    assert_eq!(records(&merge_lists(&lists, false)), list(&[(false, "a")]));
    let lists = vec![list(&[(false, "b"), (false, "d")]), list(&[(true, "a"), (true, "d")])];
    assert_eq!(records(&merge_lists(&lists, false)), list(&[(false, "b"), (true, "d")]));
}

#[test]
fn merge_of_all_included_files() {
    let lists = vec![
        list(&[(true, "b"), (true, "d")]),
        list(&[(true, "a"), (true, "b"), (true, "c")]),
    ];
    let merged = merge_lists(&lists, true);
    assert_eq!(records(&merged), list(&[(true, "a"), (true, "b"), (true, "c"), (true, "d")]));
    let merged = merge_lists(&lists, false);
    assert_eq!(records(&merged), list(&[(true, "b"), (true, "d")]));
}

#[test]
fn merge_of_nothing() {
    let lists: Vec<Vec<(bool, String)>> = vec![vec![], vec![]];
    assert_eq!(merge_lists(&lists, true).len(), 0);
    assert_eq!(merge_lists(&lists, false).len(), 0);
}

#[test]
fn copy_walk_finds_each_file_once() {
    let mut w = CopyWalk::start(vec!["b".to_string(), "d".to_string()], 2);
    assert!(!w.is_done());
    assert_eq!(w.current_archive(), 0);
    assert_eq!(w.on_entry(Some("a")), CopyStep::Skip);
    assert_eq!(w.on_entry(Some("c")), CopyStep::NextArchive);
    assert_eq!(w.current_archive(), 1);
    assert_eq!(w.on_entry(Some("b")), CopyStep::Take);
    assert_eq!(w.current_archive(), 0);
    assert_eq!(w.file, 1);
    assert_eq!(w.on_entry(Some("c")), CopyStep::Skip);
    assert_eq!(w.on_entry(None), CopyStep::NextArchive);
    assert_eq!(w.on_entry(Some("e")), CopyStep::NextArchive);
    assert!(w.is_done());
}
