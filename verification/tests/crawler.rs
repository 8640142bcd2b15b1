use simple_backup::crawler::FileCrawler;
use simple_backup::files::FileInfo;

const CWD: &str = "/home/user/project";

fn strings(v: &[&str]) -> Vec<String> {
    v.iter().map(|s| s.to_string()).collect()
}

#[test]
fn file_crawler_check() -> std::result::Result<(), Box<dyn std::error::Error>> {
    let fc = FileCrawler::new(
        &strings(&["src", "tests"]),
        &strings(&["src/main.rs"]),
        &strings(&["config.*"]),
        false,
        Ok(CWD.to_string()),
    )?;
    let cwd = Some(CWD.to_string());
    let path = CWD.to_string();
    let path2 = format!("{}/src", CWD);
    assert!(!fc.check_path(&path, None, &cwd));
    assert!(fc.check_path(&path, Some(true), &cwd));
    assert!(fc.check_path(&path2, None, &cwd));
    assert!(!fc.check_path(&format!("{}/main.rs", path2), Some(true), &cwd));
    assert!(!fc.check_path(&format!("{}/main.rs", path2), None, &cwd));
    assert!(fc.check_path(&format!("{}/gui.rs", path2), Some(true), &cwd));
    assert!(fc.check_path(&format!("{}/gui.rs", path2), None, &cwd));
    assert!(!fc.check_path(&format!("{}/config.rs", path2), None, &cwd));
    Ok(())
}

#[test]
fn file_crawler_check_local() -> std::result::Result<(), Box<dyn std::error::Error>> {
    let fc = FileCrawler::new(
        &strings(&["src", "tests"]),
        &strings(&["src/main.rs"]),
        &strings(&["config.*"]),
        true,
        Ok(CWD.to_string()),
    )?;
    let via = |p: &str| FileInfo::via_path(p).consume_path();
    assert!(!fc.check_path(&via("."), None, &None));
    assert!(fc.check_path(&via("."), Some(true), &None));
    assert!(fc.check_path(&via("src"), None, &None));
    assert!(!fc.check_path(&via("src/main.rs"), Some(true), &None));
    assert!(!fc.check_path(&via("src/main.rs"), None, &None));
    assert!(fc.check_path(&via("src/gui.rs"), Some(true), &None));
    assert!(fc.check_path(&via("src/gui.rs"), None, &None));
    assert!(!fc.check_path(&via("src/config.rs"), None, &None));
    Ok(())
}

#[test]
fn relative_paths_are_made_absolute() {
    let fc = FileCrawler::new(&strings(&["src"]), &vec![], &vec![], false, Ok(CWD.to_string()))
        .unwrap();
    let cwd = Some(CWD.to_string());
    assert!(fc.check_path("src/a.rs", None, &cwd));
    assert!(!fc.check_path("other/a.rs", None, &cwd));
}

#[test]
fn missing_current_directory_is_an_error() {
    let e = std::io::Error::new(std::io::ErrorKind::NotFound, "no cwd");
    assert!(FileCrawler::new(&strings(&["src"]), &vec![], &vec![], false, Err(e)).is_err());
    let e = std::io::Error::new(std::io::ErrorKind::NotFound, "no cwd");
    assert!(FileCrawler::new(&strings(&["src"]), &vec![], &vec![], true, Err(e)).is_ok());
}

#[test]
fn bad_filters_are_invalid_input() {
    let r = FileCrawler::new(&strings(&["src"]), &vec![], &strings(&["("]), true, Ok(CWD.to_string()));
    assert_eq!(r.err().unwrap().kind(), std::io::ErrorKind::InvalidInput);
}

fn drain(fc: &mut FileCrawler) -> Vec<String> {
    let mut out = vec![];
    while let Some(f) = fc.pop() {
        out.push(f.consume_path());
    }
    out
}

#[test]
fn entries_come_in_order() {
    let mut fc = FileCrawler::new(&strings(&["c", "a"]), &vec![], &strings(&["\\.tmp$"]), true, Ok(CWD.to_string()))
        .unwrap();
    let first = fc.pop().unwrap();
    assert_eq!(first.consume_path(), "a");
    fc.add_entry("a/y".to_string());
    fc.add_entry("a/x".to_string());
    fc.add_entry("a/z.tmp".to_string());
    fc.add_entry("./a/w".to_string());
    fc.finish_dir();
    assert!(fc.temp.is_empty());
    assert_eq!(drain(&mut fc), vec!["a/w", "a/x", "a/y", "c"]);
}

#[test]
fn entries_equal_to_roots_are_not_repeated() {
    let mut fc = FileCrawler::new(&strings(&["a", "a/x"]), &vec![], &vec![], true, Ok(CWD.to_string()))
        .unwrap();
    assert_eq!(fc.pop().unwrap().consume_path(), "a");
    fc.add_entry("a/x".to_string());
    fc.add_entry("a/y".to_string());
    fc.finish_dir();
    assert_eq!(drain(&mut fc), vec!["a/x", "a/y"]);
}

#[test]
fn later_roots_inside_a_directory_are_sorted_in() {
    let mut fc = FileCrawler::new(&strings(&["a", "a/m"]), &vec![], &vec![], true, Ok(CWD.to_string()))
        .unwrap();
    assert_eq!(fc.pop().unwrap().consume_path(), "a");
    fc.add_entry("a/z".to_string());
    fc.add_entry("a/b".to_string());
    fc.finish_dir();
    assert_eq!(drain(&mut fc), vec!["a/b", "a/m", "a/z"]);
}

#[test]
fn excluded_paths_are_taken_literally() {
    let fc = FileCrawler::new(
        &strings(&["x"]),
        &strings(&["x/a+b", "x/c.d"]),
        &vec![],
        true,
        Ok(CWD.to_string()),
    )
    .unwrap();
    assert!(!fc.check_path("x/a+b", Some(true), &None));
    assert!(fc.check_path("x/aab", Some(true), &None));
    assert!(!fc.check_path("x/c.d", Some(true), &None));
    assert!(fc.check_path("x/cxd", Some(true), &None));
}

/// Walks a directory tree held in memory, as the program walks the disk:
/// each directory taken gives its entries, each file is found.
fn fake_walk(fc: &mut FileCrawler, dirs: &[(&str, &[&str])]) -> Vec<String> {
    let mut found = vec![];
    while let Some(item) = fc.pop() {
        let path = item.consume_path();
        match dirs.iter().find(|(d, _)| *d == path) {
            Some((d, names)) => {
                for n in names.iter() {
                    fc.add_entry(format!("{}/{}", d, n));
                }
                fc.finish_dir();
            }
            None => found.push(path),
        }
    }
    found
}

#[test]
fn file_crawler_abs() {
    let src = format!("{}/src", CWD);
    let names: &[&str] = &["main.rs", "backup.rs", "config.rs", "files.rs", "gui"];
    let gui = format!("{}/gui", src);
    let gui_names: &[&str] = &["theme.rs", "mod.rs"];
    let dirs = [(src.as_str(), names), (gui.as_str(), gui_names)];
    let mut fc = FileCrawler::new(
        &strings(&["src"]),
        &strings(&["src/main.rs"]),
        &strings(&["config.*"]),
        false,
        Ok(CWD.to_string()),
    )
    .unwrap();
    let files = fake_walk(&mut fc, &dirs);
    files.iter().take(files.len() - 1).zip(files.iter().skip(1)).for_each(|(a, b)| assert!(a < b));
    files.iter().for_each(|f| assert_ne!(*f, format!("{}/src/main.rs", CWD)));
    files.iter().for_each(|f| assert_ne!(*f, format!("{}/src/config.rs", CWD)));
    assert_eq!(files.iter().filter(|f| **f == format!("{}/src/backup.rs", CWD)).count(), 1);
    assert_eq!(files.len(), 4);
}

#[test]
fn file_crawler_rel() {
    let names: &[&str] = &["main.rs", "backup.rs", "config.rs", "files.rs", "gui"];
    let gui_names: &[&str] = &["theme.rs", "mod.rs"];
    let dirs = [("src", names), ("src/gui", gui_names)];
    let mut fc = FileCrawler::new(
        &strings(&["src"]),
        &strings(&["src/main.rs"]),
        &strings(&["config.*"]),
        true,
        Ok(CWD.to_string()),
    )
    .unwrap();
    let files = fake_walk(&mut fc, &dirs);
    files.iter().take(files.len() - 1).zip(files.iter().skip(1)).for_each(|(a, b)| assert!(a < b));
    files.iter().for_each(|f| assert_ne!(f, "src/main.rs"));
    files.iter().for_each(|f| assert_ne!(f, "src/config.rs"));
    assert_eq!(files.iter().filter(|f| *f == "src/backup.rs").count(), 1);
    assert_eq!(files, strings(&["src/backup.rs", "src/files.rs", "src/gui/mod.rs", "src/gui/theme.rs"]));
}

#[test]
fn crawl_takes_every_path_after_the_one_before() {
    let dirs: [(&str, &[&str]); 3] = [
        ("a", &["z", "b", "a-b", "b.txt"]),
        ("a/b", &["x", "c"]),
        ("q", &["r"]),
    ];
    let mut fc = FileCrawler::new(&strings(&["q", "a"]), &vec![], &vec![], true, Ok(CWD.to_string()))
        .unwrap();
    let mut taken: Vec<String> = vec![];
    while let Some(item) = fc.pop() {
        let path = item.consume_path();
        if let Some((d, names)) = dirs.iter().find(|(d, _)| *d == path) {
            for n in names.iter() {
                fc.add_entry(format!("{}/{}", d, n));
            }
            fc.finish_dir();
        }
        taken.push(path);
    }
    assert_eq!(
        taken,
        strings(&["a", "a/a-b", "a/b", "a/b/c", "a/b/x", "a/b.txt", "a/z", "q", "q/r"])
    );
    for w in taken.windows(2) {
        assert!(std::path::Path::new(&w[0]) < std::path::Path::new(&w[1]));
    }
}
