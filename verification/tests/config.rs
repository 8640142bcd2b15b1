use simple_backup::config::Config;
use simple_backup::crawler::{is_usable_cwd, FileCrawler};
use simple_backup::datetime::DateTime;

const CWD: &str = "/home/user/project";

#[test]
fn default_ignores() -> std::io::Result<()> {
    let mut config = Config::new();
    config.add_default_ignores();
    let fc = FileCrawler::new(
        &vec!["src".to_string()],
        &config.exclude,
        &config.regex,
        false,
        Ok(CWD.to_string()),
    )?;
    let cwd = Some(CWD.to_string());
    assert!(fc.check_path("src/cash", Some(true), &cwd));
    assert!(!fc.check_path("src/cache", Some(true), &cwd));
    Ok(())
}

#[test]
fn new_config_defaults() {
    let c = Config::new();
    assert!(c.includes.is_empty() && c.exclude.is_empty() && c.regex.is_empty());
    assert!(c.incremental);
    assert_eq!(c.quality, 20);
    assert!(!c.local);
    assert!(c.threads >= 1);
    assert_eq!(c.time, None);
    assert_eq!(c.link_depth, 1);
}

#[test]
fn default_ignores_are_added_after_filters() {
    let mut c = Config::new();
    c.regex.push("x".to_string());
    c.add_default_ignores();
    assert_eq!(c.regex.len(), 18);
    assert_eq!(c.regex[0], "x");
    assert_eq!(c.regex[17], "\\.crdownload$");
}

#[test]
fn sorting_a_config() {
    let mut c = Config::new();
    c.includes = vec!["b".to_string(), "a".to_string(), "c".to_string()];
    c.exclude = vec!["z".to_string(), "y".to_string()];
    c.regex = vec!["".to_string(), "r".to_string(), "".to_string()];
    c.sort();
    assert_eq!(c.includes, vec!["a", "b", "c"]);
    assert_eq!(c.exclude, vec!["y", "z"]);
    assert_eq!(c.regex, vec!["r"]);
    let before = (c.includes.clone(), c.exclude.clone(), c.regex.clone());
    c.sort();
    assert_eq!((c.includes.clone(), c.exclude.clone(), c.regex.clone()), before);
}

#[test]
fn outputs() {
    let mut c = Config::new();
    assert_eq!(c.get_output(false, "/home"), ".");
    assert_eq!(c.get_output(true, "/home"), "/home");
    c.origin = "/b/config.yml".to_string();
    assert_eq!(c.get_output(true, "/home"), "/b/config.yml");
    c.output = "/o".to_string();
    assert_eq!(c.get_output(true, "/home"), "/o");
    assert!(!c.is_output_file());
    c.output = "/o/b.tar.zst".to_string();
    assert!(c.is_output_file());
}

#[test]
fn backup_directories() {
    let w = Some("/w".to_string());
    let mut c = Config::new();
    c.output = "backups".to_string();
    assert_eq!(c.get_dir(false, &w), "/w/backups");
    assert_eq!(c.get_dir(false, &None), ".");
    c.local = true;
    assert_eq!(c.get_dir(false, &w), "backups");
    c.local = false;
    c.output = "/b/config.yml".to_string();
    assert_eq!(c.get_dir(true, &w), "/b");
    c.output = "/abs".to_string();
    assert_eq!(c.get_dir(false, &w), "/abs");
}

#[test]
fn usable_current_directories() {
    assert!(is_usable_cwd("/"));
    assert!(is_usable_cwd("/home/u"));
    assert!(!is_usable_cwd("//"));
    assert!(!is_usable_cwd("home"));
    assert!(!is_usable_cwd(""));
}

#[test]
fn new_outputs() {
    let now = DateTime { year: 2020, month: 2, day: 20, hour: 20, minute: 20, second: 20, nanosecond: 0 };
    let mut c = Config::new();
    assert_eq!(c.get_new_output(&now, "/b"), "/b/backup_2020-02-20_20-20-20.tar.zst");
    c.output = "x/my.tar.zst".to_string();
    assert_eq!(c.get_new_output(&now, "/b"), "x/my.tar.zst");
}

#[test]
fn quality_checks() {
    assert!(Config::quality_in_range(0));
    assert!(Config::quality_in_range(22));
    assert!(!Config::quality_in_range(23));
    let mut c = Config::new();
    c.quality = 30;
    assert_eq!(c.read_from("x.yml".to_string()).err(), Some("Compression Quality must be 0-22"));
    let c = Config::new();
    let c = c.read_from("x.yml".to_string()).unwrap();
    assert_eq!(c.origin, "x.yml");
}

#[test]
fn stored_configs() {
    let t = DateTime { year: 2020, month: 1, day: 1, hour: 0, minute: 0, second: 0, nanosecond: 0 };
    let mut c = Config::new();
    c.includes = vec!["b".to_string(), "a".to_string()];
    c.time = Some(t);
    let s = c.for_storage(false);
    assert_eq!(s.includes, vec!["a", "b"]);
    assert_eq!(s.time, None);
    assert_eq!(c.time, Some(t));
    let s = c.for_storage(true);
    assert_eq!(s.time, Some(t));
    let d = c.duplicate();
    assert_eq!(d.includes, c.includes);
}
