use simple_backup::config::Config;

fn strings(v: &[&str]) -> Vec<String> {
    v.iter().map(|s| s.to_string()).collect()
}

fn config(includes: &[&str], exclude: &[&str]) -> Config {
    let mut c = Config::new();
    c.includes = strings(includes);
    c.exclude = strings(exclude);
    c
}

#[test]
fn including_an_excluded_path_moves_it() {
    let mut c = config(&["c", "a"], &["x", "b"]);
    c.include_path("b".to_string());
    assert_eq!(c.includes, strings(&["a", "b", "c"]));
    assert_eq!(c.exclude, strings(&["x"]));
    assert!(!c.exclude.contains(&"b".to_string()));
}

#[test]
fn excluding_an_included_path_moves_it() {
    let mut c = config(&["c", "a"], &["x"]);
    c.exclude_path("a".to_string());
    assert_eq!(c.includes, strings(&["c"]));
    assert_eq!(c.exclude, strings(&["a", "x"]));
    c.exclude_path("new".to_string());
    assert_eq!(c.includes, strings(&["c"]));
    assert_eq!(c.exclude, strings(&["a", "new", "x"]));
}

#[test]
fn only_the_first_copy_leaves() {
    let mut c = config(&[], &["b", "b"]);
    c.include_path("b".to_string());
    assert_eq!(c.exclude, strings(&["b"]));
    assert_eq!(c.includes, strings(&["b"]));
}

#[test]
fn removing_paths_by_position() {
    let mut c = config(&["a", "b"], &["x", "y"]);
    c.remove_include(0);
    assert_eq!(c.includes, strings(&["b"]));
    c.remove_include(5);
    assert_eq!(c.includes, strings(&["b"]));
    c.remove_exclude(1);
    assert_eq!(c.exclude, strings(&["x"]));
    c.remove_exclude(1);
    assert_eq!(c.exclude, strings(&["x"]));
}

#[test]
fn filters_are_stored_only_when_they_compile() {
    let mut c = config(&[], &[]);
    c.add_filter();
    assert_eq!(c.regex, strings(&[""]));
    assert!(c.set_filter(0, "a.*".to_string()));
    assert_eq!(c.regex, strings(&["a.*"]));
    assert!(!c.set_filter(0, "(".to_string()));
    assert_eq!(c.regex, strings(&["a.*"]));
    assert!(!c.set_filter(1, "b".to_string()));
    assert_eq!(c.regex, strings(&["a.*"]));
    c.add_filter();
    c.remove_filter(0);
    assert_eq!(c.regex, strings(&[""]));
    c.remove_filter(3);
    assert_eq!(c.regex, strings(&[""]));
}

#[test]
fn edits_keep_the_lists_sorted_and_apart() {
    let mut c = config(&["a", "m"], &["b", "z"]);
    c.include_path("z".to_string());
    c.exclude_path("a".to_string());
    c.include_path("k".to_string());
    c.remove_exclude(0);
    c.exclude_path("m".to_string());
    assert_eq!(c.includes, strings(&["k", "z"]));
    assert_eq!(c.exclude, strings(&["b", "m"]));
    for v in [&c.includes, &c.exclude] {
        for w in v.windows(2) {
            assert!(w[0] <= w[1]);
        }
    }
    assert!(c.includes.iter().all(|p| !c.exclude.contains(p)));
}
