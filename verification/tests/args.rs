use simple_backup::args::{parse_config_path, parse_cpu_count, parse_quality, parse_time};
use simple_backup::datetime::DateTime;

#[test]
fn quality_from_one_to_twenty_two() {
    assert_eq!(parse_quality("1"), Ok(1));
    assert_eq!(parse_quality("22"), Ok(22));
    assert_eq!(parse_quality("0"), Err("Must be a number between 1-22!"));
    assert_eq!(parse_quality("23"), Err("Must be a number between 1-22!"));
    assert_eq!(parse_quality("x"), Err("Must be a number between 1-22!"));
}

#[test]
fn cpu_count_up_to_the_processors() {
    assert_eq!(parse_cpu_count("1", 4), Ok(1));
    assert_eq!(parse_cpu_count("4", 4), Ok(4));
    assert_eq!(parse_cpu_count("5", 4), Err("Must be a number between 1-4!".to_string()));
    assert_eq!(parse_cpu_count("0", 4), Err("Must be a number between 1-4!".to_string()));
    assert_eq!(parse_cpu_count("-1", 4), Err("Must be a number between 1-4!".to_string()));
}

#[test]
fn time_arguments() {
    let t = DateTime { year: 2021, month: 3, day: 4, hour: 0, minute: 0, second: 0, nanosecond: 0 };
    assert_eq!(parse_time("2021-03-04"), Ok(t));
    assert_eq!(parse_time(""), Err("Missing time"));
    assert_eq!(parse_time("nonsense"), Err("Unknown time format, try, e.g., `YYMMDD`"));
}

#[test]
fn config_paths_end_with_yml() {
    assert_eq!(parse_config_path("a/config.yml"), Ok("a/config.yml".to_string()));
    assert_eq!(
        parse_config_path("a/config.yaml"),
        Err("The config file must end with.yml".to_string())
    );
}
