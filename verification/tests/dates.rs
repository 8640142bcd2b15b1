use chrono::{Datelike, Timelike};
use simple_backup::datetime::{
    create_backup_file_name, format_config_time, opt_is_before, parse_backup_file_name,
    parse_config_time, try_parse, DateTime,
};

fn at(year: i32, month: u32, day: u32, hour: u32, minute: u32, second: u32) -> DateTime {
    DateTime { year, month, day, hour, minute, second, nanosecond: 0 }
}

#[test]
fn parse() {
    let now2 = chrono::Local::now().naive_local();
    let string = format!("{}-{:02}-{:02}", now2.year(), now2.month(), now2.day());
    let now3 = try_parse(&string).unwrap().unwrap();
    assert_eq!(now2.year(), now3.year);
    assert_eq!(now2.month(), now3.month);
    assert_eq!(now2.day(), now3.day);
    let string = format!("{}{:02}{:02}", now2.year(), now2.month(), now2.day());
    let now3 = try_parse(&string).unwrap().unwrap();
    assert_eq!(now2.year(), now3.year);
    assert_eq!(now2.month(), now3.month);
    assert_eq!(now2.day(), now3.day);
    assert_eq!(try_parse("").unwrap(), None);
    let string = format!(
        "{}.{:02}.{:02} {:02}:{:02}:{:02}",
        now2.year(),
        now2.month(),
        now2.day(),
        now2.hour(),
        now2.minute(),
        now2.second()
    );
    let now3 = try_parse(&string).unwrap().unwrap();
    assert_eq!(now2.year(), now3.year);
    assert_eq!(now2.month(), now3.month);
    assert_eq!(now2.day(), now3.day);
    assert_eq!(now2.hour(), now3.hour);
    assert_eq!(now2.minute(), now3.minute);
    assert_eq!(now2.second(), now3.second);
}

#[test]
fn unknown_formats_are_errors() {
    assert_eq!(try_parse("yesterday"), Err("Unknown time format, try, e.g., `YYMMDD`"));
}

#[test]
fn backup_names_hold_the_time() {
    let t = at(2020, 2, 20, 20, 20, 20);
    let name = create_backup_file_name(&t);
    assert_eq!(name, "backup_2020-02-20_20-20-20.tar.zst");
    assert_eq!(parse_backup_file_name(&name).unwrap(), t);
    assert!(parse_backup_file_name("backup.tar.zst").is_err());
}

#[test]
fn config_times_read_back() {
    let t = at(1999, 12, 31, 23, 59, 58);
    let text = format_config_time(&t);
    assert_eq!(text, "1999-12-31 23:59:58");
    assert_eq!(parse_config_time(&text).unwrap(), Some(t));
    assert_eq!(parse_config_time("").unwrap(), None);
    assert!(parse_config_time("31.12.1999").is_err());
}

#[test]
fn times_are_ordered() {
    let a = at(2020, 1, 1, 0, 0, 0);
    let b = at(2020, 1, 1, 0, 0, 1);
    assert!(a.is_before(&b));
    assert!(!b.is_before(&a));
    assert!(!a.is_before(&a));
    assert!(opt_is_before(&None, &Some(a)));
    assert!(!opt_is_before(&Some(a), &None));
    assert!(!opt_is_before(&None, &None));
    assert_eq!(DateTime::midnight(2020, 5, 6), at(2020, 5, 6, 0, 0, 0));
}
