use std::io::Cursor;
use std::path::PathBuf;

use path_absolutize::Absolutize;
use simple_backup::compression::{path_from_archive, path_to_archive};
use tar::{Archive, Builder, Header};

fn through_tar(name: String) -> String {
    let tmp: Vec<u8> = vec![];
    let mut tar = Builder::new(tmp);
    let mut header = Header::new_gnu();
    header.set_size(2);
    tar.append_data(&mut header, name, "ab".as_bytes()).unwrap();
    let tmp = tar.into_inner().unwrap();
    let mut tar = Archive::new(Cursor::new(tmp));
    let entry = tar.entries().unwrap().next().unwrap().unwrap();
    let pia = entry.header().path().unwrap();
    pia.to_string_lossy().to_string()
}

#[test]
fn paths_abs() {
    let dir = PathBuf::from(".").absolutize().unwrap().to_path_buf();
    let dir = dir.to_string_lossy().to_string();
    let pta = path_to_archive(&dir);
    let out = path_from_archive(&pta).consume_path();
    assert_eq!(dir, out);

    let pia = through_tar(pta);
    let out = path_from_archive(&pia).consume_path();
    assert_eq!(dir, out);
}

#[test]
fn paths_rel() {
    let dir = ".".to_string();
    let pta = path_to_archive(&dir);
    let out = path_from_archive(&pta).consume_path();
    assert_eq!(dir, out);

    let pia = through_tar(pta);
    let out = path_from_archive(&pia).consume_path();
    assert_eq!(dir, out);
}

#[test]
fn archive_names() {
    assert_eq!(path_to_archive("/home/a.txt"), "abs/home/a.txt");
    assert_eq!(path_to_archive("src/./a.txt"), "rel/src/a.txt");
    assert_eq!(path_to_archive("src/../a.txt"), "rel/a.txt");
    assert_eq!(path_from_archive("abs/home/a.txt").consume_path(), "/home/a.txt");
    assert_eq!(path_from_archive("rel/src/a.txt").consume_path(), "src/a.txt");
    assert_eq!(path_from_archive("rel").consume_path(), ".");
    assert_eq!(path_from_archive("config.yml").consume_path(), "config.yml");
}

#[test]
fn relative_names_are_cleaned() {
    assert_eq!(path_to_archive(""), "rel/.");
    assert_eq!(path_to_archive("a//b/"), "rel/a/b");
    assert_eq!(path_to_archive("../x"), "rel/../x");
}
