use simple_backup::errors::{BackupError, FileAccessError};

fn io(msg: &str) -> std::io::Error {
    std::io::Error::new(std::io::ErrorKind::Other, msg.to_string())
}

#[test]
fn messages_of_errors() {
    assert_eq!(
        BackupError::NoConfig("b.tar.zst".to_string()).message(),
        "Could not find the config file in the backup: b.tar.zst"
    );
    assert_eq!(
        BackupError::NoList("b.tar.zst".to_string()).message(),
        "Could not find the file list in the backup: b.tar.zst"
    );
    assert_eq!(BackupError::NoBackup("d".to_string()).message(), "Could not find a backup: d");
    assert_eq!(BackupError::ArchiveError(io("bad")).message(), "Could not read the backup: bad");
    assert_eq!(BackupError::FileError(io("bad")).message(), "Could not access the file: bad");
    assert_eq!(BackupError::WriteError(io("bad")).message(), "Could not write the file: bad");
    assert_eq!(BackupError::DeleteError(io("bad")).message(), "Could not delete the file: bad");
    assert_eq!(
        BackupError::RenameError("a".to_string(), "b".to_string(), io("bad")).message(),
        "Could not rename 'a' to 'b': bad"
    );
    assert_eq!(
        BackupError::InvalidPath("x".to_string()).message(),
        "The path must be either a config (.yml), a backup (.tar.zst), or a directory containing backups: x"
    );
    assert_eq!(BackupError::Cancel.message(), "The operation has been cancelled");
    assert_eq!(
        BackupError::FileAccessError(FileAccessError::new(io("bad"), "p".to_string())).message(),
        "Could not access 'p': bad"
    );
    assert_eq!(BackupError::IOError(io("bad")).message(), "bad");
    assert_eq!(BackupError::GenericError("oops").message(), "oops");
    assert_eq!(BackupError::Unspecified.message(), "Unspecified error");
    assert_eq!(BackupError::FileExists("f".to_string()).message(), "Path already exists: f");
    let yaml = serde_yaml::from_str::<Vec<u32>>("[").unwrap_err();
    assert!(BackupError::YamlError(yaml).message().starts_with("Could not parse the config: "));
}
