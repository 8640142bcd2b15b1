//! The errors of backing up, restoring and merging.
use vstd::prelude::*;

use crate::text::concat;

verus! {

#[verifier::external_type_specification]
#[verifier::external_body]
pub struct ExIoError(std::io::Error);

#[verifier::external_type_specification]
#[verifier::external_body]
pub struct ExYamlError(serde_yaml::Error);

/// A file or directory that could not be read while looking for files.
#[derive(Debug)]
pub struct FileAccessError {
    error: std::io::Error,
    path: String,
}

impl FileAccessError {
    /// The path that could not be read.
    pub closed spec fn spec_path(&self) -> Seq<char> {
        self.path@
    }

    /// The error that reading it gave.
    pub closed spec fn spec_error(&self) -> std::io::Error {
        self.error
    }

    pub fn new(error: std::io::Error, path: String) -> (r: Self)
        ensures
            r.spec_path() == path@,
            r.spec_error() == error,
    {
        Self { error, path }
    }

    /// The message of the error: the path, then what went wrong (as the
    /// error of reading it says).
    pub fn message(&self) -> (r: String)
        ensures
            r@ == "Could not access '"@ + self.spec_path() + "': "@ + spec_io_error_text(
                self.spec_error(),
            ),
    {
        let a = concat("Could not access '", self.path.as_str());
        let b = concat(a.as_str(), "': ");
        let t = io_error_text(&self.error);
        concat(b.as_str(), t.as_str())
    }

    /// The path that could not be read.
    pub fn path(&self) -> (r: &String)
        ensures
            r@ == self.spec_path(),
    {
        &self.path
    }

    /// The error that reading it gave.
    pub fn error(&self) -> (r: &std::io::Error)
        ensures
            *r == self.spec_error(),
    {
        &self.error
    }
}

/// Why an operation on backups failed.
#[derive(Debug)]
pub enum BackupError {
    NoConfig(String),
    NoList(String),
    NoBackup(String),
    ArchiveError(std::io::Error),
    FileError(std::io::Error),
    WriteError(std::io::Error),
    YamlError(serde_yaml::Error),
    InvalidPath(String),
    Cancel,
    FileAccessError(FileAccessError),
    IOError(std::io::Error),
    DeleteError(std::io::Error),
    RenameError(String, String, std::io::Error),
    GenericError(&'static str),
    Unspecified,
    FileExists(String),
}

/// The text of an I/O error, as its `Display` writes it. For an error of the
/// operating system the text comes from the C library's message table; the
/// program never changes its locale, so the text is fixed for one build.
pub uninterp spec fn spec_io_error_text(e: std::io::Error) -> Seq<char>;

/// The kind of an I/O error (`std::io::Error::kind`), by the name of its
/// `ErrorKind` variant.
pub uninterp spec fn spec_io_error_kind(e: std::io::Error) -> Seq<char>;

/// The text of a YAML error, as its `Display` writes it.
pub uninterp spec fn spec_yaml_error_text(e: serde_yaml::Error) -> Seq<char>;

/// The text of an I/O error (its `Display`, through `to_string`).
#[verifier::external_body]
fn io_error_text(e: &std::io::Error) -> (r: String)
    ensures
        r@ == spec_io_error_text(*e),
{
    e.to_string()
}

/// The text of a YAML error (its `Display`, through `to_string`).
#[verifier::external_body]
fn yaml_error_text(e: &serde_yaml::Error) -> (r: String)
    ensures
        r@ == spec_yaml_error_text(*e),
{
    e.to_string()
}

/// An error of data that is not as expected (`std::io::Error::new` with
/// `ErrorKind::InvalidData` and a message, whose `Display` is the message).
#[verifier::external_body]
pub(crate) fn invalid_data(message: &'static str) -> (r: std::io::Error)
    ensures
        spec_io_error_kind(r) == "InvalidData"@,
        spec_io_error_text(r) == message@,
{
    std::io::Error::new(std::io::ErrorKind::InvalidData, message)
}

/// The message of an error, for people to read: what failed, then the
/// message of the error of another kind that it holds, if any.
pub open spec fn spec_message(e: &BackupError) -> Seq<char> {
    match e {
        BackupError::NoConfig(p) => "Could not find the config file in the backup: "@ + p@,
        BackupError::NoList(p) => "Could not find the file list in the backup: "@ + p@,
        BackupError::NoBackup(p) => "Could not find a backup: "@ + p@,
        BackupError::ArchiveError(x) => "Could not read the backup: "@ + spec_io_error_text(*x),
        BackupError::FileError(x) => "Could not access the file: "@ + spec_io_error_text(*x),
        BackupError::WriteError(x) => "Could not write the file: "@ + spec_io_error_text(*x),
        BackupError::DeleteError(x) => "Could not delete the file: "@ + spec_io_error_text(*x),
        BackupError::RenameError(b, a, x) => "Could not rename '"@ + b@ + "' to '"@ + a@ + "': "@
            + spec_io_error_text(*x),
        BackupError::YamlError(x) => "Could not parse the config: "@ + spec_yaml_error_text(*x),
        BackupError::InvalidPath(p) => "The path must be either a config ("@ + ".yml"@
            + "), a backup ("@ + ".tar.zst"@ + "), or a directory containing backups: "@ + p@,
        BackupError::Cancel => "The operation has been cancelled"@,
        BackupError::FileAccessError(fe) => "Could not access '"@ + fe.spec_path() + "': "@
            + spec_io_error_text(fe.spec_error()),
        BackupError::IOError(x) => spec_io_error_text(*x),
        BackupError::GenericError(m) => m@,
        BackupError::Unspecified => "Unspecified error"@,
        BackupError::FileExists(p) => "Path already exists: "@ + p@,
    }
}

impl BackupError {
    /// The message of the error (see `spec_message`).
    pub fn message(&self) -> (r: String)
        ensures
            r@ == spec_message(self),
    {
        proof {
            reveal_strlit("");
        }
        match self {
            BackupError::NoConfig(p) => concat("Could not find the config file in the backup: ", p.as_str()),
            BackupError::NoList(p) => concat("Could not find the file list in the backup: ", p.as_str()),
            BackupError::NoBackup(p) => concat("Could not find a backup: ", p.as_str()),
            BackupError::ArchiveError(e) => concat("Could not read the backup: ", io_error_text(e).as_str()),
            BackupError::FileError(e) => concat("Could not access the file: ", io_error_text(e).as_str()),
            BackupError::WriteError(e) => concat("Could not write the file: ", io_error_text(e).as_str()),
            BackupError::DeleteError(e) => concat("Could not delete the file: ", io_error_text(e).as_str()),
            BackupError::RenameError(b, a, e) => {
                let s1 = concat("Could not rename '", b.as_str());
                let s2 = concat(s1.as_str(), "' to '");
                let s3 = concat(s2.as_str(), a.as_str());
                let s4 = concat(s3.as_str(), "': ");
                concat(s4.as_str(), io_error_text(e).as_str())
            },
            BackupError::YamlError(e) => concat("Could not parse the config: ", yaml_error_text(e).as_str()),
            BackupError::InvalidPath(p) => {
                let s1 = concat("The path must be either a config (", ".yml");
                let s2 = concat(s1.as_str(), "), a backup (");
                let s3 = concat(s2.as_str(), ".tar.zst");
                let s4 = concat(s3.as_str(), "), or a directory containing backups: ");
                concat(s4.as_str(), p.as_str())
            },
            BackupError::Cancel => concat("The operation has been cancelled", ""),
            BackupError::FileAccessError(fe) => fe.message(),
            BackupError::IOError(e) => io_error_text(e),
            BackupError::GenericError(m) => concat(m, ""),
            BackupError::Unspecified => concat("Unspecified error", ""),
            BackupError::FileExists(p) => concat("Path already exists: ", p.as_str()),
        }
    }
}

} // verus!
