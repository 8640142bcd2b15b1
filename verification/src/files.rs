//! A file found for a backup: its path, modification time and size.
use vstd::prelude::*;
use std::cmp::Ordering;
use vstd::std_specs::cmp::{PartialEqSpecImpl, PartialOrdSpecImpl};

use crate::compression::{clean_path, spec_clean_path};
use crate::datetime::DateTime;
use crate::sort::SortKey;
use crate::text::{
    copy_string, lemma_text_lt_asymmetric, str_equal, lemma_text_lt_irreflexive, lemma_text_lt_transitive,
    lemma_text_trichotomy, str_less, text_le, text_lt,
};

verus! {

/// A file of a backup, named by its path.
#[derive(Debug)]
pub struct FileInfo {
    pub string: String,
    pub time: Option<DateTime>,
    pub size: u64,
}

impl View for FileInfo {
    type V = Seq<char>;

    /// The path of the file.
    open spec fn view(&self) -> Seq<char> {
        self.string@
    }
}

impl FileInfo {
    /// A file with the given path, no time and no size.
    pub fn from_string(path: String) -> (r: Self)
        ensures
            r@ == path@,
            r.time is None,
            r.size == 0,
    {
        FileInfo { string: path, time: None, size: 0 }
    }

    /// A file with the given path, no time and no size.
    pub fn from_str(path: &str) -> (r: Self)
        ensures
            r@ == path@,
            r.time is None,
            r.size == 0,
    {
        FileInfo { string: copy_string(path), time: None, size: 0 }
    }

    /// A file named by the cleaned form of a path, no time and no size.
    pub fn via_path(path: &str) -> (r: Self)
        ensures
            r@ == spec_clean_path(path@),
            r.time is None,
            r.size == 0,
    {
        FileInfo { string: clean_path(path), time: None, size: 0 }
    }

    /// A file with the given path, modification time and size.
    pub fn with_metadata(path: String, time: Option<DateTime>, size: u64) -> (r: Self)
        ensures
            r@ == path@,
            r.time == time,
            r.size == size,
    {
        FileInfo { string: path, time, size }
    }

    /// The path as text.
    pub fn get_string(&self) -> (r: &String)
        ensures
            r@ == self@,
    {
        &self.string
    }

    /// A copy of the path as text.
    pub fn copy_string(&self) -> (r: String)
        ensures
            r@ == self@,
    {
        copy_string(self.string.as_str())
    }

    /// A copy of the path.
    pub fn clone_path(&self) -> (r: String)
        ensures
            r@ == self@,
    {
        copy_string(self.string.as_str())
    }

    /// The path, taking the file apart.
    pub fn consume_path(self) -> (r: String)
        ensures
            r@ == self@,
    {
        self.string
    }

    /// A copy of the path as text.
    pub fn move_string(&self) -> (r: String)
        ensures
            r@ == self@,
    {
        copy_string(self.string.as_str())
    }

    /// A copy of the whole file record.
    pub fn duplicate(&self) -> (r: Self)
        ensures
            r@ == self@,
            r.time == self.time,
            r.size == self.size,
    {
        FileInfo { string: copy_string(self.string.as_str()), time: self.time, size: self.size }
    }
}

/// Files are ordered by their paths.
impl SortKey for FileInfo {
    open spec fn key_le(&self, other: &Self) -> bool {
        text_le(self@, other@)
    }

    proof fn lemma_key_le_total(a: &Self, b: &Self) {
        lemma_text_trichotomy(a@, b@);
    }

    proof fn lemma_key_le_transitive(a: &Self, b: &Self, c: &Self) {
        if text_lt(a@, b@) && text_lt(b@, c@) {
            lemma_text_lt_transitive(a@, b@, c@);
        }
    }

    fn less_or_equal(&self, other: &Self) -> (r: bool) {
        let r = !str_less(other.get_string().as_str(), self.get_string().as_str());
        proof {
            lemma_text_trichotomy(self@, other@);
            lemma_text_lt_asymmetric(self@, other@);
            lemma_text_lt_irreflexive(self@);
        }
        r
    }
}

/// Entries of a file list are ordered by the paths of their files.
impl SortKey for (bool, FileInfo) {
    open spec fn key_le(&self, other: &Self) -> bool {
        text_le(self.1@, other.1@)
    }

    proof fn lemma_key_le_total(a: &Self, b: &Self) {
        lemma_text_trichotomy(a.1@, b.1@);
    }

    proof fn lemma_key_le_transitive(a: &Self, b: &Self, c: &Self) {
        if text_lt(a.1@, b.1@) && text_lt(b.1@, c.1@) {
            lemma_text_lt_transitive(a.1@, b.1@, c.1@);
        }
    }

    fn less_or_equal(&self, other: &Self) -> (r: bool) {
        self.1.less_or_equal(&other.1)
    }
}

/// Two files are equal when their paths are.
impl PartialEq for FileInfo {
    fn eq(&self, other: &Self) -> (r: bool) {
        str_equal(self.string.as_str(), other.string.as_str())
    }
}

impl PartialEqSpecImpl for FileInfo {
    open spec fn obeys_eq_spec() -> bool {
        true
    }

    open spec fn eq_spec(&self, other: &Self) -> bool {
        self@ == other@
    }
}

/// The order of two paths as texts, as an `Ordering`.
pub open spec fn text_order(a: Seq<char>, b: Seq<char>) -> Ordering {
    if text_lt(a, b) {
        Ordering::Less
    } else if a == b {
        Ordering::Equal
    } else {
        Ordering::Greater
    }
}

/// Files are compared by their paths, as texts.
impl PartialOrd for FileInfo {
    fn partial_cmp(&self, other: &Self) -> (r: Option<Ordering>) {
        if str_less(self.string.as_str(), other.string.as_str()) {
            Some(Ordering::Less)
        } else if str_equal(self.string.as_str(), other.string.as_str()) {
            Some(Ordering::Equal)
        } else {
            Some(Ordering::Greater)
        }
    }
}

impl PartialOrdSpecImpl for FileInfo {
    open spec fn obeys_partial_cmp_spec() -> bool {
        true
    }

    open spec fn partial_cmp_spec(&self, other: &Self) -> Option<Ordering> {
        Some(text_order(self@, other@))
    }
}

} // verus!
