//! The record that describes one file found by the directory walk.

use vstd::prelude::*;

verus! {

/// A point in time as the file system reports it. Nothing in this crate looks
/// inside one: it is carried along with the record it belongs to.
#[verifier::external_type_specification]
#[verifier::external_body]
pub struct ExSystemTime(std::time::SystemTime);

/// One regular file: where it is, how many bytes it holds and when it was
/// created. Two records of one run never share a path.
#[derive(Debug)]
pub struct FileInfo {
    pub file: String,
    pub size: u64,
    pub date: std::time::SystemTime,
}

/// The mathematical content of a [`FileInfo`].
pub struct FileRecord {
    pub path: Seq<char>,
    pub size: nat,
    pub created_at: std::time::SystemTime,
}

impl View for FileInfo {
    type V = FileRecord;

    open spec fn view(&self) -> FileRecord {
        FileRecord { path: self.file@, size: self.size as nat, created_at: self.date }
    }
}

impl DeepView for FileInfo {
    type V = FileRecord;

    open spec fn deep_view(&self) -> FileRecord {
        self@
    }
}

impl Clone for FileInfo {
    fn clone(&self) -> (copy: Self)
        ensures
            copy == *self,
    {
        FileInfo { file: self.file.clone(), size: self.size, date: self.date }
    }
}

} // verus!
