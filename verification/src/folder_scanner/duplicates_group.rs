//! What a worker builds from one candidate group: samples, hashed samples and
//! the groups of files whose samples share a digest.

use vstd::prelude::*;
use super::file_info::{FileInfo, FileRecord};

verus! {

/// The bytes taken from one file for comparison: its whole content, or the
/// probe of its head.
#[derive(Debug)]
pub struct Sample {
    pub file_info: FileInfo,
    pub bytes: Vec<u8>,
}

/// The mathematical content of a [`Sample`].
pub struct SampleContent {
    pub record: FileRecord,
    pub bytes: Seq<u8>,
}

impl View for Sample {
    type V = SampleContent;

    open spec fn view(&self) -> SampleContent {
        SampleContent { record: self.file_info@, bytes: self.bytes@ }
    }
}

impl DeepView for Sample {
    type V = SampleContent;

    open spec fn deep_view(&self) -> SampleContent {
        self@
    }
}

impl Clone for Sample {
    fn clone(&self) -> (copy: Self)
        ensures
            copy@ == self@,
    {
        Sample { file_info: self.file_info.clone(), bytes: self.bytes.clone() }
    }
}

/// A sample together with the lowercase hexadecimal SHA-256 digest of its
/// bytes.
#[derive(Debug)]
pub struct HashedSample {
    pub sample: Sample,
    pub hash: String,
}

/// The mathematical content of a [`HashedSample`].
pub struct HashedContent {
    pub sample: SampleContent,
    pub digest: Seq<char>,
}

impl View for HashedSample {
    type V = HashedContent;

    open spec fn view(&self) -> HashedContent {
        HashedContent { sample: self.sample@, digest: self.hash@ }
    }
}

impl DeepView for HashedSample {
    type V = HashedContent;

    open spec fn deep_view(&self) -> HashedContent {
        self@
    }
}

impl Clone for HashedSample {
    fn clone(&self) -> (copy: Self)
        ensures
            copy@ == self@,
    {
        HashedSample { sample: self.sample.clone(), hash: self.hash.clone() }
    }
}

/// Files whose samples have one digest, in the order in which they were
/// sampled. A group that the deduplicator publishes has at least two members.
#[derive(Debug)]
pub struct DuplicatesGroup {
    pub item: Vec<HashedSample>,
}

impl View for DuplicatesGroup {
    type V = Seq<HashedContent>;

    open spec fn view(&self) -> Seq<HashedContent> {
        self.item.deep_view()
    }
}

impl DeepView for DuplicatesGroup {
    type V = Seq<HashedContent>;

    open spec fn deep_view(&self) -> Seq<HashedContent> {
        self@
    }
}

impl Clone for DuplicatesGroup {
    fn clone(&self) -> (copy: Self)
        ensures
            copy@ == self@,
    {
        DuplicatesGroup { item: self.item.clone() }
    }
}

} // verus!
