//! The stages of a scan, in the order in which a run goes through them.

pub mod file_info;
pub mod duplicates_group;
pub mod encoding;
pub mod grouping;
pub mod keep_policy;
pub mod collector;
pub mod sampler;
pub mod deduplicator;
pub mod duplicates_result_processor;
