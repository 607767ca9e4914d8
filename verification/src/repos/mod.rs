//! Readers of the data the pipeline consumes.

pub mod git_repo;
pub mod jsonl_reader;
