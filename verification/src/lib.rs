//! Verified core of an AI bill-of-materials emitter: transcript parsing,
//! the join of AI edits with file contents and blame, and SPDX emission.

pub mod error;
pub mod hash;
pub mod json;
pub mod order;
pub mod paths;
pub mod repos;
pub mod schemas;
pub mod services;
pub mod text;
pub mod cli;
