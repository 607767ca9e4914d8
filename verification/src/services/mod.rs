//! What the application does: parse transcripts, join them with files and
//! blame, emit SPDX.

pub mod blame;
pub mod spdx_emit;
pub mod transcript;
