//! Shapes shared by the parsers, the join and the emitter.

pub mod attribution;
pub mod spdx;
