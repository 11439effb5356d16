//! Archives a dense range of numbered remote files: find the highest
//! sequence number, compare the range with what is already on disk, and plan
//! the missing items in fixed-size chunks that are fetched independently.

pub mod digits;
pub mod plan;
pub mod download;
pub mod scan;
pub mod discovery;
