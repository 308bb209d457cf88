//! Duplicate-file detection engine: the record codec of the persistent index,
//! the index keys, the cache decision of the hashing workers, the content
//! hasher, duplicate grouping and the relocation plan.

pub mod record;
pub mod index;
pub mod scan;
pub mod detect;
pub mod hasher;
pub mod relocate;
