//! Columnar storage building blocks: a numeric column-value codec with
//! bit-packing primitives, streaming statistics collectors, a per-block
//! linear model, and O(1) random-access readers, together with the small
//! utility types that surround them in the storage engine.

pub mod bitpacker;
pub mod blockwise_linear;
pub mod bloom;
pub mod commons;
pub mod error_model;
pub mod filestore;
pub mod leechy;
pub mod lending;
pub mod line;
pub mod optics;
pub mod ownedbytes;
pub mod raw;
pub mod robots;
pub mod serial;
pub mod stats;
pub mod value;
pub mod webspell;
pub mod zimba;
