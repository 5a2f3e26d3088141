//! Resource limits and work counters for shared image resources. Decoding and
//! file access stay with the caller; these types decide what is accepted.
pub mod limits;
pub mod render;
