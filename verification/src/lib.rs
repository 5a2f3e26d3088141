//! Retained-mode UI building blocks: widget status and invalidation, media
//! limits, and source-backed text editing with byte-addressed buffers, atomic
//! change sets, canonical style spans, selections and display projections.
pub mod editing;
pub mod media;
pub mod ui;
