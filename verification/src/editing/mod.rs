//! Source-backed editing, projections and change mapping.
pub mod buffer;
pub mod commands;
pub mod document;
pub mod extensions;
pub mod format;
pub mod handle;
pub mod projection;
pub mod selection;
pub mod state;
pub mod validation;
pub mod view_matching;
