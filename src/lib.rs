//! Batch similarity scoring of source strings against query strings by local
//! alignment over fixed-length windows.
pub mod align;
pub mod window;
pub mod batch;
pub mod record;
