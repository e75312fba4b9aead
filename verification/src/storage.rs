//! Segments: the byte images of log files.

pub mod naming;
pub mod segment;
