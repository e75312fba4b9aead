//! A segmented, append-only commit log.
//!
//! A topic is a sequence of segments; a segment is the byte image of one log
//! file, made of length-prefixed frames that each hold one encoded message.
//! The library computes on these images and never touches a disk: a caller
//! reads the files, hands over their bytes, and writes back what was added.

pub mod error;
pub mod message;
pub mod storage;
pub mod queue;
pub mod consumer_group;
