//! The virtual filesystem's view of the source, and how remote changes reach
//! it.

pub mod backoff;
pub mod follow;
pub mod inode;
pub mod mirror_laws;
pub mod negative;
pub mod poll;
pub mod poll_laws;
pub mod round;
