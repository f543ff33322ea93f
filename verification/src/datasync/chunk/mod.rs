//! Partitioned ("chunked") synchronisation with a resumable cursor.
pub mod iterate;
pub mod partition;
pub mod sync;
