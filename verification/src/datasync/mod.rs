//! Data synchronisation: fetch records from a source, map them, write
//! them to a sink, optionally in partitions with a resumable cursor.
pub mod chunk;
pub mod job;
pub mod mapper;
pub mod result;
pub mod runner;
pub mod sink;
