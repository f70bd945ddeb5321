//! Chunked-download coordination engine.
//!
//! A remote resource is split into contiguous byte ranges ("chunks"), the
//! ranges are handed to a pool of workers through a FIFO task channel, and
//! the fetched payloads are reassembled strictly in ascending chunk-id order,
//! whatever order the downloads actually finish in. This crate holds the
//! verified core: range planning, the channel, the coordinator's bookkeeping
//! (retry on failure, ordered merge), and a single-threaded simulation of the
//! whole engine. Transport, file output, threads and logging are left to the
//! surrounding application.

pub mod channel;
pub mod chunk;
pub mod coordinator;
pub mod plan;
pub mod sim;
pub mod worker;
