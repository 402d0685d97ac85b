//! Durable log and scatter-gather egress core.
//!
//! The crate has two halves.  The `xlog` family (`row`, `xlog`, `xlog_dir`,
//! `pickle`, `crc`) implements an append-only, checksummed record log: a
//! versioned on-disk file format, a streaming parser that tolerates a torn
//! tail, and a buffered append path with group-commit confirmation.  The
//! `net_io` family (`net_io`, `palloc`) implements a scatter-gather outbound
//! message buffer with checkpoint/rewind and partial-send bookkeeping.
//!
//! File and socket system calls live outside this crate; every function here
//! works on plain values (byte vectors, addresses as integers) and carries a
//! contract that pins down what it computes.

pub mod crc;
pub mod net_io;
pub mod palloc;
pub mod pickle;
pub mod row;
pub mod xlog;
pub mod xlog_dir;
