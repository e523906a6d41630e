//! An embedded, single-node, ordered key-value store whose durable substrate
//! is a log-structured merge tree.
//!
//! Mutations are made durable in a write-ahead log before they become visible
//! in the in-memory ordered table (the memtable); after a crash the store
//! reconstructs its last acknowledged state by replaying that log.  Sealed,
//! immutable sorted tables (SSTables) form the on-disk tier, described by
//! slab metadata and consulted on memtable misses.
//!
//! The library works entirely on in-memory byte buffers: every persistent
//! structure is specified and verified as a function of the bytes that make
//! it up.  Reading those bytes from disk and writing them back is left to a
//! thin unverified shell around the library.

pub mod binary_io;
pub mod command;
pub mod command_parser;
pub mod engine;
pub mod key;
pub mod lsm;
pub mod memtable;
pub mod order;
pub mod sstable;
pub mod value;
pub mod wal;
