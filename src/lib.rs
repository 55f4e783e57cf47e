//! An embedded key-value storage engine: a bitmap block allocator, a data
//! block pool, a fixed-stride main block table, a page-framed write-ahead
//! log, rotating change buffers and a hash-sharded slot layer on top.
//!
//! Every component here works on in-memory state and byte images; the
//! program around the library moves those images to and from disk.

pub mod assoc;
pub mod bitmap;
pub mod bits;
pub mod bytemap;
pub mod cbf;
pub mod clock;
pub mod codec;
pub mod config;
pub mod datablock;
pub mod error;
pub mod hash;
pub mod hashkv;
pub mod kvwal;
pub mod mainblock;
pub mod serve;
pub mod slot;
pub mod state;
pub mod wal;
