//! Filesystem timeline export.
//!
//! The crate walks a directory subtree, turns every entry into a wire record,
//! packs the records into compressed, size-bounded batches and hands out one
//! SHA-256 receipt per batch. Everything that touches the operating system is
//! left to the caller: the walker and the exporter are state machines that say
//! which directory to list or which blob to send next, and are told what came
//! of it.
//!
//! From the bytes up: `endian` and `record` give a record its canonical
//! form, `frame` puts records into a payload, `batch` cuts a stream of records
//! into payloads, `codec` compresses payloads into batches and reads batches
//! back, with `gzip` and `digest` as the doors to the compressor and the hash.
//! `entry` projects filesystem entries onto records, `walk` is the directory
//! walker and `export` the whole pipeline; `order` and `run` state what a walk
//! and an export come to over a whole tree. `flags` reads the answer of the
//! inode flags query.

pub mod batch;
pub mod codec;
pub mod digest;
pub mod endian;
pub mod entry;
pub mod error;
pub mod export;
pub mod flags;
pub mod frame;
pub mod gzip;
pub mod order;
pub mod record;
pub mod run;
pub mod walk;
