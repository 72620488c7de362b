//! The immutable layers of a page server.
//!
//! A snapshot layer holds, for one relation and a range of LSNs, every
//! version of every page and the history of the relation's size. From it a
//! page can be had as it was at any LSN of the range: a stored image as it
//! is, or a base image with the WAL records to replay on it.
//!
//! The library computes on plain values. It reads no directory and no file:
//! it is handed the names of a directory's entries and the bytes of files,
//! and hands back names and bytes to write.
//!
//! - `repository`, `lsn`: relation tags, timelines, WAL records, LSNs.
//! - `page_version`, `rel_size`: the two histories, as ordered mappings.
//! - `reconstruct`: which versions make up a page as of an LSN.
//! - `layer_name`, `digits`: the names of a layer's files.
//! - `layer_file`, `bin_ser`: what a layer's files hold.
//! - `storage_layer`, `walredo`: what every layer offers, and the executor
//!   of WAL redo that a layer asks.
//! - `snapshot_layer`: the frozen layer itself.
//! - `non_portable`, `checksum`: the control file of the database engine.
//! - `byte_buf`: what is taken on trust of the byte buffers in use.

pub mod bin_ser;
pub mod byte_buf;
pub mod checksum;
pub mod digits;
pub mod layer_file;
pub mod layer_name;
pub mod lsn;
pub mod non_portable;
pub mod page_version;
pub mod reconstruct;
pub mod rel_size;
pub mod repository;
pub mod snapshot_layer;
pub mod storage_layer;
pub mod walredo;
