//! Redundant, CRC-protected key/value environment blobs.
//!
//! A blob holds two copies ("slots") of the same environment. Each slot is a
//! little-endian CRC32, a flag byte, and a zero-padded data region of
//! NUL-terminated `key=value` records. A blob of `L` bytes is laid out so:
//!
//! ```text
//! 0         CRC32 of the bytes 5 .. L/2, little-endian
//! 4         flag: 1, active
//! 5         data: records, then zero padding
//! L/2       CRC32 of the bytes L/2+5 .. L, little-endian
//! L/2+4     flag: 0, backup
//! L/2+5     data, the same as in the first slot
//! ```
//!
//! [`decode`] reads a blob into an [`Environment`] and trusts it only when
//! both stored checksums and both computed ones are equal. [`encode`] writes
//! an environment as a blob of a given length, with its entries in ascending
//! key order. The module `laws` states what holds of the two together, and
//! `region` decides the steps by which a caller moves a blob from or to its
//! place in a file.

pub mod blob;
pub mod checksum;
pub mod codec;
pub mod data;
pub mod environment;
pub mod error;
pub mod laws;
pub mod order;
pub mod record;
pub mod region;
pub mod text;

pub use codec::{decode, encode};
pub use environment::{Entry, Environment};
pub use error::CodecError;
