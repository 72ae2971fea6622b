//! An embedded, append-only key/value store in the Bitcask style.
//!
//! Every mutation is appended to a segmented log of checksummed records; a
//! sorted in-memory directory maps each live key to the byte range of its
//! latest record. The store is modelled over plain byte buffers, one per
//! segment, so that every operation carries a machine-checked contract.

pub mod endian;
pub mod checksum;
pub mod order;
pub mod error;
pub mod record;
pub mod util;
pub mod names;
pub mod reader;
pub mod snapshot;
pub mod index;
pub mod io;
pub mod disk;
pub mod settings;
pub mod clock;
pub mod model;
pub mod store;
pub mod iter;
pub mod laws;
pub mod rebuild;

pub use crate::reader::Value;
pub use crate::settings::Options;
pub use crate::store::Bitcask;
pub use crate::util::Size;
