//! Dense Tick Format: a binary codec for time-ordered market updates.
//!
//! A file is a fixed header followed by batches. Each batch opens with a
//! reference record that holds an absolute timestamp and sequence number;
//! the delta records behind it store every update relative to that
//! reference.

pub mod append;
pub mod decoder;
pub mod encoder;
pub mod endian;
pub mod error;
pub mod header;
pub mod layout;
pub mod order;
pub mod reader;
pub mod roundtrip;
pub mod update;

pub use crate::append::append;
pub use crate::decoder::{
    decode, read_first, read_first_batch, read_item, read_min_ts, read_one_batch,
};
pub use crate::encoder::{encode, encode_batches, seek_main, write_main, write_reference};
pub use crate::error::DtfError;
pub use crate::header::{
    file_reader, read_len, read_max_ts, read_symbol, write_magic_value, write_metadata,
    write_symbol,
};
pub use crate::reader::Reader;
pub use crate::update::{get_max_ts, Update};
