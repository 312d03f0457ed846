//! A verified core for embedding files into a binary: the on-binary entry
//! format, the compression codecs and their dispatch, the AEAD sealing
//! layer, and the pure build-time helpers (glob filters, key obfuscation
//! programs, argument vocabularies).

pub mod args;
pub mod best;
pub mod bits;
pub mod codec;
pub mod crypt;
pub mod deflate;
pub mod embed;
pub mod dispatch;
pub mod entry;
pub mod error;
pub mod fse;
pub mod glob;
pub mod ids;
pub mod le;
pub mod lz4;
pub mod lzma;
pub mod obfuscate;
pub mod pack;
mod sealed;
pub mod snappy;
pub mod store;
pub mod varint;
pub mod zstd;

pub use error::Error;
pub use ids::{CodecId, CryptoId};
pub use varint::{read_varint, write_varint};
pub use entry::{read_header, write_entry, write_header, Header};
