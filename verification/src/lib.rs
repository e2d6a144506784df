//! A verified codec for the bencode serialization format used by BitTorrent
//! metadata files: a recursive-descent decoder from raw bytes to a structured
//! value tree, a canonical encoder back to bytes, and an info-hash deriver
//! that digests the canonical encoding of a torrent's `info` dictionary.

pub mod decode;
pub mod encode;
pub mod hash;
pub mod laws;
pub mod torrent;
pub mod value;

pub use decode::decode;
pub use decode::parse_torrent_file;
pub use encode::encode;
pub use encode::Serializer;
pub use hash::info_hash;
pub use torrent::FormatKey;
pub use torrent::Info;
pub use torrent::Torrent;
pub use value::ParseError;
pub use value::Value;
pub use value::ValueModel;
