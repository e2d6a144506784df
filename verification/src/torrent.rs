//! Plain data types describing torrent metadata, for callers that read
//! fields out of a parsed tree.

use vstd::prelude::*;

verus! {

/// The piece layout of a torrent's `info` dictionary.
pub struct Info {
    /// The number of bytes in each piece.
    pub piece_length: usize,
    /// The concatenation of the twenty-byte digest of every piece.
    pub pieces: Vec<u8>,
}

/// Torrents are either single-file or multi-file.
pub enum FormatKey {
    Single { name: String, length: usize },
    Multi { name: String, files: Vec<String> },
}

/// The fields of a torrent file that the codec's callers read.
pub struct Torrent {
    pub info: Info,
    pub announce: String,
    pub announce_list: Vec<String>,
    pub creation_date: Option<usize>,
    pub comment: Option<String>,
    pub created_by: Option<String>,
}

} // verus!
