//! A single-peer BitTorrent client core: the bencode codec, the peer wire
//! messages, block scheduling and integrity-checked piece assembly, all free
//! of I/O so that every rule can be stated and proved.

use vstd::prelude::*;

pub mod bencode_encoder;
pub mod bencode_model;
pub mod bencode_parser;
pub mod bencode_proofs;
pub mod bytes;
pub mod digest;
pub mod download;
pub mod error;
pub mod in_flight;
pub mod partition;
pub mod peer;
pub mod piece;
pub mod torrent;
pub mod tracker;
pub mod wire;

verus! {

/// The most block requests that are under way at once, unless a download
/// is set up with another ceiling.
pub const MAX_CONCURRENT_REQUESTS: usize = 5;

/// The length of every block but the last of a piece, unless a download
/// is set up with another one.
pub const DEFAULT_BLOCK_LENGTH: u32 = 16 * 1024;

} // verus!
