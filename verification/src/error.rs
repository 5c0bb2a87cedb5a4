//! What can go wrong between this client and a peer.

use vstd::prelude::*;

verus! {

/// Why an exchange with a peer, or the download of a piece, failed.
#[derive(Debug, Clone, Copy, PartialEq, Eq, Structural)]
pub enum PeerError {
    /// The transport failed: the connection was refused, timed out or
    /// broke.
    ConnectionError,
    /// The peer sent something other than what the protocol asks for at
    /// that point: another message, or fewer bytes.
    ProtocolViolation,
    /// A piece's bytes do not have the digest that the descriptor gives
    /// for it.
    IntegrityError { piece: u32 },
    /// A block of a piece never arrived.
    PieceIncomplete { piece: u32, block: u32 },
}

} // verus!
