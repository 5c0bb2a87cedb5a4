//! The engine's entry points: greeting a peer, and setting up the
//! download of a torrent or of one piece.

use vstd::prelude::*;
use crate::bencode_model::spec_encode;
use crate::digest::sha1;
use crate::download::{texts_view, Download, DownloadView, Phase};
use crate::error::PeerError;
use crate::piece::PieceDownload;
use crate::torrent::{Torrent, DIGEST_LENGTH};
use crate::wire::{
    handshake_frame, local_peer_id, peer_id, protocol_name, write_handshake, HANDSHAKE_LENGTH,
    PROTOCOL_NAME_LENGTH,
};

verus! {

/// Where a peer is reached: an IPv4 address and a port.
#[derive(Debug, Clone, Copy, PartialEq, Eq)]
pub struct PeerAddr {
    pub ip: [u8; 4],
    pub port: u16,
}

/// A peer of the swarm.
#[derive(Debug, Clone, Copy)]
pub struct Peer {
    pub socket: PeerAddr,
}

impl Peer {
    /// The greeting to send once connected, for the content that
    /// `info_hash` identifies: sixty-eight bytes, which are the length of
    /// the protocol name, the name, eight zero bytes, the content
    /// identifier and this client's peer identifier.
    pub fn handshake(info_hash: [u8; 20]) -> (frame: Vec<u8>)
        ensures
            frame@ == handshake_frame(info_hash@, local_peer_id()),
            frame.len() == HANDSHAKE_LENGTH,
            frame[0] == PROTOCOL_NAME_LENGTH,
            frame@.subrange(1, 20) == protocol_name(),
            forall|i: int| 20 <= i < 28 ==> frame[i] == 0,
            frame@.subrange(28, 48) == info_hash@,
            frame@.subrange(48, 68) == local_peer_id(),
    {
        let id = peer_id();
        write_handshake(&info_hash, &id)
    }

    /// Takes the peer's greeting and returns the identifier that the peer
    /// claims: the last twenty of its sixty-eight bytes. Fewer or more
    /// bytes are a violation of the protocol. Where `expected` gives a
    /// content identifier, the greeting must name the same one; where it
    /// gives none, the peer's content identifier is not looked at.
    pub fn handshake_reply(reply: &[u8], expected: Option<[u8; 20]>) -> (res: Result<
        [u8; 20],
        PeerError,
    >)
        ensures
            match res {
                Ok(id) => {
                    &&& reply.len() == HANDSHAKE_LENGTH
                    &&& id@ == reply@.subrange(48, 68)
                    &&& expected matches Some(hash) ==> reply@.subrange(28, 48) == hash@
                },
                Err(e) => {
                    &&& e == PeerError::ProtocolViolation
                    &&& reply.len() != HANDSHAKE_LENGTH || (expected matches Some(hash)
                        && reply@.subrange(28, 48) != hash@)
                },
            },
    {
        if reply.len() != HANDSHAKE_LENGTH {
            return Err(PeerError::ProtocolViolation);
        }
        match expected {
            Some(hash) => {
                let mut i: usize = 0;
                while i < DIGEST_LENGTH
                    invariant
                        i <= DIGEST_LENGTH,
                        reply.len() == HANDSHAKE_LENGTH,
                        expected == Some(hash),
                        forall|k: int| 0 <= k < i ==> reply[28 + k] == hash[k],
                    decreases DIGEST_LENGTH - i,
                {
                    if reply[28 + i] != hash[i] {
                        proof {
                            assert(reply@.subrange(28, 48)[i as int] != hash@[i as int]);
                        }
                        return Err(PeerError::ProtocolViolation);
                    }
                    i += 1;
                }
                proof {
                    assert(reply@.subrange(28, 48) =~= hash@);
                }
            },
            None => {},
        }
        let mut id: [u8; 20] = [0;20];
        let mut i: usize = 0;
        while i < DIGEST_LENGTH
            invariant
                i <= DIGEST_LENGTH,
                reply.len() == HANDSHAKE_LENGTH,
                forall|k: int| 0 <= k < i ==> id[k] == reply[48 + k],
            decreases DIGEST_LENGTH - i,
        {
            id[i] = reply[48 + i];
            i += 1;
        }
        proof {
            assert(id@ =~= reply@.subrange(48, 68));
        }
        Ok(id)
    }

    /// Sets up the download of one piece: piece `piece_index` of
    /// `piece_length` bytes, whose digest is `piece_hash`, asked for in
    /// blocks of `block_length` bytes. The value returned hands out the
    /// block requests, takes the blocks and at the end checks the piece.
    pub fn download_piece(
        piece_index: u32,
        piece_length: u32,
        piece_hash: String,
        block_length: u32,
    ) -> (piece: PieceDownload)
        ensures
            piece.piece_index() == piece_index,
            piece.piece_length() == piece_length,
            piece.block_length() == block_length,
            piece.expected() == piece_hash@,
            piece.next_block() == 0,
            piece.blocks() == Map::<u32, Vec<u8>>::empty(),
    {
        PieceDownload::new(piece_index, piece_length, piece_hash, block_length)
    }

    /// Sets up the download of a torrent from a peer to which a
    /// connection stands: of all its pieces where `only_piece` is `None`,
    /// else of the pieces from that index on. `piece_hashes` holds the
    /// digest of each piece, as [`Torrent::get_piece_hashes`] gives them.
    /// The value returned is the state machine that leads through the
    /// download, from the greeting on.
    pub fn download_torrent(
        torrent: &Torrent,
        piece_hashes: Vec<String>,
        only_piece: Option<u32>,
    ) -> (download: Download)
        requires
            torrent.info.well_formed(),
            piece_hashes.len() == torrent.info.piece_count(),
        ensures
            download@.well_formed(),
            download@ == (DownloadView {
                phase: Phase::Connecting,
                info_hash: sha1(spec_encode(torrent.info.value_model())),
                remote_id: None,
                total: torrent.info.length->Some_0 as u64,
                piece_length: torrent.info.piece_length,
                first: match only_piece {
                    Some(k) => if k < torrent.info.piece_count() {
                        k
                    } else {
                        torrent.info.piece_count() as u32
                    },
                    None => 0,
                },
                count: torrent.info.piece_count() as u32,
                whole: only_piece is None,
                hashes: texts_view(piece_hashes@),
                arrived: Seq::new(
                    (torrent.info.piece_count() - download@.first) as nat,
                    |i: int| false,
                ),
                stored: Map::empty(),
            }),
    {
        let total = match torrent.info.length {
            Some(n) => n as u64,
            None => 0,
        };
        let count = (torrent.info.pieces.len() / DIGEST_LENGTH) as u32;
        Download::new(
            torrent.info_hash(),
            total,
            torrent.info.piece_length,
            count,
            piece_hashes,
            only_piece,
        )
    }
}

} // verus!
