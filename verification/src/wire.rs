//! The messages of the peer wire protocol as bytes: the greeting that
//! opens a connection, and the length-prefixed messages after it.

use vstd::prelude::*;
use crate::bytes::append;

verus! {

/// Length of the greeting, in either direction.
pub const HANDSHAKE_LENGTH: usize = 68;

/// Length of the protocol name in the greeting.
pub const PROTOCOL_NAME_LENGTH: u8 = 19;

/// Identifier of the message that grants permission to request blocks.
pub const MESSAGE_UNCHOKE: u8 = 1;

/// Identifier of the message that declares interest.
pub const MESSAGE_INTERESTED: u8 = 2;

/// Identifier of the message that tells which pieces the peer has.
pub const MESSAGE_BITFIELD: u8 = 5;

/// Identifier of the message that asks for a block.
pub const MESSAGE_REQUEST: u8 = 6;

/// Identifier of the message that carries a block.
pub const MESSAGE_PIECE: u8 = 7;

/// Length of a request message, its length prefix included.
pub const REQUEST_LENGTH: usize = 17;

/// Length of what precedes the block in a piece message: the length
/// prefix, the identifier, the piece index and the offset.
pub const PIECE_HEADER_LENGTH: usize = 13;

/// The protocol name, "BitTorrent protocol" in ASCII.
pub open spec fn protocol_name() -> Seq<u8> {
    seq![
        0x42u8, 0x69, 0x74, 0x54, 0x6f, 0x72, 0x72, 0x65, 0x6e, 0x74, 0x20, 0x70, 0x72, 0x6f, 0x74,
        0x6f, 0x63, 0x6f, 0x6c,
    ]
}

/// The identifier under which this client greets a peer.
pub open spec fn local_peer_id() -> Seq<u8> {
    seq![0u8, 0, 1, 1, 2, 2, 3, 3, 4, 4, 5, 5, 6, 6, 7, 7, 8, 8, 9, 9]
}

/// The four bytes of `n`, most significant first.
pub open spec fn be32(n: u32) -> Seq<u8> {
    seq![
        (n / 0x100_0000) as u8,
        (n / 0x1_0000 % 0x100) as u8,
        (n / 0x100 % 0x100) as u8,
        (n % 0x100) as u8,
    ]
}

/// The number that four bytes denote, most significant first.
pub open spec fn be32_value(b: Seq<u8>) -> int {
    b[0] * 0x100_0000 + b[1] * 0x1_0000 + b[2] * 0x100 + b[3]
}

/// The greeting: the length of the protocol name, the name, eight
/// reserved zero bytes, the content identifier and the peer identifier.
pub open spec fn handshake_frame(info_hash: Seq<u8>, peer_id: Seq<u8>) -> Seq<u8> {
    seq![PROTOCOL_NAME_LENGTH] + protocol_name() + Seq::new(8, |i: int| 0u8) + info_hash
        + peer_id
}

/// The message that declares interest: length one, then the identifier.
pub open spec fn interested_frame() -> Seq<u8> {
    seq![0u8, 0, 0, 1, MESSAGE_INTERESTED]
}

/// The message that asks for `length` bytes of piece `piece_index` from
/// `offset` on: length thirteen, the identifier, then the three numbers.
pub open spec fn request_frame(piece_index: u32, offset: u32, length: u32) -> Seq<u8> {
    be32(13) + seq![MESSAGE_REQUEST] + be32(piece_index) + be32(offset) + be32(length)
}

/// The bytes are what precedes the block in a piece message: thirteen
/// bytes, of which the fifth is the identifier of a piece message.
pub open spec fn is_piece_header(header: Seq<u8>) -> bool {
    header.len() == PIECE_HEADER_LENGTH && header[4] == MESSAGE_PIECE
}

/// Reading four bytes back as a number undoes writing the number.
pub proof fn lemma_be32_value(n: u32)
    ensures
        be32(n).len() == 4,
        be32_value(be32(n)) == n,
{
}

/// Appends the four bytes of `n`, most significant first.
pub fn push_be32(out: &mut Vec<u8>, n: u32)
    ensures
        final(out)@ == old(out)@ + be32(n),
{
    out.push((n / 0x100_0000) as u8);
    out.push((n / 0x1_0000 % 0x100) as u8);
    out.push((n / 0x100 % 0x100) as u8);
    out.push((n % 0x100) as u8);
    proof {
        assert(out@ =~= old(out)@ + be32(n));
    }
}

/// Reads the number that the first four bytes of `bytes` denote.
pub fn read_be32(bytes: &[u8]) -> (n: u32)
    requires
        bytes.len() >= 4,
    ensures
        n == be32_value(bytes@),
{
    (bytes[0] as u32) * 0x100_0000 + (bytes[1] as u32) * 0x1_0000 + (bytes[2] as u32) * 0x100 + (
    bytes[3] as u32)
}

/// Whether the bytes are what precedes the block in a piece message.
pub fn check_piece_header(header: &[u8]) -> (ok: bool)
    ensures
        ok == is_piece_header(header@),
{
    header.len() == PIECE_HEADER_LENGTH && header[4] == MESSAGE_PIECE
}

/// The identifier under which this client greets a peer.
pub fn peer_id() -> (id: [u8; 20])
    ensures
        id@ == local_peer_id(),
{
    let id: [u8; 20] = [0, 0, 1, 1, 2, 2, 3, 3, 4, 4, 5, 5, 6, 6, 7, 7, 8, 8, 9, 9];
    proof {
        assert(id@ =~= local_peer_id());
    }
    id
}

/// Writes the greeting for a content identifier and a peer identifier.
pub fn write_handshake(info_hash: &[u8; 20], peer_id: &[u8; 20]) -> (frame: Vec<u8>)
    ensures
        frame@ == handshake_frame(info_hash@, peer_id@),
        frame.len() == HANDSHAKE_LENGTH,
        frame[0] == PROTOCOL_NAME_LENGTH,
        frame@.subrange(1, 20) == protocol_name(),
        forall|i: int| 20 <= i < 28 ==> frame[i] == 0,
        frame@.subrange(28, 48) == info_hash@,
        frame@.subrange(48, 68) == peer_id@,
{
    let name: [u8; 19] = [
        0x42, 0x69, 0x74, 0x54, 0x6f, 0x72, 0x72, 0x65, 0x6e, 0x74, 0x20, 0x70, 0x72, 0x6f, 0x74,
        0x6f, 0x63, 0x6f, 0x6c,
    ];
    let reserved: [u8; 8] = [0, 0, 0, 0, 0, 0, 0, 0];
    let mut frame: Vec<u8> = Vec::with_capacity(HANDSHAKE_LENGTH);
    frame.push(PROTOCOL_NAME_LENGTH);
    append(&mut frame, name.as_slice());
    append(&mut frame, reserved.as_slice());
    append(&mut frame, info_hash.as_slice());
    append(&mut frame, peer_id.as_slice());
    proof {
        assert(name@ =~= protocol_name());
        assert(reserved@ =~= Seq::new(8, |i: int| 0u8));
        assert(frame@ =~= handshake_frame(info_hash@, peer_id@));
        assert(frame@.subrange(1, 20) =~= protocol_name());
        assert(frame@.subrange(28, 48) =~= info_hash@);
        assert(frame@.subrange(48, 68) =~= peer_id@);
    }
    frame
}

/// Writes the message that declares interest.
pub fn write_interested() -> (frame: Vec<u8>)
    ensures
        frame@ == interested_frame(),
{
    let mut frame: Vec<u8> = Vec::with_capacity(5);
    push_be32(&mut frame, 1);
    frame.push(MESSAGE_INTERESTED);
    proof {
        assert(frame@ =~= interested_frame());
    }
    frame
}

/// Writes the message that asks for a block.
pub fn write_request(piece_index: u32, offset: u32, length: u32) -> (frame: Vec<u8>)
    ensures
        frame@ == request_frame(piece_index, offset, length),
        frame.len() == REQUEST_LENGTH,
{
    let mut frame: Vec<u8> = Vec::with_capacity(REQUEST_LENGTH);
    push_be32(&mut frame, 13);
    frame.push(MESSAGE_REQUEST);
    push_be32(&mut frame, piece_index);
    push_be32(&mut frame, offset);
    push_be32(&mut frame, length);
    frame
}

} // verus!
