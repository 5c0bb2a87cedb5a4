use bittorrust::error::PeerError;
use bittorrust::peer::Peer;
use bittorrust::wire::{
    check_piece_header, peer_id, read_be32, write_handshake, write_interested, write_request,
    HANDSHAKE_LENGTH,
};

fn content_id() -> [u8; 20] {
    let mut id = [0u8; 20];
    for (i, b) in id.iter_mut().enumerate() {
        *b = 0xa0 + i as u8;
    }
    id
}

#[test]
fn handshake_is_68_bytes_in_the_documented_layout() {
    let info_hash = content_id();
    let frame = Peer::handshake(info_hash);
    assert_eq!(frame.len(), 68);
    assert_eq!(frame[0], 19);
    assert_eq!(&frame[1..20], b"BitTorrent protocol");
    assert_eq!(&frame[20..28], &[0u8; 8]);
    assert_eq!(&frame[28..48], &info_hash);
    assert_eq!(
        &frame[48..68],
        &[0, 0, 1, 1, 2, 2, 3, 3, 4, 4, 5, 5, 6, 6, 7, 7, 8, 8, 9, 9]
    );
}

#[test]
fn handshake_has_the_same_shape_for_any_content_identifier() {
    for byte in [0u8, 1, 0x7f, 0xff] {
        let info_hash = [byte; 20];
        let frame = Peer::handshake(info_hash);
        assert_eq!(frame.len(), HANDSHAKE_LENGTH);
        assert_eq!(&frame[28..48], &info_hash);
        assert_eq!(frame, write_handshake(&info_hash, &peer_id()));
    }
}

#[test]
fn handshake_reply_yields_the_peer_identifier() {
    let mut theirs = [0u8; 20];
    for (i, b) in theirs.iter_mut().enumerate() {
        *b = 200 + i as u8;
    }
    let reply = write_handshake(&content_id(), &theirs);
    assert_eq!(Peer::handshake_reply(&reply, None), Ok(theirs));
    assert_eq!(Peer::handshake_reply(&reply, Some(content_id())), Ok(theirs));
}

#[test]
fn handshake_reply_is_not_held_to_the_content_identifier_unless_asked() {
    let theirs = [7u8; 20];
    let reply = write_handshake(&[1u8; 20], &theirs);
    assert_eq!(Peer::handshake_reply(&reply, None), Ok(theirs));
    assert_eq!(
        Peer::handshake_reply(&reply, Some(content_id())),
        Err(PeerError::ProtocolViolation)
    );
}

#[test]
fn a_short_or_long_handshake_reply_is_a_violation() {
    let reply = write_handshake(&content_id(), &[7u8; 20]);
    assert_eq!(Peer::handshake_reply(&reply[..67], None), Err(PeerError::ProtocolViolation));
    assert_eq!(Peer::handshake_reply(&[], None), Err(PeerError::ProtocolViolation));
    let mut long = reply.clone();
    long.push(0);
    assert_eq!(Peer::handshake_reply(&long, None), Err(PeerError::ProtocolViolation));
}

#[test]
fn interested_message_is_five_bytes() {
    assert_eq!(write_interested(), vec![0, 0, 0, 1, 2]);
}

#[test]
fn request_message_is_seventeen_bytes_big_endian() {
    let frame = write_request(1, 16384, 1232);
    assert_eq!(
        frame,
        vec![0, 0, 0, 13, 6, 0, 0, 0, 1, 0, 0, 0x40, 0, 0, 0, 0x04, 0xd0]
    );
    let frame = write_request(0x01020304, 0xa0b0c0d0, u32::MAX);
    assert_eq!(
        frame,
        vec![0, 0, 0, 13, 6, 1, 2, 3, 4, 0xa0, 0xb0, 0xc0, 0xd0, 255, 255, 255, 255]
    );
}

#[test]
fn reads_a_length_prefix() {
    assert_eq!(read_be32(&[0, 0, 0, 13]), 13);
    assert_eq!(read_be32(&[1, 2, 3, 4, 99]), 0x01020304);
    assert_eq!(read_be32(&[255, 255, 255, 255]), u32::MAX);
}

#[test]
fn tells_the_header_of_a_piece_message() {
    assert!(check_piece_header(&[0, 0, 0x40, 9, 7, 0, 0, 0, 1, 0, 0, 0, 0]));
    assert!(!check_piece_header(&[0, 0, 0x40, 9, 6, 0, 0, 0, 1, 0, 0, 0, 0]));
    assert!(!check_piece_header(&[0, 0, 0x40, 9, 7, 0, 0, 0, 1, 0, 0, 0]));
    assert!(!check_piece_header(&[0, 0, 0x40, 9, 7, 0, 0, 0, 1, 0, 0, 0, 0, 0]));
    assert!(!check_piece_header(&[]));
}
