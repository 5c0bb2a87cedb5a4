use bittorrust::bencode_encoder::encode;
use bittorrust::bencode_parser::Value;
use bittorrust::torrent::{Info, Torrent, TorrentFile};

fn single_file() -> Torrent {
    Torrent {
        announce: "http://tracker.example/announce".to_string(),
        info: Info {
            name: "sample.txt".to_string(),
            piece_length: 32768,
            pieces: (0u8..20).collect(),
            md5sum: None,
            length: Some(92063),
            files: None,
        },
        announce_list: None,
        comment: Some("no part of the content identifier".to_string()),
        created_by: None,
        creation_date: Some(1),
        encoding: None,
    }
}

fn with_pieces(length: usize, piece_length: u32, digests: usize) -> Info {
    Info {
        name: "n".to_string(),
        piece_length,
        pieces: vec![0u8; digests],
        md5sum: None,
        length: Some(length),
        files: None,
    }
}

#[test]
fn information_is_written_in_ascending_order_of_key() {
    let mut expected = b"d6:lengthi92063e4:name10:sample.txt12:piece lengthi32768e6:pieces20:".to_vec();
    expected.extend(0u8..20);
    expected.push(b'e');
    assert_eq!(encode(&single_file().info.to_value()), expected);
}

#[test]
fn content_identifier_is_the_digest_of_the_written_information() {
    assert_eq!(
        single_file().info_hash(),
        [
            87, 189, 144, 174, 237, 107, 250, 47, 98, 239, 116, 170, 212, 1, 235, 194, 216, 208,
            53, 108
        ]
    );
}

#[test]
fn content_identifier_looks_at_the_information_only() {
    let mut other = single_file();
    other.announce = "http://elsewhere.example/".to_string();
    other.comment = None;
    other.creation_date = Some(99);
    assert_eq!(other.info_hash(), single_file().info_hash());
    other.info.name = "sample.txT".to_string();
    assert_ne!(other.info_hash(), single_file().info_hash());
}

#[test]
fn fields_without_a_value_are_left_out_and_others_written() {
    let info = Info {
        name: "n".to_string(),
        piece_length: 1,
        pieces: Vec::new(),
        md5sum: Some("abcd".to_string()),
        length: Some(3),
        files: None,
    };
    assert_eq!(
        encode(&info.to_value()),
        b"d6:lengthi3e6:md5sum4:abcd4:name1:n12:piece lengthi1e6:pieces0:e"
    );
}

#[test]
fn files_are_written_as_a_list_of_dictionaries() {
    let info = Info {
        name: "dir".to_string(),
        piece_length: 16384,
        pieces: Vec::new(),
        md5sum: None,
        length: None,
        files: Some(vec![
            TorrentFile {
                path: vec!["a".to_string(), "b.txt".to_string()],
                length: 5,
                md5sum: None,
            },
            TorrentFile { path: vec!["c".to_string()], length: 7, md5sum: Some("xyz".to_string()) },
        ]),
    };
    assert_eq!(
        encode(&info.to_value()),
        &b"d5:filesld6:lengthi5e4:pathl1:a5:b.txteed6:lengthi7e6:md5sum3:xyz4:pathl1:ceee4:name3:dir12:piece lengthi16384e6:pieces0:e"[..]
    );
    let file = TorrentFile { path: Vec::new(), length: -1, md5sum: None };
    assert_eq!(
        file.to_value(),
        Value::Dictionary(vec![
            (b"length".to_vec(), Value::Integer(-1)),
            (b"path".to_vec(), Value::List(vec![])),
        ])
    );
}

#[test]
fn text_is_written_as_its_utf8_bytes() {
    let mut torrent = single_file();
    torrent.info.name = "f\u{fc}r".to_string();
    let bytes = encode(&torrent.info.to_value());
    let needle = [b'4', b':', b'f', 0xc3, 0xbc, b'r'];
    assert!(bytes.windows(needle.len()).any(|w| w == needle));
}

#[test]
fn piece_digests_as_hex_text() {
    let mut torrent = single_file();
    torrent.info.pieces = (0u8..40).map(|i| i.wrapping_mul(13)).collect();
    assert_eq!(
        torrent.get_piece_hashes(),
        vec![
            "000d1a2734414e5b6875828f9ca9b6c3d0ddeaf7".to_string(),
            "04111e2b3845525f6c798693a0adbac7d4e1eefb".to_string(),
        ]
    );
}

#[test]
fn piece_digests_of_nothing_and_of_a_part() {
    let mut torrent = single_file();
    torrent.info.pieces = Vec::new();
    assert!(torrent.get_piece_hashes().is_empty());
    torrent.info.pieces = vec![0xab; 23];
    assert_eq!(
        torrent.get_piece_hashes(),
        vec!["ab".repeat(20), "ababab".to_string()]
    );
}

#[test]
fn a_descriptor_holds_together_when_its_pieces_cover_its_length() {
    assert!(with_pieces(1024, 400, 60).is_well_formed());
    assert!(with_pieces(1200, 400, 60).is_well_formed());
    assert!(with_pieces(801, 400, 60).is_well_formed());
    assert!(with_pieces(0, 400, 0).is_well_formed());
    assert!(with_pieces(92063, 32768, 60).is_well_formed());
}

#[test]
fn a_descriptor_with_pieces_that_do_not_fit_does_not_hold_together() {
    assert!(!with_pieces(1024, 400, 40).is_well_formed());
    assert!(!with_pieces(1024, 400, 80).is_well_formed());
    assert!(!with_pieces(800, 400, 60).is_well_formed());
    assert!(!with_pieces(1024, 400, 61).is_well_formed());
    assert!(!with_pieces(1024, 0, 60).is_well_formed());
    assert!(!with_pieces(0, 0, 0).is_well_formed());
    // Three pieces, but one digest.
    assert!(!single_file().info.is_well_formed());
    let mut info = with_pieces(1024, 400, 60);
    info.length = None;
    assert!(!info.is_well_formed());
}
