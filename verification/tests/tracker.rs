use bittorrust::peer::PeerAddr;
use bittorrust::torrent::{Info, Torrent};
use bittorrust::tracker::{TrackerRequest, TrackerResponse};

fn torrent() -> Torrent {
    Torrent {
        announce: "http://tracker.example/announce".to_string(),
        info: Info {
            name: "sample.txt".to_string(),
            piece_length: 32768,
            pieces: vec![0u8; 60],
            md5sum: None,
            length: Some(92063),
            files: None,
        },
        announce_list: None,
        comment: None,
        created_by: None,
        creation_date: None,
        encoding: None,
    }
}

const CONTENT_ID: [u8; 20] =
    [18, 52, 86, 120, 154, 188, 222, 240, 45, 46, 95, 126, 32, 47, 65, 122, 48, 0, 255, 37];

#[test]
fn announce_request_for_the_start_of_a_download() {
    let request = TrackerRequest::new(&torrent(), CONTENT_ID);
    assert_eq!(request.info_hash, CONTENT_ID);
    assert_eq!(request.peer_id, "00112233445566778899");
    assert_eq!(request.port, 6881);
    assert_eq!(request.uploaded, 0);
    assert_eq!(request.downloaded, 0);
    assert_eq!(request.left, 92063);
    assert_eq!(request.compact, 1);
}

#[test]
fn content_identifier_as_written_in_a_url() {
    assert_eq!(
        TrackerRequest::url_encode(CONTENT_ID),
        "%124Vx%9A%BC%DE%F0-._~%20%2FAz0%00%FF%25"
    );
    assert_eq!(TrackerRequest::url_encode([b'a'; 20]), "a".repeat(20));
    assert_eq!(TrackerRequest::url_encode([0xab; 20]), "%AB".repeat(20));
}

#[test]
fn announce_url_lists_the_parameters_in_a_fixed_order() {
    let request = TrackerRequest::new(&torrent(), CONTENT_ID);
    let url = request.request(
        TrackerRequest::url_encode(CONTENT_ID),
        &"http://tracker.example/announce".to_string(),
    );
    assert_eq!(
        String::from_utf8(url).unwrap(),
        "http://tracker.example/announce?info_hash=%124Vx%9A%BC%DE%F0-._~%20%2FAz0%00%FF%25\
         &peer_id=00112233445566778899&port=6881&uploaded=0&downloaded=0&left=92063&compact=1"
    );
}

#[test]
fn announce_url_writes_numbers_in_decimal() {
    let request = TrackerRequest {
        info_hash: [0; 20],
        peer_id: "me".to_string(),
        port: 65535,
        uploaded: 10,
        downloaded: 1234567890,
        left: usize::MAX,
        compact: 255,
    };
    let url = request.request("X".to_string(), &"t".to_string());
    assert_eq!(
        String::from_utf8(url).unwrap(),
        format!(
            "t?info_hash=X&peer_id=me&port=65535&uploaded=10&downloaded=1234567890&left={}&compact=255",
            usize::MAX
        )
    );
}

#[test]
fn peers_of_a_compact_answer() {
    let response = TrackerResponse {
        interval: 60,
        peers: vec![1, 2, 3, 4, 0x1a, 0xe1, 192, 168, 0, 255, 0xff, 0xff, 10, 0, 0, 1, 0, 80],
    };
    assert!(response.is_well_formed());
    assert_eq!(
        response.get_peers(),
        vec![
            PeerAddr { ip: [1, 2, 3, 4], port: 6881 },
            PeerAddr { ip: [192, 168, 0, 255], port: 65535 },
            PeerAddr { ip: [10, 0, 0, 1], port: 80 },
        ]
    );
}

#[test]
fn an_answer_without_peers() {
    let response = TrackerResponse { interval: 0, peers: Vec::new() };
    assert!(response.is_well_formed());
    assert!(response.get_peers().is_empty());
}

#[test]
fn an_answer_that_ends_on_a_part_of_a_peer_is_told_apart() {
    let response = TrackerResponse { interval: 60, peers: vec![1, 2, 3, 4, 5, 6, 7] };
    assert!(!response.is_well_formed());
}

#[test]
fn peer_addresses_are_equal_by_value() {
    let a = PeerAddr { ip: [1, 2, 3, 4], port: 6881 };
    let b = PeerAddr { ip: [1, 2, 3, 4], port: 6881 };
    assert_eq!(a, b);
    assert_ne!(a, PeerAddr { ip: [1, 2, 3, 4], port: 6882 });
    assert_ne!(a, PeerAddr { ip: [1, 2, 3, 5], port: 6881 });
}
