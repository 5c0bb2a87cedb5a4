//! What is said to a tracker and what it answers: the announce request as
//! a URL, and the peers of its compact answer.

use vstd::prelude::*;
use vstd::utf8::encode_utf8;
use crate::bencode_encoder::push_decimal;
use crate::bencode_model::decimal;
use crate::bytes::append;
use crate::peer::PeerAddr;
use crate::torrent::Torrent;

verus! {

/// Length of one peer in a compact answer: four bytes of address, two of
/// port.
pub const COMPACT_PEER_LENGTH: usize = 6;

/// The byte stands for itself in a URL: a letter, a digit, or one of
/// `-`, `.`, `_` and `~`.
pub open spec fn is_unreserved(b: u8) -> bool {
    ||| 0x30 <= b <= 0x39
    ||| 0x41 <= b <= 0x5a
    ||| 0x61 <= b <= 0x7a
    ||| b == 0x2d
    ||| b == 0x2e
    ||| b == 0x5f
    ||| b == 0x7e
}

/// The character for a hex digit's value, in uppercase.
pub open spec fn upper_hex_digit(n: int) -> char {
    seq!['0', '1', '2', '3', '4', '5', '6', '7', '8', '9', 'A', 'B', 'C', 'D', 'E', 'F'][n]
}

/// One byte as it is written in a URL: itself, or a percent sign and its
/// two hex digits in uppercase.
pub open spec fn percent_encoded_byte(b: u8) -> Seq<char> {
    if is_unreserved(b) {
        seq![b as char]
    } else {
        seq!['%', upper_hex_digit(b as int / 16), upper_hex_digit(b as int % 16)]
    }
}

/// A byte sequence as it is written in a URL, byte by byte.
pub open spec fn percent_encoded(data: Seq<u8>) -> Seq<char>
    decreases data.len(),
{
    if data.len() == 0 {
        Seq::empty()
    } else {
        percent_encoded(data.drop_last()) + percent_encoded_byte(data.last())
    }
}

/// Calls `urlencoding::encode_binary` on `data` and takes the text it
/// returns as a `String`. Trusted: every letter, digit, `-`, `.`, `_`
/// and `~` of `data` stands in the text as itself, and every other byte
/// as a percent sign and its two hex digits in uppercase, in order.
#[verifier::external_body]
fn percent_encode(data: &[u8]) -> (text: String)
    ensures
        text@ == percent_encoded(data@),
{
    urlencoding::encode_binary(data).into_owned()
}

/// The announce request.
#[derive(Debug, Clone)]
pub struct TrackerRequest {
    pub info_hash: [u8; 20],
    pub peer_id: String,
    pub port: u16,
    pub uploaded: usize,
    pub downloaded: usize,
    pub left: usize,
    pub compact: u8,
}

impl TrackerRequest {
    /// The URL of the request: the tracker's URL, the content identifier
    /// as written for a URL, then the other parameters, each as `&`, its
    /// name, `=` and its value, numbers in decimal.
    pub open spec fn url(&self, info_hash_url: Seq<char>, tracker_url: Seq<char>) -> Seq<u8> {
        encode_utf8(tracker_url) + encode_utf8("?info_hash="@) + encode_utf8(info_hash_url)
            + encode_utf8("&peer_id="@) + encode_utf8(self.peer_id@) + encode_utf8("&port="@)
            + decimal(self.port as nat) + encode_utf8("&uploaded="@) + decimal(
            self.uploaded as nat,
        ) + encode_utf8("&downloaded="@) + decimal(self.downloaded as nat) + encode_utf8(
            "&left="@,
        ) + decimal(self.left as nat) + encode_utf8("&compact="@) + decimal(self.compact as nat)
    }

    /// The request that announces the start of a download of `torrent`:
    /// nothing is loaded yet, and its whole length is left.
    pub fn new(torrent: &Torrent, info_hash: [u8; 20]) -> (request: TrackerRequest)
        requires
            torrent.info.length is Some,
        ensures
            request.info_hash == info_hash,
            request.peer_id@ == "00112233445566778899"@,
            request.port == 6881,
            request.uploaded == 0,
            request.downloaded == 0,
            Some(request.left) == torrent.info.length,
            request.compact == 1,
    {
        let left = match torrent.info.length {
            Some(n) => n,
            None => 0,
        };
        TrackerRequest {
            info_hash,
            peer_id: "00112233445566778899".to_owned(),
            port: 6881,
            uploaded: 0,
            downloaded: 0,
            left,
            compact: 1,
        }
    }

    /// The content identifier as it is written in a URL.
    pub fn url_encode(info_hash: [u8; 20]) -> (text: String)
        ensures
            text@ == percent_encoded(info_hash@),
    {
        percent_encode(info_hash.as_slice())
    }

    /// The URL to fetch from the tracker at `tracker_url`, as bytes:
    /// `info_hash_url` is the content identifier as [`url_encode`] gives
    /// it. The parameters stand in one fixed order.
    ///
    /// [`url_encode`]: TrackerRequest::url_encode
    pub fn request(&self, info_hash_url: String, tracker_url: &String) -> (url: Vec<u8>)
        ensures
            url@ == self.url(info_hash_url@, tracker_url@),
    {
        let mut url: Vec<u8> = Vec::new();
        append(&mut url, tracker_url.as_str().as_bytes());
        append(&mut url, "?info_hash=".as_bytes());
        append(&mut url, info_hash_url.as_str().as_bytes());
        append(&mut url, "&peer_id=".as_bytes());
        append(&mut url, self.peer_id.as_str().as_bytes());
        append(&mut url, "&port=".as_bytes());
        push_decimal(&mut url, self.port as u64);
        append(&mut url, "&uploaded=".as_bytes());
        push_decimal(&mut url, self.uploaded as u64);
        append(&mut url, "&downloaded=".as_bytes());
        push_decimal(&mut url, self.downloaded as u64);
        append(&mut url, "&left=".as_bytes());
        push_decimal(&mut url, self.left as u64);
        append(&mut url, "&compact=".as_bytes());
        push_decimal(&mut url, self.compact as u64);
        proof {
            assert(url@ =~= self.url(info_hash_url@, tracker_url@));
        }
        url
    }
}

/// The tracker's answer in compact form.
#[derive(Debug, Clone)]
pub struct TrackerResponse {
    /// Seconds to wait before asking again.
    pub interval: u64,
    /// The peers, six bytes each: four of address, two of port, most
    /// significant first.
    pub peers: Vec<u8>,
}

impl TrackerResponse {
    /// The peer that the six bytes from `6 * i` on stand for.
    pub open spec fn peer_at(&self, i: int) -> PeerAddr {
        PeerAddr {
            ip: [
                self.peers[6 * i],
                self.peers[6 * i + 1],
                self.peers[6 * i + 2],
                self.peers[6 * i + 3],
            ],
            port: (self.peers[6 * i + 4] * 0x100 + self.peers[6 * i + 5]) as u16,
        }
    }

    /// The answer holds whole peers only.
    pub open spec fn well_formed(&self) -> bool {
        self.peers.len() % 6 == 0
    }

    /// Whether the answer holds whole peers only.
    pub fn is_well_formed(&self) -> (ok: bool)
        ensures
            ok == self.well_formed(),
    {
        self.peers.len() % COMPACT_PEER_LENGTH == 0
    }

    /// The peers of the answer, in the order in which it lists them.
    pub fn get_peers(&self) -> (peers: Vec<PeerAddr>)
        requires
            self.well_formed(),
        ensures
            peers.len() == self.peers.len() / 6,
            forall|i: int| 0 <= i < peers.len() ==> #[trigger] peers[i] == self.peer_at(i),
    {
        let mut peers: Vec<PeerAddr> = Vec::new();
        let mut at: usize = 0;
        while at < self.peers.len()
            invariant
                at <= self.peers.len(),
                at == 6 * peers.len(),
                self.peers.len() % 6 == 0,
                forall|i: int| 0 <= i < peers.len() ==> #[trigger] peers[i] == self.peer_at(i),
            decreases self.peers.len() - at,
        {
            let ip: [u8; 4] = [
                self.peers[at],
                self.peers[at + 1],
                self.peers[at + 2],
                self.peers[at + 3],
            ];
            let port: u16 = (self.peers[at + 4] as u16) * 0x100 + (self.peers[at + 5] as u16);
            peers.push(PeerAddr { ip, port });
            at += COMPACT_PEER_LENGTH;
        }
        peers
    }
}

} // verus!
