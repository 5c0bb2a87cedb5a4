//! One download as a state machine: the greetings, the bootstrap of the
//! session, the pieces while they are fetched, and the final write. The
//! machine does no I/O: it takes what happened and says what to do next.

use vstd::prelude::*;
use std::collections::HashMap;
use crate::digest::piece_digest;
use crate::error::PeerError;
use crate::partition::{chunk_length, spec_chunk_length};
use crate::piece::VerifiedPiece;
use crate::wire::{
    be32_value, handshake_frame, interested_frame, local_peer_id, peer_id, read_be32,
    write_handshake, write_interested, HANDSHAKE_LENGTH, MESSAGE_BITFIELD, MESSAGE_UNCHOKE,
};

verus! {

broadcast use vstd::std_specs::hash::group_hash_axioms;

/// Where a download stands.
#[derive(Debug, Clone, Copy, PartialEq, Eq, Structural)]
pub enum Phase {
    /// Connecting: the greeting is sent, and the peer's greeting is
    /// awaited.
    Connecting,
    /// Bootstrapping: the length prefix of the peer's first message is
    /// awaited.
    AwaitBitfieldLength,
    /// Bootstrapping: the peer's first message, of the given length, is
    /// awaited.
    AwaitBitfield { length: u32 },
    /// Bootstrapping: interest has been declared, and the peer's
    /// permission to ask for blocks is awaited.
    AwaitUnchoke,
    /// The pieces are being fetched.
    Downloading,
    /// Every piece is verified; the last write is under way.
    Finalizing,
    /// Every piece is written.
    Done,
    /// The download has ended with an error.
    Failed(PeerError),
}

/// What happened, as the caller reports it to the machine.
pub enum Event {
    /// The bytes asked for by the last `Read` or `SendThenRead` came in;
    /// fewer bytes, if the peer sent no more.
    Received(Vec<u8>),
    /// A piece was put together and passed the check of its digest.
    PieceVerified(VerifiedPiece),
    /// The download of a piece failed.
    PieceFailed(PeerError),
    /// The bytes of the last `Write` are in the output.
    Written,
    /// Reading from or writing to the peer failed.
    TransportFailed,
}

/// The model of an [`Event`].
pub enum EventView {
    Received(Seq<u8>),
    PieceVerified { index: u32, bytes: Seq<u8>, expected: Seq<char> },
    PieceFailed(PeerError),
    Written,
    TransportFailed,
}

impl EventView {
    /// A piece that is reported as verified has the digest it was
    /// checked against. This holds of every [`Event`]: a
    /// [`VerifiedPiece`] is made by that check alone.
    pub open spec fn well_formed(self) -> bool {
        self matches EventView::PieceVerified { bytes, expected, .. } ==> piece_digest(bytes)
            == expected
    }
}

impl View for Event {
    type V = EventView;

    open spec fn view(&self) -> EventView {
        match self {
            Event::Received(bytes) => EventView::Received(bytes@),
            Event::PieceVerified(piece) => EventView::PieceVerified {
                index: piece.index(),
                bytes: piece.bytes(),
                expected: piece.expected(),
            },
            Event::PieceFailed(e) => EventView::PieceFailed(*e),
            Event::Written => EventView::Written,
            Event::TransportFailed => EventView::TransportFailed,
        }
    }
}

/// What the caller is to do next.
#[derive(Debug, PartialEq, Eq)]
pub enum Action {
    /// Read exactly `length` bytes from the peer and report them.
    Read { length: usize },
    /// Send `bytes` to the peer, then read exactly `length` bytes and
    /// report them.
    SendThenRead { bytes: Vec<u8>, length: usize },
    /// The peer grants the transfer: start fetching the pieces, and
    /// report each as it ends.
    Start,
    /// Nothing to do but to go on with the pieces under way.
    Continue,
    /// Append these pieces to the output, in this order, then report
    /// that they are written.
    Write { pieces: Vec<Vec<u8>> },
    /// The download is complete.
    Finish,
    /// The download has failed.
    Fail(PeerError),
}

/// The model of an [`Action`].
pub enum ActionView {
    Read { length: nat },
    SendThenRead { bytes: Seq<u8>, length: nat },
    Start,
    Continue,
    Write { pieces: Seq<Seq<u8>> },
    Finish,
    Fail(PeerError),
}

impl View for Action {
    type V = ActionView;

    open spec fn view(&self) -> ActionView {
        match self {
            Action::Read { length } => ActionView::Read { length: *length as nat },
            Action::SendThenRead { bytes, length } => ActionView::SendThenRead {
                bytes: bytes@,
                length: *length as nat,
            },
            Action::Start => ActionView::Start,
            Action::Continue => ActionView::Continue,
            Action::Write { pieces } => ActionView::Write {
                pieces: Seq::new(pieces.len() as nat, |i: int| pieces[i]@),
            },
            Action::Finish => ActionView::Finish,
            Action::Fail(e) => ActionView::Fail(*e),
        }
    }
}

/// One piece to fetch: its index, its true length and its digest.
#[derive(Debug, Clone, PartialEq, Eq)]
pub struct PieceJob {
    pub index: u32,
    pub length: u32,
    /// The digest expected of the piece, as lowercase hex text.
    pub hash: String,
}

/// The model of a download.
pub struct DownloadView {
    pub phase: Phase,
    /// The content identifier that the peer is greeted with.
    pub info_hash: Seq<u8>,
    /// The identifier that the peer claimed in its greeting, once it has
    /// greeted.
    pub remote_id: Option<Seq<u8>>,
    /// Total length of the content, in bytes.
    pub total: u64,
    /// Length of every piece but the last.
    pub piece_length: u32,
    /// Index of the first piece to fetch.
    pub first: u32,
    /// Number of pieces of the torrent; the pieces to fetch are
    /// `first..count`.
    pub count: u32,
    /// Whether the whole torrent is fetched and written at the end, in
    /// order; else each piece is written as soon as it is verified.
    pub whole: bool,
    /// The digest expected of each piece, by index.
    pub hashes: Seq<Seq<char>>,
    /// For each piece to fetch, counted from `first`, whether it has been
    /// verified.
    pub arrived: Seq<bool>,
    /// The verified pieces that wait for the final write, by index.
    pub stored: Map<u32, Seq<u8>>,
}

/// Every piece to fetch has been verified.
pub open spec fn all_arrived(arrived: Seq<bool>) -> bool {
    forall|i: int| 0 <= i < arrived.len() ==> arrived[i]
}

/// The number of pieces that have not been verified yet.
pub open spec fn count_missing(arrived: Seq<bool>) -> nat
    decreases arrived.len(),
{
    if arrived.len() == 0 {
        0
    } else {
        count_missing(arrived.drop_last()) + if arrived.last() {
            0nat
        } else {
            1nat
        }
    }
}

/// The pieces `first..count` of `stored` in ascending order of index.
pub open spec fn in_order(stored: Map<u32, Seq<u8>>, first: u32, count: u32) -> Seq<Seq<u8>> {
    Seq::new((count - first) as nat, |i: int| stored[(first + i) as u32])
}

impl Phase {
    /// The pieces are not started yet: the greetings are being
    /// exchanged, or the session is being bootstrapped.
    pub open spec fn is_bootstrap(self) -> bool {
        self is Connecting || self is AwaitBitfieldLength || self is AwaitBitfield
            || self is AwaitUnchoke
    }
}

impl DownloadView {
    /// The state holds together: the pieces to fetch are `first..count`,
    /// each piece has its expected digest, nothing has arrived before the
    /// pieces are started, and every piece that is kept for the final
    /// write has arrived and has the digest expected of it.
    pub open spec fn well_formed(self) -> bool {
        &&& self.first <= self.count
        &&& self.arrived.len() == self.count - self.first
        &&& self.hashes.len() == self.count
        &&& self.phase.is_bootstrap() ==> forall|i: int|
            0 <= i < self.arrived.len() ==> !self.arrived[i]
        &&& forall|k: u32| #[trigger]
            self.stored.contains_key(k) ==> self.first <= k < self.count && self.arrived[k
                - self.first] && piece_digest(self.stored[k]) == self.hashes[k as int]
        &&& self.phase == Phase::Downloading && self.whole ==> forall|i: int|
            0 <= i < self.arrived.len() && self.arrived[i] ==> self.stored.contains_key(
                (self.first + i) as u32,
            )
    }

    /// Index of the piece that stands at place `i` of what `event` has
    /// written: in a download of the whole torrent the final write holds
    /// the pieces from the first on, else the write holds the piece that
    /// the event reports.
    pub open spec fn written_index(self, event: EventView, i: int) -> int {
        if self.whole {
            self.first + i
        } else {
            event->index as int
        }
    }

    /// Whatever `event` has written has the digest that the descriptor
    /// gives for its piece.
    pub open spec fn writes_verified(self, event: EventView) -> bool {
        self.step(event).1 matches ActionView::Write { pieces } ==> forall|i: int|
            0 <= i < pieces.len() ==> 0 <= self.written_index(event, i) < self.hashes.len()
                && piece_digest(#[trigger] pieces[i]) == self.hashes[self.written_index(event, i)]
    }

    pub open spec fn with_phase(self, phase: Phase) -> DownloadView {
        DownloadView { phase, ..self }
    }

    /// The download ends with `error`.
    pub open spec fn fail(self, error: PeerError) -> (DownloadView, ActionView) {
        (self.with_phase(Phase::Failed(error)), ActionView::Fail(error))
    }

    /// The peer has granted the transfer.
    pub open spec fn start(self) -> (DownloadView, ActionView) {
        if all_arrived(self.arrived) {
            (self.with_phase(Phase::Finalizing), ActionView::Write { pieces: Seq::empty() })
        } else {
            (self.with_phase(Phase::Downloading), ActionView::Start)
        }
    }

    /// The bytes asked for have come in.
    pub open spec fn receive(self, bytes: Seq<u8>) -> (DownloadView, ActionView) {
        match self.phase {
            Phase::Connecting => if bytes.len() == HANDSHAKE_LENGTH {
                (
                    DownloadView {
                        phase: Phase::AwaitBitfieldLength,
                        remote_id: Some(bytes.subrange(48, 68)),
                        ..self
                    },
                    ActionView::Read { length: 4 },
                )
            } else {
                self.fail(PeerError::ProtocolViolation)
            },
            Phase::AwaitBitfieldLength => if bytes.len() == 4 && be32_value(bytes) > 0 {
                (
                    self.with_phase(Phase::AwaitBitfield { length: be32_value(bytes) as u32 }),
                    ActionView::Read { length: be32_value(bytes) as nat },
                )
            } else {
                self.fail(PeerError::ProtocolViolation)
            },
            Phase::AwaitBitfield { length } => if bytes.len() == length && bytes.len() > 0
                && bytes[0] == MESSAGE_BITFIELD {
                (
                    self.with_phase(Phase::AwaitUnchoke),
                    ActionView::SendThenRead { bytes: interested_frame(), length: 5 },
                )
            } else {
                self.fail(PeerError::ProtocolViolation)
            },
            Phase::AwaitUnchoke => if bytes.len() == 5 && bytes[4] == MESSAGE_UNCHOKE {
                self.start()
            } else {
                self.fail(PeerError::ProtocolViolation)
            },
            _ => self.fail(PeerError::ProtocolViolation),
        }
    }

    /// Piece `index` is one of those to fetch and has not been verified
    /// before.
    pub open spec fn awaits(self, index: u32) -> bool {
        self.first <= index < self.count && index - self.first < self.arrived.len()
            && !self.arrived[index - self.first]
    }

    /// A piece has been verified against the digest `expected`.
    pub open spec fn piece_verified(self, index: u32, bytes: Seq<u8>, expected: Seq<char>) -> (
        DownloadView,
        ActionView,
    ) {
        if self.phase != Phase::Downloading {
            self.fail(PeerError::ProtocolViolation)
        } else if !self.awaits(index) {
            (self, ActionView::Continue)
        } else if !(index < self.hashes.len() && self.hashes[index as int] == expected) {
            self.fail(PeerError::IntegrityError { piece: index })
        } else {
            let arrived = self.arrived.update(index - self.first, true);
            let done = all_arrived(arrived);
            if self.whole {
                let stored = self.stored.insert(index, bytes);
                if done {
                    (
                        DownloadView {
                            phase: Phase::Finalizing,
                            arrived,
                            stored: Map::empty(),
                            ..self
                        },
                        ActionView::Write { pieces: in_order(stored, self.first, self.count) },
                    )
                } else {
                    (DownloadView { arrived, stored, ..self }, ActionView::Continue)
                }
            } else {
                (
                    DownloadView {
                        phase: if done {
                            Phase::Finalizing
                        } else {
                            Phase::Downloading
                        },
                        arrived,
                        ..self
                    },
                    ActionView::Write { pieces: seq![bytes] },
                )
            }
        }
    }

    /// What the download becomes on an event, and what is to be done next.
    pub open spec fn step(self, event: EventView) -> (DownloadView, ActionView) {
        match self.phase {
            Phase::Done => (self, ActionView::Finish),
            Phase::Failed(error) => (self, ActionView::Fail(error)),
            _ => match event {
                EventView::TransportFailed => self.fail(PeerError::ConnectionError),
                EventView::PieceFailed(error) => self.fail(error),
                EventView::Received(bytes) => self.receive(bytes),
                EventView::PieceVerified { index, bytes, expected } => self.piece_verified(
                    index,
                    bytes,
                    expected,
                ),
                EventView::Written => match self.phase {
                    Phase::Finalizing => (self.with_phase(Phase::Done), ActionView::Finish),
                    Phase::Downloading => (self, ActionView::Continue),
                    _ => self.fail(PeerError::ProtocolViolation),
                },
            },
        }
    }
}

/// The models of the texts of a vector, in order.
pub open spec fn texts_view(texts: Seq<String>) -> Seq<Seq<char>> {
    Seq::new(texts.len(), |i: int| texts[i]@)
}

/// The models of the byte vectors that a map holds.
pub open spec fn stored_view(stored: Map<u32, Vec<u8>>) -> Map<u32, Seq<u8>> {
    stored.map_values(|v: Vec<u8>| v@)
}

/// One download: the state of the machine.
pub struct Download {
    phase: Phase,
    info_hash: [u8; 20],
    remote_id: Option<[u8; 20]>,
    total: u64,
    piece_length: u32,
    first: u32,
    count: u32,
    whole: bool,
    hashes: Vec<String>,
    arrived: Vec<bool>,
    missing: usize,
    stored: HashMap<u32, Vec<u8>>,
}

impl View for Download {
    type V = DownloadView;

    closed spec fn view(&self) -> DownloadView {
        DownloadView {
            phase: self.phase,
            info_hash: self.info_hash@,
            remote_id: match self.remote_id {
                Some(id) => Some(id@),
                None => None,
            },
            total: self.total,
            piece_length: self.piece_length,
            first: self.first,
            count: self.count,
            whole: self.whole,
            hashes: texts_view(self.hashes@),
            arrived: self.arrived@,
            stored: stored_view(self.stored@),
        }
    }
}

impl Download {
    #[verifier::type_invariant]
    spec fn consistent(&self) -> bool {
        self@.well_formed() && self.missing == count_missing(self.arrived@)
    }

    /// A download that is about to greet its peer, for the content that
    /// `info_hash` identifies. It fetches the whole torrent, `count`
    /// pieces, where `only_piece` is `None`, and else the pieces from
    /// that index on. `hashes` holds the digest expected of each piece.
    pub fn new(
        info_hash: [u8; 20],
        total: u64,
        piece_length: u32,
        count: u32,
        hashes: Vec<String>,
        only_piece: Option<u32>,
    ) -> (download: Download)
        requires
            hashes.len() == count,
        ensures
            download@ == (DownloadView {
                phase: Phase::Connecting,
                info_hash: info_hash@,
                remote_id: None,
                total,
                piece_length,
                first: match only_piece {
                    Some(k) => if k < count {
                        k
                    } else {
                        count
                    },
                    None => 0,
                },
                count,
                whole: only_piece is None,
                hashes: texts_view(hashes@),
                arrived: Seq::new((count - download@.first) as nat, |i: int| false),
                stored: Map::empty(),
            }),
            download@.well_formed(),
    {
        let first = match only_piece {
            Some(k) => if k < count {
                k
            } else {
                count
            },
            None => 0,
        };
        let mut arrived: Vec<bool> = Vec::new();
        let mut i: u32 = first;
        while i < count
            invariant
                first <= i <= count,
                arrived.len() == i - first,
                forall|j: int| 0 <= j < arrived.len() ==> !arrived[j],
                count_missing(arrived@) == arrived.len(),
            decreases count - i,
        {
            let ghost before = arrived@;
            arrived.push(false);
            proof {
                assert(arrived@.drop_last() =~= before);
            }
            i += 1;
        }
        let missing = arrived.len();
        let stored: HashMap<u32, Vec<u8>> = HashMap::new();
        proof {
            assert(arrived@ =~= Seq::new((count - first) as nat, |i: int| false));
            assert(stored_view(stored@) =~= Map::empty());
        }
        let download = Download {
            phase: Phase::Connecting,
            info_hash,
            remote_id: None,
            total,
            piece_length,
            first,
            count,
            whole: only_piece.is_none(),
            hashes,
            arrived,
            missing,
            stored,
        };
        proof {
            use_type_invariant(&download);
        }
        download
    }

    /// Where the download stands.
    pub fn phase(&self) -> (phase: Phase)
        ensures
            phase == self@.phase,
    {
        self.phase
    }

    /// What to do first, once connected: send the greeting and read the
    /// peer's.
    pub fn begin(&self) -> (action: Action)
        ensures
            action@ == (ActionView::SendThenRead {
                bytes: handshake_frame(self@.info_hash, local_peer_id()),
                length: HANDSHAKE_LENGTH as nat,
            }),
    {
        let id = peer_id();
        Action::SendThenRead {
            bytes: write_handshake(&self.info_hash, &id),
            length: HANDSHAKE_LENGTH,
        }
    }

    /// The identifier that the peer claimed in its greeting, once it has
    /// greeted.
    pub fn remote_peer_id(&self) -> (id: Option<[u8; 20]>)
        ensures
            match id {
                Some(id) => self@.remote_id == Some(id@),
                None => self@.remote_id is None,
            },
    {
        self.remote_id
    }

    /// The pieces to fetch, in ascending order of index, each with its
    /// true length: the piece length, but for the last piece of the
    /// torrent what the others leave of the total.
    pub fn jobs(&self) -> (jobs: Vec<PieceJob>)
        ensures
            jobs.len() == self@.count - self@.first,
            forall|i: int|
                0 <= i < jobs.len() ==> {
                    &&& (#[trigger] jobs[i]).index == self@.first + i
                    &&& jobs[i].length == spec_chunk_length(
                        self@.total as nat,
                        self@.piece_length as nat,
                        (self@.first + i) as nat,
                    )
                    &&& jobs[i].hash@ == self@.hashes[self@.first + i]
                },
    {
        proof {
            use_type_invariant(self);
        }
        let mut jobs: Vec<PieceJob> = Vec::new();
        let mut index: u32 = self.first;
        while index < self.count
            invariant
                self.first <= index <= self.count,
                self.hashes.len() == self.count,
                jobs.len() == index - self.first,
                forall|i: int|
                    0 <= i < jobs.len() ==> {
                        &&& (#[trigger] jobs[i]).index == self.first + i
                        &&& jobs[i].length == spec_chunk_length(
                            self.total as nat,
                            self.piece_length as nat,
                            (self.first + i) as nat,
                        )
                        &&& jobs[i].hash@ == self.hashes[self.first + i]@
                    },
            decreases self.count - index,
        {
            jobs.push(
                PieceJob {
                    index,
                    length: chunk_length(self.total, self.piece_length, index as u64),
                    hash: self.hashes[index as usize].clone(),
                },
            );
            index += 1;
        }
        jobs
    }

    /// The download in another phase than that of fetching.
    fn in_phase(self, phase: Phase) -> (next: Download)
        requires
            phase != Phase::Downloading,
            phase.is_bootstrap() ==> self@.phase.is_bootstrap(),
        ensures
            next@ == self@.with_phase(phase),
    {
        proof {
            use_type_invariant(&self);
        }
        let Download {
            phase: _,
            info_hash,
            remote_id,
            total,
            piece_length,
            first,
            count,
            whole,
            hashes,
            arrived,
            missing,
            stored,
        } = self;
        Download {
            phase,
            info_hash,
            remote_id,
            total,
            piece_length,
            first,
            count,
            whole,
            hashes,
            arrived,
            missing,
            stored,
        }
    }

    /// The download, failed.
    fn failed(self, error: PeerError) -> (next: (Download, Action))
        ensures
            next.0@ == self@.fail(error).0,
            next.1@ == self@.fail(error).1,
    {
        (self.in_phase(Phase::Failed(error)), Action::Fail(error))
    }

    /// Takes the bytes that were asked for during the bootstrap.
    fn receive(self, bytes: Vec<u8>) -> (next: (Download, Action))
        ensures
            next.0@ == self@.receive(bytes@).0,
            next.1@ == self@.receive(bytes@).1,
    {
        proof {
            use_type_invariant(&self);
        }
        match self.phase {
            Phase::Connecting => {
                if bytes.len() != HANDSHAKE_LENGTH {
                    return self.failed(PeerError::ProtocolViolation);
                }
                let mut id: [u8; 20] = [0;20];
                let mut i: usize = 0;
                while i < 20
                    invariant
                        i <= 20,
                        bytes.len() == HANDSHAKE_LENGTH,
                        forall|k: int| 0 <= k < i ==> id[k] == bytes[48 + k],
                    decreases 20 - i,
                {
                    id[i] = bytes[48 + i];
                    i += 1;
                }
                proof {
                    assert(id@ =~= bytes@.subrange(48, 68));
                }
                let Download {
                    phase: _,
                    info_hash,
                    remote_id: _,
                    total,
                    piece_length,
                    first,
                    count,
                    whole,
                    hashes,
                    arrived,
                    missing,
                    stored,
                } = self;
                (
                    Download {
                        phase: Phase::AwaitBitfieldLength,
                        info_hash,
                        remote_id: Some(id),
                        total,
                        piece_length,
                        first,
                        count,
                        whole,
                        hashes,
                        arrived,
                        missing,
                        stored,
                    },
                    Action::Read { length: 4 },
                )
            },
            Phase::AwaitBitfieldLength => {
                if bytes.len() != 4 {
                    return self.failed(PeerError::ProtocolViolation);
                }
                let length = read_be32(bytes.as_slice());
                if length == 0 {
                    return self.failed(PeerError::ProtocolViolation);
                }
                (
                    self.in_phase(Phase::AwaitBitfield { length }),
                    Action::Read { length: length as usize },
                )
            },
            Phase::AwaitBitfield { length } => {
                if bytes.len() != length as usize || bytes.len() == 0 || bytes[0]
                    != MESSAGE_BITFIELD {
                    return self.failed(PeerError::ProtocolViolation);
                }
                (
                    self.in_phase(Phase::AwaitUnchoke),
                    Action::SendThenRead { bytes: write_interested(), length: 5 },
                )
            },
            Phase::AwaitUnchoke => {
                if bytes.len() != 5 || bytes[4] != MESSAGE_UNCHOKE {
                    return self.failed(PeerError::ProtocolViolation);
                }
                proof {
                    lemma_count_missing(self.arrived@);
                }
                if self.missing == 0 {
                    let pieces: Vec<Vec<u8>> = Vec::new();
                    let action = Action::Write { pieces };
                    proof {
                        assert(action@ == (ActionView::Write { pieces: Seq::empty() })) by {
                            assert(Seq::new(pieces.len() as nat, |i: int| pieces[i]@) =~= Seq::<
                                Seq<u8>,
                            >::empty());
                        }
                    }
                    (self.in_phase(Phase::Finalizing), action)
                } else {
                    let ghost before = self@;
                    let Download {
                        phase: _,
                        info_hash,
                        remote_id,
                        total,
                        piece_length,
                        first,
                        count,
                        whole,
                        hashes,
                        arrived,
                        missing,
                        stored,
                    } = self;
                    proof {
                        assert(before.phase.is_bootstrap());
                        assert forall|i: int| 0 <= i < arrived.len() implies !arrived@[i] by {
                            assert(!before.arrived[i]);
                        }
                        assert forall|k: u32| #[trigger]
                            stored_view(stored@).contains_key(k) implies first <= k < count
                            && arrived@[k - first] && piece_digest(stored_view(stored@)[k])
                            == texts_view(hashes@)[k as int] by {
                            assert(before.stored.contains_key(k));
                        }
                    }
                    let next = Download {
                        phase: Phase::Downloading,
                        info_hash,
                        remote_id,
                        total,
                        piece_length,
                        first,
                        count,
                        whole,
                        hashes,
                        arrived,
                        missing,
                        stored,
                    };
                    (next, Action::Start)
                }
            },
            _ => self.failed(PeerError::ProtocolViolation),
        }
    }

    /// What the download becomes on `event`, and what the caller is to
    /// do next.
    ///
    /// First the peer's greeting is taken, which must have the length
    /// of a greeting; the content identifier in it is not looked at.
    /// During the bootstrap the bytes that come in are checked: a length
    /// prefix above zero, a first message of that length that is a
    /// bitfield, then, after interest is declared, the permission to ask
    /// for blocks. While the pieces are fetched, a verified piece is kept
    /// for the final write, or, where not the whole torrent is fetched,
    /// written at once. When the last piece is verified the final write
    /// hands all pieces out in ascending order of index, in whatever
    /// order they came. Any failure ends the download.
    pub fn step(self, event: Event) -> (next: (Download, Action))
        ensures
            next.0@ == self@.step(event@).0,
            next.1@ == self@.step(event@).1,
            self@.well_formed(),
            next.0@.well_formed(),
            self@.writes_verified(event@),
    {
        proof {
            use_type_invariant(&self);
            match &event {
                Event::PieceVerified(piece) => {
                    use_type_invariant(piece);
                },
                _ => {},
            }
            lemma_step_well_formed(self@, event@);
            lemma_writes_verified(self@, event@);
        }
        match self.phase {
            Phase::Done => {
                return (self, Action::Finish);
            },
            Phase::Failed(error) => {
                return (self, Action::Fail(error));
            },
            _ => {},
        }
        match event {
            Event::TransportFailed => self.failed(PeerError::ConnectionError),
            Event::PieceFailed(error) => self.failed(error),
            Event::Received(bytes) => self.receive(bytes),
            Event::PieceVerified(piece) => self.piece_verified(piece),
            Event::Written => match self.phase {
                Phase::Finalizing => (self.in_phase(Phase::Done), Action::Finish),
                Phase::Downloading => (self, Action::Continue),
                _ => self.failed(PeerError::ProtocolViolation),
            },
        }
    }

    /// Takes a verified piece.
    fn piece_verified(self, piece: VerifiedPiece) -> (next: (Download, Action))
        ensures
            next.0@ == self@.piece_verified(piece.index(), piece.bytes(), piece.expected()).0,
            next.1@ == self@.piece_verified(piece.index(), piece.bytes(), piece.expected()).1,
    {
        proof {
            use_type_invariant(&self);
        }
        if self.phase != Phase::Downloading {
            return self.failed(PeerError::ProtocolViolation);
        }
        let index = piece.piece_index();
        if index < self.first || index >= self.count || self.arrived[(index
            - self.first) as usize] {
            return (self, Action::Continue);
        }
        if *piece.expected_digest() != self.hashes[index as usize] {
            return self.failed(PeerError::IntegrityError { piece: index });
        }
        let ghost before = self@;
        let Download {
            phase: _,
            info_hash,
            remote_id,
            total,
            piece_length,
            first,
            count,
            whole,
            hashes,
            mut arrived,
            missing,
            mut stored,
        } = self;
        let slot = (index - first) as usize;
        proof {
            lemma_count_missing_update(arrived@, slot as int);
            lemma_count_missing(arrived@);
            lemma_count_missing(arrived@.update(slot as int, true));
        }
        arrived.set(slot, true);
        let missing = missing - 1;
        let data = piece.into_data();
        if whole {
            stored.insert(index, data);
            proof {
                assert(stored_view(stored@) =~= before.stored.insert(index, data@));
            }
            if missing == 0 {
                let ghost full = stored_view(stored@);
                proof {
                    assert forall|k: u32| first <= k < count implies (
                    #[trigger] stored@.contains_key(k)) by {
                        assert(arrived@[k - first]);
                        if k != index {
                            assert(before.arrived[k - first]);
                        }
                    }
                }
                let mut pieces: Vec<Vec<u8>> = Vec::new();
                let mut i: u32 = first;
                while i < count
                    invariant
                        first <= i <= count,
                        pieces.len() == i - first,
                        forall|k: u32|
                            i <= k < count ==> #[trigger] stored@.contains_key(k) && stored@[k]@
                                == full[k],
                        forall|j: int|
                            0 <= j < pieces.len() ==> (#[trigger] pieces[j])@ == full[(first
                                + j) as u32],
                    decreases count - i,
                {
                    let bytes = stored.remove(&i).unwrap();
                    pieces.push(bytes);
                    i += 1;
                }
                let action = Action::Write { pieces };
                let fresh: HashMap<u32, Vec<u8>> = HashMap::new();
                proof {
                    assert(action@ == (ActionView::Write {
                        pieces: in_order(full, first, count),
                    })) by {
                        assert(Seq::new(pieces.len() as nat, |i: int| pieces[i]@) =~= in_order(
                            full,
                            first,
                            count,
                        ));
                    }
                    assert(stored_view(fresh@) =~= Map::empty());
                }
                (
                    Download {
                        phase: Phase::Finalizing,
                        info_hash,
                        remote_id,
                        total,
                        piece_length,
                        first,
                        count,
                        whole,
                        hashes,
                        arrived,
                        missing,
                        stored: fresh,
                    },
                    action,
                )
            } else {
                (
                    Download {
                        phase: Phase::Downloading,
                        info_hash,
                        remote_id,
                        total,
                        piece_length,
                        first,
                        count,
                        whole,
                        hashes,
                        arrived,
                        missing,
                        stored,
                    },
                    Action::Continue,
                )
            }
        } else {
            let mut pieces: Vec<Vec<u8>> = Vec::new();
            pieces.push(data);
            let action = Action::Write { pieces };
            proof {
                assert(action@ == (ActionView::Write { pieces: seq![data@] })) by {
                    assert(Seq::new(pieces.len() as nat, |i: int| pieces[i]@) =~= seq![data@]);
                }
            }
            let phase = if missing == 0 {
                Phase::Finalizing
            } else {
                Phase::Downloading
            };
            (
                Download {
                    phase,
                    info_hash,
                    remote_id,
                    total,
                    piece_length,
                    first,
                    count,
                    whole,
                    hashes,
                    arrived,
                    missing,
                    stored,
                },
                action,
            )
        }
    }
}

/// No piece is missing exactly when all have arrived, and no more are
/// missing than there are.
pub proof fn lemma_count_missing(arrived: Seq<bool>)
    ensures
        count_missing(arrived) == 0 <==> all_arrived(arrived),
        count_missing(arrived) <= arrived.len(),
    decreases arrived.len(),
{
    if arrived.len() > 0 {
        let front = arrived.drop_last();
        lemma_count_missing(front);
        if all_arrived(arrived) {
            assert forall|i: int| 0 <= i < front.len() implies front[i] by {
                assert(arrived[i]);
            }
        }
        if count_missing(arrived) == 0 {
            assert forall|i: int| 0 <= i < arrived.len() implies arrived[i] by {
                if i < front.len() {
                    assert(front[i]);
                }
            }
        }
    }
}

/// A piece that arrives leaves one piece fewer missing.
pub proof fn lemma_count_missing_update(arrived: Seq<bool>, i: int)
    requires
        0 <= i < arrived.len(),
        !arrived[i],
    ensures
        count_missing(arrived.update(i, true)) == count_missing(arrived) - 1,
    decreases arrived.len(),
{
    let after = arrived.update(i, true);
    if i == arrived.len() - 1 {
        assert(after.drop_last() =~= arrived.drop_last());
    } else {
        lemma_count_missing_update(arrived.drop_last(), i);
        assert(after.drop_last() =~= arrived.drop_last().update(i, true));
    }
}

/// A download that holds together still does after any event.
pub proof fn lemma_step_well_formed(s: DownloadView, event: EventView)
    requires
        s.well_formed(),
        event.well_formed(),
    ensures
        s.step(event).0.well_formed(),
{
    let next = s.step(event).0;
    match event {
        EventView::PieceVerified { index, bytes, expected } => {
            if s.phase == Phase::Downloading && s.awaits(index) && s.hashes[index as int]
                == expected {
                assert forall|k: u32| #[trigger] next.stored.contains_key(k) implies s.first <= k
                    < s.count && next.arrived[k - s.first] && piece_digest(next.stored[k])
                    == next.hashes[k as int] by {
                    if k != index {
                        assert(s.stored.contains_key(k));
                    }
                }
                if next.phase == Phase::Downloading && next.whole {
                    assert forall|i: int|
                        0 <= i < next.arrived.len()
                            && next.arrived[i] implies next.stored.contains_key(
                        (next.first + i) as u32,
                    ) by {
                        if i != index - s.first {
                            assert(s.arrived[i]);
                        }
                    }
                }
            }
        },
        _ => {},
    }
}

/// No bytes reach the output but with the digest that the descriptor
/// gives for their piece: whatever an event has written is verified.
pub proof fn lemma_writes_verified(s: DownloadView, event: EventView)
    requires
        s.well_formed(),
        event.well_formed(),
    ensures
        s.writes_verified(event),
{
    match event {
        EventView::PieceVerified { index, bytes, expected } => {
            if s.phase == Phase::Downloading && s.awaits(index) && s.hashes[index as int]
                == expected {
                let arrived = s.arrived.update(index - s.first, true);
                if s.whole && all_arrived(arrived) {
                    let stored = s.stored.insert(index, bytes);
                    let pieces = in_order(stored, s.first, s.count);
                    assert forall|i: int| 0 <= i < pieces.len() implies piece_digest(
                        #[trigger] pieces[i],
                    ) == s.hashes[s.first + i] by {
                        let k = (s.first + i) as u32;
                        assert(arrived[i]);
                        if k != index {
                            assert(s.arrived[i]);
                            assert(s.stored.contains_key(k));
                        }
                    }
                }
            }
        },
        _ => {},
    }
}

/// In a download of the whole torrent, the order in which two pieces are
/// verified shows neither in the state after both nor in what is then to
/// be done: the final write is the same, in ascending order of index.
pub proof fn lemma_arrival_order_irrelevant(
    s: DownloadView,
    i: u32,
    a: Seq<u8>,
    j: u32,
    b: Seq<u8>,
)
    requires
        s.phase == Phase::Downloading,
        s.whole,
        s.arrived.len() == s.count - s.first,
        i != j,
        s.awaits(i),
        s.awaits(j),
        i < s.hashes.len(),
        j < s.hashes.len(),
    ensures
        ({
            let first_i = EventView::PieceVerified {
                index: i,
                bytes: a,
                expected: s.hashes[i as int],
            };
            let first_j = EventView::PieceVerified {
                index: j,
                bytes: b,
                expected: s.hashes[j as int],
            };
            s.step(first_i).0.step(first_j) == s.step(first_j).0.step(first_i)
        }),
{
    let after_i = s.arrived.update(i - s.first, true);
    let after_j = s.arrived.update(j - s.first, true);
    assert(!after_i[j - s.first]);
    assert(!after_j[i - s.first]);
    assert(!all_arrived(after_i));
    assert(!all_arrived(after_j));
    assert(after_i.update(j - s.first, true) =~= after_j.update(i - s.first, true));
    assert(s.stored.insert(i, a).insert(j, b) =~= s.stored.insert(j, b).insert(i, a));
}

} // verus!
