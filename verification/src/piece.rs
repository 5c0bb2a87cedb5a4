//! One piece on its way: its blocks are asked for under the ceiling of
//! requests, kept by index as they arrive, put together in order and
//! checked against the piece's digest.

use vstd::prelude::*;
use std::collections::HashMap;
use crate::bytes::append;
use crate::digest::{digest_hex, piece_digest};
use crate::error::PeerError;
use crate::in_flight::{random_token, InFlight};
use crate::partition::{
    chunk_count, chunk_length, chunk_lengths_sum, lemma_chunk_lengths, lemma_chunks_cover,
    spec_chunk_count, spec_chunk_length,
};
use crate::wire::{
    check_piece_header, is_piece_header, request_frame, write_request, REQUEST_LENGTH,
};

verus! {

broadcast use vstd::std_specs::hash::group_hash_axioms;

/// The blocks `0..n` are all there.
pub open spec fn blocks_present(blocks: Map<u32, Vec<u8>>, n: nat) -> bool {
    forall|i: u32| i < n ==> blocks.contains_key(i)
}

/// The blocks `0..n` one after the other, in ascending order of index.
pub open spec fn concat_blocks(blocks: Map<u32, Vec<u8>>, n: nat) -> Seq<u8>
    decreases n,
{
    if n == 0 {
        Seq::empty()
    } else {
        concat_blocks(blocks, (n - 1) as nat) + blocks[(n - 1) as u32]@
    }
}

/// One request for a block: a unit of work that lasts for one exchange
/// with the peer.
#[derive(Debug, Clone, Copy, PartialEq, Eq, Structural)]
pub struct BlockTask {
    /// The token under which the request is counted as under way.
    pub token: u64,
    pub piece_index: u32,
    /// Position of the block among the blocks of its piece.
    pub block_index: u32,
    /// Offset of the block within its piece, in bytes.
    pub offset: u32,
    /// Number of bytes asked for.
    pub length: u32,
}

impl BlockTask {
    /// The request message to send for this block.
    pub fn request_message(&self) -> (frame: Vec<u8>)
        ensures
            frame@ == request_frame(self.piece_index, self.offset, self.length),
            frame.len() == REQUEST_LENGTH,
    {
        write_request(self.piece_index, self.offset, self.length)
    }
}

/// The bytes of a piece whose digest has been found to be the expected
/// one. There is no other way to make a value of this type than to check
/// a piece, so holding one shows that the check was passed.
pub struct VerifiedPiece {
    index: u32,
    data: Vec<u8>,
    expected: String,
}

impl VerifiedPiece {
    /// Index of the piece in its torrent.
    pub closed spec fn index(&self) -> u32 {
        self.index
    }

    /// The piece's bytes.
    pub closed spec fn bytes(&self) -> Seq<u8> {
        self.data@
    }

    /// The digest that the bytes were checked against.
    pub closed spec fn expected(&self) -> Seq<char> {
        self.expected@
    }

    /// The bytes have the digest that they were checked against. This
    /// holds of every value of the type.
    #[verifier::type_invariant]
    pub open spec fn digest_matches(&self) -> bool {
        piece_digest(self.bytes()) == self.expected()
    }

    /// Index of the piece in its torrent.
    pub fn piece_index(&self) -> (index: u32)
        ensures
            index == self.index(),
    {
        self.index
    }

    /// The digest that the bytes were checked against, as lowercase hex
    /// text.
    pub fn expected_digest(&self) -> (digest: &String)
        ensures
            digest@ == self.expected(),
    {
        &self.expected
    }

    /// The piece's bytes.
    pub fn data(&self) -> (data: &Vec<u8>)
        ensures
            data@ == self.bytes(),
            piece_digest(data@) == self.expected(),
    {
        proof {
            use_type_invariant(self);
        }
        &self.data
    }

    /// Gives the piece's bytes up, to be written out.
    pub fn into_data(self) -> (data: Vec<u8>)
        ensures
            data@ == self.bytes(),
            piece_digest(data@) == self.expected(),
    {
        proof {
            use_type_invariant(&self);
        }
        self.data
    }
}

/// Compares the digest of `data` with the one expected of piece `index`.
/// Every piece passes through here before it is written anywhere.
pub fn verify_piece(index: u32, data: Vec<u8>, expected: &String) -> (res: Result<
    VerifiedPiece,
    PeerError,
>)
    ensures
        piece_digest(data@) == expected@ ==> (res matches Ok(piece) && piece.index() == index
            && piece.bytes() == data@ && piece.expected() == expected@),
        piece_digest(data@) != expected@ ==> res == Err::<VerifiedPiece, PeerError>(
            PeerError::IntegrityError { piece: index },
        ),
{
    let actual = digest_hex(data.as_slice());
    if actual == *expected {
        Ok(VerifiedPiece { index, data, expected: actual })
    } else {
        Err(PeerError::IntegrityError { piece: index })
    }
}

/// The download of one piece: which block to ask for next, and the
/// blocks that have arrived, by index.
pub struct PieceDownload {
    piece_index: u32,
    piece_length: u32,
    block_length: u32,
    expected: String,
    next_block: u32,
    blocks: HashMap<u32, Vec<u8>>,
}

impl PieceDownload {
    pub closed spec fn piece_index(&self) -> u32 {
        self.piece_index
    }

    pub closed spec fn piece_length(&self) -> u32 {
        self.piece_length
    }

    /// The length of every block but the last.
    pub closed spec fn block_length(&self) -> u32 {
        self.block_length
    }

    /// The digest expected of the piece, as lowercase hex text.
    pub closed spec fn expected(&self) -> Seq<char> {
        self.expected@
    }

    /// Index of the next block to ask for; all before it were asked for.
    pub closed spec fn next_block(&self) -> u32 {
        self.next_block
    }

    /// The blocks that have arrived, by index.
    pub closed spec fn blocks(&self) -> Map<u32, Vec<u8>> {
        self.blocks@
    }

    /// The number of blocks that the piece is cut into.
    pub open spec fn block_count(&self) -> nat {
        spec_chunk_count(self.piece_length() as nat, self.block_length() as nat)
    }

    /// The request that is due next, under `token`.
    pub open spec fn next_task(&self, token: u64) -> BlockTask {
        BlockTask {
            token,
            piece_index: self.piece_index(),
            block_index: self.next_block(),
            offset: (self.next_block() * self.block_length()) as u32,
            length: spec_chunk_length(
                self.piece_length() as nat,
                self.block_length() as nat,
                self.next_block() as nat,
            ) as u32,
        }
    }

    /// The length of block `index`.
    pub open spec fn block_size(&self, index: nat) -> nat {
        spec_chunk_length(self.piece_length() as nat, self.block_length() as nat, index)
    }

    /// `task` asks for a block of this piece, at the block's offset and
    /// for its length, as the tasks do that the piece hands out.
    pub open spec fn owns(&self, task: BlockTask) -> bool {
        &&& task.piece_index == self.piece_index()
        &&& task.block_index < self.block_count()
        &&& task.offset == task.block_index * self.block_length()
        &&& task.length == self.block_size(task.block_index as nat)
    }

    /// Every block that has arrived is a block of the piece and has that
    /// block's length. This stays so as long as the answers taken are
    /// answers to tasks of this piece.
    pub open spec fn blocks_fit(&self) -> bool {
        forall|k: u32| #[trigger]
            self.blocks().contains_key(k) ==> k < self.block_count() && self.blocks()[k].len()
                == self.block_size(k as nat)
    }

    /// Everything but the blocks and the next block's index is as in `other`.
    pub open spec fn same_piece(&self, other: &PieceDownload) -> bool {
        &&& self.piece_index() == other.piece_index()
        &&& self.piece_length() == other.piece_length()
        &&& self.block_length() == other.block_length()
        &&& self.expected() == other.expected()
    }

    /// Starts the download of piece `piece_index`, which is `piece_length`
    /// bytes long, has the digest `piece_hash` and is asked for in blocks
    /// of `block_length` bytes.
    pub fn new(
        piece_index: u32,
        piece_length: u32,
        piece_hash: String,
        block_length: u32,
    ) -> (piece: PieceDownload)
        ensures
            piece.piece_index() == piece_index,
            piece.piece_length() == piece_length,
            piece.block_length() == block_length,
            piece.expected() == piece_hash@,
            piece.next_block() == 0,
            piece.blocks() == Map::<u32, Vec<u8>>::empty(),
            piece.blocks_fit(),
    {
        PieceDownload {
            piece_index,
            piece_length,
            block_length,
            expected: piece_hash,
            next_block: 0,
            blocks: HashMap::new(),
        }
    }

    /// The number of blocks that the piece is cut into.
    pub fn count_blocks(&self) -> (count: u32)
        ensures
            count == self.block_count(),
    {
        let count = chunk_count(self.piece_length as u64, self.block_length);
        proof {
            lemma_block_count_bound(self.piece_length as nat, self.block_length as nat);
        }
        count as u32
    }

    /// Whether every block has been asked for.
    pub fn all_requested(&self) -> (all: bool)
        ensures
            all == (self.next_block() >= self.block_count()),
    {
        self.next_block >= self.count_blocks()
    }

    /// Whether every block has arrived.
    pub fn is_complete(&self) -> (complete: bool)
        ensures
            complete == blocks_present(self.blocks(), self.block_count()),
    {
        let count = self.count_blocks();
        let mut i: u32 = 0;
        while i < count
            invariant
                i <= count,
                count == self.block_count(),
                forall|j: u32| j < i ==> self.blocks().contains_key(j),
            decreases count - i,
        {
            if !self.blocks.contains_key(&i) {
                return false;
            }
            i += 1;
        }
        true
    }

    /// Hands out the next block request under `token`, if a block is
    /// still to be asked for and the requests under way are below their
    /// ceiling; the token then counts as under way. Otherwise nothing
    /// changes: either all blocks were asked for, or the caller has to
    /// wait for a request to end.
    pub fn next_request(&mut self, in_flight: &mut InFlight, token: u64) -> (task: Option<
        BlockTask,
    >)
        ensures
            final(self).same_piece(old(self)),
            final(self).blocks() == old(self).blocks(),
            final(in_flight).ceiling() == old(in_flight).ceiling(),
            final(in_flight)@.finite(),
            final(in_flight)@.len() <= final(in_flight).ceiling(),
            old(self).next_block() < old(self).block_count() && old(in_flight)@.len() < old(
                in_flight,
            ).ceiling() ==> {
                &&& task == Some(old(self).next_task(token))
                &&& final(self).next_block() == old(self).next_block() + 1
                &&& final(in_flight)@ == old(in_flight)@.insert(token)
                &&& old(self).owns(old(self).next_task(token))
                &&& 0 < old(self).next_task(token).length <= old(self).block_length()
                &&& old(self).next_task(token).offset + old(self).next_task(token).length <= old(
                    self,
                ).piece_length()
            },
            !(old(self).next_block() < old(self).block_count() && old(in_flight)@.len() < old(
                in_flight,
            ).ceiling()) ==> {
                &&& task is None
                &&& final(self).next_block() == old(self).next_block()
                &&& final(in_flight)@ == old(in_flight)@
            },
    {
        let count = self.count_blocks();
        // Asking for the size also recalls that it is within the ceiling.
        let under_way = in_flight.len();
        if self.next_block >= count || under_way >= in_flight.limit() {
            return None;
        }
        in_flight.register(token);
        proof {
            lemma_chunk_lengths(
                self.piece_length as nat,
                self.block_length as nat,
                self.next_block as nat,
            );
        }
        let index = self.next_block;
        let length = chunk_length(self.piece_length as u64, self.block_length, index as u64);
        let offset = index * self.block_length;
        self.next_block = index + 1;
        Some(
            BlockTask {
                token,
                piece_index: self.piece_index,
                block_index: index,
                offset,
                length,
            },
        )
    }

    /// Hands out the next block request under a fresh random token; see
    /// [`PieceDownload::next_request`], which holds for every token.
    pub fn schedule(&mut self, in_flight: &mut InFlight) -> (task: Option<BlockTask>)
        ensures
            final(self).same_piece(old(self)),
            final(self).blocks() == old(self).blocks(),
            final(in_flight).ceiling() == old(in_flight).ceiling(),
            final(in_flight)@.finite(),
            final(in_flight)@.len() <= final(in_flight).ceiling(),
            old(self).next_block() < old(self).block_count() && old(in_flight)@.len() < old(
                in_flight,
            ).ceiling() ==> {
                &&& task matches Some(t)
                &&& t == old(self).next_task(t.token)
                &&& old(self).owns(t)
                &&& final(self).next_block() == old(self).next_block() + 1
                &&& final(in_flight)@ == old(in_flight)@.insert(t.token)
            },
            !(old(self).next_block() < old(self).block_count() && old(in_flight)@.len() < old(
                in_flight,
            ).ceiling()) ==> {
                &&& task is None
                &&& final(self).next_block() == old(self).next_block()
                &&& final(in_flight)@ == old(in_flight)@
            },
    {
        let token = random_token();
        self.next_request(in_flight, token)
    }

    /// Takes the peer's answer to the request `task`: the header of a
    /// piece message and the block after it. The block is kept under its
    /// index if the header is thirteen bytes long and names a piece
    /// message, and the block has the length asked for. Either way the
    /// request is over, and its token no longer counts as under way.
    pub fn accept_block(
        &mut self,
        task: &BlockTask,
        header: &[u8],
        payload: Vec<u8>,
        in_flight: &mut InFlight,
    ) -> (res: Result<(), PeerError>)
        ensures
            final(self).same_piece(old(self)),
            final(self).next_block() == old(self).next_block(),
            final(in_flight)@ == old(in_flight)@.remove(task.token),
            final(in_flight).ceiling() == old(in_flight).ceiling(),
            final(in_flight)@.finite(),
            final(in_flight)@.len() <= final(in_flight).ceiling(),
            is_piece_header(header@) && payload.len() == task.length ==> res is Ok
                && final(self).blocks() == old(self).blocks().insert(task.block_index, payload),
            !(is_piece_header(header@) && payload.len() == task.length) ==> res == Err::<
                (),
                PeerError,
            >(PeerError::ProtocolViolation) && final(self).blocks() == old(self).blocks(),
            old(self).blocks_fit() && old(self).owns(*task) ==> final(self).blocks_fit(),
    {
        in_flight.release(task.token);
        if !check_piece_header(header) {
            return Err(PeerError::ProtocolViolation);
        }
        if payload.len() != task.length as usize {
            return Err(PeerError::ProtocolViolation);
        }
        self.blocks.insert(task.block_index, payload);
        proof {
            if old(self).blocks_fit() && old(self).owns(*task) {
                assert forall|k: u32| #[trigger] self.blocks().contains_key(k) implies k
                    < self.block_count() && self.blocks()[k].len() == self.block_size(
                    k as nat,
                ) by {
                    if k != task.block_index {
                        assert(old(self).blocks().contains_key(k));
                        assert(old(self).blocks()[k] == self.blocks()[k]);
                    } else {
                        assert(self.blocks()[k] == payload);
                    }
                }
            }
        }
        Ok(())
    }

    /// Puts the blocks together in ascending order of index. Fails with
    /// the index of the first block that is not there.
    pub fn assemble(&self) -> (res: Result<Vec<u8>, PeerError>)
        ensures
            blocks_present(self.blocks(), self.block_count()) ==> (res matches Ok(data) && data@
                == concat_blocks(self.blocks(), self.block_count())),
            self.blocks_fit() && self.block_length() > 0 ==> (res matches Ok(data)
                ==> data.len() == self.piece_length()),
            !blocks_present(self.blocks(), self.block_count()) ==> (res matches Err(
                PeerError::PieceIncomplete { piece, block },
            ) && piece == self.piece_index() && block < self.block_count()
                && !self.blocks().contains_key(block) && blocks_present(
                self.blocks(),
                block as nat,
            )),
    {
        let count = self.count_blocks();
        let mut data: Vec<u8> = Vec::new();
        let mut i: u32 = 0;
        while i < count
            invariant
                i <= count,
                count == self.block_count(),
                blocks_present(self.blocks(), i as nat),
                data@ == concat_blocks(self.blocks(), i as nat),
                self.blocks_fit() ==> data.len() == chunk_lengths_sum(
                    self.piece_length() as nat,
                    self.block_length() as nat,
                    i as nat,
                ),
            decreases count - i,
        {
            match self.blocks.get(&i) {
                Some(block) => {
                    append(&mut data, block.as_slice());
                },
                None => {
                    return Err(
                        PeerError::PieceIncomplete { piece: self.piece_index, block: i },
                    );
                },
            }
            i += 1;
        }
        proof {
            if self.block_length > 0 {
                lemma_chunks_cover(self.piece_length as nat, self.block_length as nat);
            }
        }
        Ok(data)
    }

    /// Puts the blocks together and checks the result against the
    /// piece's digest. Only bytes with the expected digest come out, as a
    /// [`VerifiedPiece`]; a missing block or another digest is an error.
    pub fn finish(&self) -> (res: Result<VerifiedPiece, PeerError>)
        ensures
            match res {
                Ok(piece) => {
                    &&& blocks_present(self.blocks(), self.block_count())
                    &&& piece.index() == self.piece_index()
                    &&& piece.bytes() == concat_blocks(self.blocks(), self.block_count())
                    &&& piece.expected() == self.expected()
                    &&& piece_digest(piece.bytes()) == self.expected()
                    &&& self.blocks_fit() && self.block_length() > 0 ==> piece.bytes().len()
                        == self.piece_length()
                },
                Err(PeerError::PieceIncomplete { piece, block }) => {
                    &&& piece == self.piece_index()
                    &&& block < self.block_count()
                    &&& !self.blocks().contains_key(block)
                    &&& blocks_present(self.blocks(), block as nat)
                },
                Err(PeerError::IntegrityError { piece }) => {
                    &&& piece == self.piece_index()
                    &&& blocks_present(self.blocks(), self.block_count())
                    &&& piece_digest(concat_blocks(self.blocks(), self.block_count()))
                        != self.expected()
                },
                Err(_) => false,
            },
    {
        let data = match self.assemble() {
            Ok(data) => data,
            Err(e) => {
                return Err(e);
            },
        };
        verify_piece(self.piece_index, data, &self.expected)
    }
}

/// A piece has no more blocks than bytes.
pub proof fn lemma_block_count_bound(total: nat, chunk: nat)
    ensures
        spec_chunk_count(total, chunk) <= total,
{
    if chunk > 0 {
        let top = total + chunk - 1;
        if total == 0 {
            assert(top / chunk as int == 0) by (nonlinear_arith)
                requires
                    0 <= top < chunk,
            ;
        } else {
            assert(top / chunk as int <= total) by (nonlinear_arith)
                requires
                    chunk >= 1,
                    total >= 1,
                    top == total + chunk - 1,
            ;
        }
    }
}

} // verus!
