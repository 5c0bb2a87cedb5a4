//! The descriptor of a torrent: where its tracker is, how its content is
//! cut into pieces, and the digest of every piece.

use vstd::prelude::*;
use vstd::slice::{slice_subrange, slice_to_vec};
use vstd::utf8::encode_utf8;
use crate::bencode_encoder::encode;
use crate::bencode_model::{dict_insert, spec_encode, ValueView};
use crate::bencode_parser::{
    entries_view, insert_entry, lemma_dictionary_view, lemma_list_view, values_view, Value,
};
use crate::digest::{hex_encode, hex_lower, sha1, sha1_digest};
use crate::partition::{
    chunk_count, chunk_lengths_sum, lemma_chunk_lengths, lemma_chunks_cover, spec_chunk_count,
    spec_chunk_length,
};

verus! {

/// Length of one piece's digest in the descriptor, in bytes.
pub const DIGEST_LENGTH: usize = 20;

/// The key of a dictionary that is written as `name`.
pub open spec fn key(name: &str) -> Seq<u8> {
    encode_utf8(name@)
}

/// A text as the byte string that stands for it in the descriptor.
pub open spec fn text_value(text: Seq<char>) -> ValueView {
    ValueView::ByteString(encode_utf8(text))
}

/// `entries` with `key` bound to the value of `text`, if there is one.
pub open spec fn with_text(
    entries: Seq<(Seq<u8>, ValueView)>,
    key: Seq<u8>,
    text: Option<String>,
) -> Seq<(Seq<u8>, ValueView)> {
    match text {
        Some(t) => dict_insert(entries, key, text_value(t@)),
        None => entries,
    }
}

/// One file of a torrent that holds several.
#[derive(Debug, Clone)]
pub struct TorrentFile {
    /// The directories that lead to the file, outermost first, and then
    /// the file's name.
    pub path: Vec<String>,
    /// Length of the file, in bytes.
    pub length: i64,
    /// MD5 sum of the file as hex text, where the torrent gives one.
    pub md5sum: Option<String>,
}

impl TorrentFile {
    /// The dictionary that the file is written as: its length, its MD5
    /// sum if it has one, and its path as a list of byte strings.
    pub open spec fn value_model(&self) -> ValueView {
        ValueView::Dictionary(
            dict_insert(
                with_text(
                    dict_insert(
                        Seq::empty(),
                        key("length"),
                        ValueView::Integer(self.length),
                    ),
                    key("md5sum"),
                    self.md5sum,
                ),
                key("path"),
                ValueView::List(
                    Seq::new(self.path.len() as nat, |i: int| text_value(self.path[i]@)),
                ),
            ),
        )
    }

    /// The file as a bencoded value.
    pub fn to_value(&self) -> (value: Value)
        ensures
            value@ == self.value_model(),
    {
        let mut entries: Vec<(Vec<u8>, Value)> = Vec::new();
        proof {
            assert(entries_view(entries@) =~= Seq::empty());
        }
        insert_entry(&mut entries, key_bytes("length"), Value::Integer(self.length));
        insert_text(&mut entries, key_bytes("md5sum"), &self.md5sum);
        let mut parts: Vec<Value> = Vec::new();
        let mut i: usize = 0;
        while i < self.path.len()
            invariant
                i <= self.path.len(),
                parts.len() == i,
                forall|j: int| 0 <= j < i ==> (#[trigger] parts[j])@ == text_value(self.path[j]@),
            decreases self.path.len() - i,
        {
            parts.push(text_to_value(&self.path[i]));
            i += 1;
        }
        proof {
            lemma_list_view(parts);
            assert(values_view(parts@) =~= Seq::new(
                self.path.len() as nat,
                |i: int| text_value(self.path[i]@),
            ));
        }
        insert_entry(&mut entries, key_bytes("path"), Value::List(parts));
        proof {
            lemma_dictionary_view(entries);
        }
        Value::Dictionary(entries)
    }
}

/// What a torrent shares: the name, the pieces and the length of its content.
#[derive(Debug, Clone)]
pub struct Info {
    /// Name of the file, or of the directory where the torrent holds
    /// several files.
    pub name: String,
    /// Length of every piece but the last, in bytes.
    pub piece_length: u32,
    /// The SHA-1 digests of the pieces, twenty bytes each, in the order
    /// of the pieces.
    pub pieces: Vec<u8>,
    /// MD5 sum of the file as hex text, where the torrent holds one file
    /// and gives its sum.
    pub md5sum: Option<String>,
    /// Length of the file in bytes, where the torrent holds one file.
    pub length: Option<usize>,
    /// The files, where the torrent holds several.
    pub files: Option<Vec<TorrentFile>>,
}

impl Info {
    /// The length, where there is one, is a number that a bencoded
    /// integer can hold.
    pub open spec fn encodable(&self) -> bool {
        self.length matches Some(n) ==> n <= i64::MAX
    }

    /// The number of pieces: one for every twenty bytes of digest.
    pub open spec fn piece_count(&self) -> nat {
        (self.pieces.len() / 20) as nat
    }

    /// The descriptor of a single file that holds together: it gives a
    /// length, its pieces have a length above zero, there is one whole
    /// digest for each piece, and the pieces are as many as cover the
    /// length. Then every piece but the last has the piece length, and
    /// the last one what is left.
    pub open spec fn well_formed(&self) -> bool {
        &&& self.length matches Some(total)
        &&& total <= i64::MAX
        &&& self.piece_length > 0
        &&& self.pieces.len() % 20 == 0
        &&& self.piece_count() == spec_chunk_count(total as nat, self.piece_length as nat)
        &&& self.piece_count() <= u32::MAX
    }

    /// The true length of piece `index`.
    pub open spec fn piece_size(&self, index: nat) -> nat {
        spec_chunk_length(self.length->Some_0 as nat, self.piece_length as nat, index)
    }

    /// In a descriptor that holds together, every piece but the last has
    /// the piece length, the last one has what the others leave of the
    /// total, and the lengths of all pieces add up to the total.
    pub proof fn lemma_piece_lengths(self)
        requires
            self.well_formed(),
        ensures
            forall|i: nat| i + 1 < self.piece_count() ==> #[trigger] self.piece_size(i)
                == self.piece_length,
            self.piece_count() > 0 ==> self.piece_size((self.piece_count() - 1) as nat)
                == self.length->Some_0 - self.piece_length * (self.piece_count() - 1),
            chunk_lengths_sum(
                self.length->Some_0 as nat,
                self.piece_length as nat,
                self.piece_count(),
            ) == self.length->Some_0,
    {
        let total = self.length->Some_0 as nat;
        let piece_length = self.piece_length as nat;
        lemma_chunks_cover(total, piece_length);
        assert forall|i: nat| i + 1 < self.piece_count() implies #[trigger] self.piece_size(i)
            == self.piece_length by {
            lemma_chunk_lengths(total, piece_length, i);
        }
        if self.piece_count() > 0 {
            lemma_chunk_lengths(total, piece_length, (self.piece_count() - 1) as nat);
        }
    }

    /// The list that the files are written as.
    pub open spec fn files_model(files: Vec<TorrentFile>) -> ValueView {
        ValueView::List(Seq::new(files.len() as nat, |i: int| files[i].value_model()))
    }

    /// The dictionary that the information is written as. A field
    /// without a value has no entry.
    pub open spec fn value_model(&self) -> ValueView {
        let e0 = Seq::<(Seq<u8>, ValueView)>::empty();
        let e1 = match self.files {
            Some(files) => dict_insert(e0, key("files"), Info::files_model(files)),
            None => e0,
        };
        let e2 = match self.length {
            Some(n) => dict_insert(e1, key("length"), ValueView::Integer(n as i64)),
            None => e1,
        };
        let e3 = with_text(e2, key("md5sum"), self.md5sum);
        let e4 = dict_insert(e3, key("name"), text_value(self.name@));
        let e5 = dict_insert(e4, key("piece length"), ValueView::Integer(self.piece_length as i64));
        ValueView::Dictionary(dict_insert(e5, key("pieces"), ValueView::ByteString(self.pieces@)))
    }

    /// Whether the length, where there is one, is a number that a
    /// bencoded integer can hold.
    pub fn is_encodable(&self) -> (ok: bool)
        ensures
            ok == self.encodable(),
    {
        match self.length {
            Some(n) => n as u64 <= i64::MAX as u64,
            None => true,
        }
    }

    /// Whether the descriptor holds together; see [`Info::well_formed`].
    pub fn is_well_formed(&self) -> (ok: bool)
        ensures
            ok == self.well_formed(),
    {
        match self.length {
            None => false,
            Some(total) => {
                if total as u64 > i64::MAX as u64 || self.piece_length == 0 {
                    return false;
                }
                if self.pieces.len() % DIGEST_LENGTH != 0 {
                    return false;
                }
                let count = (self.pieces.len() / DIGEST_LENGTH) as u64;
                count == chunk_count(total as u64, self.piece_length) && count <= u32::MAX as u64
            },
        }
    }

    /// The information as a bencoded value.
    pub fn to_value(&self) -> (value: Value)
        requires
            self.encodable(),
        ensures
            value@ == self.value_model(),
    {
        let mut entries: Vec<(Vec<u8>, Value)> = Vec::new();
        proof {
            assert(entries_view(entries@) =~= Seq::empty());
        }
        match &self.files {
            Some(files) => {
                let mut list: Vec<Value> = Vec::new();
                let mut i: usize = 0;
                while i < files.len()
                    invariant
                        i <= files.len(),
                        list.len() == i,
                        forall|j: int|
                            0 <= j < i ==> (#[trigger] list[j])@ == files[j].value_model(),
                    decreases files.len() - i,
                {
                    list.push(files[i].to_value());
                    i += 1;
                }
                proof {
                    lemma_list_view(list);
                    assert(values_view(list@) =~= Seq::new(
                        files.len() as nat,
                        |i: int| files[i].value_model(),
                    ));
                }
                insert_entry(&mut entries, key_bytes("files"), Value::List(list));
            },
            None => {},
        }
        match self.length {
            Some(n) => {
                insert_entry(&mut entries, key_bytes("length"), Value::Integer(n as i64));
            },
            None => {},
        }
        insert_text(&mut entries, key_bytes("md5sum"), &self.md5sum);
        insert_entry(&mut entries, key_bytes("name"), text_to_value(&self.name));
        insert_entry(
            &mut entries,
            key_bytes("piece length"),
            Value::Integer(self.piece_length as i64),
        );
        insert_entry(
            &mut entries,
            key_bytes("pieces"),
            Value::ByteString(slice_to_vec(self.pieces.as_slice())),
        );
        proof {
            lemma_dictionary_view(entries);
        }
        Value::Dictionary(entries)
    }
}

/// The descriptor of a torrent.
#[derive(Debug, Clone)]
pub struct Torrent {
    /// Where the tracker is asked.
    pub announce: String,
    /// What is shared.
    pub info: Info,
    /// Tiers of trackers, to be asked in place of `announce`.
    pub announce_list: Option<Vec<Vec<String>>>,
    /// A remark of whoever made the torrent.
    pub comment: Option<String>,
    /// The program that made the torrent.
    pub created_by: Option<String>,
    /// When the torrent was made, in seconds since 1970.
    pub creation_date: Option<u64>,
    /// The character encoding of the texts in `info`.
    pub encoding: Option<String>,
}

impl Torrent {
    /// The content identifier: the SHA-1 digest of the information as it
    /// is written in canonical order, which is the same whatever order
    /// the descriptor's source had its fields in.
    pub fn info_hash(&self) -> (id: [u8; 20])
        requires
            self.info.encodable(),
        ensures
            id@ == sha1(spec_encode(self.info.value_model())),
    {
        let bytes = encode(&self.info.to_value());
        sha1_digest(bytes.as_slice())
    }

    /// The digest of each piece as lowercase hex text, in the order of
    /// the pieces: one text for every twenty bytes of digest, and one
    /// more for what is left where the digests end on a part.
    pub fn get_piece_hashes(&self) -> (hashes: Vec<String>)
        ensures
            hashes.len() == (self.info.pieces.len() + 19) / 20,
            forall|i: int|
                0 <= i < hashes.len() ==> (#[trigger] hashes[i])@ == hex_lower(
                    self.info.pieces@.subrange(
                        20 * i,
                        if 20 * i + 20 <= self.info.pieces.len() {
                            20 * i + 20
                        } else {
                            self.info.pieces.len() as int
                        },
                    ),
                ),
            self.info.pieces.len() % 20 == 0 ==> hashes.len() == self.info.piece_count(),
    {
        let pieces = self.info.pieces.as_slice();
        let mut hashes: Vec<String> = Vec::new();
        let mut start: usize = 0;
        while start < pieces.len()
            invariant
                pieces@ == self.info.pieces@,
                start <= pieces.len(),
                start < pieces.len() ==> start == 20 * hashes.len(),
                start == pieces.len() ==> hashes.len() == (pieces.len() + 19) / 20,
                forall|i: int|
                    0 <= i < hashes.len() ==> (#[trigger] hashes[i])@ == hex_lower(
                        pieces@.subrange(
                            20 * i,
                            if 20 * i + 20 <= pieces.len() {
                                20 * i + 20
                            } else {
                                pieces.len() as int
                            },
                        ),
                    ),
            decreases pieces.len() - start,
        {
            let end = if pieces.len() - start > DIGEST_LENGTH {
                start + DIGEST_LENGTH
            } else {
                pieces.len()
            };
            hashes.push(hex_encode(slice_subrange(pieces, start, end)));
            start = end;
        }
        hashes
    }
}

/// A text as a bencoded byte string.
fn text_to_value(text: &String) -> (value: Value)
    ensures
        value@ == text_value(text@),
{
    Value::ByteString(slice_to_vec(text.as_str().as_bytes()))
}

/// Binds `key` to the value of `text`, if there is one.
fn insert_text(entries: &mut Vec<(Vec<u8>, Value)>, key: Vec<u8>, text: &Option<String>)
    ensures
        entries_view(final(entries)@) == with_text(entries_view(old(entries)@), key@, *text),
{
    match text {
        Some(t) => {
            insert_entry(entries, key, text_to_value(t));
        },
        None => {},
    }
}

/// The key of a dictionary that is written as `name`.
fn key_bytes(name: &str) -> (bytes: Vec<u8>)
    ensures
        bytes@ == key(name),
{
    slice_to_vec(name.as_bytes())
}

} // verus!
