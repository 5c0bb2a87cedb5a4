//! The mathematical model of bencode: what a value is, how it is written
//! as bytes, and what a byte sequence decodes to.

use vstd::prelude::*;

verus! {

pub const TAG_INTEGER: u8 = 0x69;

pub const TAG_LIST: u8 = 0x6c;

pub const TAG_DICTIONARY: u8 = 0x64;

pub const TAG_END: u8 = 0x65;

pub const COLON: u8 = 0x3a;

pub const MINUS: u8 = 0x2d;

pub const PLUS: u8 = 0x2b;

pub const DIGIT_ZERO: u8 = 0x30;

pub const DIGIT_NINE: u8 = 0x39;

/// Why a byte sequence is not a bencoded value.
#[derive(Debug, Clone, Copy, PartialEq, Eq, Structural)]
pub enum DecodeError {
    /// A byte string's length is not a digit run followed by a colon, or
    /// promises more bytes than remain.
    MalformedLength,
    /// The text between `i` and `e` is not a decimal number that fits 64 bits.
    MalformedInteger,
    /// An element in key position of a dictionary is not a byte string.
    NonStringKey,
    /// The last key of a dictionary has no value after it.
    MissingValue,
    /// The input does not start with the tag of any kind of value, or a
    /// dictionary is not closed.
    UnknownTag,
}

/// Mathematical model of a bencoded value.
pub enum ValueView {
    Integer(i64),
    ByteString(Seq<u8>),
    List(Seq<ValueView>),
    Dictionary(Seq<(Seq<u8>, ValueView)>),
}

pub open spec fn is_digit(b: u8) -> bool {
    DIGIT_ZERO <= b <= DIGIT_NINE
}

/// `a` comes before `b` in the byte-wise lexicographic order.
pub open spec fn lex_lt(a: Seq<u8>, b: Seq<u8>) -> bool
    decreases a.len(),
{
    if b.len() == 0 {
        false
    } else if a.len() == 0 {
        true
    } else if a[0] != b[0] {
        a[0] < b[0]
    } else {
        lex_lt(a.skip(1), b.skip(1))
    }
}

/// The keys of `entries` strictly ascend, so no key occurs twice.
pub open spec fn keys_ascend(entries: Seq<(Seq<u8>, ValueView)>) -> bool {
    forall|i: int, j: int|
        0 <= i < j < entries.len() ==> lex_lt(#[trigger] entries[i].0, #[trigger] entries[j].0)
}

/// The entries of a dictionary as the codec keeps them: keys strictly
/// ascending, every value well formed.
pub open spec fn entries_well_formed(entries: Seq<(Seq<u8>, ValueView)>) -> bool {
    keys_ascend(entries) && forall|i: int|
        0 <= i < entries.len() ==> (#[trigger] entries[i]).1.well_formed()
}

/// Every value of the pairs is well formed.
pub open spec fn all_values_well_formed(pairs: Seq<(Seq<u8>, ValueView)>) -> bool {
    forall|i: int| 0 <= i < pairs.len() ==> (#[trigger] pairs[i]).1.well_formed()
}

/// Every value of the sequence is well formed.
pub open spec fn all_well_formed(items: Seq<ValueView>) -> bool {
    forall|i: int| 0 <= i < items.len() ==> (#[trigger] items[i]).well_formed()
}

impl ValueView {
    /// Every dictionary inside the value holds its keys in strictly
    /// ascending order: the one form in which a mapping is stored.
    pub open spec fn well_formed(self) -> bool
        decreases self,
    {
        match self {
            ValueView::Integer(_) => true,
            ValueView::ByteString(_) => true,
            ValueView::List(items) => forall|i: int|
                0 <= i < items.len() ==> (#[trigger] items[i]).well_formed(),
            ValueView::Dictionary(entries) => keys_ascend(entries) && forall|i: int|
                0 <= i < entries.len() ==> (#[trigger] entries[i]).1.well_formed(),
        }
    }
}

/// Some entry of `entries` has the key `key`.
pub open spec fn has_key(entries: Seq<(Seq<u8>, ValueView)>, key: Seq<u8>) -> bool {
    exists|i: int| 0 <= i < entries.len() && (#[trigger] entries[i]).0 == key
}

/// The mapping that a sequence of entries stands for; a later entry
/// replaces an earlier one with the same key.
pub open spec fn entries_map(entries: Seq<(Seq<u8>, ValueView)>) -> Map<Seq<u8>, ValueView>
    decreases entries.len(),
{
    if entries.len() == 0 {
        Map::empty()
    } else {
        entries_map(entries.drop_last()).insert(entries.last().0, entries.last().1)
    }
}

// ---------------------------------------------------------------------
// Encoding
// ---------------------------------------------------------------------

/// The decimal digits of `n`, most significant first, without padding.
pub open spec fn decimal(n: nat) -> Seq<u8>
    decreases n,
{
    if n < 10 {
        seq![(DIGIT_ZERO + n) as u8]
    } else {
        decimal(n / 10).push((DIGIT_ZERO + n % 10) as u8)
    }
}

/// The decimal text of a signed number: a minus sign only when negative.
pub open spec fn signed_decimal(n: int) -> Seq<u8> {
    if n < 0 {
        seq![MINUS] + decimal((-n) as nat)
    } else {
        decimal(n as nat)
    }
}

pub open spec fn encode_bytes(b: Seq<u8>) -> Seq<u8> {
    decimal(b.len()) + seq![COLON] + b
}

/// The bytes that a value is written as.
pub open spec fn spec_encode(v: ValueView) -> Seq<u8>
    decreases v, 0nat,
{
    match v {
        ValueView::Integer(n) => seq![TAG_INTEGER] + signed_decimal(n as int) + seq![TAG_END],
        ValueView::ByteString(b) => encode_bytes(b),
        ValueView::List(items) => seq![TAG_LIST] + encode_items(items, 0) + seq![TAG_END],
        ValueView::Dictionary(entries) => seq![TAG_DICTIONARY] + encode_entries(entries, 0)
            + seq![TAG_END],
    }
}

/// The encodings of `items[from..]`, one after the other.
pub open spec fn encode_items(items: Seq<ValueView>, from: int) -> Seq<u8>
    decreases items, items.len() - from,
{
    if 0 <= from < items.len() {
        spec_encode(items[from]) + encode_items(items, from + 1)
    } else {
        Seq::empty()
    }
}

/// The encodings of `entries[from..]`: each key as a byte string, then its value.
pub open spec fn encode_entries(entries: Seq<(Seq<u8>, ValueView)>, from: int) -> Seq<u8>
    decreases entries, entries.len() - from,
{
    if 0 <= from < entries.len() {
        encode_bytes(entries[from].0) + spec_encode(entries[from].1) + encode_entries(
            entries,
            from + 1,
        )
    } else {
        Seq::empty()
    }
}

// ---------------------------------------------------------------------
// Decoding
// ---------------------------------------------------------------------

/// The number that a sequence of decimal digits denotes.
pub open spec fn decimal_value(digits: Seq<u8>) -> nat
    decreases digits.len(),
{
    if digits.len() == 0 {
        0
    } else {
        (decimal_value(digits.drop_last()) * 10 + (digits.last() - DIGIT_ZERO)) as nat
    }
}

/// The first position at or after `pos` that holds no digit.
pub open spec fn digits_end(s: Seq<u8>, pos: int) -> int
    decreases s.len() - pos,
{
    if 0 <= pos < s.len() && is_digit(s[pos]) {
        digits_end(s, pos + 1)
    } else {
        pos
    }
}

/// The byte string that starts at `pos`, and the position after it.
pub open spec fn bytes_at(s: Seq<u8>, pos: int) -> Result<(Seq<u8>, int), DecodeError> {
    let end = digits_end(s, pos);
    let len = decimal_value(s.subrange(pos, end));
    if end < s.len() && s[end] == COLON && end + 1 + len <= s.len() {
        Ok((s.subrange(end + 1, end + 1 + len), end + 1 + len))
    } else {
        Err(DecodeError::MalformedLength)
    }
}

/// The integer whose tag stands at `pos`, and the position after its end
/// mark. A sign, `-` or `+`, may precede the digits.
pub open spec fn integer_at(s: Seq<u8>, pos: int) -> Result<(i64, int), DecodeError> {
    let start = pos + 1;
    let negative = start < s.len() && s[start] == MINUS;
    let signed = start < s.len() && (s[start] == MINUS || s[start] == PLUS);
    let first = if signed {
        start + 1
    } else {
        start
    };
    let end = digits_end(s, first);
    let magnitude = decimal_value(s.subrange(first, end));
    let fits = if negative {
        magnitude <= 0x8000_0000_0000_0000
    } else {
        magnitude <= 0x7fff_ffff_ffff_ffff
    };
    if first < end && end < s.len() && s[end] == TAG_END && fits {
        Ok(
            (
                (if negative {
                    -magnitude
                } else {
                    magnitude as int
                }) as i64,
                end + 1,
            ),
        )
    } else {
        Err(DecodeError::MalformedInteger)
    }
}

/// `entries` with `key` bound to `value`: in place of the entry with that
/// key if there is one, else at the place that keeps the keys ascending.
pub open spec fn dict_insert(
    entries: Seq<(Seq<u8>, ValueView)>,
    key: Seq<u8>,
    value: ValueView,
) -> Seq<(Seq<u8>, ValueView)>
    decreases entries.len(),
{
    if entries.len() == 0 {
        seq![(key, value)]
    } else if lex_lt(entries.last().0, key) {
        entries.push((key, value))
    } else if entries.last().0 == key {
        entries.drop_last().push((key, value))
    } else {
        dict_insert(entries.drop_last(), key, value).push(entries.last())
    }
}

/// The entries of the dictionary that is built from `pairs`, each bound in
/// turn: keys ascending, and of two pairs with one key the later stays.
pub open spec fn canonical_entries(pairs: Seq<(Seq<u8>, ValueView)>) -> Seq<(Seq<u8>, ValueView)>
    decreases pairs.len(),
{
    if pairs.len() == 0 {
        Seq::empty()
    } else {
        dict_insert(canonical_entries(pairs.drop_last()), pairs.last().0, pairs.last().1)
    }
}

/// Pairs the flat run `items[from..]` of keys and values up and inserts
/// each pair into `acc`. The first element out of place decides the error.
pub open spec fn pair_up(
    items: Seq<ValueView>,
    from: int,
    acc: Seq<(Seq<u8>, ValueView)>,
) -> Result<Seq<(Seq<u8>, ValueView)>, DecodeError>
    decreases items.len() - from,
{
    if !(0 <= from < items.len()) {
        Ok(acc)
    } else {
        match items[from] {
            ValueView::ByteString(key) => if from + 1 < items.len() {
                pair_up(items, from + 2, dict_insert(acc, key, items[from + 1]))
            } else {
                Err(DecodeError::MissingValue)
            },
            _ => Err(DecodeError::NonStringKey),
        }
    }
}

/// The entries of a dictionary as the flat run that stands for them in
/// its encoding: each key, as a byte string, before its value.
pub open spec fn flatten_entries(entries: Seq<(Seq<u8>, ValueView)>) -> Seq<ValueView> {
    Seq::new(
        2 * entries.len(),
        |i: int|
            if i % 2 == 0 {
                ValueView::ByteString(entries[i / 2].0)
            } else {
                entries[i / 2].1
            },
    )
}

/// The value that a list or dictionary becomes once its elements are
/// read. `terminated` says that an end mark closed it, not the end of the
/// input: a list may end either way, a dictionary needs its end mark.
pub open spec fn close_container(
    is_dict: bool,
    items: Seq<ValueView>,
    terminated: bool,
) -> Result<ValueView, DecodeError> {
    if !is_dict {
        Ok(ValueView::List(items))
    } else if !terminated {
        Err(DecodeError::UnknownTag)
    } else {
        match pair_up(items, 0, Seq::empty()) {
            Ok(entries) => Ok(ValueView::Dictionary(entries)),
            Err(e) => Err(e),
        }
    }
}

/// The value that starts at `pos`, and the position after it.
pub open spec fn value_at(s: Seq<u8>, pos: int) -> Result<(ValueView, int), DecodeError>
    decreases s.len() - pos, 0nat,
{
    if !(0 <= pos < s.len()) {
        Err(DecodeError::UnknownTag)
    } else if s[pos] == TAG_INTEGER {
        match integer_at(s, pos) {
            Ok((n, next)) => Ok((ValueView::Integer(n), next)),
            Err(e) => Err(e),
        }
    } else if s[pos] == TAG_LIST || s[pos] == TAG_DICTIONARY {
        match items_at(s, pos + 1) {
            Ok((items, next, terminated)) => match close_container(
                s[pos] == TAG_DICTIONARY,
                items,
                terminated,
            ) {
                Ok(v) => Ok((v, next)),
                Err(e) => Err(e),
            },
            Err(e) => Err(e),
        }
    } else if is_digit(s[pos]) {
        match bytes_at(s, pos) {
            Ok((b, next)) => Ok((ValueView::ByteString(b), next)),
            Err(e) => Err(e),
        }
    } else {
        Err(DecodeError::UnknownTag)
    }
}

/// The run of values that starts at `pos` and ends at an end mark or at
/// the end of the input: the values, the position after the run (after
/// the end mark if there is one), and whether an end mark was met.
pub open spec fn items_at(s: Seq<u8>, pos: int) -> Result<(Seq<ValueView>, int, bool), DecodeError>
    decreases s.len() - pos, 1nat,
{
    if !(0 <= pos < s.len()) {
        Ok((Seq::empty(), pos, false))
    } else if s[pos] == TAG_END {
        Ok((Seq::empty(), pos + 1, true))
    } else {
        match value_at(s, pos) {
            Err(e) => Err(e),
            Ok((v, next)) => if pos < next <= s.len() {
                match items_at(s, next) {
                    Ok((rest, end, terminated)) => Ok((seq![v] + rest, end, terminated)),
                    Err(e) => Err(e),
                }
            } else {
                Err(DecodeError::UnknownTag)
            },
        }
    }
}

/// What a byte sequence decodes to: its first value and the bytes left
/// after it.
pub open spec fn spec_decode(s: Seq<u8>) -> Result<(ValueView, Seq<u8>), DecodeError> {
    match value_at(s, 0) {
        Ok((v, next)) => Ok((v, s.skip(next))),
        Err(e) => Err(e),
    }
}

/// What a byte sequence decodes to as a run of values: the values and the
/// bytes left after the run's end mark.
pub open spec fn spec_decode_list(s: Seq<u8>) -> Result<(Seq<ValueView>, Seq<u8>), DecodeError> {
    match items_at(s, 0) {
        Ok((items, next, _)) => Ok((items, s.skip(next))),
        Err(e) => Err(e),
    }
}

} // verus!
