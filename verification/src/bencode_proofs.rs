//! Lemmas about the bencode model, and the laws that the codec obeys.

use vstd::prelude::*;
use crate::bencode_model::{
    all_values_well_formed, all_well_formed, bytes_at, canonical_entries, decimal, decimal_value,
    dict_insert, digits_end, encode_bytes, encode_entries, encode_items, entries_map,
    entries_well_formed, flatten_entries, has_key, integer_at, is_digit, items_at, keys_ascend,
    lex_lt, pair_up, signed_decimal, spec_decode, spec_encode, value_at, DecodeError, ValueView,
    COLON, DIGIT_ZERO, MINUS, PLUS, TAG_DICTIONARY, TAG_END, TAG_INTEGER, TAG_LIST,
};

verus! {

// ---------------------------------------------------------------------
// Decimal numbers
// ---------------------------------------------------------------------

/// Appending a digit multiplies the value by ten and adds the digit.
pub proof fn lemma_decimal_value_push(digits: Seq<u8>, d: u8)
    requires
        is_digit(d),
    ensures
        decimal_value(digits.push(d)) == decimal_value(digits) * 10 + (d - DIGIT_ZERO),
{
    assert(digits.push(d).drop_last() =~= digits);
}

/// Reading one more digit of a run extends the value of the run.
pub proof fn lemma_decimal_value_step(s: Seq<u8>, start: int, i: int)
    requires
        0 <= start <= i < s.len(),
        is_digit(s[i]),
    ensures
        decimal_value(s.subrange(start, i + 1)) == decimal_value(s.subrange(start, i)) * 10 + (s[i]
            - DIGIT_ZERO),
        decimal_value(s.subrange(start, i + 1)) >= decimal_value(s.subrange(start, i)),
{
    assert(s.subrange(start, i + 1) =~= s.subrange(start, i).push(s[i]));
    lemma_decimal_value_push(s.subrange(start, i), s[i]);
}

/// Where a digit run ends: after `end`, given that `pos..end` holds digits
/// and `end` does not.
pub proof fn lemma_digits_end(s: Seq<u8>, pos: int, end: int)
    requires
        0 <= pos <= end <= s.len(),
        forall|k: int| pos <= k < end ==> is_digit(s[k]),
        end == s.len() || !is_digit(s[end]),
    ensures
        digits_end(s, pos) == end,
    decreases end - pos,
{
    if pos < end {
        lemma_digits_end(s, pos + 1, end);
    }
}

/// What `digits_end` returns: the run `pos..end` holds digits only, and
/// position `end` holds none.
pub proof fn lemma_digits_end_is_run(s: Seq<u8>, pos: int)
    requires
        0 <= pos <= s.len(),
    ensures
        pos <= digits_end(s, pos) <= s.len(),
        forall|k: int| pos <= k < digits_end(s, pos) ==> is_digit(s[k]),
        digits_end(s, pos) == s.len() || !is_digit(s[digits_end(s, pos)]),
    decreases s.len() - pos,
{
    if pos < s.len() && is_digit(s[pos]) {
        lemma_digits_end_is_run(s, pos + 1);
    }
}

/// The decimal text of a number holds digits only and denotes the number.
pub proof fn lemma_decimal(n: nat)
    ensures
        decimal(n).len() >= 1,
        forall|k: int| 0 <= k < decimal(n).len() ==> is_digit(#[trigger] decimal(n)[k]),
        decimal_value(decimal(n)) == n,
    decreases n,
{
    if n < 10 {
        let s = decimal(n);
        assert(s.drop_last() =~= Seq::<u8>::empty());
        assert(decimal_value(s.drop_last()) == 0);
    } else {
        lemma_decimal(n / 10);
        let d = (DIGIT_ZERO + n % 10) as u8;
        lemma_decimal_value_push(decimal(n / 10), d);
    }
}

// ---------------------------------------------------------------------
// The order of keys
// ---------------------------------------------------------------------

/// Of two keys exactly one holds: the first is less, they are equal, or
/// the second is less.
pub proof fn lemma_lex_trichotomy(a: Seq<u8>, b: Seq<u8>)
    ensures
        lex_lt(a, b) || a == b || lex_lt(b, a),
        !(lex_lt(a, b) && a == b),
        !(lex_lt(b, a) && a == b),
        !(lex_lt(a, b) && lex_lt(b, a)),
    decreases a.len(),
{
    if a.len() == 0 || b.len() == 0 {
        if a.len() == 0 && b.len() == 0 {
            assert(a =~= b);
        }
    } else if a[0] == b[0] {
        lemma_lex_trichotomy(a.skip(1), b.skip(1));
        if a.skip(1) == b.skip(1) {
            assert(a.len() == b.len()) by {
                assert(a.skip(1).len() == b.skip(1).len());
            }
            assert forall|i: int| 0 <= i < a.len() implies a[i] == b[i] by {
                if i > 0 {
                    assert(a.skip(1)[i - 1] == b.skip(1)[i - 1]);
                }
            }
            assert(a =~= b);
        }
    }
}

/// The order of keys is transitive.
pub proof fn lemma_lex_transitive(a: Seq<u8>, b: Seq<u8>, c: Seq<u8>)
    requires
        lex_lt(a, b),
        lex_lt(b, c),
    ensures
        lex_lt(a, c),
    decreases a.len(),
{
    if a.len() > 0 && a[0] == b[0] && b[0] == c[0] {
        lemma_lex_transitive(a.skip(1), b.skip(1), c.skip(1));
    }
}

/// Keys that ascend still do with one more key after them that is
/// greater than the last.
pub proof fn lemma_keys_ascend_push(
    entries: Seq<(Seq<u8>, ValueView)>,
    next: (Seq<u8>, ValueView),
)
    requires
        keys_ascend(entries),
        entries.len() == 0 || lex_lt(entries.last().0, next.0),
    ensures
        keys_ascend(entries.push(next)),
{
    let longer = entries.push(next);
    assert forall|i: int, j: int| 0 <= i < j < longer.len() implies lex_lt(
        #[trigger] longer[i].0,
        #[trigger] longer[j].0,
    ) by {
        if j < entries.len() {
            assert(lex_lt(entries[i].0, entries[j].0));
        } else if i < entries.len() - 1 {
            assert(lex_lt(entries[i].0, entries[entries.len() - 1].0));
            lemma_lex_transitive(entries[i].0, entries.last().0, next.0);
        }
    }
}

// ---------------------------------------------------------------------
// Inserting into a dictionary
// ---------------------------------------------------------------------

/// A key that is new, greater than the entry before position `p` and less
/// than every entry from `p` on, is inserted at `p`.
pub proof fn lemma_dict_insert_at(
    entries: Seq<(Seq<u8>, ValueView)>,
    key: Seq<u8>,
    value: ValueView,
    p: int,
)
    requires
        0 <= p <= entries.len(),
        forall|j: int| p <= j < entries.len() ==> lex_lt(key, #[trigger] entries[j].0),
        p == 0 || lex_lt(entries[p - 1].0, key),
    ensures
        dict_insert(entries, key, value) == entries.insert(p, (key, value)),
    decreases entries.len(),
{
    if entries.len() == 0 {
        assert(seq![(key, value)] =~= entries.insert(p, (key, value)));
    } else if p == entries.len() {
        assert(entries.push((key, value)) =~= entries.insert(p, (key, value)));
    } else {
        let last = entries.last();
        assert(lex_lt(key, entries[entries.len() - 1].0));
        lemma_lex_trichotomy(last.0, key);
        lemma_dict_insert_at(entries.drop_last(), key, value, p);
        assert(entries.drop_last().insert(p, (key, value)).push(last) =~= entries.insert(
            p,
            (key, value),
        ));
    }
}

/// A key that the entry at position `p` holds, and that is less than
/// every entry after `p`, has its entry replaced.
pub proof fn lemma_dict_insert_replace(
    entries: Seq<(Seq<u8>, ValueView)>,
    key: Seq<u8>,
    value: ValueView,
    p: int,
)
    requires
        0 <= p < entries.len(),
        entries[p].0 == key,
        forall|j: int| p < j < entries.len() ==> lex_lt(key, #[trigger] entries[j].0),
    ensures
        dict_insert(entries, key, value) == entries.update(p, (key, value)),
    decreases entries.len(),
{
    let last = entries.last();
    lemma_lex_trichotomy(last.0, key);
    if p == entries.len() - 1 {
        assert(entries.drop_last().push((key, value)) =~= entries.update(p, (key, value)));
    } else {
        assert(lex_lt(key, entries[entries.len() - 1].0));
        lemma_dict_insert_replace(entries.drop_last(), key, value, p);
        assert(entries.drop_last().update(p, (key, value)).push(last) =~= entries.update(
            p,
            (key, value),
        ));
    }
}

/// The number of entries at the front of `entries` that stay in front of `key`.
pub open spec fn insert_position(entries: Seq<(Seq<u8>, ValueView)>, key: Seq<u8>) -> int
    decreases entries.len(),
{
    if entries.len() == 0 {
        0
    } else if lex_lt(entries.last().0, key) {
        entries.len() as int
    } else {
        insert_position(entries.drop_last(), key)
    }
}

proof fn lemma_insert_position(entries: Seq<(Seq<u8>, ValueView)>, key: Seq<u8>)
    ensures
        0 <= insert_position(entries, key) <= entries.len(),
        insert_position(entries, key) == 0 || lex_lt(
            entries[insert_position(entries, key) - 1].0,
            key,
        ),
        forall|j: int|
            insert_position(entries, key) <= j < entries.len() ==> !lex_lt(
                #[trigger] entries[j].0,
                key,
            ),
    decreases entries.len(),
{
    if entries.len() > 0 && !lex_lt(entries.last().0, key) {
        lemma_insert_position(entries.drop_last(), key);
        let p = insert_position(entries, key);
        assert forall|j: int| p <= j < entries.len() implies !lex_lt(
            #[trigger] entries[j].0,
            key,
        ) by {
            if j < entries.len() - 1 {
                assert(entries.drop_last()[j] == entries[j]);
            }
        }
    }
}

/// Inserting into entries whose keys ascend replaces the entry with the
/// key or puts a new one in its place, and the keys still ascend.
pub proof fn lemma_dict_insert_sorted(
    entries: Seq<(Seq<u8>, ValueView)>,
    key: Seq<u8>,
    value: ValueView,
)
    requires
        keys_ascend(entries),
    ensures
        ({
            let p = insert_position(entries, key);
            &&& 0 <= p <= entries.len()
            &&& dict_insert(entries, key, value) == if p < entries.len() && entries[p].0 == key {
                entries.update(p, (key, value))
            } else {
                entries.insert(p, (key, value))
            }
        }),
        keys_ascend(dict_insert(entries, key, value)),
{
    let p = insert_position(entries, key);
    lemma_insert_position(entries, key);
    let result = dict_insert(entries, key, value);
    assert forall|i: int| 0 <= i < p implies lex_lt(#[trigger] entries[i].0, key) by {
        if i < p - 1 {
            lemma_lex_transitive(entries[i].0, entries[p - 1].0, key);
        }
    }
    if p < entries.len() && entries[p].0 == key {
        lemma_dict_insert_replace(entries, key, value, p);
        assert forall|i: int, j: int| 0 <= i < j < result.len() implies lex_lt(
            #[trigger] result[i].0,
            #[trigger] result[j].0,
        ) by {
            assert(lex_lt(entries[i].0, entries[j].0));
        }
    } else {
        assert forall|j: int| p <= j < entries.len() implies lex_lt(
            key,
            #[trigger] entries[j].0,
        ) by {
            lemma_lex_trichotomy(entries[j].0, key);
            if entries[j].0 == key {
                assert(j > p);
                assert(lex_lt(entries[p].0, entries[j].0));
                assert(!lex_lt(entries[p].0, key));
            }
        }
        lemma_dict_insert_at(entries, key, value, p);
        assert forall|i: int, j: int| 0 <= i < j < result.len() implies lex_lt(
            #[trigger] result[i].0,
            #[trigger] result[j].0,
        ) by {
            if j < p {
                assert(lex_lt(entries[i].0, entries[j].0));
            } else if j == p {
                assert(lex_lt(entries[i].0, key));
            } else if i < p {
                assert(lex_lt(entries[i].0, entries[j - 1].0));
            } else if i == p {
                assert(lex_lt(key, entries[j - 1].0));
            } else {
                assert(lex_lt(entries[i - 1].0, entries[j - 1].0));
            }
        }
    }
}

/// Inserting a well-formed value into well-formed entries leaves them
/// well formed.
pub proof fn lemma_dict_insert_well_formed(
    entries: Seq<(Seq<u8>, ValueView)>,
    key: Seq<u8>,
    value: ValueView,
)
    requires
        entries_well_formed(entries),
        value.well_formed(),
    ensures
        entries_well_formed(dict_insert(entries, key, value)),
{
    lemma_dict_insert_sorted(entries, key, value);
    let p = insert_position(entries, key);
    let result = dict_insert(entries, key, value);
    assert forall|i: int| 0 <= i < result.len() implies (#[trigger] result[i]).1.well_formed() by {
        if p < entries.len() && entries[p].0 == key {
            if i != p {
                assert(entries[i].1.well_formed());
            }
        } else {
            if i < p {
                assert(entries[i].1.well_formed());
            } else if i > p {
                assert(entries[i - 1].1.well_formed());
            }
        }
    }
}

/// Pairing well-formed values up into well-formed entries gives
/// well-formed entries.
pub proof fn lemma_pair_up_well_formed(
    items: Seq<ValueView>,
    from: int,
    acc: Seq<(Seq<u8>, ValueView)>,
)
    requires
        0 <= from,
        all_well_formed(items),
        entries_well_formed(acc),
    ensures
        pair_up(items, from, acc) matches Ok(entries) ==> entries_well_formed(entries),
    decreases items.len() - from,
{
    if from < items.len() {
        match items[from] {
            ValueView::ByteString(key) => {
                if from + 1 < items.len() {
                    assert(items[from + 1].well_formed());
                    lemma_dict_insert_well_formed(acc, key, items[from + 1]);
                    lemma_pair_up_well_formed(
                        items,
                        from + 2,
                        dict_insert(acc, key, items[from + 1]),
                    );
                }
            },
            _ => {},
        }
    }
}

// ---------------------------------------------------------------------
// Well-formed values
// ---------------------------------------------------------------------

proof fn lemma_well_formed_parts(v: ValueView)
    requires
        v.well_formed(),
    ensures
        v matches ValueView::List(items) ==> all_well_formed(items),
        v matches ValueView::Dictionary(entries) ==> entries_well_formed(entries),
{
}

/// A list is well formed exactly when its items are.
pub proof fn lemma_list_well_formed(items: Seq<ValueView>)
    ensures
        ValueView::List(items).well_formed() <==> all_well_formed(items),
{
    let v = ValueView::List(items);
    if v.well_formed() {
        lemma_well_formed_parts(v);
    }
}

/// A dictionary is well formed exactly when its keys ascend and its
/// values are well formed.
pub proof fn lemma_dictionary_well_formed(entries: Seq<(Seq<u8>, ValueView)>)
    ensures
        ValueView::Dictionary(entries).well_formed() <==> entries_well_formed(entries),
{
    let v = ValueView::Dictionary(entries);
    if v.well_formed() {
        lemma_well_formed_parts(v);
    }
}

// ---------------------------------------------------------------------
// What decoding gives
// ---------------------------------------------------------------------

/// A decoded value is well formed and ends after where it starts, within
/// the input.
pub proof fn lemma_value_at(s: Seq<u8>, pos: int)
    ensures
        value_at(s, pos) matches Ok((v, next)) ==> pos < next <= s.len() && v.well_formed(),
    decreases s.len() - pos, 0nat,
{
    if 0 <= pos < s.len() {
        if s[pos] == TAG_INTEGER {
            let start = pos + 1;
            let signed = start < s.len() && (s[start] == MINUS || s[start] == PLUS);
            let first = if signed {
                start + 1
            } else {
                start
            };
            lemma_digits_end_is_run(s, first);
        } else if s[pos] == TAG_LIST || s[pos] == TAG_DICTIONARY {
            lemma_items_at(s, pos + 1);
            match items_at(s, pos + 1) {
                Ok((items, next, terminated)) => {
                    lemma_pair_up_well_formed(items, 0, Seq::empty());
                },
                Err(_) => {},
            }
        } else if is_digit(s[pos]) {
            lemma_digits_end_is_run(s, pos);
        }
    }
}

/// A decoded run of values holds well-formed values and ends within the
/// input, not before where it starts.
pub proof fn lemma_items_at(s: Seq<u8>, pos: int)
    requires
        0 <= pos <= s.len(),
    ensures
        items_at(s, pos) matches Ok((items, next, _)) ==> pos <= next <= s.len()
            && all_well_formed(items),
    decreases s.len() - pos, 1nat,
{
    if pos < s.len() && s[pos] != TAG_END {
        lemma_value_at(s, pos);
        match value_at(s, pos) {
            Ok((v, next)) => {
                lemma_items_at(s, next);
                match items_at(s, next) {
                    Ok((rest, end, terminated)) => {
                        let items = seq![v] + rest;
                        assert forall|i: int| 0 <= i < items.len() implies (
                        #[trigger] items[i]).well_formed() by {
                            if i > 0 {
                                assert(items[i] == rest[i - 1]);
                                assert(rest[i - 1].well_formed());
                            }
                        }
                    },
                    Err(_) => {},
                }
            },
            Err(_) => {},
        }
    }
}

// ---------------------------------------------------------------------
// Decoding what was encoded
// ---------------------------------------------------------------------

/// An encoding is not empty, and its first byte is a digit or the tag of
/// an integer, a list or a dictionary: never an end mark.
pub proof fn lemma_encode_first_byte(v: ValueView)
    ensures
        spec_encode(v).len() >= 1,
        spec_encode(v)[0] != TAG_END,
        v is ByteString <==> is_digit(spec_encode(v)[0]),
        v is Integer <==> spec_encode(v)[0] == TAG_INTEGER,
        v is List <==> spec_encode(v)[0] == TAG_LIST,
        v is Dictionary <==> spec_encode(v)[0] == TAG_DICTIONARY,
{
    match v {
        ValueView::ByteString(b) => {
            lemma_decimal(b.len());
            assert(spec_encode(v)[0] == decimal(b.len())[0]);
        },
        _ => {},
    }
}

/// A stretch of `s` that holds `a` and then `b` holds `a` in its first
/// part and `b` in its second.
proof fn lemma_subrange_split(s: Seq<u8>, pos: int, a: Seq<u8>, b: Seq<u8>)
    requires
        0 <= pos,
        pos + a.len() + b.len() <= s.len(),
        s.subrange(pos, pos + a.len() + b.len()) == a + b,
    ensures
        s.subrange(pos, pos + a.len()) == a,
        s.subrange(pos + a.len(), pos + a.len() + b.len()) == b,
{
    let whole = s.subrange(pos, pos + a.len() + b.len());
    assert forall|k: int| 0 <= k < a.len() implies s[pos + k] == a[k] by {
        assert(whole[k] == (a + b)[k]);
    }
    assert forall|k: int| 0 <= k < b.len() implies s[pos + a.len() + k] == b[k] by {
        assert(whole[a.len() + k] == (a + b)[a.len() + k]);
    }
    assert(s.subrange(pos, pos + a.len()) =~= a);
    assert(s.subrange(pos + a.len(), pos + a.len() + b.len()) =~= b);
}

/// Where `s` holds the decimal text of `n` at `pos`, followed by a byte
/// that is no digit, the digit run at `pos` is that text.
proof fn lemma_digits_of_decimal(s: Seq<u8>, pos: int, n: nat)
    requires
        0 <= pos,
        pos + decimal(n).len() < s.len(),
        s.subrange(pos, pos + decimal(n).len()) == decimal(n),
        !is_digit(s[pos + decimal(n).len()]),
    ensures
        digits_end(s, pos) == pos + decimal(n).len(),
        decimal_value(s.subrange(pos, digits_end(s, pos))) == n,
{
    lemma_decimal(n);
    let end = pos + decimal(n).len();
    assert forall|k: int| pos <= k < end implies is_digit(s[k]) by {
        assert(s.subrange(pos, end)[k - pos] == decimal(n)[k - pos]);
    }
    lemma_digits_end(s, pos, end);
}

/// Where `s` holds the encoding of a byte string at `pos`, the byte
/// string is what is read there.
proof fn lemma_bytes_at_encoded(s: Seq<u8>, pos: int, b: Seq<u8>)
    requires
        0 <= pos,
        pos + encode_bytes(b).len() <= s.len(),
        s.subrange(pos, pos + encode_bytes(b).len()) == encode_bytes(b),
    ensures
        bytes_at(s, pos) == Ok::<(Seq<u8>, int), DecodeError>((b, pos + encode_bytes(b).len())),
        is_digit(s[pos]),
{
    let digits = decimal(b.len());
    lemma_decimal(b.len());
    let tail = seq![COLON] + b;
    assert(encode_bytes(b) =~= digits + tail);
    lemma_subrange_split(s, pos, digits, tail);
    let colon = pos + digits.len();
    lemma_subrange_split(s, colon, seq![COLON], b);
    assert(s[colon] == s.subrange(colon, colon + 1)[0]);
    assert(s[pos] == s.subrange(pos, pos + digits.len())[0]);
    lemma_digits_of_decimal(s, pos, b.len());
}

/// Where `s` holds the encoding of an integer at `pos`, the integer is
/// what is read there.
proof fn lemma_integer_at_encoded(s: Seq<u8>, pos: int, n: i64)
    requires
        0 <= pos,
        pos + spec_encode(ValueView::Integer(n)).len() <= s.len(),
        s.subrange(pos, pos + spec_encode(ValueView::Integer(n)).len()) == spec_encode(
            ValueView::Integer(n),
        ),
    ensures
        integer_at(s, pos) == Ok::<(i64, int), DecodeError>(
            (n, pos + spec_encode(ValueView::Integer(n)).len()),
        ),
        s[pos] == TAG_INTEGER,
{
    let enc = spec_encode(ValueView::Integer(n));
    let text = signed_decimal(n as int);
    let body = text + seq![TAG_END];
    assert(enc =~= seq![TAG_INTEGER] + body);
    lemma_subrange_split(s, pos, seq![TAG_INTEGER], body);
    assert(s[pos] == s.subrange(pos, pos + 1)[0]);
    let start = pos + 1;
    lemma_subrange_split(s, start, text, seq![TAG_END]);
    let end = start + text.len();
    assert(s[end] == s.subrange(end, end + 1)[0]);
    if n < 0 {
        let digits = decimal((-n) as nat);
        lemma_decimal((-n) as nat);
        assert(text =~= seq![MINUS] + digits);
        lemma_subrange_split(s, start, seq![MINUS], digits);
        assert(s[start] == s.subrange(start, start + 1)[0]);
        lemma_digits_of_decimal(s, start + 1, (-n) as nat);
    } else {
        let digits = decimal(n as nat);
        lemma_decimal(n as nat);
        assert(s[start] == s.subrange(start, start + text.len())[0]);
        assert(is_digit(digits[0]));
        lemma_digits_of_decimal(s, start, n as nat);
    }
}

/// Pairing up the flat run of entries whose keys ascend gives the entries
/// back.
proof fn lemma_pair_up_flattened(entries: Seq<(Seq<u8>, ValueView)>, k: int)
    requires
        keys_ascend(entries),
        0 <= k <= entries.len(),
    ensures
        pair_up(flatten_entries(entries), 2 * k, entries.take(k)) == Ok::<
            Seq<(Seq<u8>, ValueView)>,
            DecodeError,
        >(entries),
    decreases entries.len() - k,
{
    let flat = flatten_entries(entries);
    if k == entries.len() {
        assert(entries.take(k) =~= entries);
    } else {
        let acc = entries.take(k);
        assert(flat[2 * k] == ValueView::ByteString(entries[k].0));
        assert(flat[2 * k + 1] == entries[k].1);
        if k > 0 {
            assert(acc.last() == entries[k - 1]);
            assert(lex_lt(entries[k - 1].0, entries[k].0));
        }
        assert(dict_insert(acc, entries[k].0, entries[k].1) =~= entries.take(k + 1));
        lemma_pair_up_flattened(entries, k + 1);
    }
}

/// Where `s` holds the encoding of a well-formed value at `pos`, the
/// value is what is read there.
pub proof fn lemma_value_at_encoded(s: Seq<u8>, pos: int, v: ValueView)
    requires
        v.well_formed(),
        0 <= pos,
        pos + spec_encode(v).len() <= s.len(),
        s.subrange(pos, pos + spec_encode(v).len()) == spec_encode(v),
    ensures
        value_at(s, pos) == Ok::<(ValueView, int), DecodeError>((v, pos + spec_encode(v).len())),
    decreases v, 0nat,
{
    let enc = spec_encode(v);
    lemma_encode_first_byte(v);
    assert(s[pos] == s.subrange(pos, pos + enc.len())[0]);
    match v {
        ValueView::Integer(n) => {
            lemma_integer_at_encoded(s, pos, n);
        },
        ValueView::ByteString(b) => {
            lemma_bytes_at_encoded(s, pos, b);
        },
        ValueView::List(items) => {
            let body = encode_items(items, 0);
            let rest = body + seq![TAG_END];
            assert(enc =~= seq![TAG_LIST] + rest);
            lemma_subrange_split(s, pos, seq![TAG_LIST], rest);
            lemma_subrange_split(s, pos + 1, body, seq![TAG_END]);
            let end = pos + 1 + body.len();
            assert(s[end] == s.subrange(end, end + 1)[0]);
            lemma_items_at_encoded(s, pos + 1, items, 0);
            assert(items.skip(0) =~= items);
        },
        ValueView::Dictionary(entries) => {
            let body = encode_entries(entries, 0);
            let rest = body + seq![TAG_END];
            assert(enc =~= seq![TAG_DICTIONARY] + rest);
            lemma_subrange_split(s, pos, seq![TAG_DICTIONARY], rest);
            lemma_subrange_split(s, pos + 1, body, seq![TAG_END]);
            let end = pos + 1 + body.len();
            assert(s[end] == s.subrange(end, end + 1)[0]);
            lemma_entries_at_encoded(s, pos + 1, entries, 0);
            assert(flatten_entries(entries).skip(0) =~= flatten_entries(entries));
            lemma_pair_up_flattened(entries, 0);
            assert(entries.take(0) =~= Seq::empty());
        },
    }
}

/// Where `s` holds the encodings of `items[from..]` at `pos` and an end
/// mark after them, those items are the run that is read there.
pub proof fn lemma_items_at_encoded(s: Seq<u8>, pos: int, items: Seq<ValueView>, from: int)
    requires
        all_well_formed(items),
        0 <= from <= items.len(),
        0 <= pos,
        pos + encode_items(items, from).len() < s.len(),
        s.subrange(pos, pos + encode_items(items, from).len()) == encode_items(items, from),
        s[pos + encode_items(items, from).len()] == TAG_END,
    ensures
        items_at(s, pos) == Ok::<(Seq<ValueView>, int, bool), DecodeError>(
            (items.skip(from), pos + encode_items(items, from).len() + 1, true),
        ),
    decreases items, items.len() - from,
{
    if from == items.len() {
        assert(items.skip(from) =~= Seq::empty());
    } else {
        let head = spec_encode(items[from]);
        let tail = encode_items(items, from + 1);
        lemma_encode_first_byte(items[from]);
        lemma_subrange_split(s, pos, head, tail);
        assert(s[pos] == s.subrange(pos, pos + head.len())[0]);
        assert(items[from].well_formed());
        lemma_value_at_encoded(s, pos, items[from]);
        lemma_items_at_encoded(s, pos + head.len(), items, from + 1);
        assert(seq![items[from]] + items.skip(from + 1) =~= items.skip(from));
    }
}

/// Where `s` holds the encodings of `entries[from..]` at `pos` and an end
/// mark after them, their flat run is what is read there.
pub proof fn lemma_entries_at_encoded(
    s: Seq<u8>,
    pos: int,
    entries: Seq<(Seq<u8>, ValueView)>,
    from: int,
)
    requires
        entries_well_formed(entries),
        0 <= from <= entries.len(),
        0 <= pos,
        pos + encode_entries(entries, from).len() < s.len(),
        s.subrange(pos, pos + encode_entries(entries, from).len()) == encode_entries(
            entries,
            from,
        ),
        s[pos + encode_entries(entries, from).len()] == TAG_END,
    ensures
        items_at(s, pos) == Ok::<(Seq<ValueView>, int, bool), DecodeError>(
            (
                flatten_entries(entries).skip(2 * from),
                pos + encode_entries(entries, from).len() + 1,
                true,
            ),
        ),
    decreases entries, entries.len() - from,
{
    let flat = flatten_entries(entries);
    if from == entries.len() {
        assert(flat.skip(2 * from) =~= Seq::empty());
    } else {
        let key = encode_bytes(entries[from].0);
        let value = spec_encode(entries[from].1);
        let tail = encode_entries(entries, from + 1);
        assert(encode_entries(entries, from) =~= key + (value + tail));
        lemma_subrange_split(s, pos, key, value + tail);
        lemma_subrange_split(s, pos + key.len(), value, tail);
        lemma_bytes_at_encoded(s, pos, entries[from].0);
        lemma_value_at(s, pos);
        assert(value_at(s, pos) == Ok::<(ValueView, int), DecodeError>(
            (ValueView::ByteString(entries[from].0), pos + key.len()),
        ));
        let after_key = pos + key.len();
        lemma_encode_first_byte(entries[from].1);
        assert(s[after_key] == s.subrange(after_key, after_key + value.len())[0]);
        assert(entries[from].1.well_formed());
        lemma_value_at_encoded(s, after_key, entries[from].1);
        lemma_entries_at_encoded(s, after_key + value.len(), entries, from + 1);
        let end = pos + encode_entries(entries, from).len() + 1;
        assert(items_at(s, after_key) == Ok::<(Seq<ValueView>, int, bool), DecodeError>(
            (seq![entries[from].1] + flat.skip(2 * (from + 1)), end, true),
        ));
        assert(s[pos] != TAG_END);
        assert(seq![ValueView::ByteString(entries[from].0)] + (seq![entries[from].1] + flat.skip(
            2 * (from + 1),
        )) =~= flat.skip(2 * from));
    }
}

/// Decoding the encoding of a well-formed value gives the value back, and
/// leaves whatever followed it.
pub proof fn lemma_decode_encode(v: ValueView, tail: Seq<u8>)
    requires
        v.well_formed(),
    ensures
        spec_decode(spec_encode(v) + tail) == Ok::<(ValueView, Seq<u8>), DecodeError>((v, tail)),
        spec_decode(spec_encode(v)) == Ok::<(ValueView, Seq<u8>), DecodeError>(
            (v, Seq::empty()),
        ),
{
    let enc = spec_encode(v);
    let s = enc + tail;
    assert(s.subrange(0, enc.len() as int) =~= enc);
    lemma_value_at_encoded(s, 0, v);
    assert(s.skip(enc.len() as int) =~= tail);
    assert(enc.subrange(0, enc.len() as int) =~= enc);
    lemma_value_at_encoded(enc, 0, v);
    assert(enc.skip(enc.len() as int) =~= Seq::<u8>::empty());
}

/// Well-formed values that are written as the same bytes are the same
/// value.
pub proof fn lemma_encoding_tells_values_apart(a: ValueView, b: ValueView)
    requires
        a.well_formed(),
        b.well_formed(),
        spec_encode(a) == spec_encode(b),
    ensures
        a == b,
{
    lemma_decode_encode(a, Seq::empty());
    lemma_decode_encode(b, Seq::empty());
}

// ---------------------------------------------------------------------
// One mapping, one encoding
// ---------------------------------------------------------------------

/// The keys of the mapping are the keys of the entries.
pub proof fn lemma_entries_map_keys(entries: Seq<(Seq<u8>, ValueView)>)
    ensures
        forall|k: Seq<u8>| #[trigger]
            entries_map(entries).dom().contains(k) <==> has_key(entries, k),
    decreases entries.len(),
{
    if entries.len() > 0 {
        let front = entries.drop_last();
        lemma_entries_map_keys(front);
        assert forall|k: Seq<u8>| #[trigger]
            entries_map(entries).dom().contains(k) <==> has_key(entries, k) by {
            if has_key(entries, k) {
                let i = choose|i: int| 0 <= i < entries.len() && (#[trigger] entries[i]).0 == k;
                if i < entries.len() - 1 {
                    assert(front[i].0 == k);
                    assert(has_key(front, k));
                    assert(entries_map(front).dom().contains(k));
                }
            }
            if entries_map(entries).dom().contains(k) {
                if k == entries.last().0 {
                    assert(entries[entries.len() - 1].0 == k);
                } else {
                    assert(entries_map(front).dom().contains(k));
                    assert(has_key(front, k));
                    let i = choose|i: int| 0 <= i < front.len() && (#[trigger] front[i]).0 == k;
                    assert(entries[i].0 == k);
                }
            }
        }
    }
}

/// Where the keys ascend, the mapping binds each entry's key to that
/// entry's value.
pub proof fn lemma_entries_map_values(entries: Seq<(Seq<u8>, ValueView)>)
    requires
        keys_ascend(entries),
    ensures
        forall|i: int|
            0 <= i < entries.len() ==> entries_map(entries).dom().contains(
                (#[trigger] entries[i]).0,
            ) && entries_map(entries)[entries[i].0] == entries[i].1,
    decreases entries.len(),
{
    if entries.len() > 0 {
        let front = entries.drop_last();
        let last = entries.last();
        assert(keys_ascend(front)) by {
            assert forall|i: int, j: int| 0 <= i < j < front.len() implies lex_lt(
                #[trigger] front[i].0,
                #[trigger] front[j].0,
            ) by {
                assert(lex_lt(entries[i].0, entries[j].0));
            }
        }
        lemma_entries_map_values(front);
        assert forall|i: int| 0 <= i < entries.len() implies entries_map(entries).dom().contains(
            (#[trigger] entries[i]).0,
        ) && entries_map(entries)[entries[i].0] == entries[i].1 by {
            if i < entries.len() - 1 {
                assert(lex_lt(entries[i].0, entries[entries.len() - 1].0));
                lemma_lex_trichotomy(entries[i].0, last.0);
                assert(front[i] == entries[i]);
            }
        }
    }
}

/// Entries whose keys ascend are determined by the mapping they stand
/// for: there is one such sequence for a mapping, and so one encoding.
pub proof fn lemma_same_mapping_same_entries(
    a: Seq<(Seq<u8>, ValueView)>,
    b: Seq<(Seq<u8>, ValueView)>,
)
    requires
        keys_ascend(a),
        keys_ascend(b),
        entries_map(a) == entries_map(b),
    ensures
        a == b,
        spec_encode(ValueView::Dictionary(a)) == spec_encode(ValueView::Dictionary(b)),
    decreases a.len(),
{
    lemma_entries_map_keys(a);
    lemma_entries_map_keys(b);
    lemma_entries_map_values(a);
    lemma_entries_map_values(b);
    if a.len() == 0 || b.len() == 0 {
        if a.len() > 0 {
            assert(entries_map(a).dom().contains(a[0].0));
        }
        if b.len() > 0 {
            assert(entries_map(b).dom().contains(b[0].0));
        }
        assert(a =~= b);
    } else {
        let la = a.last();
        let lb = b.last();
        assert(a[a.len() - 1] == la);
        assert(b[b.len() - 1] == lb);
        lemma_lex_trichotomy(la.0, lb.0);
        if lex_lt(la.0, lb.0) {
            lemma_greatest_key(a, lb.0);
        }
        if lex_lt(lb.0, la.0) {
            lemma_greatest_key(b, la.0);
        }
        assert(la.0 == lb.0);
        assert(la.1 == lb.1);
        let fa = a.drop_last();
        let fb = b.drop_last();
        lemma_front_map(a);
        lemma_front_map(b);
        assert(entries_map(fa) == entries_map(fb));
        lemma_same_mapping_same_entries(fa, fb);
        assert(a =~= fa.push(la));
        assert(b =~= fb.push(lb));
    }
}

/// No entry has a key above the last entry's key.
proof fn lemma_greatest_key(entries: Seq<(Seq<u8>, ValueView)>, key: Seq<u8>)
    requires
        keys_ascend(entries),
        entries.len() > 0,
        lex_lt(entries.last().0, key),
    ensures
        !has_key(entries, key),
{
    if has_key(entries, key) {
        let i = choose|i: int| 0 <= i < entries.len() && (#[trigger] entries[i]).0 == key;
        let last = entries.len() - 1;
        lemma_lex_trichotomy(key, key);
        if i < last {
            assert(lex_lt(entries[i].0, entries[last].0));
            lemma_lex_transitive(entries[i].0, entries[last].0, key);
        }
    }
}

/// All entries but the last stand for the mapping without the last key,
/// and their keys ascend.
proof fn lemma_front_map(entries: Seq<(Seq<u8>, ValueView)>)
    requires
        keys_ascend(entries),
        entries.len() > 0,
    ensures
        keys_ascend(entries.drop_last()),
        entries_map(entries.drop_last()) == entries_map(entries).remove(entries.last().0),
{
    let front = entries.drop_last();
    let last = entries.last();
    assert forall|i: int, j: int| 0 <= i < j < front.len() implies lex_lt(
        #[trigger] front[i].0,
        #[trigger] front[j].0,
    ) by {
        assert(lex_lt(entries[i].0, entries[j].0));
    }
    lemma_entries_map_keys(front);
    if has_key(front, last.0) {
        let i = choose|i: int| 0 <= i < front.len() && (#[trigger] front[i]).0 == last.0;
        assert(lex_lt(entries[i].0, entries[entries.len() - 1].0));
        lemma_lex_trichotomy(last.0, last.0);
    }
    assert(entries_map(front) =~= entries_map(entries).remove(last.0));
}

/// Inserting into entries binds the key in the mapping they stand for.
pub proof fn lemma_dict_insert_map(
    entries: Seq<(Seq<u8>, ValueView)>,
    key: Seq<u8>,
    value: ValueView,
)
    ensures
        entries_map(dict_insert(entries, key, value)) == entries_map(entries).insert(key, value),
    decreases entries.len(),
{
    let result = dict_insert(entries, key, value);
    if entries.len() == 0 {
        assert(result.drop_last() =~= entries);
    } else if lex_lt(entries.last().0, key) {
        assert(result.drop_last() =~= entries);
    } else if entries.last().0 == key {
        assert(result.drop_last() =~= entries.drop_last());
        assert(entries_map(result) =~= entries_map(entries).insert(key, value));
    } else {
        let inner = dict_insert(entries.drop_last(), key, value);
        lemma_dict_insert_map(entries.drop_last(), key, value);
        assert(result.drop_last() =~= inner);
        assert(entries_map(result) =~= entries_map(entries).insert(key, value));
    }
}

/// The entries built from pairs have ascending keys and stand for the
/// mapping that the pairs stand for.
pub proof fn lemma_canonical_entries(pairs: Seq<(Seq<u8>, ValueView)>)
    ensures
        keys_ascend(canonical_entries(pairs)),
        entries_map(canonical_entries(pairs)) == entries_map(pairs),
        all_values_well_formed(pairs) ==> entries_well_formed(canonical_entries(pairs)),
    decreases pairs.len(),
{
    if pairs.len() > 0 {
        let front = pairs.drop_last();
        let last = pairs.last();
        lemma_canonical_entries(front);
        lemma_dict_insert_sorted(canonical_entries(front), last.0, last.1);
        lemma_dict_insert_map(canonical_entries(front), last.0, last.1);
        if all_values_well_formed(pairs) {
            assert(pairs[pairs.len() - 1].1.well_formed());
            assert forall|i: int| 0 <= i < front.len() implies (
            #[trigger] front[i]).1.well_formed() by {
                assert(pairs[i].1.well_formed());
            }
            lemma_dict_insert_well_formed(canonical_entries(front), last.0, last.1);
        }
    }
}

/// A dictionary is determined by the mapping it is built for: in whatever
/// order the pairs are given, and however often a key is bound again,
/// pairs that stand for one mapping give one dictionary, written as the
/// same bytes.
pub proof fn lemma_construction_order_irrelevant(
    a: Seq<(Seq<u8>, ValueView)>,
    b: Seq<(Seq<u8>, ValueView)>,
)
    requires
        entries_map(a) == entries_map(b),
    ensures
        canonical_entries(a) == canonical_entries(b),
        spec_encode(ValueView::Dictionary(canonical_entries(a))) == spec_encode(
            ValueView::Dictionary(canonical_entries(b)),
        ),
{
    lemma_canonical_entries(a);
    lemma_canonical_entries(b);
    lemma_same_mapping_same_entries(canonical_entries(a), canonical_entries(b));
}

/// The order in which two keys are inserted does not show in the entries,
/// nor in the bytes they are written as.
pub proof fn lemma_insert_order_irrelevant(
    entries: Seq<(Seq<u8>, ValueView)>,
    k1: Seq<u8>,
    v1: ValueView,
    k2: Seq<u8>,
    v2: ValueView,
)
    requires
        keys_ascend(entries),
        k1 != k2,
    ensures
        dict_insert(dict_insert(entries, k1, v1), k2, v2) == dict_insert(
            dict_insert(entries, k2, v2),
            k1,
            v1,
        ),
        spec_encode(ValueView::Dictionary(dict_insert(dict_insert(entries, k1, v1), k2, v2)))
            == spec_encode(
            ValueView::Dictionary(dict_insert(dict_insert(entries, k2, v2), k1, v1)),
        ),
{
    let a1 = dict_insert(entries, k1, v1);
    let a = dict_insert(a1, k2, v2);
    let b1 = dict_insert(entries, k2, v2);
    let b = dict_insert(b1, k1, v1);
    lemma_dict_insert_sorted(entries, k1, v1);
    lemma_dict_insert_sorted(a1, k2, v2);
    lemma_dict_insert_sorted(entries, k2, v2);
    lemma_dict_insert_sorted(b1, k1, v1);
    lemma_dict_insert_map(entries, k1, v1);
    lemma_dict_insert_map(a1, k2, v2);
    lemma_dict_insert_map(entries, k2, v2);
    lemma_dict_insert_map(b1, k1, v1);
    assert(entries_map(a) =~= entries_map(b));
    lemma_same_mapping_same_entries(a, b);
}

} // verus!
