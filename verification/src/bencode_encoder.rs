//! Writing bencoded values as bytes.

use vstd::prelude::*;
use crate::bencode_model::{
    decimal, encode_bytes, encode_entries, encode_items, signed_decimal, spec_encode, COLON,
    DIGIT_ZERO, MINUS, TAG_DICTIONARY, TAG_END, TAG_INTEGER, TAG_LIST,
};
use crate::bencode_parser::{
    entries_view, lemma_dictionary_view, lemma_list_view, values_view, Value,
};
use crate::bytes::append;

verus! {

/// Appends the decimal digits of `n`.
pub fn push_decimal(out: &mut Vec<u8>, n: u64)
    ensures
        final(out)@ == old(out)@ + decimal(n as nat),
    decreases n,
{
    if n < 10 {
        out.push(DIGIT_ZERO + n as u8);
        proof {
            assert(out@ =~= old(out)@ + decimal(n as nat));
        }
    } else {
        push_decimal(out, n / 10);
        out.push(DIGIT_ZERO + (n % 10) as u8);
        proof {
            assert(out@ =~= old(out)@ + decimal(n as nat));
        }
    }
}

/// Appends a byte string: its length in decimal, a colon, its bytes.
pub fn push_byte_string(out: &mut Vec<u8>, bytes: &[u8])
    ensures
        final(out)@ == old(out)@ + encode_bytes(bytes@),
{
    push_decimal(out, bytes.len() as u64);
    out.push(COLON);
    append(out, bytes);
    proof {
        assert(out@ =~= old(out)@ + encode_bytes(bytes@));
    }
}

/// Appends an integer: `i`, its decimal text, `e`.
pub fn push_integer(out: &mut Vec<u8>, n: i64)
    ensures
        final(out)@ == old(out)@ + spec_encode(crate::bencode_model::ValueView::Integer(n)),
{
    out.push(TAG_INTEGER);
    if n < 0 {
        out.push(MINUS);
        let magnitude: u64 = if n == i64::MIN {
            0x8000_0000_0000_0000
        } else {
            (-n) as u64
        };
        push_decimal(out, magnitude);
    } else {
        push_decimal(out, n as u64);
    }
    out.push(TAG_END);
    proof {
        assert(out@ =~= old(out)@ + (seq![TAG_INTEGER] + signed_decimal(n as int) + seq![TAG_END]));
    }
}

/// Appends the encoding of `value`.
pub fn encode_into(value: &Value, out: &mut Vec<u8>)
    ensures
        final(out)@ == old(out)@ + spec_encode(value@),
    decreases value,
{
    let ghost before = out@;
    match value {
        Value::Integer(n) => {
            push_integer(out, *n);
        },
        Value::ByteString(b) => {
            push_byte_string(out, b.as_slice());
        },
        Value::List(items) => {
            let ghost models = values_view(items@);
            proof {
                lemma_list_view(*items);
            }
            out.push(TAG_LIST);
            let mut i: usize = 0;
            while i < items.len()
                invariant
                    i <= items.len(),
                    *value == Value::List(*items),
                    models == values_view(items@),
                    out@ + encode_items(models, i as int) == before + seq![TAG_LIST]
                        + encode_items(models, 0),
                decreases items.len() - i,
            {
                let ghost so_far = out@;
                proof {
                    vstd::std_specs::vec::axiom_vec_index_decreases(*items, i as int);
                    assert(decreases_to!(*value => value->List_0));
                }
                encode_into(&items[i], out);
                proof {
                    assert(so_far + encode_items(models, i as int) =~= out@ + encode_items(
                        models,
                        i + 1,
                    ));
                }
                i += 1;
            }
            out.push(TAG_END);
            proof {
                assert(out@ =~= before + (seq![TAG_LIST] + encode_items(models, 0) + seq![
                    TAG_END,
                ]));
            }
        },
        Value::Dictionary(entries) => {
            let ghost models = entries_view(entries@);
            proof {
                lemma_dictionary_view(*entries);
            }
            out.push(TAG_DICTIONARY);
            let mut i: usize = 0;
            while i < entries.len()
                invariant
                    i <= entries.len(),
                    *value == Value::Dictionary(*entries),
                    models == entries_view(entries@),
                    out@ + encode_entries(models, i as int) == before + seq![TAG_DICTIONARY]
                        + encode_entries(models, 0),
                decreases entries.len() - i,
            {
                let ghost so_far = out@;
                push_byte_string(out, entries[i].0.as_slice());
                proof {
                    vstd::std_specs::vec::axiom_vec_index_decreases(*entries, i as int);
                    assert(decreases_to!(*value => value->Dictionary_0));
                }
                encode_into(&entries[i].1, out);
                proof {
                    assert(so_far + encode_entries(models, i as int) =~= out@ + encode_entries(
                        models,
                        i + 1,
                    ));
                }
                i += 1;
            }
            out.push(TAG_END);
            proof {
                assert(out@ =~= before + (seq![TAG_DICTIONARY] + encode_entries(models, 0)
                    + seq![TAG_END]));
            }
        },
    }
}

/// The bytes that `value` is written as. A dictionary's entries are
/// written in the order in which the value holds them: that is the
/// canonical one, ascending by key, for every value that
/// [`decode`](crate::bencode_parser::decode) returns or that is built by
/// [`insert_entry`](crate::bencode_parser::insert_entry).
pub fn encode(value: &Value) -> (out: Vec<u8>)
    ensures
        out@ == spec_encode(value@),
{
    let mut out: Vec<u8> = Vec::new();
    encode_into(value, &mut out);
    proof {
        assert(Seq::<u8>::empty() + spec_encode(value@) =~= spec_encode(value@));
    }
    out
}

} // verus!
