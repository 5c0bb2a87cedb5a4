use bittorrust::bencode_encoder::encode;
use bittorrust::bencode_model::DecodeError;
use bittorrust::bencode_parser::{decode, get_list_of_values, insert_entry, Value};

fn text(s: &str) -> Value {
    Value::ByteString(s.as_bytes().to_vec())
}

fn entry(key: &str, value: Value) -> (Vec<u8>, Value) {
    (key.as_bytes().to_vec(), value)
}

#[test]
fn decodes_a_byte_string() {
    let (value, rest) = decode(b"4:spam").unwrap();
    assert_eq!(value, text("spam"));
    assert!(rest.is_empty());
}

#[test]
fn decodes_a_negative_integer() {
    let (value, rest) = decode(b"i-3e").unwrap();
    assert_eq!(value, Value::Integer(-3));
    assert!(rest.is_empty());
}

#[test]
fn decodes_a_list() {
    let (value, rest) = decode(b"l4:spam4:eggse").unwrap();
    assert_eq!(value, Value::List(vec![text("spam"), text("eggs")]));
    assert!(rest.is_empty());
}

#[test]
fn decodes_a_dictionary() {
    let (value, rest) = decode(b"d3:cow3:moo4:spam4:eggse").unwrap();
    assert_eq!(
        value,
        Value::Dictionary(vec![entry("cow", text("moo")), entry("spam", text("eggs"))])
    );
    assert!(rest.is_empty());
}

#[test]
fn returns_what_follows_the_value() {
    let (value, rest) = decode(b"4:spami7e").unwrap();
    assert_eq!(value, text("spam"));
    assert_eq!(rest, b"i7e");
    let (value, rest) = decode(b"i7e4:spam").unwrap();
    assert_eq!(value, Value::Integer(7));
    assert_eq!(rest, b"4:spam");
    let (value, rest) = decode(b"d1:ai1eel0:e").unwrap();
    assert_eq!(value, Value::Dictionary(vec![entry("a", Value::Integer(1))]));
    assert_eq!(rest, b"l0:e");
}

#[test]
fn decodes_empty_values() {
    assert_eq!(decode(b"0:").unwrap().0, text(""));
    assert_eq!(decode(b"le").unwrap().0, Value::List(vec![]));
    assert_eq!(decode(b"de").unwrap().0, Value::Dictionary(vec![]));
    assert_eq!(decode(b"i0e").unwrap().0, Value::Integer(0));
}

#[test]
fn decodes_nested_values() {
    let (value, rest) = decode(b"d4:listl1:ai2ed1:k1:vee3:numi-12ee").unwrap();
    assert_eq!(
        value,
        Value::Dictionary(vec![
            entry(
                "list",
                Value::List(vec![
                    text("a"),
                    Value::Integer(2),
                    Value::Dictionary(vec![entry("k", text("v"))]),
                ])
            ),
            entry("num", Value::Integer(-12)),
        ])
    );
    assert!(rest.is_empty());
}

#[test]
fn keeps_dictionary_entries_in_ascending_order_of_key() {
    let (value, _) = decode(b"d4:spam4:eggs3:cow3:moo1:zi1e2:aai2ee").unwrap();
    assert_eq!(
        value,
        Value::Dictionary(vec![
            entry("aa", Value::Integer(2)),
            entry("cow", text("moo")),
            entry("spam", text("eggs")),
            entry("z", Value::Integer(1)),
        ])
    );
}

#[test]
fn keeps_the_later_of_two_entries_with_one_key() {
    let (value, _) = decode(b"d1:ai1e1:bi2e1:ai3ee").unwrap();
    assert_eq!(
        value,
        Value::Dictionary(vec![entry("a", Value::Integer(3)), entry("b", Value::Integer(2))])
    );
}

#[test]
fn orders_keys_byte_by_byte_and_shorter_first() {
    let (value, _) = decode(b"d2:abi1e1:ai2e1:Bi3e0:i4ee").unwrap();
    assert_eq!(
        value,
        Value::Dictionary(vec![
            entry("", Value::Integer(4)),
            entry("B", Value::Integer(3)),
            entry("a", Value::Integer(2)),
            entry("ab", Value::Integer(1)),
        ])
    );
}

#[test]
fn reads_integers_up_to_the_limits_of_64_bits() {
    assert_eq!(decode(b"i9223372036854775807e").unwrap().0, Value::Integer(i64::MAX));
    assert_eq!(decode(b"i-9223372036854775808e").unwrap().0, Value::Integer(i64::MIN));
    assert_eq!(decode(b"i9223372036854775808e").unwrap_err(), DecodeError::MalformedInteger);
    assert_eq!(decode(b"i-9223372036854775809e").unwrap_err(), DecodeError::MalformedInteger);
    assert_eq!(
        decode(b"i123456789012345678901234567890e").unwrap_err(),
        DecodeError::MalformedInteger
    );
}

#[test]
fn reads_signs_and_leading_zeros() {
    assert_eq!(decode(b"i+5e").unwrap().0, Value::Integer(5));
    assert_eq!(decode(b"i-0e").unwrap().0, Value::Integer(0));
    assert_eq!(decode(b"i007e").unwrap().0, Value::Integer(7));
    assert_eq!(decode(b"04:spam").unwrap().0, text("spam"));
}

#[test]
fn rejects_malformed_integers() {
    for input in [&b"ie"[..], b"i-e", b"i+e", b"i12", b"i", b"i1x2e", b"i--1e", b"i 1e", b"i1.5e"] {
        assert_eq!(decode(input).unwrap_err(), DecodeError::MalformedInteger);
    }
}

#[test]
fn rejects_malformed_lengths() {
    for input in [
        &b"4:spa"[..],
        b"4",
        b"4x",
        b"4spam",
        b"1:",
        b"99999999999999999999999999:x",
        b"18446744073709551616:x",
    ] {
        assert_eq!(decode(input).unwrap_err(), DecodeError::MalformedLength);
    }
}

#[test]
fn rejects_a_key_that_is_no_byte_string() {
    assert_eq!(decode(b"di1e3:fooe").unwrap_err(), DecodeError::NonStringKey);
    assert_eq!(decode(b"dle1:ae").unwrap_err(), DecodeError::NonStringKey);
    assert_eq!(decode(b"d1:a1:bdee").unwrap_err(), DecodeError::NonStringKey);
}

#[test]
fn rejects_a_key_without_a_value() {
    assert_eq!(decode(b"d3:fooe").unwrap_err(), DecodeError::MissingValue);
    assert_eq!(decode(b"d1:a1:b1:ce").unwrap_err(), DecodeError::MissingValue);
}

#[test]
fn rejects_an_unknown_tag() {
    assert_eq!(decode(b"x").unwrap_err(), DecodeError::UnknownTag);
    assert_eq!(decode(b"").unwrap_err(), DecodeError::UnknownTag);
    assert_eq!(decode(b"e").unwrap_err(), DecodeError::UnknownTag);
    assert_eq!(decode(b"+4:spam").unwrap_err(), DecodeError::UnknownTag);
    assert_eq!(decode(b"l4:spam?e").unwrap_err(), DecodeError::UnknownTag);
}

#[test]
fn reports_the_first_error_in_reading_order() {
    // The elements are read before they are paired up.
    assert_eq!(decode(b"di1e4:spa").unwrap_err(), DecodeError::MalformedLength);
    assert_eq!(decode(b"d1:ai1ei2ei3e3:fooe").unwrap_err(), DecodeError::NonStringKey);
    assert_eq!(decode(b"li1eixee").unwrap_err(), DecodeError::MalformedInteger);
}

#[test]
fn ends_a_list_at_the_end_of_the_input() {
    let (value, rest) = decode(b"l4:spam").unwrap();
    assert_eq!(value, Value::List(vec![text("spam")]));
    assert!(rest.is_empty());
    assert_eq!(decode(b"l").unwrap().0, Value::List(vec![]));
    assert_eq!(
        decode(b"lli1e").unwrap().0,
        Value::List(vec![Value::List(vec![Value::Integer(1)])])
    );
}

#[test]
fn wants_the_end_mark_of_a_dictionary() {
    assert_eq!(decode(b"d3:cow3:moo").unwrap_err(), DecodeError::UnknownTag);
    assert_eq!(decode(b"d").unwrap_err(), DecodeError::UnknownTag);
    assert_eq!(decode(b"ld1:a1:b").unwrap_err(), DecodeError::UnknownTag);
}

#[test]
fn decodes_deep_nesting_without_deep_calls() {
    let depth = 200_000;
    let mut input = vec![b'l'; depth];
    input.extend(std::iter::repeat(b'e').take(depth));
    let (value, rest) = decode(&input).unwrap();
    assert!(rest.is_empty());
    assert!(matches!(value, Value::List(ref items) if items.len() == 1));
    // Taking such a value apart level by level is the caller's business.
    let mut current = value;
    let mut levels = 0;
    while let Value::List(mut items) = current {
        levels += 1;
        match items.pop() {
            Some(inner) => current = inner,
            None => break,
        }
    }
    assert_eq!(levels, depth);
}

#[test]
fn decodes_a_run_of_values() {
    let (values, rest) = get_list_of_values(b"4:spam4:eggse3:foo").unwrap();
    assert_eq!(values, vec![text("spam"), text("eggs")]);
    assert_eq!(rest, b"3:foo");
    let (values, rest) = get_list_of_values(b"i1ei2e").unwrap();
    assert_eq!(values, vec![Value::Integer(1), Value::Integer(2)]);
    assert!(rest.is_empty());
    let (values, rest) = get_list_of_values(b"").unwrap();
    assert!(values.is_empty());
    assert!(rest.is_empty());
    assert_eq!(get_list_of_values(b"i1ex").unwrap_err(), DecodeError::UnknownTag);
}

#[test]
fn encodes_each_kind_of_value() {
    assert_eq!(encode(&Value::Integer(-3)), b"i-3e");
    assert_eq!(encode(&Value::Integer(0)), b"i0e");
    assert_eq!(encode(&Value::Integer(1234567890)), b"i1234567890e");
    assert_eq!(encode(&Value::Integer(i64::MIN)), b"i-9223372036854775808e");
    assert_eq!(encode(&Value::Integer(i64::MAX)), b"i9223372036854775807e");
    assert_eq!(encode(&text("spam")), b"4:spam");
    assert_eq!(encode(&text("")), b"0:");
    assert_eq!(encode(&text("0123456789ab")), b"12:0123456789ab");
    assert_eq!(encode(&Value::List(vec![text("spam"), text("eggs")])), b"l4:spam4:eggse");
    assert_eq!(
        encode(&Value::Dictionary(vec![entry("cow", text("moo")), entry("spam", text("eggs"))])),
        b"d3:cow3:moo4:spam4:eggse"
    );
}

#[test]
fn decoding_an_encoding_gives_the_value_back() {
    let mut inner = Vec::new();
    insert_entry(&mut inner, b"zeta".to_vec(), Value::Integer(i64::MIN));
    insert_entry(&mut inner, b"alpha".to_vec(), Value::List(vec![]));
    insert_entry(&mut inner, vec![0, 255, 101], Value::ByteString(vec![0, 1, 2, 101, 58]));
    let value = Value::List(vec![
        Value::Integer(42),
        text("i1e"),
        Value::Dictionary(inner),
        Value::List(vec![Value::Dictionary(vec![]), text("")]),
    ]);
    let bytes = encode(&value);
    let (back, rest) = decode(&bytes).unwrap();
    assert_eq!(back, value);
    assert!(rest.is_empty());
    let mut longer = bytes.clone();
    longer.extend_from_slice(b"i1e");
    let (back, rest) = decode(&longer).unwrap();
    assert_eq!(back, value);
    assert_eq!(rest, b"i1e");
}

#[test]
fn the_order_of_insertion_does_not_show_in_the_encoding() {
    let pairs = [("spam", 1), ("cow", 2), ("", 3), ("zebra", 4), ("cows", 5)];
    let mut forward = Vec::new();
    for (key, n) in pairs {
        insert_entry(&mut forward, key.as_bytes().to_vec(), Value::Integer(n));
    }
    let mut backward = Vec::new();
    for (key, n) in pairs.iter().rev() {
        insert_entry(&mut backward, key.as_bytes().to_vec(), Value::Integer(*n));
    }
    assert_eq!(forward, backward);
    let bytes = encode(&Value::Dictionary(forward));
    assert_eq!(bytes, encode(&Value::Dictionary(backward)));
    assert_eq!(bytes, b"d0:i3e3:cowi2e4:cowsi5e4:spami1e5:zebrai4ee");
}

#[test]
fn inserting_a_key_again_replaces_its_value() {
    let mut entries = Vec::new();
    insert_entry(&mut entries, b"a".to_vec(), Value::Integer(1));
    insert_entry(&mut entries, b"b".to_vec(), Value::Integer(2));
    insert_entry(&mut entries, b"a".to_vec(), Value::Integer(3));
    assert_eq!(entries, vec![entry("a", Value::Integer(3)), entry("b", Value::Integer(2))]);
}

#[test]
fn decoded_values_hold_their_keys_in_order() {
    for input in [
        &b"d4:spam4:eggs3:cow3:mooe"[..],
        b"ld1:bi1e1:ai2eed1:z0:1:y0:ee",
        b"i1e",
        b"le",
        b"d1:ad1:cd1:b0:1:a0:eee",
    ] {
        assert!(decode(input).unwrap().0.is_well_formed());
    }
}

#[test]
fn keys_out_of_order_or_twice_are_told_apart() {
    assert!(Value::Dictionary(vec![entry("a", text("")), entry("b", text(""))]).is_well_formed());
    assert!(!Value::Dictionary(vec![entry("b", text("")), entry("a", text(""))]).is_well_formed());
    assert!(!Value::Dictionary(vec![entry("a", text("")), entry("a", text(""))]).is_well_formed());
    assert!(!Value::Dictionary(vec![
        entry("a", text("")),
        entry("c", text("")),
        entry("b", text("")),
    ])
    .is_well_formed());
    let inner = Value::Dictionary(vec![entry("y", text("")), entry("x", text(""))]);
    assert!(!Value::List(vec![Value::Integer(1), inner]).is_well_formed());
    let inner = Value::Dictionary(vec![entry("y", text("")), entry("x", text(""))]);
    assert!(!Value::Dictionary(vec![entry("k", inner)]).is_well_formed());
    assert!(Value::List(vec![]).is_well_formed());
    assert!(Value::Integer(0).is_well_formed());
}

#[test]
fn decoding_puts_keys_in_order_that_were_written_out_of_order() {
    let value = Value::Dictionary(vec![entry("b", Value::Integer(1)), entry("a", Value::Integer(2))]);
    let bytes = encode(&value);
    assert_eq!(bytes, b"d1:bi1e1:ai2ee");
    let (back, _) = decode(&bytes).unwrap();
    assert_eq!(
        back,
        Value::Dictionary(vec![entry("a", Value::Integer(2)), entry("b", Value::Integer(1))])
    );
    assert_eq!(encode(&back), b"d1:ai2e1:bi1ee");
}

#[test]
fn a_dictionary_built_from_pairs_does_not_show_their_order() {
    let pairs = || {
        vec![
            entry("spam", text("eggs")),
            entry("cow", text("moo")),
            entry("n", Value::Integer(3)),
            entry("", Value::List(vec![])),
        ]
    };
    let forward = Value::dictionary(pairs());
    let mut turned = pairs();
    turned.reverse();
    let backward = Value::dictionary(turned);
    let mut rotated = pairs();
    rotated.rotate_left(2);
    let other = Value::dictionary(rotated);
    assert_eq!(forward, backward);
    assert_eq!(forward, other);
    assert!(forward.is_well_formed());
    assert_eq!(encode(&forward), b"d0:le3:cow3:moo1:ni3e4:spam4:eggse");
    assert_eq!(encode(&forward), encode(&backward));
    assert_eq!(encode(&forward), encode(&other));
}

#[test]
fn a_dictionary_built_from_pairs_keeps_the_later_of_two_with_one_key() {
    let value = Value::dictionary(vec![
        entry("a", Value::Integer(1)),
        entry("b", Value::Integer(2)),
        entry("a", Value::Integer(3)),
    ]);
    assert_eq!(
        value,
        Value::Dictionary(vec![entry("a", Value::Integer(3)), entry("b", Value::Integer(2))])
    );
    assert_eq!(Value::dictionary(Vec::new()), Value::Dictionary(vec![]));
}
