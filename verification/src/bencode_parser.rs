//! The bencode codec: values, their byte encoding and the decoder.

use vstd::prelude::*;
use vstd::slice::{slice_subrange, slice_to_vec};
use crate::bencode_model::{
    all_values_well_formed, all_well_formed, bytes_at, canonical_entries, close_container,
    decimal_value, dict_insert, digits_end,
    entries_well_formed, integer_at, is_digit, items_at, keys_ascend, lex_lt, pair_up,
    spec_decode, spec_decode_list,
    value_at, DecodeError, ValueView, COLON, DIGIT_NINE, DIGIT_ZERO, MINUS, PLUS, TAG_DICTIONARY,
    TAG_END, TAG_INTEGER, TAG_LIST,
};
use crate::bencode_proofs::{
    lemma_canonical_entries, lemma_decimal_value_step, lemma_dict_insert_at,
    lemma_dict_insert_replace,
    lemma_dict_insert_sorted, lemma_dictionary_well_formed, lemma_digits_end, lemma_items_at,
    lemma_keys_ascend_push, lemma_lex_trichotomy, lemma_list_well_formed, lemma_value_at,
};

verus! {

/// A bencoded value.
///
/// A dictionary holds its entries as a vector of pairs; see
/// [`Value::well_formed`] for the order that the codec keeps them in.
#[derive(Debug, PartialEq, Eq)]
pub enum Value {
    Integer(i64),
    ByteString(Vec<u8>),
    List(Vec<Value>),
    Dictionary(Vec<(Vec<u8>, Value)>),
}

/// The model of a value: the same tree with sequences in place of vectors.
pub open spec fn model_of(v: Value) -> ValueView
    decreases v,
{
    match v {
        Value::Integer(n) => ValueView::Integer(n),
        Value::ByteString(b) => ValueView::ByteString(b@),
        Value::List(items) => ValueView::List(
            Seq::new(
                items.len() as nat,
                |i: int|
                    if 0 <= i < items.len() {
                        model_of(items[i])
                    } else {
                        ValueView::Integer(0)
                    },
            ),
        ),
        Value::Dictionary(entries) => ValueView::Dictionary(
            Seq::new(
                entries.len() as nat,
                |i: int|
                    if 0 <= i < entries.len() {
                        (entries[i].0@, model_of(entries[i].1))
                    } else {
                        (Seq::empty(), ValueView::Integer(0))
                    },
            ),
        ),
    }
}

impl View for Value {
    type V = ValueView;

    open spec fn view(&self) -> ValueView {
        model_of(*self)
    }
}

/// The models of a sequence of values, in order.
pub open spec fn values_view(items: Seq<Value>) -> Seq<ValueView> {
    Seq::new(items.len(), |i: int| items[i]@)
}

/// The models of a sequence of dictionary entries, in order.
pub open spec fn entries_view(entries: Seq<(Vec<u8>, Value)>) -> Seq<(Seq<u8>, ValueView)> {
    Seq::new(entries.len(), |i: int| (entries[i].0@, entries[i].1@))
}

/// The model of a list is the list of its items' models.
pub proof fn lemma_list_view(items: Vec<Value>)
    ensures
        Value::List(items)@ == ValueView::List(values_view(items@)),
{
    match Value::List(items)@ {
        ValueView::List(s) => {
            assert(s =~= values_view(items@));
        },
        _ => {},
    }
}

/// The model of a dictionary holds its entries' models.
pub proof fn lemma_dictionary_view(entries: Vec<(Vec<u8>, Value)>)
    ensures
        Value::Dictionary(entries)@ == ValueView::Dictionary(entries_view(entries@)),
{
    match Value::Dictionary(entries)@ {
        ValueView::Dictionary(s) => {
            assert(s =~= entries_view(entries@));
        },
        _ => {},
    }
}

/// How two keys stand to each other in the byte-wise lexicographic order.
enum KeyOrder {
    Less,
    Equal,
    Greater,
}

impl Value {
    /// Every dictionary inside the value holds its keys in strictly
    /// ascending order.
    pub open spec fn well_formed(&self) -> bool {
        self@.well_formed()
    }

    /// The dictionary that binds each of `pairs` in turn, in whatever
    /// order they come: its entries are in ascending order of key, and
    /// of two pairs with one key the later stays.
    pub fn dictionary(pairs: Vec<(Vec<u8>, Value)>) -> (value: Value)
        ensures
            value@ == ValueView::Dictionary(canonical_entries(entries_view(pairs@))),
            all_values_well_formed(entries_view(pairs@)) ==> value.well_formed(),
    {
        let ghost all = entries_view(pairs@);
        let ghost n = pairs.len();
        // Turn the pairs round, so that popping hands them out in order.
        let mut source = pairs;
        let mut pending: Vec<(Vec<u8>, Value)> = Vec::new();
        while source.len() > 0
            invariant
                all.len() == n,
                source.len() + pending.len() == n,
                forall|i: int|
                    0 <= i < source.len() ==> (#[trigger] source@[i]).0@ == all[i].0
                        && source@[i].1@ == all[i].1,
                forall|i: int|
                    0 <= i < pending.len() ==> (#[trigger] pending@[i]).0@ == all[n - 1 - i].0
                        && pending@[i].1@ == all[n - 1 - i].1,
            decreases source.len(),
        {
            let last = source.pop().unwrap();
            pending.push(last);
        }
        let mut entries: Vec<(Vec<u8>, Value)> = Vec::new();
        proof {
            assert(all.take(0) =~= Seq::empty());
            assert(entries_view(entries@) =~= canonical_entries(all.take(0)));
        }
        while pending.len() > 0
            invariant
                pending.len() <= n,
                all.len() == n,
                forall|i: int|
                    0 <= i < pending.len() ==> (#[trigger] pending@[i]).0@ == all[n - 1 - i].0
                        && pending@[i].1@ == all[n - 1 - i].1,
                entries_view(entries@) == canonical_entries(all.take(n - pending.len())),
            decreases pending.len(),
        {
            let ghost done = n - pending.len();
            let (key, value) = pending.pop().unwrap();
            insert_entry(&mut entries, key, value);
            proof {
                assert(all.take(done + 1).drop_last() =~= all.take(done));
                assert(all.take(done + 1).last() == all[done]);
            }
        }
        proof {
            assert(all.take(n as int) =~= all);
            lemma_dictionary_view(entries);
            lemma_canonical_entries(all);
            lemma_dictionary_well_formed(canonical_entries(all));
        }
        Value::Dictionary(entries)
    }

    /// Whether every dictionary inside the value holds its keys in
    /// strictly ascending order, as the values do that
    /// [`decode`] returns and the entries that [`insert_entry`] builds.
    pub fn is_well_formed(&self) -> (ok: bool)
        ensures
            ok == self.well_formed(),
        decreases self,
    {
        match self {
            Value::Integer(_) => true,
            Value::ByteString(_) => true,
            Value::List(items) => {
                let ghost models = values_view(items@);
                proof {
                    lemma_list_view(*items);
                    lemma_list_well_formed(models);
                }
                let mut i: usize = 0;
                while i < items.len()
                    invariant
                        i <= items.len(),
                        *self == Value::List(*items),
                        models == values_view(items@),
                        self.well_formed() == all_well_formed(models),
                        forall|j: int| 0 <= j < i ==> (#[trigger] models[j]).well_formed(),
                    decreases items.len() - i,
                {
                    proof {
                        vstd::std_specs::vec::axiom_vec_index_decreases(*items, i as int);
                        assert(decreases_to!(*self => self->List_0));
                    }
                    if !items[i].is_well_formed() {
                        assert(!models[i as int].well_formed());
                        return false;
                    }
                    assert(models[i as int].well_formed());
                    i += 1;
                }
                true
            },
            Value::Dictionary(entries) => {
                let ghost models = entries_view(entries@);
                proof {
                    lemma_dictionary_view(*entries);
                    lemma_dictionary_well_formed(models);
                    assert(models.take(0) =~= Seq::empty());
                }
                let mut i: usize = 0;
                while i < entries.len()
                    invariant
                        i <= entries.len(),
                        *self == Value::Dictionary(*entries),
                        models == entries_view(entries@),
                        self.well_formed() == entries_well_formed(models),
                        keys_ascend(models.take(i as int)),
                        forall|j: int| 0 <= j < i ==> (#[trigger] models[j]).1.well_formed(),
                    decreases entries.len() - i,
                {
                    if i > 0 {
                        match compare_keys(entries[i - 1].0.as_slice(), entries[i].0.as_slice()) {
                            KeyOrder::Less => {},
                            _ => {
                                proof {
                                    lemma_lex_trichotomy(models[i - 1].0, models[i as int].0);
                                    assert(!lex_lt(models[i - 1].0, models[i as int].0));
                                }
                                return false;
                            },
                        }
                    }
                    proof {
                        vstd::std_specs::vec::axiom_vec_index_decreases(*entries, i as int);
                        assert(decreases_to!(*self => self->Dictionary_0));
                    }
                    if !entries[i].1.is_well_formed() {
                        assert(!models[i as int].1.well_formed());
                        return false;
                    }
                    proof {
                        let prefix = models.take(i as int);
                        if i > 0 {
                            assert(prefix.last() == models[i - 1]);
                        }
                        lemma_keys_ascend_push(prefix, models[i as int]);
                        assert(prefix.push(models[i as int]) =~= models.take(i + 1));
                        assert(models[i as int].1.well_formed());
                    }
                    i += 1;
                }
                proof {
                    assert(models.take(entries.len() as int) =~= models);
                }
                true
            },
        }
    }
}

/// Compares two keys byte by byte.
fn compare_keys(a: &[u8], b: &[u8]) -> (r: KeyOrder)
    ensures
        match r {
            KeyOrder::Less => lex_lt(a@, b@),
            KeyOrder::Equal => a@ == b@,
            KeyOrder::Greater => lex_lt(b@, a@),
        },
{
    let mut i: usize = 0;
    proof {
        assert(a@.skip(0) =~= a@);
        assert(b@.skip(0) =~= b@);
    }
    while i < a.len() && i < b.len()
        invariant
            i <= a.len(),
            i <= b.len(),
            forall|k: int| 0 <= k < i ==> a@[k] == b@[k],
            lex_lt(a@, b@) == lex_lt(a@.skip(i as int), b@.skip(i as int)),
            lex_lt(b@, a@) == lex_lt(b@.skip(i as int), a@.skip(i as int)),
        decreases a.len() - i,
    {
        proof {
            assert(a@.skip(i as int).skip(1) =~= a@.skip(i + 1));
            assert(b@.skip(i as int).skip(1) =~= b@.skip(i + 1));
        }
        if a[i] < b[i] {
            return KeyOrder::Less;
        }
        if a[i] > b[i] {
            return KeyOrder::Greater;
        }
        i += 1;
    }
    if i < b.len() {
        KeyOrder::Less
    } else if i < a.len() {
        KeyOrder::Greater
    } else {
        proof {
            assert(a@ =~= b@);
        }
        KeyOrder::Equal
    }
}

/// Binds `key` to `value` in the entries of a dictionary: in place of the
/// entry with that key if there is one, else at the place that keeps the
/// keys ascending. Entries built by this function alone are in canonical
/// order, whatever the order of the calls.
pub fn insert_entry(entries: &mut Vec<(Vec<u8>, Value)>, key: Vec<u8>, value: Value)
    ensures
        entries_view(final(entries)@) == dict_insert(entries_view(old(entries)@), key@, value@),
        keys_ascend(entries_view(old(entries)@)) ==> keys_ascend(entries_view(final(entries)@)),
{
    let ghost before = entries_view(entries@);
    proof {
        if keys_ascend(before) {
            lemma_dict_insert_sorted(before, key@, value@);
        }
    }
    let mut p: usize = entries.len();
    let mut replace: bool = false;
    let mut searching: bool = true;
    while searching && p > 0
        invariant
            p <= entries.len(),
            entries_view(entries@) == before,
            forall|j: int| p <= j < before.len() ==> lex_lt(key@, #[trigger] before[j].0),
            !searching ==> if replace {
                p > 0 && before[p - 1].0 == key@
            } else {
                p == 0 || lex_lt(before[p - 1].0, key@)
            },
            searching ==> !replace,
        decreases p, searching as int,
    {
        match compare_keys(entries[p - 1].0.as_slice(), key.as_slice()) {
            KeyOrder::Less => {
                searching = false;
            },
            KeyOrder::Equal => {
                replace = true;
                searching = false;
            },
            KeyOrder::Greater => {
                p -= 1;
            },
        }
    }
    if replace {
        proof {
            lemma_dict_insert_replace(before, key@, value@, p - 1);
        }
        entries.remove(p - 1);
        entries.insert(p - 1, (key, value));
        proof {
            assert(entries_view(entries@) =~= before.update(p - 1, (key@, value@)));
        }
    } else {
        proof {
            lemma_dict_insert_at(before, key@, value@, p as int);
        }
        entries.insert(p, (key, value));
        proof {
            assert(entries_view(entries@) =~= before.insert(p as int, (key@, value@)));
        }
    }
}

/// Reads the digit run that starts at `start`: where it ends, and its
/// value unless that exceeds `limit`.
fn read_number(input: &[u8], start: usize, limit: u64) -> (res: (usize, Option<u64>))
    requires
        start <= input.len(),
    ensures
        res.0 == digits_end(input@, start as int),
        start <= res.0 <= input.len(),
        match res.1 {
            Some(v) => v == decimal_value(input@.subrange(start as int, res.0 as int)) && v
                <= limit,
            None => decimal_value(input@.subrange(start as int, res.0 as int)) > limit,
        },
{
    let mut i: usize = start;
    let mut acc: u64 = 0;
    let mut over: bool = false;
    proof {
        assert(input@.subrange(start as int, start as int) =~= Seq::<u8>::empty());
    }
    while i < input.len() && input[i] >= DIGIT_ZERO && input[i] <= DIGIT_NINE
        invariant
            start <= i <= input.len(),
            forall|k: int| start <= k < i ==> is_digit(input@[k]),
            over ==> decimal_value(input@.subrange(start as int, i as int)) > limit,
            !over ==> acc == decimal_value(input@.subrange(start as int, i as int)) && acc
                <= limit,
        decreases input.len() - i,
    {
        proof {
            lemma_decimal_value_step(input@, start as int, i as int);
        }
        if !over {
            let next: u128 = (acc as u128) * 10 + ((input[i] - DIGIT_ZERO) as u128);
            if next > limit as u128 {
                over = true;
            } else {
                acc = next as u64;
            }
        }
        i += 1;
    }
    proof {
        lemma_digits_end(input@, start as int, i as int);
    }
    if over {
        (i, None)
    } else {
        (i, Some(acc))
    }
}

/// Decodes the byte string whose length starts at `pos`.
fn decode_bytes_at(input: &[u8], pos: usize) -> (res: Result<(Vec<u8>, usize), DecodeError>)
    requires
        pos <= input.len(),
    ensures
        match bytes_at(input@, pos as int) {
            Ok((b, next)) => res matches Ok((v, p)) && v@ == b && p == next,
            Err(e) => res == Err::<(Vec<u8>, usize), DecodeError>(e),
        },
{
    let (end, len) = read_number(input, pos, input.len() as u64);
    if end >= input.len() || input[end] != COLON {
        return Err(DecodeError::MalformedLength);
    }
    match len {
        None => Err(DecodeError::MalformedLength),
        Some(len) => {
            let len = len as usize;
            if len > input.len() - end - 1 {
                return Err(DecodeError::MalformedLength);
            }
            let body = slice_to_vec(slice_subrange(input, end + 1, end + 1 + len));
            Ok((body, end + 1 + len))
        },
    }
}

/// Decodes the integer whose tag stands at `pos`.
fn decode_integer_at(input: &[u8], pos: usize) -> (res: Result<(i64, usize), DecodeError>)
    requires
        pos < input.len(),
    ensures
        match integer_at(input@, pos as int) {
            Ok((n, next)) => res == Ok::<(i64, usize), DecodeError>((n, next as usize)) && next
                <= input.len(),
            Err(e) => res == Err::<(i64, usize), DecodeError>(e),
        },
{
    let start = pos + 1;
    let negative = start < input.len() && input[start] == MINUS;
    let signed = start < input.len() && (input[start] == MINUS || input[start] == PLUS);
    let first = if signed {
        start + 1
    } else {
        start
    };
    let limit: u64 = if negative {
        0x8000_0000_0000_0000
    } else {
        0x7fff_ffff_ffff_ffff
    };
    let (end, magnitude) = read_number(input, first, limit);
    if end == first || end >= input.len() || input[end] != TAG_END {
        return Err(DecodeError::MalformedInteger);
    }
    match magnitude {
        None => Err(DecodeError::MalformedInteger),
        Some(m) => {
            let n: i64 = if !negative {
                m as i64
            } else if m == 0x8000_0000_0000_0000 {
                i64::MIN
            } else {
                -(m as i64)
            };
            Ok((n, end + 1))
        },
    }
}

/// Pairs a flat run of keys and values up into a dictionary's entries.
fn pair_up_values(items: Vec<Value>) -> (res: Result<Vec<(Vec<u8>, Value)>, DecodeError>)
    ensures
        match pair_up(values_view(items@), 0, Seq::empty()) {
            Ok(entries) => res matches Ok(r) && entries_view(r@) == entries,
            Err(e) => res == Err::<Vec<(Vec<u8>, Value)>, DecodeError>(e),
        },
{
    let ghost all = values_view(items@);
    let ghost n = items.len();
    // Turn the run round, so that popping hands its elements out in order.
    let mut source = items;
    let mut pending: Vec<Value> = Vec::new();
    while source.len() > 0
        invariant
            all.len() == n,
            source.len() + pending.len() == n,
            forall|i: int| 0 <= i < source.len() ==> (#[trigger] source@[i])@ == all[i],
            forall|i: int| 0 <= i < pending.len() ==> (#[trigger] pending@[i])@ == all[n - 1 - i],
        decreases source.len(),
    {
        let last = source.pop().unwrap();
        pending.push(last);
    }
    let mut entries: Vec<(Vec<u8>, Value)> = Vec::new();
    proof {
        assert(entries_view(entries@) =~= Seq::empty());
    }
    while pending.len() > 0
        invariant
            pending.len() <= n,
            all.len() == n,
            all == values_view(items@),
            forall|i: int| 0 <= i < pending.len() ==> (#[trigger] pending@[i])@ == all[n - 1 - i],
            pair_up(all, 0, Seq::empty()) == pair_up(
                all,
                n - pending.len(),
                entries_view(entries@),
            ),
        decreases pending.len(),
    {
        let ghost from = n - pending.len();
        let first = pending.pop().unwrap();
        assert(first@ == all[from]);
        match first {
            Value::ByteString(key) => {
                match pending.pop() {
                    Some(value) => {
                        assert(value@ == all[from + 1]);
                        insert_entry(&mut entries, key, value);
                    },
                    None => {
                        return Err(DecodeError::MissingValue);
                    },
                }
            },
            _ => {
                return Err(DecodeError::NonStringKey);
            },
        }
    }
    Ok(entries)
}

/// Makes the value of a list or dictionary whose elements have been read.
fn close_value(is_dict: bool, items: Vec<Value>, terminated: bool) -> (res: Result<
    Value,
    DecodeError,
>)
    ensures
        match close_container(is_dict, values_view(items@), terminated) {
            Ok(v) => res matches Ok(value) && value@ == v,
            Err(e) => res == Err::<Value, DecodeError>(e),
        },
{
    if !is_dict {
        proof {
            lemma_list_view(items);
        }
        Ok(Value::List(items))
    } else if !terminated {
        Err(DecodeError::UnknownTag)
    } else {
        match pair_up_values(items) {
            Ok(entries) => {
                proof {
                    lemma_dictionary_view(entries);
                }
                Ok(Value::Dictionary(entries))
            },
            Err(e) => Err(e),
        }
    }
}

/// Decodes the integer or byte string that starts at `pos`.
fn decode_scalar_at(input: &[u8], pos: usize) -> (res: Result<(Value, usize), DecodeError>)
    requires
        pos < input.len(),
        input@[pos as int] != TAG_LIST,
        input@[pos as int] != TAG_DICTIONARY,
    ensures
        match value_at(input@, pos as int) {
            Ok((v, next)) => res matches Ok((value, p)) && value@ == v && p == next,
            Err(e) => res == Err::<(Value, usize), DecodeError>(e),
        },
{
    let tag = input[pos];
    if tag == TAG_INTEGER {
        match decode_integer_at(input, pos) {
            Ok((n, next)) => Ok((Value::Integer(n), next)),
            Err(e) => Err(e),
        }
    } else if tag >= DIGIT_ZERO && tag <= DIGIT_NINE {
        match decode_bytes_at(input, pos) {
            Ok((b, next)) => Ok((Value::ByteString(b), next)),
            Err(e) => Err(e),
        }
    } else {
        Err(DecodeError::UnknownTag)
    }
}

/// A list or dictionary whose elements are still being read.
struct OpenContainer {
    is_dict: bool,
    items: Vec<Value>,
}

/// The model of a list or dictionary whose elements are still being read.
struct OpenContainerView {
    is_dict: bool,
    items: Seq<ValueView>,
}

impl OpenContainerView {
    /// The container with one more element read.
    spec fn with(self, v: ValueView) -> OpenContainerView {
        OpenContainerView { is_dict: self.is_dict, items: self.items.push(v) }
    }
}

impl View for OpenContainer {
    type V = OpenContainerView;

    closed spec fn view(&self) -> OpenContainerView {
        OpenContainerView { is_dict: self.is_dict, items: values_view(self.items@) }
    }
}

spec fn containers_view(stack: Seq<OpenContainer>) -> Seq<OpenContainerView> {
    Seq::new(stack.len(), |i: int| stack[i]@)
}

/// What reading on from `pos` gives, when `current` is the innermost open
/// container and `outer` holds the containers around it, innermost last:
/// the rest of `current`'s elements are read, it is closed and becomes an
/// element of the container around it, and so on outwards. The outermost
/// container is not closed: its elements are the result, with the
/// position after them and whether an end mark closed the run.
spec fn resume(
    outer: Seq<OpenContainerView>,
    current: OpenContainerView,
    s: Seq<u8>,
    pos: int,
) -> Result<(Seq<ValueView>, int, bool), DecodeError>
    decreases outer.len(),
{
    match items_at(s, pos) {
        Err(e) => Err(e),
        Ok((more, next, terminated)) => if outer.len() == 0 {
            Ok((current.items + more, next, terminated))
        } else {
            match close_container(current.is_dict, current.items + more, terminated) {
                Err(e) => Err(e),
                Ok(v) => resume(outer.drop_last(), outer.last().with(v), s, next),
            }
        },
    }
}

/// Reading one element and then reading on is reading on.
proof fn lemma_resume_after_value(
    outer: Seq<OpenContainerView>,
    current: OpenContainerView,
    s: Seq<u8>,
    pos: int,
)
    requires
        0 <= pos < s.len(),
        s[pos] != TAG_END,
    ensures
        match value_at(s, pos) {
            Ok((v, next)) => resume(outer, current, s, pos) == resume(
                outer,
                current.with(v),
                s,
                next,
            ),
            Err(e) => resume(outer, current, s, pos) == Err::<
                (Seq<ValueView>, int, bool),
                DecodeError,
            >(e),
        },
{
    lemma_value_at(s, pos);
    match value_at(s, pos) {
        Ok((v, next)) => {
            match items_at(s, next) {
                Ok((rest, end, terminated)) => {
                    assert(current.items + (seq![v] + rest) =~= current.with(v).items + rest);
                },
                Err(_) => {},
            }
        },
        Err(_) => {},
    }
}

/// Opening a container and reading on inside it is reading on.
proof fn lemma_resume_after_open(
    outer: Seq<OpenContainerView>,
    current: OpenContainerView,
    s: Seq<u8>,
    pos: int,
)
    requires
        0 <= pos < s.len(),
        s[pos] == TAG_LIST || s[pos] == TAG_DICTIONARY,
    ensures
        resume(outer, current, s, pos) == resume(
            outer.push(current),
            OpenContainerView { is_dict: s[pos] == TAG_DICTIONARY, items: Seq::empty() },
            s,
            pos + 1,
        ),
{
    lemma_resume_after_value(outer, current, s, pos);
    let inner = OpenContainerView { is_dict: s[pos] == TAG_DICTIONARY, items: Seq::empty() };
    match items_at(s, pos + 1) {
        Ok((more, next, terminated)) => {
            assert(inner.items + more =~= more);
            assert(outer.push(current).drop_last() =~= outer);
            assert(outer.push(current).last() == current);
        },
        Err(_) => {},
    }
}

/// Reads the run of values that starts at `start`, up to its end mark or
/// the end of the input. Containers inside the run are kept on a stack of
/// their own, so that the nesting of the input costs no call depth.
fn decode_items(input: &[u8], start: usize) -> (res: Result<
    (Vec<Value>, usize, bool),
    DecodeError,
>)
    requires
        start <= input.len(),
    ensures
        match items_at(input@, start as int) {
            Ok((items, next, terminated)) => res matches Ok((values, p, t)) && values_view(
                values@,
            ) == items && p == next && t == terminated,
            Err(e) => res == Err::<(Vec<Value>, usize, bool), DecodeError>(e),
        },
{
    let mut stack: Vec<OpenContainer> = Vec::new();
    let mut current = OpenContainer { is_dict: false, items: Vec::new() };
    let mut pos: usize = start;
    let ghost goal = items_at(input@, start as int);
    proof {
        assert(containers_view(stack@) =~= Seq::empty());
        assert(current@.items =~= Seq::empty());
        match goal {
            Ok((items, _, _)) => {
                assert(current@.items + items =~= items);
            },
            Err(_) => {},
        }
    }
    loop
        invariant
            pos <= input.len(),
            resume(containers_view(stack@), current@, input@, pos as int) == goal,
            goal == items_at(input@, start as int),
        decreases input.len() - pos, stack.len(),
    {
        let ghost outer = containers_view(stack@);
        let ghost before = current@;
        if pos >= input.len() || input[pos] == TAG_END {
            let terminated = pos < input.len();
            let next = if terminated {
                pos + 1
            } else {
                pos
            };
            proof {
                assert(before.items + Seq::<ValueView>::empty() =~= before.items);
            }
            let OpenContainer { is_dict: d, items } = current;
            match stack.pop() {
                None => {
                    return Ok((items, next, terminated));
                },
                Some(parent) => {
                    let value = match close_value(d, items, terminated) {
                        Ok(v) => v,
                        Err(e) => {
                            return Err(e);
                        },
                    };
                    let ghost parent_view = parent@;
                    current = parent;
                    current.items.push(value);
                    pos = next;
                    proof {
                        assert(containers_view(stack@) =~= outer.drop_last());
                        assert(parent_view == outer.last());
                        assert(current@.items =~= parent_view.with(value@).items);
                    }
                },
            }
        } else if input[pos] == TAG_LIST || input[pos] == TAG_DICTIONARY {
            let d = input[pos] == TAG_DICTIONARY;
            proof {
                lemma_resume_after_open(outer, before, input@, pos as int);
            }
            stack.push(current);
            current = OpenContainer { is_dict: d, items: Vec::new() };
            pos = pos + 1;
            proof {
                assert(containers_view(stack@) =~= outer.push(before));
                assert(current@.items =~= Seq::empty());
            }
        } else {
            proof {
                lemma_resume_after_value(outer, before, input@, pos as int);
                lemma_value_at(input@, pos as int);
            }
            match decode_scalar_at(input, pos) {
                Err(e) => {
                    return Err(e);
                },
                Ok((v, next)) => {
                    current.items.push(v);
                    pos = next;
                    proof {
                        assert(current@.items =~= before.with(v@).items);
                    }
                },
            }
        }
    }
}

/// Decodes the first value of `input` and returns it with the bytes that
/// follow it.
///
/// A leading digit run and a colon announce a byte string of that length,
/// `i` a signed integer up to `e`, `l` a list and `d` a dictionary, each up
/// to its `e`. A list may also end where the input ends; a dictionary
/// needs its `e`. A dictionary is read as a flat run of keys and values,
/// which are then paired up: its entries come out in ascending order of
/// key, and of two entries with one key the later stays.
pub fn decode(input: &[u8]) -> (res: Result<(Value, &[u8]), DecodeError>)
    ensures
        match spec_decode(input@) {
            Ok((v, rest)) => res matches Ok((value, remainder)) && value@ == v && remainder@
                == rest && v.well_formed(),
            Err(e) => res matches Err(err) && err == e,
        },
{
    if input.len() == 0 {
        return Err(DecodeError::UnknownTag);
    }
    proof {
        lemma_value_at(input@, 0);
    }
    let tag = input[0];
    let (value, next) = if tag == TAG_LIST || tag == TAG_DICTIONARY {
        let (items, next, terminated) = match decode_items(input, 1) {
            Ok(r) => r,
            Err(e) => {
                return Err(e);
            },
        };
        match close_value(tag == TAG_DICTIONARY, items, terminated) {
            Ok(v) => (v, next),
            Err(e) => {
                return Err(e);
            },
        }
    } else {
        match decode_scalar_at(input, 0) {
            Ok(r) => r,
            Err(e) => {
                return Err(e);
            },
        }
    };
    Ok((value, slice_subrange(input, next, input.len())))
}

/// Decodes a run of values: all those from the start of `input` up to the
/// first end mark outside any of them, or up to the end of `input`.
/// Returns them with the bytes that follow the end mark.
pub fn get_list_of_values(input: &[u8]) -> (res: Result<(Vec<Value>, &[u8]), DecodeError>)
    ensures
        match spec_decode_list(input@) {
            Ok((items, rest)) => res matches Ok((values, remainder)) && values_view(values@)
                == items && remainder@ == rest && all_well_formed(items),
            Err(e) => res matches Err(err) && err == e,
        },
{
    proof {
        lemma_items_at(input@, 0);
    }
    match decode_items(input, 0) {
        Ok((values, next, _)) => Ok((values, slice_subrange(input, next, input.len()))),
        Err(e) => Err(e),
    }
}

} // verus!