//! What is written is read back: the values for which this holds, and the
//! proof that it does.

use crate::bencode::decode::{
    decode, decode_bytes, decode_chunks, decode_dict_value, decode_entries, decode_items,
    decode_number, decode_text, split_chunks, ByteMode,
};
use crate::bencode::dict::{
    distinct_keys, insert_entry, lemma_insert_keeps_distinct, lemma_position, position,
};
use crate::bencode::encode::{
    encode, encode_bytes, encode_dict_value, encode_entries, encode_items, encode_text,
};
use crate::bencode::{BenError, BencodeView, DictValueView};
use crate::decimal::{
    decimal, is_digit, lemma_decimal_digits, lemma_parse_signed_decimal,
    lemma_parse_unsigned_decimal, parse_length, signed_decimal,
};
use vstd::prelude::*;
use vstd::seq_lib::lemma_flatten_concat;
use vstd::utf8::{
    decode_utf8_encode_utf8, encode_utf8, encode_utf8_decode_utf8, encode_utf8_valid_utf8,
};

verus! {

/// What holds of every dictionary value in memory: the value is well formed,
/// and the bytes of a raw byte string can be counted.
pub open spec fn well_formed_value(v: DictValueView) -> bool
    decreases v,
{
    match v {
        DictValueView::Bencode(b) => well_formed(b),
        DictValueView::Bytes(chunks) => chunks.flatten().len() <= usize::MAX,
    }
}

/// What holds of every Bencode value in memory: the bytes of each string can
/// be counted, and no dictionary has a key twice.
pub open spec fn well_formed(v: BencodeView) -> bool
    decreases v,
{
    match v {
        BencodeView::String(s) => encode_utf8(s).len() <= usize::MAX,
        BencodeView::Number(_) => true,
        BencodeView::List(items) => forall|i: int|
            0 <= i < items.len() ==> well_formed(#[trigger] items[i]),
        BencodeView::Dict(entries) => {
            &&& distinct_keys(entries)
            &&& forall|i: int|
                0 <= i < entries.len() ==> encode_utf8((#[trigger] entries[i]).0).len()
                    <= usize::MAX && well_formed_value(entries[i].1)
        },
    }
}

/// Whether a dictionary's value is of the kind that the rule gives its key:
/// chunks of the rule's width, which is not zero, where the rule names one;
/// a Bencode value that follows the rule where it names none.
pub open spec fn entry_follows(key: Seq<char>, v: DictValueView, mode: ByteMode) -> bool
    decreases v,
{
    match (mode(key), v) {
        (None, DictValueView::Bencode(b)) => follows(b, mode),
        (Some(width), DictValueView::Bytes(chunks)) => width > 0 && forall|i: int|
            0 <= i < chunks.len() ==> (#[trigger] chunks[i]).len() == width,
        _ => false,
    }
}

/// Whether a value follows a byte-mode rule: in each of its dictionaries,
/// each value is of the kind that the rule gives its key.
pub open spec fn follows(v: BencodeView, mode: ByteMode) -> bool
    decreases v,
{
    match v {
        BencodeView::String(_) => true,
        BencodeView::Number(_) => true,
        BencodeView::List(items) => forall|i: int|
            0 <= i < items.len() ==> follows(#[trigger] items[i], mode),
        BencodeView::Dict(entries) => forall|i: int|
            0 <= i < entries.len() ==> entry_follows(
                (#[trigger] entries[i]).0,
                entries[i].1,
                mode,
            ),
    }
}

/// A byte string is read back from what was written for it.
pub proof fn lemma_decode_bytes(body: Seq<u8>, tail: Seq<u8>)
    requires
        body.len() <= usize::MAX,
    ensures
        decode_bytes(encode_bytes(body) + tail) == Ok::<(Seq<u8>, Seq<u8>), BenError>(
            (body, tail),
        ),
{
    let digits = decimal(body.len());
    let s = encode_bytes(body) + tail;
    let colon = digits.len() as int;
    lemma_decimal_digits(body.len());
    lemma_parse_unsigned_decimal(body.len());
    assert(s[colon] == 0x3au8);
    assert forall|j: int| 0 <= j < colon implies s[j] != 0x3au8 by {
        assert(s[j] == digits[j]);
        assert(is_digit(digits[j]));
    }
    s.index_of_first_ensures(0x3au8);
    assert(s.contains(0x3au8));
    assert(s.index_of_first(0x3au8) == Some(colon));
    assert(s.take(colon) =~= digits);
    assert(s.subrange(colon + 1, colon + 1 + body.len()) =~= body);
    assert(s.skip(colon + 1 + body.len()) =~= tail);
}

/// A string is read back from what was written for it.
pub proof fn lemma_decode_text(text: Seq<char>, tail: Seq<u8>)
    requires
        encode_utf8(text).len() <= usize::MAX,
    ensures
        decode_text(encode_text(text) + tail) == Ok::<(Seq<char>, Seq<u8>), BenError>(
            (text, tail),
        ),
{
    lemma_decode_bytes(encode_utf8(text), tail);
    encode_utf8_valid_utf8(text);
    encode_utf8_decode_utf8(text);
}

/// An integer is read back from what was written behind its `i`.
pub proof fn lemma_decode_number(n: i64, tail: Seq<u8>)
    ensures
        decode_number(signed_decimal(n as int) + seq![0x65u8] + tail) == Ok::<
            (i64, Seq<u8>),
            BenError,
        >((n, tail)),
{
    let text = signed_decimal(n as int);
    let s = text + seq![0x65u8] + tail;
    let end = text.len() as int;
    lemma_parse_signed_decimal(n as int);
    if n < 0 {
        lemma_decimal_digits((-(n as int)) as nat);
    } else {
        lemma_decimal_digits(n as nat);
    }
    assert(s[end] == 0x65u8);
    assert forall|j: int| 0 <= j < end implies s[j] != 0x65u8 by {
        assert(s[j] == text[j]);
        if n < 0 {
            if j > 0 {
                assert(text[j] == decimal((-(n as int)) as nat)[j - 1]);
                assert(is_digit(decimal((-(n as int)) as nat)[j - 1]));
            }
        } else {
            assert(is_digit(decimal(n as nat)[j]));
        }
    }
    s.index_of_first_ensures(0x65u8);
    assert(s.contains(0x65u8));
    assert(s.index_of_first(0x65u8) == Some(end));
    assert(s.take(end) =~= text);
    assert(s.skip(end + 1) =~= tail);
}

/// Chunks of one width, laid end to end, have the length of all of them, and
/// each is found again at its place.
pub proof fn lemma_uniform_chunks(chunks: Seq<Seq<u8>>, width: nat)
    requires
        forall|i: int| 0 <= i < chunks.len() ==> (#[trigger] chunks[i]).len() == width,
    ensures
        chunks.flatten().len() == chunks.len() * width,
        forall|i: int|
            0 <= i < chunks.len() ==> chunks.flatten().subrange(i * width, (i + 1) * width)
                == #[trigger] chunks[i],
    decreases chunks.len(),
{
    if chunks.len() == 0 {
        assert(chunks.len() * width == 0) by (nonlinear_arith)
            requires
                chunks.len() == 0,
        ;
    } else {
        let front = chunks.drop_last();
        let last = chunks.last();
        lemma_uniform_chunks(front, width);
        assert(chunks =~= front + seq![last]);
        lemma_flatten_concat(front, seq![last]);
        seq![last].lemma_flatten_one_element();
        let flat = chunks.flatten();
        assert(flat =~= front.flatten() + last);
        assert(chunks.len() * width == front.len() * width + width) by (nonlinear_arith)
            requires
                chunks.len() == front.len() + 1,
        ;
        assert forall|i: int| 0 <= i < chunks.len() implies flat.subrange(
            i * width,
            (i + 1) * width,
        ) == #[trigger] chunks[i] by {
            assert((i + 1) * width == i * width + width) by (nonlinear_arith);
            if i < front.len() {
                assert((i + 1) * width <= front.len() * width) by (nonlinear_arith)
                    requires
                        i + 1 <= front.len(),
                ;
                assert(0 <= i * width) by (nonlinear_arith)
                    requires
                        0 <= i,
                ;
                assert(flat.subrange(i * width, (i + 1) * width) =~= front.flatten().subrange(
                    i * width,
                    (i + 1) * width,
                ));
                assert(front[i] == chunks[i]);
            } else {
                assert(flat.subrange(i * width, (i + 1) * width) =~= last);
            }
        }
    }
}

/// A raw byte string is read back, in its chunks, from what was written for
/// it.
pub proof fn lemma_decode_chunks(chunks: Seq<Seq<u8>>, width: usize, tail: Seq<u8>)
    requires
        width > 0,
        forall|i: int| 0 <= i < chunks.len() ==> (#[trigger] chunks[i]).len() == width,
        chunks.flatten().len() <= usize::MAX,
    ensures
        decode_chunks(encode_bytes(chunks.flatten()) + tail, width) == Ok::<
            (Seq<Seq<u8>>, Seq<u8>),
            BenError,
        >((chunks, tail)),
{
    let flat = chunks.flatten();
    let w = width as nat;
    lemma_decode_bytes(flat, tail);
    lemma_uniform_chunks(chunks, w);
    assert(flat.len() % w == 0 && flat.len() / w == chunks.len()) by (nonlinear_arith)
        requires
            flat.len() == chunks.len() * w,
            w > 0,
    ;
    assert(split_chunks(flat, w) =~= chunks);
}

/// What is written for a value begins with a digit, `i`, `l` or `d`.
pub proof fn lemma_encode_begins(v: BencodeView)
    ensures
        encode(v).len() > 0,
        is_digit(encode(v)[0]) || encode(v)[0] == 0x69 || encode(v)[0] == 0x6c || encode(v)[0]
            == 0x64,
        v is String <==> is_digit(encode(v)[0]),
        v is Number <==> encode(v)[0] == 0x69,
        v is List <==> encode(v)[0] == 0x6c,
        v is Dict <==> encode(v)[0] == 0x64,
{
    match v {
        BencodeView::String(s) => {
            lemma_decimal_digits(encode_utf8(s).len());
            assert(encode(v)[0] == decimal(encode_utf8(s).len())[0]);
        },
        _ => {},
    }
}

/// What is written for a key begins with a digit.
pub proof fn lemma_encode_text_begins(text: Seq<char>)
    ensures
        encode_text(text).len() > 0,
        is_digit(encode_text(text)[0]),
{
    lemma_decimal_digits(encode_utf8(text).len());
    assert(encode_text(text)[0] == decimal(encode_utf8(text).len())[0]);
}

/// The items of a list are written first item first.
pub proof fn lemma_encode_items_first(items: Seq<BencodeView>)
    requires
        items.len() > 0,
    ensures
        encode_items(items) == encode(items[0]) + encode_items(items.drop_first()),
    decreases items.len(),
{
    if items.len() == 1 {
        assert(items.drop_last() =~= Seq::<BencodeView>::empty());
        assert(items.drop_first() =~= Seq::<BencodeView>::empty());
        assert(encode_items(items) =~= encode(items[0]) + encode_items(items.drop_first()));
    } else {
        lemma_encode_items_first(items.drop_last());
        assert(items.drop_last().drop_first() =~= items.drop_first().drop_last());
        assert(items.drop_last()[0] == items[0]);
        assert(items.drop_first().last() == items.last());
        assert(encode_items(items) =~= encode(items[0]) + encode_items(items.drop_first()));
    }
}

/// The entries of a dictionary are written first entry first.
pub proof fn lemma_encode_entries_first(entries: Seq<(Seq<char>, DictValueView)>)
    requires
        entries.len() > 0,
    ensures
        encode_entries(entries) == encode_text(entries[0].0) + encode_dict_value(entries[0].1)
            + encode_entries(entries.drop_first()),
    decreases entries.len(),
{
    if entries.len() == 1 {
        assert(entries.drop_last() =~= Seq::<(Seq<char>, DictValueView)>::empty());
        assert(entries.drop_first() =~= Seq::<(Seq<char>, DictValueView)>::empty());
        assert(encode_entries(entries) =~= encode_text(entries[0].0) + encode_dict_value(
            entries[0].1,
        ) + encode_entries(entries.drop_first()));
    } else {
        lemma_encode_entries_first(entries.drop_last());
        assert(entries.drop_last().drop_first() =~= entries.drop_first().drop_last());
        assert(entries.drop_last()[0] == entries[0]);
        assert(entries.drop_first().last() == entries.last());
        assert(encode_entries(entries) =~= encode_text(entries[0].0) + encode_dict_value(
            entries[0].1,
        ) + encode_entries(entries.drop_first()));
    }
}

/// Whether every item is well formed and follows the rule.
pub open spec fn items_round_trip(items: Seq<BencodeView>, mode: ByteMode) -> bool {
    forall|i: int|
        0 <= i < items.len() ==> well_formed(#[trigger] items[i]) && follows(items[i], mode)
}

/// Whether every entry's key can be counted and its value is well formed and
/// of the kind that the rule gives the key.
pub open spec fn entries_round_trip(
    entries: Seq<(Seq<char>, DictValueView)>,
    mode: ByteMode,
) -> bool {
    forall|i: int|
        0 <= i < entries.len() ==> encode_utf8((#[trigger] entries[i]).0).len() <= usize::MAX
            && well_formed_value(entries[i].1) && entry_follows(entries[i].0, entries[i].1, mode)
}

/// A value that is well formed and follows the rule is read back from what
/// was written for it, and what follows it is left over.
pub proof fn lemma_decode_encode(v: BencodeView, mode: ByteMode, tail: Seq<u8>)
    requires
        well_formed(v),
        follows(v, mode),
    ensures
        decode(encode(v) + tail, mode) == Ok::<(BencodeView, Seq<u8>), BenError>((v, tail)),
    decreases v,
{
    lemma_encode_begins(v);
    let s = encode(v) + tail;
    assert(s[0] == encode(v)[0]);
    match v {
        BencodeView::String(text) => {
            lemma_decode_text(text, tail);
        },
        BencodeView::Number(n) => {
            lemma_decode_number(n, tail);
            assert(s.skip(1) =~= signed_decimal(n as int) + seq![0x65u8] + tail);
        },
        BencodeView::List(items) => {
            lemma_decode_items(items, mode, tail, Seq::empty());
            assert(s.skip(1) =~= encode_items(items) + seq![0x65u8] + tail);
            assert(Seq::<BencodeView>::empty() + items =~= items);
        },
        BencodeView::Dict(entries) => {
            assert(Seq::<(Seq<char>, DictValueView)>::empty() + entries =~= entries);
            lemma_decode_entries(entries, mode, tail, Seq::empty());
            assert(s.skip(1) =~= encode_entries(entries) + seq![0x65u8] + tail);
        },
    }
}

/// The items of a list are read back, behind those read before them.
pub proof fn lemma_decode_items(
    items: Seq<BencodeView>,
    mode: ByteMode,
    tail: Seq<u8>,
    read: Seq<BencodeView>,
)
    requires
        items_round_trip(items, mode),
    ensures
        decode_items(encode_items(items) + seq![0x65u8] + tail, mode, read) == Ok::<
            (Seq<BencodeView>, Seq<u8>),
            BenError,
        >((read + items, tail)),
    decreases items,
{
    let s = encode_items(items) + seq![0x65u8] + tail;
    if items.len() == 0 {
        assert(s[0] == 0x65u8);
        assert(s.skip(1) =~= tail);
        assert(read + items =~= read);
    } else {
        let first = items[0];
        let others = items.drop_first();
        let rest = encode_items(others) + seq![0x65u8] + tail;
        lemma_encode_items_first(items);
        lemma_encode_begins(first);
        assert(s =~= encode(first) + rest);
        assert(s[0] == encode(first)[0]);
        lemma_decode_encode(first, mode, rest);
        assert(items_round_trip(others, mode)) by {
            assert forall|i: int| 0 <= i < others.len() implies well_formed(#[trigger] others[i])
                && follows(others[i], mode) by {
                assert(others[i] == items[i + 1]);
            }
        }
        lemma_decode_items(others, mode, tail, read.push(first));
        assert(read.push(first) + others =~= read + items);
    }
}

/// The value of a dictionary's entry is read back.
pub proof fn lemma_decode_dict_value(
    key: Seq<char>,
    value: DictValueView,
    mode: ByteMode,
    tail: Seq<u8>,
)
    requires
        well_formed_value(value),
        entry_follows(key, value, mode),
    ensures
        decode_dict_value(encode_dict_value(value) + tail, mode, key) == Ok::<
            (DictValueView, Seq<u8>),
            BenError,
        >((value, tail)),
        encode_dict_value(value).len() > 0,
    decreases value,
{
    match value {
        DictValueView::Bencode(b) => {
            lemma_decode_encode(b, mode, tail);
            lemma_encode_begins(b);
        },
        DictValueView::Bytes(chunks) => {
            lemma_decode_chunks(chunks, mode(key)->Some_0, tail);
            lemma_decimal_digits(chunks.flatten().len());
        },
    }
}

/// The entries of a dictionary are read back, behind those read before them,
/// where no key comes twice.
pub proof fn lemma_decode_entries(
    entries: Seq<(Seq<char>, DictValueView)>,
    mode: ByteMode,
    tail: Seq<u8>,
    read: Seq<(Seq<char>, DictValueView)>,
)
    requires
        entries_round_trip(entries, mode),
        distinct_keys(read + entries),
    ensures
        decode_entries(encode_entries(entries) + seq![0x65u8] + tail, mode, read) == Ok::<
            (Seq<(Seq<char>, DictValueView)>, Seq<u8>),
            BenError,
        >((read + entries, tail)),
    decreases entries,
{
    let s = encode_entries(entries) + seq![0x65u8] + tail;
    if entries.len() == 0 {
        assert(s[0] == 0x65u8);
        assert(s.skip(1) =~= tail);
        assert(read + entries =~= read);
    } else {
        let key = entries[0].0;
        let value = entries[0].1;
        let others = entries.drop_first();
        let rest = encode_entries(others) + seq![0x65u8] + tail;
        let after_key = encode_dict_value(value) + rest;
        lemma_encode_entries_first(entries);
        lemma_encode_text_begins(key);
        assert(s =~= encode_text(key) + after_key);
        assert(s[0] == encode_text(key)[0]);
        lemma_decode_text(key, after_key);
        lemma_decode_dict_value(key, value, mode, rest);
        assert(entries_round_trip(others, mode)) by {
            assert forall|i: int| 0 <= i < others.len() implies encode_utf8(
                (#[trigger] others[i]).0,
            ).len() <= usize::MAX && well_formed_value(others[i].1) && entry_follows(
                others[i].0,
                others[i].1,
                mode,
            ) by {
                assert(others[i] == entries[i + 1]);
            }
        }
        let all = read + entries;
        assert(insert_entry(read, key, value) == read.push((key, value))) by {
            lemma_position(read, key);
            if position(read, key) < read.len() {
                let at = position(read, key);
                assert(all[at] == read[at]);
                assert(all[read.len() as int] == entries[0]);
            }
        }
        assert(read.push((key, value)) + others =~= all);
        lemma_decode_entries(others, mode, tail, read.push((key, value)));
    }
}

/// Bencode round trip: a value that is well formed and follows the byte-mode
/// rule is read back from the bytes written for it, and nothing is left
/// over.
pub proof fn lemma_round_trip(v: BencodeView, mode: ByteMode)
    requires
        well_formed(v),
        follows(v, mode),
    ensures
        decode(encode(v), mode) == Ok::<(BencodeView, Seq<u8>), BenError>((v, Seq::empty())),
{
    lemma_decode_encode(v, mode, Seq::empty());
    assert(encode(v) + Seq::<u8>::empty() =~= encode(v));
}

/// A byte string that was read lies within the bytes it was read from.
pub proof fn lemma_decoded_bytes(s: Seq<u8>)
    requires
        decode_bytes(s) is Ok,
    ensures
        decode_bytes(s)->Ok_0.0.len() + decode_bytes(s)->Ok_0.1.len() < s.len(),
{
    s.index_of_first_ensures(0x3au8);
}

/// The chunks that a byte string divides into have the width asked for, and
/// laid end to end they are the byte string.
pub proof fn lemma_split_chunks(body: Seq<u8>, width: nat)
    requires
        width > 0,
        body.len() % width == 0,
    ensures
        forall|i: int|
            0 <= i < split_chunks(body, width).len() ==> (#[trigger] split_chunks(
                body,
                width,
            )[i]).len() == width,
        split_chunks(body, width).flatten() == body,
{
    let chunks = split_chunks(body, width);
    let count = body.len() / width;
    assert(body.len() == count * width) by (nonlinear_arith)
        requires
            width > 0,
            body.len() % width == 0,
            count == body.len() / width,
    ;
    assert forall|i: int| 0 <= i < chunks.len() implies (#[trigger] chunks[i]).len()
        == width by {
        assert((i + 1) * width <= count * width) by (nonlinear_arith)
            requires
                i + 1 <= count,
        ;
        assert((i + 1) * width == i * width + width) by (nonlinear_arith);
        assert(0 <= i * width) by (nonlinear_arith)
            requires
                0 <= i,
        ;
    }
    lemma_uniform_chunks(chunks, width);
    let flat = chunks.flatten();
    assert(flat.len() == body.len());
    assert forall|k: int| 0 <= k < body.len() implies flat[k] == body[k] by {
        let i = k / width as int;
        assert(0 <= i < count && i * width <= k < (i + 1) * width) by (nonlinear_arith)
            requires
                0 <= k < count * width,
                width > 0,
                i == k / width as int,
        ;
        let piece = flat.subrange(i * width, (i + 1) * width);
        assert((i + 1) * width <= count * width) by (nonlinear_arith)
            requires
                i + 1 <= count,
        ;
        assert(piece == chunks[i]);
        assert(piece[k - i * width] == flat[k]);
        assert(chunks[i][k - i * width] == body[k]);
    }
    assert(flat =~= body);
}

/// Giving a key a value keeps the entries fit for the round trip.
pub proof fn lemma_insert_keeps_round_trip(
    entries: Seq<(Seq<char>, DictValueView)>,
    key: Seq<char>,
    value: DictValueView,
    mode: ByteMode,
)
    requires
        entries_round_trip(entries, mode),
        encode_utf8(key).len() <= usize::MAX,
        well_formed_value(value),
        entry_follows(key, value, mode),
    ensures
        entries_round_trip(insert_entry(entries, key, value), mode),
{
    lemma_position(entries, key);
    let after = insert_entry(entries, key, value);
    let at = position(entries, key);
    assert forall|i: int| 0 <= i < after.len() implies encode_utf8((#[trigger] after[i]).0).len()
        <= usize::MAX && well_formed_value(after[i].1) && entry_follows(
        after[i].0,
        after[i].1,
        mode,
    ) by {
        if at < entries.len() {
            if i != at {
                assert(after[i] == entries[i]);
            }
        } else if i < entries.len() {
            assert(after[i] == entries[i]);
        }
    }
}

/// A value that was read is well formed and follows the rule under which it
/// was read, and what is left over is shorter than what was there.
pub proof fn lemma_decoded(s: Seq<u8>, mode: ByteMode)
    requires
        s.len() <= usize::MAX,
        decode(s, mode) is Ok,
    ensures
        well_formed(decode(s, mode)->Ok_0.0),
        follows(decode(s, mode)->Ok_0.0, mode),
        decode(s, mode)->Ok_0.1.len() < s.len(),
    decreases s.len(), 0int,
{
    if is_digit(s[0]) {
        lemma_decoded_bytes(s);
        decode_utf8_encode_utf8(decode_bytes(s)->Ok_0.0);
    } else if s[0] == 0x69 {
        s.skip(1).index_of_first_ensures(0x65u8);
    } else if s[0] == 0x6c {
        lemma_decoded_items(s.skip(1), mode, Seq::empty());
    } else if s[0] == 0x64 {
        lemma_decoded_entries(s.skip(1), mode, Seq::empty());
    }
}

/// The items that were read are well formed and follow the rule.
pub proof fn lemma_decoded_items(s: Seq<u8>, mode: ByteMode, read: Seq<BencodeView>)
    requires
        s.len() <= usize::MAX,
        items_round_trip(read, mode),
        decode_items(s, mode, read) is Ok,
    ensures
        items_round_trip(decode_items(s, mode, read)->Ok_0.0, mode),
        decode_items(s, mode, read)->Ok_0.1.len() < s.len(),
    decreases s.len(), 1int,
{
    if s[0] != 0x65 {
        lemma_decoded(s, mode);
        let item = decode(s, mode)->Ok_0.0;
        let rest = decode(s, mode)->Ok_0.1;
        let more = read.push(item);
        assert(items_round_trip(more, mode)) by {
            assert forall|i: int| 0 <= i < more.len() implies well_formed(#[trigger] more[i])
                && follows(more[i], mode) by {
                if i < read.len() {
                    assert(more[i] == read[i]);
                }
            }
        }
        lemma_decoded_items(rest, mode, more);
    }
}

/// The entries that were read are fit for the round trip, and no key comes
/// twice among them.
pub proof fn lemma_decoded_entries(
    s: Seq<u8>,
    mode: ByteMode,
    read: Seq<(Seq<char>, DictValueView)>,
)
    requires
        s.len() <= usize::MAX,
        entries_round_trip(read, mode),
        distinct_keys(read),
        decode_entries(s, mode, read) is Ok,
    ensures
        entries_round_trip(decode_entries(s, mode, read)->Ok_0.0, mode),
        distinct_keys(decode_entries(s, mode, read)->Ok_0.0),
        decode_entries(s, mode, read)->Ok_0.1.len() < s.len(),
    decreases s.len(), 2int,
{
    if s[0] != 0x65 {
        lemma_decoded_bytes(s);
        decode_utf8_encode_utf8(decode_bytes(s)->Ok_0.0);
        let key = decode_text(s)->Ok_0.0;
        let after_key = decode_text(s)->Ok_0.1;
        let value = decode_dict_value(after_key, mode, key)->Ok_0.0;
        let rest = decode_dict_value(after_key, mode, key)->Ok_0.1;
        match mode(key) {
            None => {
                lemma_decoded(after_key, mode);
            },
            Some(width) => {
                lemma_decoded_bytes(after_key);
                lemma_split_chunks(decode_bytes(after_key)->Ok_0.0, width as nat);
            },
        }
        lemma_insert_keeps_round_trip(read, key, value, mode);
        lemma_insert_keeps_distinct(read, key, value);
        lemma_decoded_entries(rest, mode, insert_entry(read, key, value));
    }
}

/// Round trip of what was read: a value that was read under a rule is read
/// again, under the same rule, from the bytes written for it.
pub proof fn lemma_round_trip_of_decoded(bytes: Seq<u8>, mode: ByteMode)
    requires
        bytes.len() <= usize::MAX,
        decode(bytes, mode) is Ok,
    ensures
        decode(encode(decode(bytes, mode)->Ok_0.0), mode) == Ok::<(BencodeView, Seq<u8>), BenError>(
            (decode(bytes, mode)->Ok_0.0, Seq::empty()),
        ),
{
    lemma_decoded(bytes, mode);
    lemma_round_trip(decode(bytes, mode)->Ok_0.0, mode);
}

/// Byte-mode fidelity: chunks of one width are written as the decimal number
/// of all their bytes, a colon, and the bytes of the chunks in their order.
pub proof fn lemma_byte_mode_fidelity(chunks: Seq<Seq<u8>>, width: nat)
    requires
        forall|i: int| 0 <= i < chunks.len() ==> (#[trigger] chunks[i]).len() == width,
    ensures
        encode_dict_value(DictValueView::Bytes(chunks)) == decimal(chunks.len() * width)
            + seq![0x3au8] + chunks.flatten(),
        chunks.flatten().len() == chunks.len() * width,
{
    lemma_uniform_chunks(chunks, width);
}

/// A raw byte string that was read in chunks is written back byte for byte.
pub proof fn lemma_raw_bytes_are_kept(s: Seq<u8>, width: usize)
    requires
        decode_chunks(s, width) is Ok,
    ensures
        encode_dict_value(DictValueView::Bytes(decode_chunks(s, width)->Ok_0.0)) == encode_bytes(
            decode_bytes(s)->Ok_0.0,
        ),
{
    lemma_split_chunks(decode_bytes(s)->Ok_0.0, width as nat);
}

/// The first place of a byte in a sequence is its first place in the
/// sequence with more behind it.
proof fn lemma_first_index_ignores_tail(s: Seq<u8>, tail: Seq<u8>, b: u8)
    requires
        s.index_of_first(b) is Some,
    ensures
        (s + tail).index_of_first(b) == s.index_of_first(b),
        0 <= s.index_of_first(b)->Some_0 < s.len(),
{
    s.index_of_first_ensures(b);
    (s + tail).index_of_first_ensures(b);
    let at = s.index_of_first(b)->Some_0;
    assert((s + tail)[at] == b);
    assert((s + tail).contains(b));
    let other = (s + tail).index_of_first(b)->Some_0;
    if other < at {
        assert((s + tail)[other] == s[other]);
    }
}

/// What follows a byte string does not change how it is read.
pub proof fn lemma_decode_bytes_ignores_tail(s: Seq<u8>, tail: Seq<u8>)
    requires
        decode_bytes(s) is Ok,
    ensures
        decode_bytes(s + tail) == Ok::<(Seq<u8>, Seq<u8>), BenError>(
            (decode_bytes(s)->Ok_0.0, decode_bytes(s)->Ok_0.1 + tail),
        ),
{
    lemma_first_index_ignores_tail(s, tail, 0x3au8);
    let colon = s.index_of_first(0x3au8)->Some_0;
    let n = parse_length(s.take(colon))->Some_0;
    assert((s + tail).take(colon) =~= s.take(colon));
    assert((s + tail).subrange(colon + 1, colon + 1 + n) =~= s.subrange(
        colon + 1,
        colon + 1 + n,
    ));
    assert((s + tail).skip(colon + 1 + n) =~= s.skip(colon + 1 + n) + tail);
}

/// What follows an integer does not change how it is read.
pub proof fn lemma_decode_number_ignores_tail(s: Seq<u8>, tail: Seq<u8>)
    requires
        decode_number(s) is Ok,
    ensures
        decode_number(s + tail) == Ok::<(i64, Seq<u8>), BenError>(
            (decode_number(s)->Ok_0.0, decode_number(s)->Ok_0.1 + tail),
        ),
{
    lemma_first_index_ignores_tail(s, tail, 0x65u8);
    let end = s.index_of_first(0x65u8)->Some_0;
    assert((s + tail).take(end) =~= s.take(end));
    assert((s + tail).skip(end + 1) =~= s.skip(end + 1) + tail);
}

/// What follows a value does not change what is read: the same value is
/// read, and what follows it is left over behind what was left over before.
pub proof fn lemma_decode_ignores_tail(s: Seq<u8>, tail: Seq<u8>, mode: ByteMode)
    requires
        decode(s, mode) is Ok,
    ensures
        decode(s + tail, mode) == Ok::<(BencodeView, Seq<u8>), BenError>(
            (decode(s, mode)->Ok_0.0, decode(s, mode)->Ok_0.1 + tail),
        ),
    decreases s.len(), 0int,
{
    assert((s + tail)[0] == s[0]);
    assert((s + tail).skip(1) =~= s.skip(1) + tail);
    if is_digit(s[0]) {
        lemma_decode_bytes_ignores_tail(s, tail);
    } else if s[0] == 0x69 {
        lemma_decode_number_ignores_tail(s.skip(1), tail);
    } else if s[0] == 0x6c {
        lemma_decode_items_ignores_tail(s.skip(1), tail, mode, Seq::empty());
    } else if s[0] == 0x64 {
        lemma_decode_entries_ignores_tail(s.skip(1), tail, mode, Seq::empty());
    }
}

/// What follows a list does not change what is read.
pub proof fn lemma_decode_items_ignores_tail(
    s: Seq<u8>,
    tail: Seq<u8>,
    mode: ByteMode,
    read: Seq<BencodeView>,
)
    requires
        decode_items(s, mode, read) is Ok,
    ensures
        decode_items(s + tail, mode, read) == Ok::<(Seq<BencodeView>, Seq<u8>), BenError>(
            (decode_items(s, mode, read)->Ok_0.0, decode_items(s, mode, read)->Ok_0.1 + tail),
        ),
    decreases s.len(), 1int,
{
    assert((s + tail)[0] == s[0]);
    if s[0] == 0x65 {
        assert((s + tail).skip(1) =~= s.skip(1) + tail);
    } else {
        lemma_decode_ignores_tail(s, tail, mode);
        let item = decode(s, mode)->Ok_0.0;
        let rest = decode(s, mode)->Ok_0.1;
        lemma_decode_items_ignores_tail(rest, tail, mode, read.push(item));
    }
}

/// What follows the value of a dictionary's entry does not change what is
/// read.
pub proof fn lemma_decode_dict_value_ignores_tail(
    s: Seq<u8>,
    tail: Seq<u8>,
    mode: ByteMode,
    key: Seq<char>,
)
    requires
        decode_dict_value(s, mode, key) is Ok,
    ensures
        decode_dict_value(s + tail, mode, key) == Ok::<(DictValueView, Seq<u8>), BenError>(
            (
                decode_dict_value(s, mode, key)->Ok_0.0,
                decode_dict_value(s, mode, key)->Ok_0.1 + tail,
            ),
        ),
    decreases s.len(), 1int,
{
    match mode(key) {
        None => {
            lemma_decode_ignores_tail(s, tail, mode);
        },
        Some(width) => {
            lemma_decode_bytes_ignores_tail(s, tail);
        },
    }
}

/// What follows a dictionary does not change what is read.
pub proof fn lemma_decode_entries_ignores_tail(
    s: Seq<u8>,
    tail: Seq<u8>,
    mode: ByteMode,
    read: Seq<(Seq<char>, DictValueView)>,
)
    requires
        decode_entries(s, mode, read) is Ok,
    ensures
        decode_entries(s + tail, mode, read) == Ok::<
            (Seq<(Seq<char>, DictValueView)>, Seq<u8>),
            BenError,
        >((decode_entries(s, mode, read)->Ok_0.0, decode_entries(s, mode, read)->Ok_0.1 + tail)),
    decreases s.len(), 2int,
{
    assert((s + tail)[0] == s[0]);
    if s[0] == 0x65 {
        assert((s + tail).skip(1) =~= s.skip(1) + tail);
    } else {
        lemma_decode_bytes_ignores_tail(s, tail);
        let key = decode_text(s)->Ok_0.0;
        let after_key = decode_text(s)->Ok_0.1;
        lemma_decode_dict_value_ignores_tail(after_key, tail, mode, key);
        let value = decode_dict_value(after_key, mode, key)->Ok_0.0;
        let rest = decode_dict_value(after_key, mode, key)->Ok_0.1;
        lemma_decode_entries_ignores_tail(rest, tail, mode, insert_entry(read, key, value));
    }
}

} // verus!
