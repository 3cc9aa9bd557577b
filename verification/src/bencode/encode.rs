//! Writing Bencode: what the bytes of a value are, and `to_bytes`, which
//! writes them.

use crate::bencode::{
    chunk_views, lemma_list_view, BenResult, Bencode, BencodeDictValues, BencodeView, DictValueView,
};
use crate::bencode::dict::dict_entries;
use crate::decimal::{decimal, push_decimal, push_signed_decimal, signed_decimal};
use vstd::prelude::*;
use vstd::seq_lib::lemma_flatten_concat;
use vstd::utf8::encode_utf8;

verus! {

/// A byte string: its length in decimal, a colon, and the bytes.
pub open spec fn encode_bytes(body: Seq<u8>) -> Seq<u8> {
    decimal(body.len()) + seq![0x3au8] + body
}

/// A string: the byte string of its UTF-8 form.
pub open spec fn encode_text(s: Seq<char>) -> Seq<u8> {
    encode_bytes(encode_utf8(s))
}

/// An integer: `i`, the number in decimal, `e`.
pub open spec fn encode_number(n: i64) -> Seq<u8> {
    seq![0x69u8] + signed_decimal(n as int) + seq![0x65u8]
}

/// The bytes of a value.
pub open spec fn encode(v: BencodeView) -> Seq<u8>
    decreases v,
{
    match v {
        BencodeView::String(s) => encode_text(s),
        BencodeView::Number(n) => encode_number(n),
        BencodeView::List(items) => seq![0x6cu8] + encode_items(items) + seq![0x65u8],
        BencodeView::Dict(entries) => seq![0x64u8] + encode_entries(entries) + seq![0x65u8],
    }
}

/// The bytes of the items of a list, one after the other.
pub open spec fn encode_items(items: Seq<BencodeView>) -> Seq<u8>
    decreases items,
{
    if items.len() == 0 {
        Seq::empty()
    } else {
        encode_items(items.drop_last()) + encode(items.last())
    }
}

/// The bytes of the entries of a dictionary, in their order: each key as a
/// string, then its value.
pub open spec fn encode_entries(entries: Seq<(Seq<char>, DictValueView)>) -> Seq<u8>
    decreases entries,
{
    if entries.len() == 0 {
        Seq::empty()
    } else {
        encode_entries(entries.drop_last()) + encode_text(entries.last().0) + encode_dict_value(
            entries.last().1,
        )
    }
}

/// The bytes of a dictionary's value: those of the Bencode value, or the one
/// byte string that the chunks make up together.
pub open spec fn encode_dict_value(v: DictValueView) -> Seq<u8>
    decreases v,
{
    match v {
        DictValueView::Bencode(b) => encode(b),
        DictValueView::Bytes(chunks) => encode_bytes(chunks.flatten()),
    }
}

/// The chunks of a byte string, laid end to end.
pub(crate) fn join_chunks(chunks: &Vec<Vec<u8>>) -> (joined: Vec<u8>)
    ensures
        joined@ == chunk_views(chunks@).flatten(),
{
    let ghost all = chunk_views(chunks@);
    let mut joined: Vec<u8> = Vec::new();
    let mut i: usize = 0;
    while i < chunks.len()
        invariant
            i <= chunks@.len(),
            all == chunk_views(chunks@),
            joined@ == all.take(i as int).flatten(),
        decreases chunks@.len() - i,
    {
        proof {
            let one = seq![all[i as int]];
            assert(all.take(i + 1) =~= all.take(i as int) + one);
            lemma_flatten_concat(all.take(i as int), one);
            one.lemma_flatten_one_element();
        }
        joined.extend_from_slice(chunks[i].as_slice());
        i += 1;
    }
    assert(all.take(i as int) =~= all);
    joined
}

/// Appends a byte string to `out`.
pub(crate) fn write_bytes(out: &mut Vec<u8>, body: &[u8])
    ensures
        final(out)@ == old(out)@ + encode_bytes(body@),
{
    push_decimal(out, body.len() as u64);
    out.push(0x3a);
    out.extend_from_slice(body);
    assert(out@ =~= old(out)@ + encode_bytes(body@));
}

/// Appends a string to `out`.
pub(crate) fn write_text(out: &mut Vec<u8>, s: &str)
    ensures
        final(out)@ == old(out)@ + encode_text(s@),
{
    write_bytes(out, s.as_bytes());
}

/// Appends an integer to `out`.
pub(crate) fn write_number(out: &mut Vec<u8>, n: i64)
    ensures
        final(out)@ == old(out)@ + encode_number(n),
{
    out.push(0x69);
    push_signed_decimal(out, n);
    out.push(0x65);
    assert(out@ =~= old(out)@ + encode_number(n));
}

impl Bencode {
    /// The bytes of the value. Dictionaries are written in the order of
    /// their entries; writing never fails.
    pub fn to_bytes(&self) -> (r: BenResult<Vec<u8>>)
        ensures
            r matches Ok(bytes) && bytes@ == encode(self@),
    {
        let mut out: Vec<u8> = Vec::new();
        self.write_to(&mut out);
        assert(out@ =~= encode(self@));
        Ok(out)
    }

    /// Appends the bytes of the value to `out`.
    fn write_to(&self, out: &mut Vec<u8>)
        ensures
            final(out)@ == old(out)@ + encode(self@),
        decreases self@,
    {
        match self {
            Bencode::String(s) => {
                write_text(out, s.as_str());
            },
            Bencode::Number(n) => {
                write_number(out, *n);
            },
            Bencode::List(items) => {
                let ghost views = self@->List_0;
                proof {
                    lemma_list_view(*items);
                }
                out.push(0x6c);
                let mut i: usize = 0;
                while i < items.len()
                    invariant
                        i <= items@.len(),
                        self@ == BencodeView::List(views),
                        views.len() == items@.len(),
                        forall|j: int| 0 <= j < items@.len() ==> views[j] == items@[j]@,
                        out@ == old(out)@ + seq![0x6cu8] + encode_items(views.take(i as int)),
                    decreases items@.len() - i,
                {
                    proof {
                        assert(views.take(i + 1).drop_last() =~= views.take(i as int));
                        assert(decreases_to!(self@ => self@->List_0[i as int]));
                    }
                    items[i].write_to(out);
                    i += 1;
                    assert(out@ =~= old(out)@ + seq![0x6cu8] + encode_items(views.take(i as int)));
                }
                out.push(0x65);
                assert(views.take(i as int) =~= views);
                assert(out@ =~= old(out)@ + encode(self@));
            },
            Bencode::Dict(d) => {
                let ghost entries = dict_entries(*d);
                out.push(0x64);
                let n = d.len();
                let mut i: usize = 0;
                while i < n
                    invariant
                        i <= n,
                        n == entries.len(),
                        entries == dict_entries(*d),
                        self@ == BencodeView::Dict(entries),
                        out@ == old(out)@ + seq![0x64u8] + encode_entries(entries.take(i as int)),
                    decreases n - i,
                {
                    let ghost before = out@;
                    let ghost entry = entries[i as int];
                    proof {
                        assert(entries.take(i + 1).drop_last() =~= entries.take(i as int));
                        assert(entries.take(i + 1).last() == entry);
                    }
                    if let Some((key, value)) = d.get_index(i) {
                        write_text(out, key.as_str());
                        match value {
                            BencodeDictValues::Bencode(b) => {
                                proof {
                                    assert(entry.1 == DictValueView::Bencode(b@));
                                    assert(decreases_to!(self@ => self@->Dict_0[i as int].1->Bencode_0));
                                }
                                b.write_to(out);
                            },
                            BencodeDictValues::Bytes(chunks) => {
                                let joined = join_chunks(chunks);
                                write_bytes(out, joined.as_slice());
                            },
                        }
                        assert(out@ == before + encode_text(entry.0) + encode_dict_value(entry.1));
                    }
                    i += 1;
                    assert(out@ =~= old(out)@ + seq![0x64u8] + encode_entries(
                        entries.take(i as int),
                    ));
                }
                out.push(0x65);
                assert(entries.take(i as int) =~= entries);
                assert(out@ =~= old(out)@ + encode(self@));
            },
        }
    }
}

} // verus!
