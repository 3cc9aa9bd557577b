//! Reading Bencode: what a sequence of bytes says, and `from_bytes`, which
//! reads it. Every reader gives the value read and the bytes that follow it.

use crate::bencode::dict::{dict_entries, insert_entry, BencodeDict};
use crate::bencode::laws::{follows, lemma_decoded, well_formed};
use crate::bencode::{
    chunk_views, lemma_list_view, BenError, BenResult, Bencode, BencodeDictValues, BencodeView,
    DictValueView,
};
use crate::decimal::{is_digit, parse_i64, parse_integer, parse_length, parse_usize};
use crate::text::text_of;
use vstd::prelude::*;
use vstd::slice::{slice_subrange, slice_to_vec};
use vstd::utf8::{decode_utf8, valid_utf8};

verus! {

/// A byte-mode rule: the chunk width for the keys whose values are raw byte
/// strings, and `None` for the keys whose values are Bencode.
pub type ByteMode = spec_fn(Seq<char>) -> Option<usize>;

/// A byte string at the start of `s`: the digits up to the first colon are
/// its length, the bytes after the colon its body.
pub open spec fn decode_bytes(s: Seq<u8>) -> Result<(Seq<u8>, Seq<u8>), BenError> {
    match s.index_of_first(0x3au8) {
        None => Err(BenError::MissingToken { token: 0x3a }),
        Some(colon) => match parse_length(s.take(colon)) {
            None => Err(BenError::InvalidNumber),
            Some(n) => if colon + 1 + n > s.len() {
                Err(BenError::UnexpectedTruncationError)
            } else {
                Ok((s.subrange(colon + 1, colon + 1 + n), s.skip(colon + 1 + n)))
            },
        },
    }
}

/// A string at the start of `s`: a byte string whose body is UTF-8.
pub open spec fn decode_text(s: Seq<u8>) -> Result<(Seq<char>, Seq<u8>), BenError> {
    match decode_bytes(s) {
        Err(e) => Err(e),
        Ok((body, rest)) => if valid_utf8(body) {
            Ok((decode_utf8(body), rest))
        } else {
            Err(BenError::NonUtf8String)
        },
    }
}

/// An integer whose `i` has been read: the text up to the first `e` is the
/// number.
pub open spec fn decode_number(s: Seq<u8>) -> Result<(i64, Seq<u8>), BenError> {
    match s.index_of_first(0x65u8) {
        None => Err(BenError::MissingToken { token: 0x65 }),
        Some(end) => match parse_integer(s.take(end)) {
            None => Err(BenError::InvalidNumber),
            Some(n) => Ok((n, s.skip(end + 1))),
        },
    }
}

/// The chunks of `width` bytes that `body` divides into.
pub open spec fn split_chunks(body: Seq<u8>, width: nat) -> Seq<Seq<u8>> {
    Seq::new(body.len() / width, |i: int| body.subrange(i * width, (i + 1) * width))
}

/// A byte string at the start of `s`, in chunks of `width` bytes. A width of
/// zero divides nothing.
pub open spec fn decode_chunks(s: Seq<u8>, width: usize) -> Result<
    (Seq<Seq<u8>>, Seq<u8>),
    BenError,
> {
    match decode_bytes(s) {
        Err(e) => Err(e),
        Ok((body, rest)) => if width == 0 || body.len() % (width as nat) != 0 {
            Err(BenError::UnexpectedTruncationError)
        } else {
            Ok((split_chunks(body, width as nat), rest))
        },
    }
}

/// The value at the start of `s`. Its first byte says what it is: a digit a
/// string, `i` an integer, `l` a list, `d` a dictionary.
pub open spec fn decode(s: Seq<u8>, mode: ByteMode) -> Result<(BencodeView, Seq<u8>), BenError>
    decreases s.len(), 0int,
{
    if s.len() == 0 {
        Err(BenError::UnexpectedTruncationError)
    } else if is_digit(s[0]) {
        match decode_text(s) {
            Err(e) => Err(e),
            Ok((text, rest)) => Ok((BencodeView::String(text), rest)),
        }
    } else if s[0] == 0x69 {
        match decode_number(s.skip(1)) {
            Err(e) => Err(e),
            Ok((n, rest)) => Ok((BencodeView::Number(n), rest)),
        }
    } else if s[0] == 0x6c {
        match decode_items(s.skip(1), mode, Seq::empty()) {
            Err(e) => Err(e),
            Ok((items, rest)) => Ok((BencodeView::List(items), rest)),
        }
    } else if s[0] == 0x64 {
        match decode_entries(s.skip(1), mode, Seq::empty()) {
            Err(e) => Err(e),
            Ok((entries, rest)) => Ok((BencodeView::Dict(entries), rest)),
        }
    } else if s[0] == 0x65 {
        Err(BenError::MisplacedClosingError)
    } else {
        Err(BenError::UnexpectedToken { token: s[0] })
    }
}

/// The rest of a list of which `read` has been read: values up to an `e`.
pub open spec fn decode_items(s: Seq<u8>, mode: ByteMode, read: Seq<BencodeView>) -> Result<
    (Seq<BencodeView>, Seq<u8>),
    BenError,
>
    decreases s.len(), 1int,
{
    if s.len() == 0 {
        Err(BenError::MissingToken { token: 0x65 })
    } else if s[0] == 0x65 {
        Ok((read, s.skip(1)))
    } else {
        match decode(s, mode) {
            Err(e) => Err(e),
            Ok((item, rest)) => if rest.len() < s.len() {
                decode_items(rest, mode, read.push(item))
            } else {
                Err(BenError::UnexpectedTruncationError)
            },
        }
    }
}

/// The value of a dictionary's entry with the key `key`, at the start of `s`:
/// chunks where the rule names a width for the key, a Bencode value where it
/// names none.
pub open spec fn decode_dict_value(s: Seq<u8>, mode: ByteMode, key: Seq<char>) -> Result<
    (DictValueView, Seq<u8>),
    BenError,
>
    decreases s.len(), 1int,
{
    match mode(key) {
        None => match decode(s, mode) {
            Err(e) => Err(e),
            Ok((value, rest)) => Ok((DictValueView::Bencode(value), rest)),
        },
        Some(width) => match decode_chunks(s, width) {
            Err(e) => Err(e),
            Ok((chunks, rest)) => Ok((DictValueView::Bytes(chunks), rest)),
        },
    }
}

/// The rest of a dictionary of which `read` has been read: keys, each with
/// its value, up to an `e`. A key that comes again keeps its first place and
/// takes the later value.
pub open spec fn decode_entries(
    s: Seq<u8>,
    mode: ByteMode,
    read: Seq<(Seq<char>, DictValueView)>,
) -> Result<(Seq<(Seq<char>, DictValueView)>, Seq<u8>), BenError>
    decreases s.len(), 2int,
{
    if s.len() == 0 {
        Err(BenError::MissingToken { token: 0x65 })
    } else if s[0] == 0x65 {
        Ok((read, s.skip(1)))
    } else {
        match decode_text(s) {
            Err(e) => Err(e),
            Ok((key, after_key)) => if after_key.len() < s.len() {
                match decode_dict_value(after_key, mode, key) {
                    Err(e) => Err(e),
                    Ok((value, rest)) => if rest.len() <= after_key.len() {
                        decode_entries(rest, mode, insert_entry(read, key, value))
                    } else {
                        Err(BenError::UnexpectedTruncationError)
                    },
                }
            } else {
                Err(BenError::UnexpectedTruncationError)
            },
        }
    }
}

/// Whether the function `f` can be called on every key.
pub open spec fn callable<F: Fn(&str) -> Option<usize>>(f: &F) -> bool {
    forall|k: &str| call_requires(*f, (k,))
}

/// Whether the function `f` computes the rule `mode`: whatever it returns
/// for a key is what the rule says of the key's text.
pub open spec fn computes<F: Fn(&str) -> Option<usize>>(f: &F, mode: ByteMode) -> bool {
    forall|k: &str, w: Option<usize>| call_ensures(*f, (k,), w) ==> w == mode(k@)
}

/// The rule that names no key: every value of a dictionary is Bencode.
pub open spec fn no_byte_mode() -> ByteMode {
    |key: Seq<char>| None
}

/// Whether what bytes say depends on no rule: there are none, or they begin
/// neither a list nor a dictionary.
pub open spec fn needs_no_rule(s: Seq<u8>) -> bool {
    s.len() == 0 || (s[0] != 0x6c && s[0] != 0x64)
}

/// Whether a reader's result says what the description of the format says.
pub open spec fn decoded_as(
    r: BenResult<(Bencode, &[u8])>,
    expected: Result<(BencodeView, Seq<u8>), BenError>,
) -> bool {
    match (r, expected) {
        (Ok((value, rest)), Ok((v, bytes))) => value@ == v && rest@ == bytes,
        (Err(e), Err(x)) => e == x,
        _ => false,
    }
}

/// Whether a value that was read is one that is read back from the bytes
/// written for it: well formed, and following the rule.
pub open spec fn fit_to_write(r: BenResult<(Bencode, &[u8])>, mode: ByteMode) -> bool {
    r matches Ok((value, _)) ==> well_formed(value@) && follows(value@, mode)
}

/// The items of a list, as the list.
pub open spec fn as_list(items: Result<(Seq<BencodeView>, Seq<u8>), BenError>) -> Result<
    (BencodeView, Seq<u8>),
    BenError,
> {
    match items {
        Err(e) => Err(e),
        Ok((items, rest)) => Ok((BencodeView::List(items), rest)),
    }
}

/// The entries of a dictionary, as the dictionary.
pub open spec fn as_dict(
    entries: Result<(Seq<(Seq<char>, DictValueView)>, Seq<u8>), BenError>,
) -> Result<(BencodeView, Seq<u8>), BenError> {
    match entries {
        Err(e) => Err(e),
        Ok((entries, rest)) => Ok((BencodeView::Dict(entries), rest)),
    }
}

/// The place of the first `b` in `s`.
fn find_byte(s: &[u8], b: u8) -> (r: Option<usize>)
    ensures
        match r {
            Some(i) => s@.index_of_first(b) == Some(i as int),
            None => s@.index_of_first(b) is None,
        },
{
    let mut i: usize = 0;
    while i < s.len()
        invariant
            i <= s@.len(),
            forall|j: int| 0 <= j < i ==> s@[j] != b,
        decreases s@.len() - i,
    {
        if s[i] == b {
            proof {
                s@.index_of_first_ensures(b);
                assert(s@[i as int] == b);
                assert(s@.contains(b));
            }
            return Some(i);
        }
        i += 1;
    }
    proof {
        s@.index_of_first_ensures(b);
    }
    None
}

/// Reads a byte string: the body and what follows it.
fn bendecode_raw<'a>(encoded_value: &'a [u8]) -> (r: BenResult<(&'a [u8], &'a [u8])>)
    ensures
        match (r, decode_bytes(encoded_value@)) {
            (Ok((body, rest)), Ok((b, bytes))) => body@ == b && rest@ == bytes && rest@.len()
                < encoded_value@.len(),
            (Err(e), Err(x)) => e == x,
            _ => false,
        },
{
    let colon = match find_byte(encoded_value, 0x3a) {
        Some(colon) => colon,
        None => {
            return Err(BenError::MissingToken { token: 0x3a });
        },
    };
    proof {
        encoded_value@.index_of_first_ensures(0x3au8);
    }
    let length = match parse_usize(slice_subrange(encoded_value, 0, colon)) {
        Some(length) => length,
        None => {
            return Err(BenError::InvalidNumber);
        },
    };
    if length > encoded_value.len() - colon - 1 {
        return Err(BenError::UnexpectedTruncationError);
    }
    let body = slice_subrange(encoded_value, colon + 1, colon + 1 + length);
    let rest = slice_subrange(encoded_value, colon + 1 + length, encoded_value.len());
    Ok((body, rest))
}

impl Bencode {
    /// Reads the value at the start of `encoded_value` and gives it with the
    /// bytes that follow it. `byte_mode_key` names the dictionary keys whose
    /// values are raw byte strings, with the width of their chunks; the
    /// result is what the format says under every rule that it computes.
    /// Where the bytes begin neither a list nor a dictionary, no key is
    /// asked about and the result is what the format says under any rule.
    pub fn from_bytes<'a, F: Fn(&str) -> Option<usize>>(
        encoded_value: &'a [u8],
        byte_mode_key: F,
    ) -> (r: BenResult<(Self, &'a [u8])>)
        requires
            callable(&byte_mode_key),
        ensures
            forall|mode: ByteMode|
                computes(&byte_mode_key, mode) ==> #[trigger] decoded_as(
                    r,
                    decode(encoded_value@, mode),
                ),
            forall|mode: ByteMode|
                computes(&byte_mode_key, mode) ==> #[trigger] fit_to_write(r, mode),
            needs_no_rule(encoded_value@) ==> decoded_as(
                r,
                decode(encoded_value@, no_byte_mode()),
            ),
    {
        let length = encoded_value.len();
        let r = Self::from_bytes_with(encoded_value, &byte_mode_key);
        proof {
            assert(encoded_value@.len() == length <= usize::MAX);
            assert forall|mode: ByteMode|
                computes(&byte_mode_key, mode) implies #[trigger] fit_to_write(r, mode) by {
                assert(decoded_as(r, decode(encoded_value@, mode)));
                if r is Ok {
                    lemma_decoded(encoded_value@, mode);
                }
            }
        }
        r
    }

    /// Reads the value at the start of `encoded_value`.
    fn from_bytes_with<'a, F: Fn(&str) -> Option<usize>>(
        encoded_value: &'a [u8],
        byte_mode_key: &F,
    ) -> (r: BenResult<(Self, &'a [u8])>)
        requires
            callable(byte_mode_key),
        ensures
            forall|mode: ByteMode|
                computes(byte_mode_key, mode) ==> #[trigger] decoded_as(
                    r,
                    decode(encoded_value@, mode),
                ),
            needs_no_rule(encoded_value@) ==> decoded_as(
                r,
                decode(encoded_value@, no_byte_mode()),
            ),
            r matches Ok((_, rest)) ==> rest@.len() < encoded_value@.len(),
        decreases encoded_value@.len(), 0int,
    {
        if encoded_value.len() == 0 {
            return Err(BenError::UnexpectedTruncationError);
        }
        let first = encoded_value[0];
        if 0x30 <= first && first <= 0x39 {
            match Self::bendecode_s(encoded_value) {
                Ok((text, rest)) => Ok((Bencode::String(text), rest)),
                Err(e) => Err(e),
            }
        } else if first == 0x69 {
            let after = slice_subrange(encoded_value, 1, encoded_value.len());
            match Self::bendecode_i(after) {
                Ok((n, rest)) => Ok((Bencode::Number(n), rest)),
                Err(e) => Err(e),
            }
        } else if first == 0x6c {
            let after = slice_subrange(encoded_value, 1, encoded_value.len());
            let r = Self::bendecode_l(after, byte_mode_key);
            proof {
                assert forall|mode: ByteMode| computes(byte_mode_key, mode) implies #[trigger] decoded_as(
                    r,
                    decode(encoded_value@, mode),
                ) by {
                    assert(decoded_as(r, as_list(decode_items(after@, mode, Seq::empty()))));
                }
            }
            r
        } else if first == 0x64 {
            let after = slice_subrange(encoded_value, 1, encoded_value.len());
            let r = Self::bendecode_d(after, byte_mode_key);
            proof {
                assert forall|mode: ByteMode| computes(byte_mode_key, mode) implies #[trigger] decoded_as(
                    r,
                    decode(encoded_value@, mode),
                ) by {
                    assert(decoded_as(r, as_dict(decode_entries(after@, mode, Seq::empty()))));
                }
            }
            r
        } else if first == 0x65 {
            Err(BenError::MisplacedClosingError)
        } else {
            Err(BenError::UnexpectedToken { token: first })
        }
    }

    /// Reads a string.
    fn bendecode_s<'a>(encoded_value: &'a [u8]) -> (r: BenResult<(String, &'a [u8])>)
        ensures
            match (r, decode_text(encoded_value@)) {
                (Ok((text, rest)), Ok((t, bytes))) => text@ == t && rest@ == bytes && rest@.len()
                    < encoded_value@.len(),
                (Err(e), Err(x)) => e == x,
                _ => false,
            },
    {
        let (body, rest) = match bendecode_raw(encoded_value) {
            Ok(parts) => parts,
            Err(e) => {
                return Err(e);
            },
        };
        match text_of(body) {
            Some(text) => Ok((text, rest)),
            None => Err(BenError::NonUtf8String),
        }
    }

    /// Reads an integer whose `i` has been read.
    fn bendecode_i<'a>(encoded_value: &'a [u8]) -> (r: BenResult<(i64, &'a [u8])>)
        ensures
            match (r, decode_number(encoded_value@)) {
                (Ok((n, rest)), Ok((m, bytes))) => n == m && rest@ == bytes && rest@.len()
                    < encoded_value@.len(),
                (Err(e), Err(x)) => e == x,
                _ => false,
            },
    {
        let end = match find_byte(encoded_value, 0x65) {
            Some(end) => end,
            None => {
                return Err(BenError::MissingToken { token: 0x65 });
            },
        };
        proof {
            encoded_value@.index_of_first_ensures(0x65u8);
        }
        let total = encoded_value.len();
        match parse_i64(slice_subrange(encoded_value, 0, end)) {
            Some(n) => Ok((n, slice_subrange(encoded_value, end + 1, total))),
            None => Err(BenError::InvalidNumber),
        }
    }

    /// Reads a list whose `l` has been read.
    fn bendecode_l<'a, F: Fn(&str) -> Option<usize>>(
        encoded_value: &'a [u8],
        byte_mode_key: &F,
    ) -> (r: BenResult<(Bencode, &'a [u8])>)
        requires
            callable(byte_mode_key),
        ensures
            forall|mode: ByteMode|
                computes(byte_mode_key, mode) ==> #[trigger] decoded_as(
                    r,
                    as_list(decode_items(encoded_value@, mode, Seq::empty())),
                ),
            r matches Ok((_, rest)) ==> rest@.len() < encoded_value@.len(),
        decreases encoded_value@.len(), 1int,
    {
        let mut list: Vec<Bencode> = Vec::new();
        let mut rem = encoded_value;
        let ghost mut read: Seq<BencodeView> = Seq::empty();
        while rem.len() > 0 && rem[0] != 0x65
            invariant
                callable(byte_mode_key),
                rem@.len() <= encoded_value@.len(),
                forall|mode: ByteMode|
                    computes(byte_mode_key, mode) ==> #[trigger] decode_items(
                        encoded_value@,
                        mode,
                        Seq::empty(),
                    ) == decode_items(rem@, mode, read),
                list@.len() == read.len(),
                forall|j: int| 0 <= j < list@.len() ==> (#[trigger] list@[j])@ == read[j],
            decreases rem@.len(),
        {
            let ghost before = rem@;
            let ghost read_before = read;
            let item = Self::from_bytes_with(rem, byte_mode_key);
            let ghost item_read = item;
            match item {
                Ok((value, rest)) => {
                    proof {
                        read = read.push(value@);
                        assert forall|mode: ByteMode| computes(byte_mode_key, mode) implies (
                        #[trigger] decode_items(encoded_value@, mode, Seq::empty()))
                            == decode_items(rest@, mode, read) by {
                            assert(decoded_as(item_read, decode(before, mode)));
                            assert(decode_items(before, mode, read_before) == decode_items(
                                rest@,
                                mode,
                                read,
                            ));
                        }
                    }
                    list.push(value);
                    rem = rest;
                },
                Err(e) => {
                    proof {
                        assert forall|mode: ByteMode| computes(byte_mode_key, mode) implies (
                        #[trigger] decoded_as(
                            Err::<(Bencode, &[u8]), BenError>(e),
                            as_list(decode_items(encoded_value@, mode, Seq::empty())),
                        )) by {
                            assert(decoded_as(item_read, decode(before, mode)));
                            assert(decode_items(before, mode, read_before) is Err);
                        }
                    }
                    return Err(e);
                },
            }
        }
        if rem.len() == 0 {
            return Err(BenError::MissingToken { token: 0x65 });
        }
        proof {
            lemma_list_view(list);
            assert(Bencode::List(list)@->List_0 =~= read);
        }
        Ok((Bencode::List(list), slice_subrange(rem, 1, rem.len())))
    }

    /// Reads a byte string in chunks of `chunk_size` bytes.
    fn bendecode_bytez<'a>(encoded_value: &'a [u8], chunk_size: usize) -> (r: BenResult<
        (Vec<Vec<u8>>, &'a [u8]),
    >)
        ensures
            match (r, decode_chunks(encoded_value@, chunk_size)) {
                (Ok((chunks, rest)), Ok((c, bytes))) => chunk_views(chunks@) == c && rest@
                    == bytes && rest@.len() < encoded_value@.len(),
                (Err(e), Err(x)) => e == x,
                _ => false,
            },
    {
        let (body, rest) = match bendecode_raw(encoded_value) {
            Ok(parts) => parts,
            Err(e) => {
                return Err(e);
            },
        };
        if chunk_size == 0 || body.len() % chunk_size != 0 {
            return Err(BenError::UnexpectedTruncationError);
        }
        let ghost width = chunk_size as int;
        let ghost count = body@.len() as int / width;
        let mut chunks: Vec<Vec<u8>> = Vec::new();
        let mut start: usize = 0;
        proof {
            assert(body@.len() == count * width) by (nonlinear_arith)
                requires
                    width > 0,
                    count == body@.len() as int / width,
                    body@.len() as int % width == 0,
            ;
        }
        while start < body.len()
            invariant
                width == chunk_size as int,
                width > 0,
                body@.len() == count * width,
                0 <= chunks@.len() <= count,
                start == chunks@.len() * width,
                forall|j: int|
                    0 <= j < chunks@.len() ==> (#[trigger] chunks@[j])@ == body@.subrange(
                        j * width,
                        (j + 1) * width,
                    ),
            decreases body@.len() - start,
        {
            let ghost k = chunks@.len() as int;
            proof {
                assert(k < count) by (nonlinear_arith)
                    requires
                        k * width < count * width,
                        width > 0,
                ;
                assert((k + 1) * width <= count * width) by (nonlinear_arith)
                    requires
                        k + 1 <= count,
                        width > 0,
                ;
                assert((k + 1) * width == k * width + width) by (nonlinear_arith);
            }
            let end = start + chunk_size;
            chunks.push(slice_to_vec(slice_subrange(body, start, end)));
            start = end;
        }
        proof {
            assert(chunks@.len() == count) by (nonlinear_arith)
                requires
                    chunks@.len() * width >= count * width,
                    chunks@.len() <= count,
                    width > 0,
            ;
            assert(chunk_views(chunks@) =~= split_chunks(body@, chunk_size as nat));
        }
        Ok((chunks, rest))
    }

    /// Reads a dictionary whose `d` has been read.
    fn bendecode_d<'a, F: Fn(&str) -> Option<usize>>(
        encoded_value: &'a [u8],
        byte_mode_key: &F,
    ) -> (r: BenResult<(Bencode, &'a [u8])>)
        requires
            callable(byte_mode_key),
        ensures
            forall|mode: ByteMode|
                computes(byte_mode_key, mode) ==> #[trigger] decoded_as(
                    r,
                    as_dict(decode_entries(encoded_value@, mode, Seq::empty())),
                ),
            r matches Ok((_, rest)) ==> rest@.len() < encoded_value@.len(),
        decreases encoded_value@.len(), 2int,
    {
        let mut dict = BencodeDict::new();
        let mut rem = encoded_value;
        while rem.len() > 0 && rem[0] != 0x65
            invariant
                callable(byte_mode_key),
                rem@.len() <= encoded_value@.len(),
                forall|mode: ByteMode|
                    computes(byte_mode_key, mode) ==> #[trigger] decode_entries(
                        encoded_value@,
                        mode,
                        Seq::empty(),
                    ) == decode_entries(rem@, mode, dict_entries(dict)),
            decreases rem@.len(),
        {
            let ghost before = rem@;
            let ghost entries = dict_entries(dict);
            let (key, after_key) = match Self::bendecode_s(rem) {
                Ok(parts) => parts,
                Err(e) => {
                    proof {
                        assert forall|mode: ByteMode| computes(byte_mode_key, mode) implies (
                        #[trigger] decoded_as(
                            Err::<(Bencode, &[u8]), BenError>(e),
                            as_dict(decode_entries(encoded_value@, mode, Seq::empty())),
                        )) by {
                            assert(decode_entries(before, mode, entries) is Err);
                        }
                    }
                    return Err(e);
                },
            };
            let ghost name = key@;
            let width = byte_mode_key(key.as_str());
            let (value, rest) = match width {
                None => {
                    let item = Self::from_bytes_with(after_key, byte_mode_key);
                    let ghost item_read = item;
                    match item {
                        Ok((value, rest)) => {
                            proof {
                                assert forall|mode: ByteMode|
                                    computes(byte_mode_key, mode) implies #[trigger] decode_dict_value(
                                    after_key@,
                                    mode,
                                    name,
                                ) == Ok::<(DictValueView, Seq<u8>), BenError>(
                                    (DictValueView::Bencode(value@), rest@),
                                ) by {
                                    assert(decoded_as(item_read, decode(after_key@, mode)));
                                }
                            }
                            (BencodeDictValues::Bencode(value), rest)
                        },
                        Err(e) => {
                            proof {
                                assert forall|mode: ByteMode|
                                    computes(byte_mode_key, mode) implies (#[trigger] decoded_as(
                                    Err::<(Bencode, &[u8]), BenError>(e),
                                    as_dict(decode_entries(encoded_value@, mode, Seq::empty())),
                                )) by {
                                    assert(decoded_as(item_read, decode(after_key@, mode)));
                                    assert(decode_dict_value(after_key@, mode, name) is Err);
                                    assert(decode_entries(before, mode, entries) is Err);
                                }
                            }
                            return Err(e);
                        },
                    }
                },
                Some(chunk_size) => {
                    match Self::bendecode_bytez(after_key, chunk_size) {
                        Ok((chunks, rest)) => {
                            proof {
                                assert forall|mode: ByteMode|
                                    computes(byte_mode_key, mode) implies #[trigger] decode_dict_value(
                                    after_key@,
                                    mode,
                                    name,
                                ) == Ok::<(DictValueView, Seq<u8>), BenError>(
                                    (DictValueView::Bytes(chunk_views(chunks@)), rest@),
                                ) by {}
                            }
                            (BencodeDictValues::Bytes(chunks), rest)
                        },
                        Err(e) => {
                            proof {
                                assert forall|mode: ByteMode|
                                    computes(byte_mode_key, mode) implies (#[trigger] decoded_as(
                                    Err::<(Bencode, &[u8]), BenError>(e),
                                    as_dict(decode_entries(encoded_value@, mode, Seq::empty())),
                                )) by {
                                    assert(decode_dict_value(after_key@, mode, name) is Err);
                                    assert(decode_entries(before, mode, entries) is Err);
                                }
                            }
                            return Err(e);
                        },
                    }
                },
            };
            let ghost stored = value@;
            dict.insert(key, value);
            proof {
                assert forall|mode: ByteMode| computes(byte_mode_key, mode) implies (
                #[trigger] decode_entries(encoded_value@, mode, Seq::empty())) == decode_entries(
                    rest@,
                    mode,
                    dict_entries(dict),
                ) by {
                    assert(decode_dict_value(after_key@, mode, name) == Ok::<
                        (DictValueView, Seq<u8>),
                        BenError,
                    >((stored, rest@)));
                    assert(decode_entries(before, mode, entries) == decode_entries(
                        rest@,
                        mode,
                        insert_entry(entries, name, stored),
                    ));
                }
            }
            rem = rest;
        }
        if rem.len() == 0 {
            return Err(BenError::MissingToken { token: 0x65 });
        }
        Ok((Bencode::Dict(dict), slice_subrange(rem, 1, rem.len())))
    }
}

} // verus!
