//! Bencode: strings, integers, lists and dictionaries, and byte strings cut
//! into chunks of a fixed width for the dictionary keys that the caller names.

use crate::decimal::decimal;
use crate::text::{ascii_chars, decimal_text};
use vstd::prelude::*;
use vstd::string::StringExecFns;

pub mod decode;
pub mod dict;
pub mod encode;
pub mod laws;

pub use dict::{dict_entries, BencodeDict};

verus! {

/// A Bencode value.
#[derive(Debug, PartialEq, Eq)]
pub enum Bencode {
    String(String),
    Number(i64),
    List(Vec<Bencode>),
    Dict(BencodeDict),
}

/// What a dictionary holds under a key: a Bencode value, or the raw bytes of
/// a byte string in chunks of one width.
#[derive(Debug, PartialEq, Eq)]
pub enum BencodeDictValues {
    Bencode(Bencode),
    Bytes(Vec<Vec<u8>>),
}

/// Why bytes could not be read as Bencode.
#[derive(Debug, PartialEq, Eq)]
pub enum BenError {
    /// An `e` stands where a value should begin.
    MisplacedClosingError,
    /// The input ends before the value does, or a byte string does not
    /// divide into chunks of the width asked for.
    UnexpectedTruncationError,
    /// The byte stands where a value should begin and begins none.
    UnexpectedToken { token: u8 },
    /// The byte that ends a length, an integer, a list or a dictionary is
    /// missing.
    MissingToken { token: u8 },
    /// A string's bytes are not UTF-8.
    NonUtf8String,
    /// A length or an integer is not a decimal number in range.
    InvalidNumber,
}

impl BenError {
    /// What the error says, in words.
    pub open spec fn message(self) -> Seq<char> {
        match self {
            BenError::MisplacedClosingError => "Unexpected closing tag 'e' found."@,
            BenError::UnexpectedTruncationError => "Unexpected ending of byte stream."@,
            BenError::UnexpectedToken { token } => "Unexpected token : "@ + ascii_chars(
                decimal(token as nat),
            ) + "."@,
            BenError::MissingToken { token } => "Missing token in stream : "@ + ascii_chars(
                decimal(token as nat),
            ) + "."@,
            BenError::NonUtf8String => "String is not valid UTF-8."@,
            BenError::InvalidNumber => "Number is not a decimal number in range."@,
        }
    }

    /// What the error says, in words.
    pub fn to_string(&self) -> (text: String)
        ensures
            text@ == self.message(),
    {
        match self {
            BenError::MisplacedClosingError => "Unexpected closing tag 'e' found.".to_owned(),
            BenError::UnexpectedTruncationError => "Unexpected ending of byte stream.".to_owned(),
            BenError::UnexpectedToken { token } => {
                let mut text = "Unexpected token : ".to_owned();
                text.append(decimal_text(*token as u64).as_str());
                text.append(".");
                text
            },
            BenError::MissingToken { token } => {
                let mut text = "Missing token in stream : ".to_owned();
                text.append(decimal_text(*token as u64).as_str());
                text.append(".");
                text
            },
            BenError::NonUtf8String => "String is not valid UTF-8.".to_owned(),
            BenError::InvalidNumber => "Number is not a decimal number in range.".to_owned(),
        }
    }
}

/// The result of reading or writing Bencode.
pub type BenResult<T> = Result<T, BenError>;

/// A Bencode value as a mathematical value. A dictionary is the sequence of
/// its entries in the order in which they were inserted.
pub enum BencodeView {
    String(Seq<char>),
    Number(i64),
    List(Seq<BencodeView>),
    Dict(Seq<(Seq<char>, DictValueView)>),
}

/// A dictionary's value as a mathematical value.
pub enum DictValueView {
    Bencode(BencodeView),
    Bytes(Seq<Seq<u8>>),
}

impl View for Bencode {
    type V = BencodeView;

    open spec fn view(&self) -> BencodeView
        decreases self,
    {
        match self {
            Bencode::String(s) => BencodeView::String(s@),
            Bencode::Number(n) => BencodeView::Number(*n),
            Bencode::List(items) => BencodeView::List(
                Seq::new(
                    items@.len(),
                    |i: int|
                        if 0 <= i < items@.len() {
                            items@[i].view()
                        } else {
                            BencodeView::Number(0)
                        },
                ),
            ),
            Bencode::Dict(d) => BencodeView::Dict(dict_entries(*d)),
        }
    }
}

/// The view of a list is the list of the views of its items.
pub proof fn lemma_list_view(items: Vec<Bencode>)
    ensures
        Bencode::List(items)@ is List,
        Bencode::List(items)@->List_0.len() == items@.len(),
        forall|j: int|
            0 <= j < items@.len() ==> (#[trigger] Bencode::List(items)@->List_0[j]) == items@[j]@,
{
    reveal_with_fuel(<Bencode as View>::view, 3);
}

/// The chunks of a byte string as sequences of bytes.
pub open spec fn chunk_views(chunks: Seq<Vec<u8>>) -> Seq<Seq<u8>> {
    Seq::new(chunks.len(), |i: int| chunks[i]@)
}

impl View for BencodeDictValues {
    type V = DictValueView;

    open spec fn view(&self) -> DictValueView {
        match self {
            BencodeDictValues::Bencode(b) => DictValueView::Bencode(b@),
            BencodeDictValues::Bytes(chunks) => DictValueView::Bytes(chunk_views(chunks@)),
        }
    }
}

} // verus!
