//! From Bencode to a torrent descriptor: which Bencode values describe a
//! torrent, what they describe, and what is said of those that describe none.

use crate::bencode::decode::{decode, decoded_as, ByteMode};
use crate::bencode::dict::{dict_entries, lookup, BencodeDict};
use crate::bencode::{
    chunk_views, lemma_list_view, BenError, Bencode, BencodeDictValues, BencodeView,
    DictValueView,
};
use crate::text::str_equal;
use crate::torrent::{
    checked_total, length_of_first, File, FileType, FileTypeView, FileView, Info,
    InfoView, Torrent, TorrentError, TorrentView,
};
use vstd::prelude::*;

verus! {

/// The string under `key`, if the entry is a string.
pub open spec fn text_at(entries: Seq<(Seq<char>, DictValueView)>, key: Seq<char>) -> Option<
    Seq<char>,
> {
    match lookup(entries, key) {
        Some(DictValueView::Bencode(BencodeView::String(s))) => Some(s),
        _ => None,
    }
}

/// The integer under `key`, if the entry is an integer.
pub open spec fn number_at(entries: Seq<(Seq<char>, DictValueView)>, key: Seq<char>) -> Option<
    i64,
> {
    match lookup(entries, key) {
        Some(DictValueView::Bencode(BencodeView::Number(n))) => Some(n),
        _ => None,
    }
}

/// The list under `key`, if the entry is a list.
pub open spec fn list_at(entries: Seq<(Seq<char>, DictValueView)>, key: Seq<char>) -> Option<
    Seq<BencodeView>,
> {
    match lookup(entries, key) {
        Some(DictValueView::Bencode(BencodeView::List(items))) => Some(items),
        _ => None,
    }
}

/// The chunks under `key`, if the entry is a raw byte string.
pub open spec fn chunks_at(entries: Seq<(Seq<char>, DictValueView)>, key: Seq<char>) -> Option<
    Seq<Seq<u8>>,
> {
    match lookup(entries, key) {
        Some(DictValueView::Bytes(chunks)) => Some(chunks),
        _ => None,
    }
}

/// Whether an integer is a length that the machine can count.
pub open spec fn is_length(n: i64) -> bool {
    0 <= n <= usize::MAX
}

/// The path that a list of strings spells: an error where an item is no
/// string or the list is empty.
pub open spec fn path_of(items: Seq<BencodeView>) -> Result<Seq<Seq<char>>, Seq<char>> {
    if exists|i: int| 0 <= i < items.len() && !(#[trigger] items[i] is String) {
        Err("Invalid file path"@)
    } else if items.len() == 0 {
        Err("File does not have a valid file path."@)
    } else {
        Ok(Seq::new(items.len(), |i: int| items[i]->String_0))
    }
}

/// The file that an entry of the list `files` describes.
pub open spec fn file_of(v: BencodeView) -> Result<FileView, Seq<char>> {
    match v {
        BencodeView::Dict(entries) => match number_at(entries, "length"@) {
            Some(n) => if is_length(n) {
                match list_at(entries, "path"@) {
                    Some(items) => match path_of(items) {
                        Ok(path) => Ok(FileView { length: n as nat, path }),
                        Err(e) => Err(e),
                    },
                    None => Err("File does not have a valid file path."@),
                }
            } else {
                Err("File does not have valid file length."@)
            },
            None => Err("File does not have valid file length."@),
        },
        _ => Err("Invalid files list."@),
    }
}

/// The files that the rest of the list `files` describes, after `read`; the
/// first entry that describes none decides what is said.
pub open spec fn files_from(items: Seq<BencodeView>, read: Seq<FileView>) -> Result<
    Seq<FileView>,
    Seq<char>,
>
    decreases items.len(),
{
    if items.len() == 0 {
        Ok(read)
    } else {
        match file_of(items[0]) {
            Err(e) => Err(e),
            Ok(file) => files_from(items.drop_first(), read.push(file)),
        }
    }
}

/// What an info dictionary shares. It must have exactly one of the keys
/// `length` and `files`: an integer under `length` makes it one file, a list
/// under `files` several.
pub open spec fn file_type_of(v: BencodeView) -> Result<FileTypeView, Seq<char>> {
    match v {
        BencodeView::Dict(entries) => if lookup(entries, "length"@) is Some && lookup(
            entries,
            "files"@,
        ) is Some {
            Err("Either length or files, not both"@)
        } else {
            file_type_of_one(entries)
        },
        _ => Err("Files list is not a valid bencoded dictionary."@),
    }
}

/// What an info dictionary with at most one of the keys `length` and `files`
/// shares.
pub open spec fn file_type_of_one(entries: Seq<(Seq<char>, DictValueView)>) -> Result<
    FileTypeView,
    Seq<char>,
> {
    match number_at(entries, "length"@) {
        Some(n) => if is_length(n) {
            Ok(FileTypeView::SingleFile { length: n as nat })
        } else {
            Err("File does not have valid file length."@)
        },
        None => match list_at(entries, "files"@) {
            Some(items) => match files_from(items, Seq::empty()) {
                Ok(files) => if length_of_first(files, files.len()) <= usize::MAX {
                    Ok(FileTypeView::MultiFile { files })
                } else {
                    Err("File does not have valid file length."@)
                },
                Err(e) => Err(e),
            },
            None => Err("Could not determine file type"@),
        },
    }
}

/// The digests that chunks are: an error where a chunk has not twenty bytes
/// or there is no chunk.
pub open spec fn digests_of(chunks: Seq<Seq<u8>>) -> Result<Seq<Seq<u8>>, Seq<char>> {
    if exists|i: int| 0 <= i < chunks.len() && (#[trigger] chunks[i]).len() != 20 {
        Err("Invalid file hash."@)
    } else if chunks.len() == 0 {
        Err("No pieces found"@)
    } else {
        Ok(chunks)
    }
}

/// The info dictionary that a Bencode value describes: the files, then the
/// name, the piece length, which is one or more, and the pieces.
pub open spec fn info_of(v: BencodeView) -> Result<InfoView, Seq<char>> {
    match v {
        BencodeView::Dict(entries) => match file_type_of(v) {
            Err(e) => Err(e),
            Ok(file_type) => match text_at(entries, "name"@) {
                None => Err("Should have advisory name"@),
                Some(name) => match number_at(entries, "piece length"@) {
                    None => Err("Should have piece length information."@),
                    Some(n) => if !(1 <= n <= usize::MAX) {
                        Err("Should have piece length information."@)
                    } else {
                        match chunks_at(entries, "pieces"@) {
                            None => Err("No pieces found"@),
                            Some(chunks) => match digests_of(chunks) {
                                Err(e) => Err(e),
                                Ok(pieces) => Ok(
                                    InfoView { file_type, name, piece_length: n as nat, pieces },
                                ),
                            },
                        }
                    },
                },
            },
        },
        _ => Err("Files list is not a valid bencoded dictionary."@),
    }
}

/// The torrent that a Bencode value describes: a dictionary with an info
/// dictionary under `info` and, if it is a string, the tracker's URL under
/// `announce`.
pub open spec fn torrent_of(v: BencodeView) -> Result<TorrentView, Seq<char>> {
    match v {
        BencodeView::Dict(entries) => match lookup(entries, "info"@) {
            Some(DictValueView::Bencode(info)) => match info_of(info) {
                Ok(info) => Ok(TorrentView { announce: text_at(entries, "announce"@), info }),
                Err(e) => Err(e),
            },
            _ => Err("Info dictionary does not exist."@),
        },
        _ => Err("Torrent metainfo file should have a bencoded dictionary."@),
    }
}

/// The rule for metainfo files: the value under `pieces` is a raw byte
/// string in chunks of twenty bytes.
pub open spec fn pieces_mode() -> ByteMode {
    |key: Seq<char>|
        if key == "pieces"@ {
            Some(20usize)
        } else {
            None
        }
}

/// The torrent that bytes describe: the Bencode value at their start, read
/// under the rule for metainfo files, must describe one.
pub open spec fn torrent_of_bytes(bytes: Seq<u8>) -> Result<
    TorrentView,
    Result<Seq<char>, BenError>,
> {
    match decode(bytes, pieces_mode()) {
        Err(e) => Err(Err(e)),
        Ok((v, _)) => match torrent_of(v) {
            Ok(t) => Ok(t),
            Err(reason) => Err(Ok(reason)),
        },
    }
}

/// Whether a result says what the description asks for: the value described,
/// or `InvalidTorrentFile` with the reason given.
pub open spec fn reports<T: View>(r: Result<T, TorrentError>, expected: Result<T::V, Seq<char>>)
    -> bool {
    match (r, expected) {
        (Ok(t), Ok(v)) => t@ == v,
        (Err(TorrentError::InvalidTorrentFile(reason)), Err(text)) => reason@ == text,
        _ => false,
    }
}

/// `InvalidTorrentFile` with a reason.
fn invalid<T>(reason: &str) -> (r: Result<T, TorrentError>)
    ensures
        r matches Err(TorrentError::InvalidTorrentFile(text)) && text@ == reason@,
{
    Err(TorrentError::InvalidTorrentFile(reason.to_owned()))
}

/// The rule for metainfo files, as a function.
pub fn pieces_byte_mode(key: &str) -> (width: Option<usize>)
    ensures
        width == pieces_mode()(key@),
{
    if str_equal(key, "pieces") {
        Some(20)
    } else {
        None
    }
}

/// The string under `key`.
fn get_text<'a>(table: &'a BencodeDict, key: &str) -> (r: Option<&'a String>)
    ensures
        match r {
            Some(s) => text_at(dict_entries(*table), key@) == Some(s@),
            None => text_at(dict_entries(*table), key@) is None,
        },
{
    match table.get(key) {
        Some(BencodeDictValues::Bencode(Bencode::String(s))) => Some(s),
        _ => None,
    }
}

/// The integer under `key`.
fn get_number(table: &BencodeDict, key: &str) -> (r: Option<i64>)
    ensures
        r == number_at(dict_entries(*table), key@),
{
    match table.get(key) {
        Some(BencodeDictValues::Bencode(Bencode::Number(n))) => Some(*n),
        _ => None,
    }
}

/// The list under `key`.
fn get_list<'a>(table: &'a BencodeDict, key: &str) -> (r: Option<&'a Vec<Bencode>>)
    ensures
        match r {
            Some(items) => list_at(dict_entries(*table), key@) == Some(Bencode::List(*items)@->List_0),
            None => list_at(dict_entries(*table), key@) is None,
        },
{
    match table.get(key) {
        Some(BencodeDictValues::Bencode(Bencode::List(items))) => {
            proof {
                lemma_list_view(*items);
            }
            Some(items)
        },
        _ => None,
    }
}

/// Reads a path from a list of strings.
#[verifier::loop_isolation(false)]
fn parse_path(list_of_path: &Vec<Bencode>) -> (r: Result<Vec<String>, TorrentError>)
    ensures
        match (r, path_of(Bencode::List(*list_of_path)@->List_0)) {
            (Ok(path), Ok(p)) => Seq::new(path@.len(), |i: int| path@[i]@) == p,
            (Err(TorrentError::InvalidTorrentFile(reason)), Err(text)) => reason@ == text,
            _ => false,
        },
{
    let ghost items = Bencode::List(*list_of_path)@->List_0;
    proof {
        lemma_list_view(*list_of_path);
    }
    let mut path: Vec<String> = Vec::new();
    let mut i: usize = 0;
    while i < list_of_path.len()
        invariant
            i <= list_of_path@.len(),
            items.len() == list_of_path@.len(),
            forall|j: int| 0 <= j < items.len() ==> (#[trigger] items[j]) == list_of_path@[j]@,
            forall|j: int| 0 <= j < i ==> (#[trigger] items[j]) is String,
            path@.len() == i,
            forall|j: int| 0 <= j < i ==> (#[trigger] path@[j])@ == items[j]->String_0,
        decreases list_of_path@.len() - i,
    {
        match &list_of_path[i] {
            Bencode::String(s) => {
                assert(items[i as int] == BencodeView::String(s@));
                path.push(s.clone());
            },
            _ => {
                assert(!(items[i as int] is String));
                return invalid("Invalid file path");
            },
        }
        i += 1;
    }
    assert(!(exists|j: int| 0 <= j < items.len() && !(#[trigger] items[j] is String)));
    if path.len() == 0 {
        return invalid("File does not have a valid file path.");
    }
    assert(Seq::new(path@.len(), |i: int| path@[i]@) =~= Seq::new(
        items.len(),
        |i: int| items[i]->String_0,
    ));
    Ok(path)
}

/// Reads an integer as a length.
fn as_length(n: i64) -> (r: Option<usize>)
    ensures
        match r {
            Some(length) => is_length(n) && length == n,
            None => !is_length(n),
        },
{
    if n < 0 {
        None
    } else if n as u64 > usize::MAX as u64 {
        None
    } else {
        Some(n as usize)
    }
}

/// Reads one entry of the list `files`.
fn parse_file(bencode: &Bencode) -> (r: Result<File, TorrentError>)
    ensures
        reports(r, file_of(bencode@)),
{
    match bencode {
        Bencode::Dict(file_table) => {
            let length = match get_number(file_table, "length") {
                Some(x) => match as_length(x) {
                    Some(length) => length,
                    None => {
                        return invalid("File does not have valid file length.");
                    },
                },
                None => {
                    return invalid("File does not have valid file length.");
                },
            };
            let list_of_path = match get_list(file_table, "path") {
                Some(list_of_path) => list_of_path,
                None => {
                    return invalid("File does not have a valid file path.");
                },
            };
            match parse_path(list_of_path) {
                Ok(path) => Ok(File { length, path }),
                Err(e) => Err(e),
            }
        },
        _ => invalid("Invalid files list."),
    }
}

impl Info {
    /// Reads an info dictionary.
    #[verifier::loop_isolation(false)]
    pub fn parse_info(value: &Bencode) -> (r: Result<Info, TorrentError>)
        ensures
            reports(r, info_of(value@)),
            r matches Ok(info) ==> info@.wf(),
    {
        let info_table = match value {
            Bencode::Dict(val) => val,
            _ => {
                return invalid("Files list is not a valid bencoded dictionary.");
            },
        };
        let file_type = match Self::resolve_file_type(value) {
            Ok(file_type) => file_type,
            Err(e) => {
                return Err(e);
            },
        };
        let name = match get_text(info_table, "name") {
            Some(s) => s.clone(),
            None => {
                return invalid("Should have advisory name");
            },
        };
        let piece_length = match get_number(info_table, "piece length") {
            Some(n) => match as_length(n) {
                Some(length) => length,
                None => {
                    return invalid("Should have piece length information.");
                },
            },
            None => {
                return invalid("Should have piece length information.");
            },
        };
        if piece_length == 0 {
            return invalid("Should have piece length information.");
        }
        let bytez = match info_table.get("pieces") {
            Some(BencodeDictValues::Bytes(bytez)) => bytez,
            _ => {
                return invalid("No pieces found");
            },
        };
        let ghost chunks = chunk_views(bytez@);
        let mut pieces: Vec<[u8; 20]> = Vec::new();
        let mut i: usize = 0;
        while i < bytez.len()
            invariant
                i <= bytez@.len(),
                chunks == chunk_views(bytez@),
                pieces@.len() == i,
                forall|j: int| 0 <= j < i ==> (#[trigger] chunks[j]).len() == 20,
                forall|j: int| 0 <= j < i ==> (#[trigger] pieces@[j])@ == chunks[j],
            decreases bytez@.len() - i,
        {
            let vec_of_bytes = &bytez[i];
            if vec_of_bytes.len() != 20 {
                assert(chunks[i as int].len() != 20);
                return invalid("Invalid file hash.");
            }
            let mut digest = [0u8; 20];
            let mut k: usize = 0;
            while k < 20
                invariant
                    k <= 20,
                    vec_of_bytes@.len() == 20,
                    forall|j: int| 0 <= j < k ==> digest@[j] == vec_of_bytes@[j],
                decreases 20 - k,
            {
                digest[k] = vec_of_bytes[k];
                k += 1;
            }
            assert(digest@ =~= chunks[i as int]);
            pieces.push(digest);
            i += 1;
        }
        if pieces.len() == 0 {
            return invalid("No pieces found");
        }
        let info = Info { file_type, name, piece_length, pieces };
        proof {
            assert(info@.pieces =~= chunks);
        }
        Ok(info)
    }

    /// Reads what an info dictionary shares: one file or several.
    #[verifier::loop_isolation(false)]
    pub fn resolve_file_type(value: &Bencode) -> (r: Result<FileType, TorrentError>)
        ensures
            reports(r, file_type_of(value@)),
            r matches Ok(file_type) ==> file_type@.paths_nonempty() && file_type@.total_length()
                <= usize::MAX,
    {
        let info_table = match value {
            Bencode::Dict(val) => val,
            _ => {
                return invalid("Files list is not a valid bencoded dictionary.");
            },
        };
        if info_table.get("length").is_some() && info_table.get("files").is_some() {
            return invalid("Either length or files, not both");
        }
        if let Some(x) = get_number(info_table, "length") {
            return match as_length(x) {
                Some(length) => Ok(FileType::SingleFile { length }),
                None => invalid("File does not have valid file length."),
            };
        }
        let files_list = match get_list(info_table, "files") {
            Some(files_list) => files_list,
            None => {
                return invalid("Could not determine file type");
            },
        };
        let ghost items = Bencode::List(*files_list)@->List_0;
        proof {
            lemma_list_view(*files_list);
        }
        let mut files: Vec<File> = Vec::new();
        let ghost mut read: Seq<FileView> = Seq::empty();
        let mut i: usize = 0;
        assert(items.skip(0) =~= items);
        while i < files_list.len()
            invariant
                i <= files_list@.len(),
                items.len() == files_list@.len(),
                forall|j: int| 0 <= j < items.len() ==> (#[trigger] items[j]) == files_list@[j]@,
                files_from(items, Seq::empty()) == files_from(items.skip(i as int), read),
                read.len() == files@.len(),
                forall|j: int| 0 <= j < read.len() ==> (#[trigger] files@[j])@ == read[j],
                forall|j: int| 0 <= j < read.len() ==> (#[trigger] read[j]).path.len() >= 1,
            decreases files_list@.len() - i,
        {
            proof {
                assert(items.skip(i as int)[0] == items[i as int]);
                assert(items.skip(i as int).drop_first() =~= items.skip(i + 1));
            }
            match parse_file(&files_list[i]) {
                Ok(file) => {
                    proof {
                        read = read.push(file@);
                    }
                    files.push(file);
                },
                Err(e) => {
                    return Err(e);
                },
            }
            i += 1;
        }
        assert(Seq::new(files@.len(), |i: int| files@[i]@) =~= read);
        match checked_total(&files) {
            Some(_) => Ok(FileType::MultiFile { files }),
            None => invalid("File does not have valid file length."),
        }
    }
}

/// What `try_from` returns is stated with the function itself, over the view
/// of the torrent; nothing is claimed through the trait.
impl vstd::std_specs::convert::TryFromSpecImpl<Bencode> for Torrent {
    open spec fn obeys_try_from_spec() -> bool {
        false
    }

    open spec fn try_from_spec(v: Bencode) -> Result<Self, TorrentError> {
        Err(TorrentError::InvalidAnnounceUrl)
    }
}

impl TryFrom<Bencode> for Torrent {
    type Error = TorrentError;

    /// Reads a torrent descriptor from a Bencode value.
    fn try_from(value: Bencode) -> (r: Result<Self, TorrentError>)
        ensures
            reports(r, torrent_of(value@)),
            r matches Ok(torrent) ==> torrent@.info.wf(),
    {
        match &value {
            Bencode::Dict(torrent_table) => {
                let announce = match get_text(torrent_table, "announce") {
                    Some(s) => Some(s.clone()),
                    None => None,
                };
                let info = match torrent_table.get("info") {
                    Some(BencodeDictValues::Bencode(info_table)) => {
                        match Info::parse_info(info_table) {
                            Ok(info) => info,
                            Err(e) => {
                                return Err(e);
                            },
                        }
                    },
                    _ => {
                        return invalid("Info dictionary does not exist.");
                    },
                };
                Ok(Torrent { announce, info })
            },
            _ => invalid("Torrent metainfo file should have a bencoded dictionary."),
        }
    }
}

impl Torrent {
    /// Reads a torrent descriptor from the bytes of a metainfo file. What
    /// follows the Bencode value at the start of the bytes is not looked at.
    pub fn from_bytes(encoded_bytes: &[u8]) -> (r: Result<Torrent, TorrentError>)
        ensures
            match (r, torrent_of_bytes(encoded_bytes@)) {
                (Ok(torrent), Ok(t)) => torrent@ == t && t.info.wf(),
                (Err(TorrentError::InvalidTorrentFile(reason)), Err(Ok(text))) => reason@ == text,
                (Err(TorrentError::InvalidBencode(e)), Err(Err(x))) => e == x,
                _ => false,
            },
    {
        let read = Bencode::from_bytes(encoded_bytes, pieces_byte_mode);
        assert(decoded_as(read, decode(encoded_bytes@, pieces_mode())));
        let values = match read {
            Ok((values, _)) => values,
            Err(e) => {
                return Err(TorrentError::InvalidBencode(e));
            },
        };
        Torrent::try_from(values)
    }
}

} // verus!
