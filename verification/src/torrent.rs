//! The metainfo descriptor of a torrent: what a `.torrent` file says, the
//! canonical bytes of its info dictionary and the info-hash taken over them.

use crate::bencode::encode::{encode_bytes, encode_text, write_bytes, write_text};
use crate::bencode::BenError;
use crate::decimal::{decimal, push_decimal};
use crate::digest::{hex_chars, hex_digit, hex_encode, sha1, sha1_digest, SHA1_INPUT_LIMIT};
use crate::text::{ascii_text, is_ascii_bytes};
use vstd::prelude::*;
use vstd::seq_lib::lemma_flatten_concat;
use vstd::string::StringExecFns;
use vstd::utf8::{is_ascii_chars, is_ascii_chars_encode_utf8};

pub mod laws;
pub mod parse;

verus! {

/// Why a torrent descriptor could not be had.
#[derive(Debug)]
pub enum TorrentError {
    /// The tracker's URL cannot be used.
    InvalidAnnounceUrl,
    /// The Bencode value is no torrent descriptor; the text says what it
    /// lacks.
    InvalidTorrentFile(String),
    /// The bytes are not Bencode.
    InvalidBencode(BenError),
}

/// A torrent descriptor: the tracker to ask, and what is shared.
#[derive(Debug)]
pub struct Torrent {
    pub announce: Option<String>,
    pub info: Info,
}

/// The info dictionary. `name` is a file's name for a single file and a
/// directory's for several; every piece but the last is `piece_length` bytes
/// long, and `pieces` holds the SHA-1 digest of each piece in turn.
#[derive(Debug)]
pub struct Info {
    pub file_type: FileType,
    pub name: String,
    pub piece_length: usize,
    pub pieces: Vec<[u8; 20]>,
}

/// One file of a given length, or several files laid end to end.
#[derive(Debug)]
pub enum FileType {
    MultiFile { files: Vec<File> },
    SingleFile { length: usize },
}

/// One file of a torrent of several: its length and its path, a directory per
/// segment and the file's own name last.
#[derive(Debug)]
pub struct File {
    pub length: usize,
    pub path: Vec<String>,
}

impl TorrentError {
    /// What the error says, in words.
    pub open spec fn message(self) -> Seq<char> {
        match self {
            TorrentError::InvalidAnnounceUrl => "Not a valid announce URL"@,
            TorrentError::InvalidTorrentFile(reason) => "Not a valid torrent file, missing "@
                + reason@,
            TorrentError::InvalidBencode(e) => e.message(),
        }
    }

    /// What the error says, in words.
    pub fn to_string(&self) -> (text: String)
        ensures
            text@ == self.message(),
    {
        match self {
            TorrentError::InvalidAnnounceUrl => "Not a valid announce URL".to_owned(),
            TorrentError::InvalidTorrentFile(reason) => {
                let mut text = "Not a valid torrent file, missing ".to_owned();
                text.append(reason.as_str());
                text
            },
            TorrentError::InvalidBencode(e) => e.to_string(),
        }
    }
}

/// A `File` as a mathematical value.
pub struct FileView {
    pub length: nat,
    pub path: Seq<Seq<char>>,
}

/// A `FileType` as a mathematical value.
pub enum FileTypeView {
    MultiFile { files: Seq<FileView> },
    SingleFile { length: nat },
}

/// An `Info` as a mathematical value.
pub struct InfoView {
    pub file_type: FileTypeView,
    pub name: Seq<char>,
    pub piece_length: nat,
    pub pieces: Seq<Seq<u8>>,
}

/// A `Torrent` as a mathematical value.
pub struct TorrentView {
    pub announce: Option<Seq<char>>,
    pub info: InfoView,
}

impl View for File {
    type V = FileView;

    open spec fn view(&self) -> FileView {
        FileView {
            length: self.length as nat,
            path: Seq::new(self.path@.len(), |i: int| self.path@[i]@),
        }
    }
}

impl View for FileType {
    type V = FileTypeView;

    open spec fn view(&self) -> FileTypeView {
        match self {
            FileType::MultiFile { files } => FileTypeView::MultiFile {
                files: Seq::new(files@.len(), |i: int| files@[i]@),
            },
            FileType::SingleFile { length } => FileTypeView::SingleFile { length: *length as nat },
        }
    }
}

impl View for Info {
    type V = InfoView;

    open spec fn view(&self) -> InfoView {
        InfoView {
            file_type: self.file_type@,
            name: self.name@,
            piece_length: self.piece_length as nat,
            pieces: Seq::new(self.pieces@.len(), |i: int| self.pieces@[i]@),
        }
    }
}

impl View for Torrent {
    type V = TorrentView;

    open spec fn view(&self) -> TorrentView {
        TorrentView {
            announce: match self.announce {
                Some(url) => Some(url@),
                None => None,
            },
            info: self.info@,
        }
    }
}

/// The lengths of the first `n` files, added up.
pub open spec fn length_of_first(files: Seq<FileView>, n: nat) -> nat
    decreases n,
{
    if n == 0 || n > files.len() {
        0
    } else {
        length_of_first(files, (n - 1) as nat) + files[n - 1].length
    }
}

impl FileTypeView {
    /// The number of bytes that the torrent shares: the one file's length, or
    /// the sum of the lengths of all files.
    pub open spec fn total_length(self) -> nat {
        match self {
            FileTypeView::MultiFile { files } => length_of_first(files, files.len()),
            FileTypeView::SingleFile { length } => length,
        }
    }

    /// No file has an empty path.
    pub open spec fn paths_nonempty(self) -> bool {
        match self {
            FileTypeView::MultiFile { files } => forall|i: int|
                0 <= i < files.len() ==> (#[trigger] files[i]).path.len() >= 1,
            FileTypeView::SingleFile { .. } => true,
        }
    }
}

impl InfoView {
    /// What holds of every info dictionary that was read from a metainfo
    /// file: pieces have a positive length, there is at least one of them,
    /// each digest has twenty bytes, every file has a path, and the total
    /// length is one the machine can count.
    pub open spec fn wf(self) -> bool {
        &&& self.piece_length >= 1
        &&& self.pieces.len() >= 1
        &&& forall|i: int| 0 <= i < self.pieces.len() ==> (#[trigger] self.pieces[i]).len() == 20
        &&& self.file_type.paths_nonempty()
        &&& self.file_type.total_length() <= usize::MAX
    }
}

/// A sum of the first files is no more than the sum of more of them.
pub proof fn lemma_length_of_first_monotonic(files: Seq<FileView>, m: nat, n: nat)
    requires
        m <= n <= files.len(),
    ensures
        length_of_first(files, m) <= length_of_first(files, n),
    decreases n,
{
    if m < n {
        lemma_length_of_first_monotonic(files, m, (n - 1) as nat);
    }
}

/// The lengths of the files added up, if the sum can be counted.
pub(crate) fn checked_total(files: &Vec<File>) -> (r: Option<usize>)
    ensures
        match r {
            Some(total) => total == length_of_first(
                Seq::new(files@.len(), |i: int| files@[i]@),
                files@.len(),
            ),
            None => length_of_first(Seq::new(files@.len(), |i: int| files@[i]@), files@.len())
                > usize::MAX,
        },
{
    let ghost views = Seq::new(files@.len(), |i: int| files@[i]@);
    let mut total: usize = 0;
    let mut i: usize = 0;
    while i < files.len()
        invariant
            i <= files@.len(),
            views == Seq::new(files@.len(), |i: int| files@[i]@),
            total == length_of_first(views, i as nat),
        decreases files@.len() - i,
    {
        proof {
            lemma_length_of_first_monotonic(views, (i + 1) as nat, views.len());
            assert(views[i as int].length == files@[i as int].length);
        }
        total = match total.checked_add(files[i].length) {
            Some(sum) => sum,
            None => {
                return None;
            },
        };
        i += 1;
    }
    Some(total)
}

impl FileType {
    /// Whether every file has a path and the total length can be counted.
    #[verifier::loop_isolation(false)]
    pub fn is_well_formed(&self) -> (ok: bool)
        ensures
            ok == (self@.paths_nonempty() && self@.total_length() <= usize::MAX),
    {
        match self {
            FileType::SingleFile { .. } => true,
            FileType::MultiFile { files } => {
                let ghost views = self@->files;
                let mut i: usize = 0;
                while i < files.len()
                    invariant
                        i <= files@.len(),
                        views == Seq::new(files@.len(), |i: int| files@[i]@),
                        forall|j: int| 0 <= j < i ==> (#[trigger] views[j]).path.len() >= 1,
                    decreases files@.len() - i,
                {
                    if files[i].path.len() == 0 {
                        assert(views[i as int].path.len() == 0);
                        return false;
                    }
                    i += 1;
                }
                checked_total(files).is_some()
            },
        }
    }
}

impl Info {
    /// Whether the info dictionary is one that a metainfo file can hold.
    pub fn is_well_formed(&self) -> (ok: bool)
        ensures
            ok == self@.wf(),
    {
        self.piece_length >= 1 && self.pieces.len() >= 1 && self.file_type.is_well_formed()
    }

    /// The number of bytes that the torrent shares.
    pub fn get_file_length(&self) -> (total: usize)
        requires
            self@.file_type.total_length() <= usize::MAX,
        ensures
            total == self@.file_type.total_length(),
    {
        match &self.file_type {
            FileType::MultiFile { files } => {
                let ghost views = Seq::new(files@.len(), |i: int| files@[i]@);
                let mut total: usize = 0;
                let mut i: usize = 0;
                while i < files.len()
                    invariant
                        i <= files.len(),
                        views == Seq::new(files@.len(), |i: int| files@[i]@),
                        total == length_of_first(views, i as nat),
                        length_of_first(views, views.len()) <= usize::MAX,
                    decreases files.len() - i,
                {
                    proof {
                        lemma_length_of_first_monotonic(views, (i + 1) as nat, views.len());
                        assert(views[i as int].length == files@[i as int].length);
                    }
                    total = total + files[i].length;
                    i += 1;
                }
                total
            },
            FileType::SingleFile { length } => *length,
        }
    }
}

/// An unsigned integer as Bencode: `i`, the number in decimal, `e`.
pub open spec fn encode_unsigned(n: nat) -> Seq<u8> {
    seq![0x69u8] + decimal(n) + seq![0x65u8]
}

/// The segments of a path, each a string, one after the other.
pub open spec fn encode_path(path: Seq<Seq<char>>) -> Seq<u8>
    decreases path.len(),
{
    if path.len() == 0 {
        Seq::empty()
    } else {
        encode_path(path.drop_last()) + encode_text(path.last())
    }
}

/// One file of several, a dictionary: the key `length` with the file's
/// length, then the key `path` with the list of the path's segments.
pub open spec fn encode_file(file: FileView) -> Seq<u8> {
    seq![0x64u8] + encode_text("length"@) + encode_unsigned(file.length) + encode_text("path"@)
        + seq![0x6cu8] + encode_path(file.path) + seq![0x65u8] + seq![0x65u8]
}

/// Files, one after the other.
pub open spec fn encode_files(files: Seq<FileView>) -> Seq<u8>
    decreases files.len(),
{
    if files.len() == 0 {
        Seq::empty()
    } else {
        encode_files(files.drop_last()) + encode_file(files.last())
    }
}

impl FileTypeView {
    /// The entry that stands for the files in the canonical form of the info
    /// dictionary: for one file the key `length` with its length; for several
    /// the key `files` with the list of the files.
    pub open spec fn canonical_bytes(self) -> Seq<u8> {
        match self {
            FileTypeView::MultiFile { files } => encode_text("files"@) + seq![0x6cu8]
                + encode_files(files) + seq![0x65u8],
            FileTypeView::SingleFile { length } => encode_text("length"@) + encode_unsigned(length),
        }
    }
}

impl InfoView {
    /// The canonical form of the info dictionary, over which the info-hash is
    /// taken: a Bencode dictionary with the entry for the files, then the
    /// keys `name`, `piece length` and `pieces` with their values, in this
    /// order.
    pub open spec fn canonical_bytes(self) -> Seq<u8> {
        seq![0x64u8] + self.file_type.canonical_bytes() + encode_text("name"@) + encode_text(
            self.name,
        ) + encode_text("piece length"@) + encode_unsigned(self.piece_length) + encode_text(
            "pieces"@,
        ) + encode_bytes(self.pieces.flatten()) + seq![0x65u8]
    }

    /// The info-hash: the SHA-1 digest of the canonical form.
    pub open spec fn info_hash(self) -> Seq<u8> {
        sha1_digest(self.canonical_bytes())
    }
}

/// Bytes written for a URL: a percent sign and two lower-case hexadecimal
/// digits for each byte.
pub open spec fn percent_encoded(data: Seq<u8>) -> Seq<char> {
    Seq::new(
        3 * data.len(),
        |i: int|
            if i % 3 == 0 {
                '%'
            } else if i % 3 == 1 {
                hex_digit(data[i / 3] as int / 16)
            } else {
                hex_digit(data[i / 3] as int % 16)
            },
    )
}

/// Appends an unsigned integer as Bencode to `out`.
fn write_unsigned(out: &mut Vec<u8>, n: usize)
    ensures
        final(out)@ == old(out)@ + encode_unsigned(n as nat),
{
    out.push(0x69);
    push_decimal(out, n as u64);
    out.push(0x65);
    assert(out@ =~= old(out)@ + encode_unsigned(n as nat));
}

impl File {
    /// Appends the dictionary that stands for the file in the canonical form
    /// to `out`.
    fn write_to(&self, out: &mut Vec<u8>)
        ensures
            final(out)@ == old(out)@ + encode_file(self@),
    {
        out.push(0x64);
        write_text(out, "length");
        write_unsigned(out, self.length);
        write_text(out, "path");
        out.push(0x6c);
        let ghost path = self@.path;
        let ghost start = out@;
        let mut i: usize = 0;
        while i < self.path.len()
            invariant
                i <= self.path@.len(),
                path == self@.path,
                out@ == start + encode_path(path.take(i as int)),
            decreases self.path@.len() - i,
        {
            proof {
                assert(path.take(i + 1).drop_last() =~= path.take(i as int));
                assert(path.take(i + 1).last() == self.path@[i as int]@);
            }
            write_text(out, self.path[i].as_str());
            i += 1;
            assert(out@ =~= start + encode_path(path.take(i as int)));
        }
        out.push(0x65);
        out.push(0x65);
        assert(path.take(i as int) =~= path);
        assert(out@ =~= old(out)@ + encode_file(self@));
    }
}

impl FileType {
    /// The entry that stands for the files in the canonical form of the
    /// info dictionary: its key and its value.
    pub fn to_bytes(&self) -> (bytes: Vec<u8>)
        ensures
            bytes@ == self@.canonical_bytes(),
    {
        let mut out: Vec<u8> = Vec::new();
        match self {
            FileType::MultiFile { files } => {
                let ghost views = self@->files;
                write_text(&mut out, "files");
                out.push(0x6c);
                let ghost start = out@;
                let mut i: usize = 0;
                while i < files.len()
                    invariant
                        i <= files@.len(),
                        views.len() == files@.len(),
                        forall|j: int| 0 <= j < files@.len() ==> views[j] == (#[trigger] files@[j])@,
                        start == encode_text("files"@) + seq![0x6cu8],
                        out@ == start + encode_files(views.take(i as int)),
                    decreases files@.len() - i,
                {
                    proof {
                        assert(views.take(i + 1).drop_last() =~= views.take(i as int));
                        assert(views.take(i + 1).last() == files@[i as int]@);
                    }
                    files[i].write_to(&mut out);
                    i += 1;
                    assert(out@ =~= start + encode_files(views.take(i as int)));
                }
                out.push(0x65);
                assert(views.take(i as int) =~= views);
                assert(out@ =~= self@.canonical_bytes());
            },
            FileType::SingleFile { length } => {
                write_text(&mut out, "length");
                write_unsigned(&mut out, *length);
                assert(out@ =~= self@.canonical_bytes());
            },
        }
        out
    }
}

/// The digests of the pieces, laid end to end.
fn join_pieces(pieces: &Vec<[u8; 20]>) -> (joined: Vec<u8>)
    ensures
        joined@ == Seq::new(pieces@.len(), |i: int| pieces@[i]@).flatten(),
{
    let ghost all = Seq::new(pieces@.len(), |i: int| pieces@[i]@);
    let mut joined: Vec<u8> = Vec::new();
    let mut i: usize = 0;
    while i < pieces.len()
        invariant
            i <= pieces@.len(),
            all == Seq::new(pieces@.len(), |i: int| pieces@[i]@),
            joined@ == all.take(i as int).flatten(),
        decreases pieces@.len() - i,
    {
        proof {
            let one = seq![all[i as int]];
            assert(all.take(i + 1) =~= all.take(i as int) + one);
            lemma_flatten_concat(all.take(i as int), one);
            one.lemma_flatten_one_element();
        }
        joined.extend_from_slice(pieces[i].as_slice());
        i += 1;
    }
    assert(all.take(i as int) =~= all);
    joined
}

impl Info {
    /// The canonical form of the info dictionary.
    pub fn to_bytes(&self) -> (bytes: Vec<u8>)
        ensures
            bytes@ == self@.canonical_bytes(),
    {
        let mut res: Vec<u8> = Vec::new();
        res.push(0x64);
        let file_type_bytes = self.file_type.to_bytes();
        res.extend_from_slice(file_type_bytes.as_slice());
        write_text(&mut res, "name");
        write_text(&mut res, self.name.as_str());
        write_text(&mut res, "piece length");
        write_unsigned(&mut res, self.piece_length);
        write_text(&mut res, "pieces");
        let joined = join_pieces(&self.pieces);
        assert(joined@ == self@.pieces.flatten()) by {
            assert(self@.pieces =~= Seq::new(self.pieces@.len(), |i: int| self.pieces@[i]@));
        }
        write_bytes(&mut res, joined.as_slice());
        res.push(0x65);
        assert(res@ =~= self@.canonical_bytes());
        res
    }

    /// The info-hash, by which trackers and peers know the torrent.
    pub fn get_hash(&self) -> (digest: [u8; 20])
        requires
            self@.canonical_bytes().len() < SHA1_INPUT_LIMIT,
        ensures
            digest@ == self@.info_hash(),
    {
        let bytes = self.to_bytes();
        sha1(bytes.as_slice())
    }

    /// The info-hash as a tracker's URL carries it: a percent sign and two
    /// hexadecimal digits for each of its bytes.
    pub fn get_url_encoded_hash(&self) -> (text: String)
        requires
            self@.canonical_bytes().len() < SHA1_INPUT_LIMIT,
        ensures
            text@ == percent_encoded(self@.info_hash()),
    {
        let digest = self.get_hash();
        percent_encode(digest.as_slice())
    }
}

/// Writes bytes for a URL: a percent sign before each pair of hexadecimal
/// digits.
pub fn percent_encode(data: &[u8]) -> (text: String)
    ensures
        text@ == percent_encoded(data@),
{
    let hex = hex_encode(data);
    let digits = hex.as_str().as_bytes();
    proof {
        lemma_hex_is_ascii(data@);
        is_ascii_chars_encode_utf8(hex@);
    }
    let mut out: Vec<u8> = Vec::new();
    let mut i: usize = 0;
    while i < digits.len()
        invariant
            i <= digits@.len(),
            digits@.len() == 2 * data@.len(),
            forall|j: int| 0 <= j < digits@.len() ==> digits@[j] == hex_chars(data@)[j] as u8,
            forall|j: int| 0 <= j < digits@.len() ==> #[trigger] digits@[j] < 0x80,
            out@.len() == i + (i + 1) / 2,
            is_ascii_bytes(out@),
            forall|j: int|
                0 <= j < out@.len() ==> (#[trigger] out@[j]) as char == percent_encoded(data@)[j],
        decreases digits@.len() - i,
    {
        if i % 2 == 0 {
            out.push(0x25);
        }
        out.push(digits[i]);
        i += 1;
    }
    let text = ascii_text(out.as_slice());
    assert(text@ =~= percent_encoded(data@));
    text
}

/// Hexadecimal digits are ASCII.
proof fn lemma_hex_is_ascii(data: Seq<u8>)
    ensures
        is_ascii_chars(hex_chars(data)),
{
    let h = hex_chars(data);
    assert forall|i: int| 0 <= i < h.len() implies '\0' <= #[trigger] h[i] <= '\u{7f}' by {
        let b = data[i / 2] as int;
        assert(0 <= b / 16 < 16);
        assert(0 <= b % 16 < 16);
    }
}

} // verus!
