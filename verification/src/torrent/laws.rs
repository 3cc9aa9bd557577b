//! Laws of the metainfo model: the info-hash does not depend on the order in
//! which the keys of the outer dictionary of a metainfo file come, and the
//! canonical form of an info dictionary is Bencode that is read back as the
//! same info dictionary.

use crate::bencode::dict::{distinct_keys, lemma_position, lookup, position};
use crate::bencode::encode::{
    encode, encode_dict_value, encode_entries, encode_items, encode_number, encode_text,
};
use crate::bencode::decode::ByteMode;
use crate::bencode::laws::{
    entries_round_trip, entry_follows, follows, lemma_round_trip, well_formed,
    well_formed_value,
};
use crate::bencode::{BenError, BencodeView, DictValueView};
use crate::torrent::parse::{
    digests_of, file_of, file_type_of, files_from, info_of, path_of, pieces_mode, torrent_of,
    torrent_of_bytes,
};
use crate::torrent::{
    encode_file, encode_files, encode_path, encode_unsigned, FileTypeView, FileView, InfoView,
    TorrentView,
};
use vstd::prelude::*;
use vstd::seq_lib::to_multiset_contains;
use vstd::utf8::encode_utf8;

verus! {

/// The same entries in another order: no key comes twice in either, and each
/// entry of one is an entry of the other.
pub open spec fn same_entries(
    a: Seq<(Seq<char>, DictValueView)>,
    b: Seq<(Seq<char>, DictValueView)>,
) -> bool {
    &&& distinct_keys(a)
    &&& distinct_keys(b)
    &&& a.to_multiset() == b.to_multiset()
}

/// A key has the same value in two dictionaries with the same entries.
pub proof fn lemma_lookup_ignores_order(
    a: Seq<(Seq<char>, DictValueView)>,
    b: Seq<(Seq<char>, DictValueView)>,
    key: Seq<char>,
)
    requires
        same_entries(a, b),
    ensures
        lookup(a, key) == lookup(b, key),
{
    lemma_position(a, key);
    lemma_position(b, key);
    let i = position(a, key);
    let j = position(b, key);
    if i < a.len() {
        to_multiset_contains(a, a[i]);
        to_multiset_contains(b, a[i]);
        assert(a.contains(a[i]));
        let k = choose|k: int| 0 <= k < b.len() && b[k] == a[i];
        assert(b[k].0 == key);
        assert(j < b.len());
        assert(j == k);
    } else if j < b.len() {
        to_multiset_contains(a, b[j]);
        to_multiset_contains(b, b[j]);
        assert(b.contains(b[j]));
        let k = choose|k: int| 0 <= k < a.len() && a[k] == b[j];
        assert(a[k].0 == key);
    }
}

/// Info-hash stability: two outer dictionaries with the same entries in
/// another order describe the same torrent or fail for the same reason, so a
/// torrent's info-hash, the digest of the canonical form of its info
/// dictionary, is the same for both.
pub proof fn lemma_info_hash_stability(
    a: Seq<(Seq<char>, DictValueView)>,
    b: Seq<(Seq<char>, DictValueView)>,
)
    requires
        same_entries(a, b),
    ensures
        torrent_of(BencodeView::Dict(a)) == torrent_of(BencodeView::Dict(b)),
        torrent_of(BencodeView::Dict(a)) is Ok ==> torrent_of(
            BencodeView::Dict(a),
        )->Ok_0.info.info_hash() == torrent_of(BencodeView::Dict(b))->Ok_0.info.info_hash(),
{
    lemma_lookup_ignores_order(a, b, "info"@);
    lemma_lookup_ignores_order(a, b, "announce"@);
}

/// Whether a number can be written as a length and as a Bencode integer.
pub open spec fn is_count(n: nat) -> bool {
    n <= usize::MAX && n <= i64::MAX
}

impl InfoView {
    /// What holds of the view of every info dictionary in memory whose
    /// numbers Bencode can hold: every length and the piece length fit a
    /// `usize` and an `i64`, and the bytes of every string and of the pieces
    /// can be counted.
    pub open spec fn writable(self) -> bool {
        &&& is_count(self.piece_length)
        &&& encode_utf8(self.name).len() <= usize::MAX
        &&& self.pieces.flatten().len() <= usize::MAX
        &&& match self.file_type {
            FileTypeView::SingleFile { length } => is_count(length),
            FileTypeView::MultiFile { files } => forall|i: int|
                0 <= i < files.len() ==> is_count((#[trigger] files[i]).length) && forall|j: int|
                    0 <= j < files[i].path.len() ==> encode_utf8(
                        #[trigger] files[i].path[j],
                    ).len() <= usize::MAX,
        }
    }
}

/// The segments of a path as Bencode strings.
pub open spec fn path_value(path: Seq<Seq<char>>) -> Seq<BencodeView> {
    Seq::new(path.len(), |i: int| BencodeView::String(path[i]))
}

/// The Bencode dictionary that stands for a file.
pub open spec fn file_value(file: FileView) -> BencodeView {
    BencodeView::Dict(
        seq![
            ("length"@, DictValueView::Bencode(BencodeView::Number(file.length as i64))),
            ("path"@, DictValueView::Bencode(BencodeView::List(path_value(file.path)))),
        ],
    )
}

/// The Bencode dictionaries that stand for files.
pub open spec fn files_value(files: Seq<FileView>) -> Seq<BencodeView> {
    Seq::new(files.len(), |i: int| file_value(files[i]))
}

/// The entry of the info dictionary that stands for the files.
pub open spec fn file_type_entry(file_type: FileTypeView) -> (Seq<char>, DictValueView) {
    match file_type {
        FileTypeView::SingleFile { length } => (
            "length"@,
            DictValueView::Bencode(BencodeView::Number(length as i64)),
        ),
        FileTypeView::MultiFile { files } => (
            "files"@,
            DictValueView::Bencode(BencodeView::List(files_value(files))),
        ),
    }
}

/// The Bencode dictionary that the canonical form of an info dictionary
/// writes.
pub open spec fn info_value(info: InfoView) -> BencodeView {
    BencodeView::Dict(
        seq![
            file_type_entry(info.file_type),
            ("name"@, DictValueView::Bencode(BencodeView::String(info.name))),
            (
                "piece length"@,
                DictValueView::Bencode(BencodeView::Number(info.piece_length as i64)),
            ),
            ("pieces"@, DictValueView::Bytes(info.pieces)),
        ],
    )
}

/// The Bencode dictionary of a metainfo file that holds an info dictionary
/// and nothing else.
pub open spec fn metainfo_value(info: InfoView) -> BencodeView {
    BencodeView::Dict(seq![("info"@, DictValueView::Bencode(info_value(info)))])
}

/// The bytes of a metainfo file that holds an info dictionary in its
/// canonical form and nothing else.
pub open spec fn metainfo_bytes(info: InfoView) -> Seq<u8> {
    seq![0x64u8] + encode_text("info"@) + info.canonical_bytes() + seq![0x65u8]
}

/// The keys of a metainfo file are different texts.
proof fn lemma_keys()
    ensures
        "length"@ != "files"@,
        "length"@ != "name"@,
        "length"@ != "piece length"@,
        "length"@ != "pieces"@,
        "length"@ != "path"@,
        "files"@ != "name"@,
        "files"@ != "piece length"@,
        "files"@ != "pieces"@,
        "name"@ != "piece length"@,
        "name"@ != "pieces"@,
        "piece length"@ != "pieces"@,
        "path"@ != "pieces"@,
        "info"@ != "pieces"@,
        "info"@ != "announce"@,
        encode_utf8("length"@).len() <= usize::MAX,
        encode_utf8("files"@).len() <= usize::MAX,
        encode_utf8("name"@).len() <= usize::MAX,
        encode_utf8("piece length"@).len() <= usize::MAX,
        encode_utf8("pieces"@).len() <= usize::MAX,
        encode_utf8("path"@).len() <= usize::MAX,
        encode_utf8("info"@).len() <= usize::MAX,
{
    reveal_strlit("length");
    reveal_strlit("files");
    reveal_strlit("name");
    reveal_strlit("piece length");
    reveal_strlit("pieces");
    reveal_strlit("path");
    reveal_strlit("info");
    reveal_strlit("announce");
    assert("length"@[0] == 'l' && "pieces"@[0] == 'p');
    assert("name"@[0] == 'n' && "info"@[0] == 'i' && "path"@[0] == 'p');
    lemma_short_text("length"@);
    lemma_short_text("files"@);
    lemma_short_text("name"@);
    lemma_short_text("piece length"@);
    lemma_short_text("pieces"@);
    lemma_short_text("path"@);
    lemma_short_text("info"@);
}

/// The UTF-8 form of a text has at most four bytes for each character.
proof fn lemma_short_text(text: Seq<char>)
    ensures
        encode_utf8(text).len() <= 4 * text.len(),
    decreases text.len(),
{
    if text.len() > 0 {
        lemma_short_text(text.drop_first());
    }
}

/// A count is written as the Bencode integer it is.
proof fn lemma_encode_count(n: nat)
    requires
        is_count(n),
    ensures
        encode_unsigned(n) == encode_number(n as i64),
{
}

/// Entries are written entry after entry.
proof fn lemma_encode_entries_push(
    entries: Seq<(Seq<char>, DictValueView)>,
    entry: (Seq<char>, DictValueView),
)
    ensures
        encode_entries(entries.push(entry)) == encode_entries(entries) + encode_text(entry.0)
            + encode_dict_value(entry.1),
{
    assert(entries.push(entry).drop_last() =~= entries);
}

/// A path is written as the items of a list of strings.
proof fn lemma_encode_path(path: Seq<Seq<char>>)
    ensures
        encode_path(path) == encode_items(path_value(path)),
    decreases path.len(),
{
    if path.len() > 0 {
        lemma_encode_path(path.drop_last());
        assert(path_value(path).drop_last() =~= path_value(path.drop_last()));
        assert(path_value(path).last() == BencodeView::String(path.last()));
        assert(encode(path_value(path).last()) == encode_text(path.last()));
    }
}

/// A file is written as the dictionary that stands for it.
proof fn lemma_encode_file(file: FileView)
    requires
        is_count(file.length),
    ensures
        encode_file(file) == encode(file_value(file)),
{
    let first = ("length"@, DictValueView::Bencode(BencodeView::Number(file.length as i64)));
    let second = ("path"@, DictValueView::Bencode(BencodeView::List(path_value(file.path))));
    let none = Seq::<(Seq<char>, DictValueView)>::empty();
    lemma_encode_count(file.length);
    lemma_encode_path(file.path);
    lemma_encode_entries_push(none, first);
    lemma_encode_entries_push(none.push(first), second);
    assert(seq![first, second] =~= none.push(first).push(second));
    assert(encode_file(file) =~= encode(file_value(file)));
}

/// Files are written as the items of a list of the dictionaries that stand
/// for them.
proof fn lemma_encode_files(files: Seq<FileView>)
    requires
        forall|i: int| 0 <= i < files.len() ==> is_count((#[trigger] files[i]).length),
    ensures
        encode_files(files) == encode_items(files_value(files)),
    decreases files.len(),
{
    if files.len() > 0 {
        let front = files.drop_last();
        assert forall|i: int| 0 <= i < front.len() implies is_count(
            (#[trigger] front[i]).length,
        ) by {
            assert(front[i] == files[i]);
        }
        lemma_encode_files(front);
        lemma_encode_file(files.last());
        assert(files_value(files).drop_last() =~= files_value(front));
    }
}

/// Four entries are written one after the other.
proof fn lemma_encode_four_entries(
    e0: (Seq<char>, DictValueView),
    e1: (Seq<char>, DictValueView),
    e2: (Seq<char>, DictValueView),
    e3: (Seq<char>, DictValueView),
)
    ensures
        encode_entries(seq![e0, e1, e2, e3]) == encode_text(e0.0) + encode_dict_value(e0.1)
            + encode_text(e1.0) + encode_dict_value(e1.1) + encode_text(e2.0)
            + encode_dict_value(e2.1) + encode_text(e3.0) + encode_dict_value(e3.1),
{
    let none = Seq::<(Seq<char>, DictValueView)>::empty();
    lemma_encode_entries_push(none, e0);
    lemma_encode_entries_push(none.push(e0), e1);
    lemma_encode_entries_push(none.push(e0).push(e1), e2);
    lemma_encode_entries_push(none.push(e0).push(e1).push(e2), e3);
    assert(seq![e0, e1, e2, e3] =~= none.push(e0).push(e1).push(e2).push(e3));
    assert(encode_entries(none) =~= Seq::<u8>::empty());
}

/// The entry for the files is written as the canonical form has it.
proof fn lemma_encode_file_type(file_type: FileTypeView)
    requires
        match file_type {
            FileTypeView::SingleFile { length } => is_count(length),
            FileTypeView::MultiFile { files } => forall|i: int|
                0 <= i < files.len() ==> is_count((#[trigger] files[i]).length),
        },
    ensures
        file_type.canonical_bytes() == encode_text(file_type_entry(file_type).0)
            + encode_dict_value(file_type_entry(file_type).1),
{
    match file_type {
        FileTypeView::SingleFile { length } => {
            lemma_encode_count(length);
        },
        FileTypeView::MultiFile { files } => {
            lemma_encode_files(files);
            assert(file_type.canonical_bytes() =~= encode_text("files"@) + encode(
                BencodeView::List(files_value(files)),
            ));
        },
    }
}

/// The canonical form is Bencode: it is what is written for the dictionary
/// that stands for the info dictionary.
pub proof fn lemma_canonical_form_is_bencode(info: InfoView)
    requires
        info.writable(),
    ensures
        info.canonical_bytes() == encode(info_value(info)),
        metainfo_bytes(info) == encode(metainfo_value(info)),
{
    let e0 = file_type_entry(info.file_type);
    let e1 = ("name"@, DictValueView::Bencode(BencodeView::String(info.name)));
    let e2 = (
        "piece length"@,
        DictValueView::Bencode(BencodeView::Number(info.piece_length as i64)),
    );
    let e3 = ("pieces"@, DictValueView::Bytes(info.pieces));
    lemma_encode_count(info.piece_length);
    lemma_encode_file_type(info.file_type);
    lemma_encode_four_entries(e0, e1, e2, e3);
    assert(info.canonical_bytes() =~= seq![0x64u8] + encode_entries(seq![e0, e1, e2, e3])
        + seq![0x65u8]);
    let outer = ("info"@, DictValueView::Bencode(info_value(info)));
    let none = Seq::<(Seq<char>, DictValueView)>::empty();
    lemma_encode_entries_push(none, outer);
    assert(seq![outer] =~= none.push(outer));
    assert(metainfo_bytes(info) =~= encode(metainfo_value(info)));
}

/// The value of the entry at `at` is found under its key where no entry
/// before it has the key.
proof fn lemma_lookup_at(entries: Seq<(Seq<char>, DictValueView)>, at: int)
    requires
        0 <= at < entries.len(),
        forall|j: int| 0 <= j < at ==> (#[trigger] entries[j]).0 != entries[at].0,
    ensures
        lookup(entries, entries[at].0) == Some(entries[at].1),
{
    lemma_position(entries, entries[at].0);
}

/// Nothing is found under a key that no entry has.
proof fn lemma_lookup_none(entries: Seq<(Seq<char>, DictValueView)>, key: Seq<char>)
    requires
        forall|j: int| 0 <= j < entries.len() ==> (#[trigger] entries[j]).0 != key,
    ensures
        lookup(entries, key) is None,
{
    lemma_position(entries, key);
}

/// A dictionary is well formed and follows a rule where its keys differ and
/// each entry is fit for the round trip.
proof fn lemma_dict_value(entries: Seq<(Seq<char>, DictValueView)>, mode: ByteMode)
    requires
        distinct_keys(entries),
        entries_round_trip(entries, mode),
    ensures
        well_formed(BencodeView::Dict(entries)),
        follows(BencodeView::Dict(entries), mode),
{
}

/// The dictionary that stands for a file is well formed, follows the rule
/// for metainfo files, and describes the file.
proof fn lemma_file_value(file: FileView)
    requires
        is_count(file.length),
        file.path.len() >= 1,
        forall|j: int|
            0 <= j < file.path.len() ==> encode_utf8(#[trigger] file.path[j]).len() <= usize::MAX,
    ensures
        well_formed(file_value(file)),
        follows(file_value(file), pieces_mode()),
        file_of(file_value(file)) == Ok::<FileView, Seq<char>>(file),
{
    lemma_keys();
    let items = path_value(file.path);
    let list = BencodeView::List(items);
    let entries = file_value(file)->Dict_0;
    assert(entries[0].0 == "length"@ && entries[1].0 == "path"@);
    assert(well_formed(list)) by {
        assert forall|i: int| 0 <= i < items.len() implies well_formed(#[trigger] items[i]) by {
            assert(items[i] == BencodeView::String(file.path[i]));
        }
    }
    assert(follows(list, pieces_mode())) by {
        assert forall|i: int| 0 <= i < items.len() implies follows(
            #[trigger] items[i],
            pieces_mode(),
        ) by {
            assert(items[i] == BencodeView::String(file.path[i]));
        }
    }
    assert(entries.len() == 2);
    assert(entries[0].1 == DictValueView::Bencode(BencodeView::Number(file.length as i64)));
    assert(entries[1].1 == DictValueView::Bencode(list));
    assert(pieces_mode()("length"@) is None && pieces_mode()("path"@) is None);
    assert(entry_follows(entries[0].0, entries[0].1, pieces_mode()));
    assert(entry_follows(entries[1].0, entries[1].1, pieces_mode()));
    assert(well_formed_value(entries[0].1) && well_formed_value(entries[1].1));
    lemma_dict_value(entries, pieces_mode());
    lemma_lookup_at(entries, 0);
    lemma_lookup_at(entries, 1);
    assert(path_of(items) == Ok::<Seq<Seq<char>>, Seq<char>>(file.path)) by {
        assert forall|i: int| 0 <= i < items.len() implies (#[trigger] items[i]) is String by {
            assert(items[i] == BencodeView::String(file.path[i]));
        }
        assert(Seq::new(items.len(), |i: int| items[i]->String_0) =~= file.path);
    }
}

/// The dictionaries that stand for files describe the files.
proof fn lemma_files_value(files: Seq<FileView>, read: Seq<FileView>)
    requires
        forall|i: int|
            0 <= i < files.len() ==> is_count((#[trigger] files[i]).length) && files[i].path.len()
                >= 1 && forall|j: int|
                0 <= j < files[i].path.len() ==> encode_utf8(#[trigger] files[i].path[j]).len()
                    <= usize::MAX,
    ensures
        files_from(files_value(files), read) == Ok::<Seq<FileView>, Seq<char>>(read + files),
        forall|i: int|
            0 <= i < files.len() ==> well_formed(#[trigger] files_value(files)[i]) && follows(
                files_value(files)[i],
                pieces_mode(),
            ),
    decreases files.len(),
{
    if files.len() == 0 {
        assert(read + files =~= read);
    } else {
        let others = files.drop_first();
        assert(files_value(files).drop_first() =~= files_value(others));
        assert(files_value(files)[0] == file_value(files[0]));
        lemma_file_value(files[0]);
        assert forall|i: int| 0 <= i < others.len() implies is_count(
            (#[trigger] others[i]).length,
        ) && others[i].path.len() >= 1 && forall|j: int|
            0 <= j < others[i].path.len() ==> encode_utf8(#[trigger] others[i].path[j]).len()
                <= usize::MAX by {
            assert(others[i] == files[i + 1]);
        }
        lemma_files_value(others, read.push(files[0]));
        assert(read.push(files[0]) + others =~= read + files);
        assert forall|i: int| 0 <= i < files.len() implies well_formed(
            #[trigger] files_value(files)[i],
        ) && follows(files_value(files)[i], pieces_mode()) by {
            if i > 0 {
                assert(files_value(files)[i] == files_value(others)[i - 1]);
            }
        }
    }
}

/// What the entry for the files of a well-formed info dictionary holds is
/// well formed and follows the rule for metainfo files.
proof fn lemma_file_type_value(info: InfoView)
    requires
        info.wf(),
        info.writable(),
    ensures
        well_formed(file_type_entry(info.file_type).1->Bencode_0),
        follows(file_type_entry(info.file_type).1->Bencode_0, pieces_mode()),
        file_type_entry(info.file_type).1 is Bencode,
        file_type_of(info_value(info)) == Ok::<FileTypeView, Seq<char>>(info.file_type),
{
    lemma_keys();
    let entries = info_value(info)->Dict_0;
    assert(entries[0] == file_type_entry(info.file_type));
    assert(entries[1].0 == "name"@ && entries[2].0 == "piece length"@ && entries[3].0
        == "pieces"@);
    lemma_lookup_at(entries, 0);
    match info.file_type {
        FileTypeView::SingleFile { length } => {
            lemma_lookup_none(entries, "files"@);
        },
        FileTypeView::MultiFile { files } => {
            lemma_lookup_none(entries, "length"@);
            lemma_files_value(files, Seq::empty());
            assert(Seq::<FileView>::empty() + files =~= files);
        },
    }
}

/// The dictionary that stands for a well-formed info dictionary is well
/// formed, follows the rule for metainfo files, and describes the info
/// dictionary.
pub proof fn lemma_info_value(info: InfoView)
    requires
        info.wf(),
        info.writable(),
    ensures
        well_formed(info_value(info)),
        follows(info_value(info), pieces_mode()),
        info_of(info_value(info)) == Ok::<InfoView, Seq<char>>(info),
{
    lemma_keys();
    lemma_file_type_value(info);
    let entries = info_value(info)->Dict_0;
    assert(entries[0] == file_type_entry(info.file_type));
    assert(entries[1] == ("name"@, DictValueView::Bencode(BencodeView::String(info.name))));
    assert(entries[2] == (
        "piece length"@,
        DictValueView::Bencode(BencodeView::Number(info.piece_length as i64)),
    ));
    assert(entries[3] == ("pieces"@, DictValueView::Bytes(info.pieces)));
    assert(entries[0].0 == "length"@ || entries[0].0 == "files"@);
    assert(entries.len() == 4);
    assert(pieces_mode()("length"@) is None && pieces_mode()("files"@) is None);
    assert(pieces_mode()("name"@) is None && pieces_mode()("piece length"@) is None);
    assert(pieces_mode()("pieces"@) == Some(20usize));
    assert(entry_follows(entries[0].0, entries[0].1, pieces_mode()));
    assert(entry_follows(entries[1].0, entries[1].1, pieces_mode()));
    assert(entry_follows(entries[2].0, entries[2].1, pieces_mode()));
    assert(entry_follows(entries[3].0, entries[3].1, pieces_mode()));
    assert(well_formed_value(entries[0].1) && well_formed_value(entries[1].1));
    assert(well_formed_value(entries[2].1) && well_formed_value(entries[3].1));
    lemma_dict_value(entries, pieces_mode());
    lemma_lookup_at(entries, 1);
    lemma_lookup_at(entries, 2);
    lemma_lookup_at(entries, 3);
    assert(digests_of(info.pieces) == Ok::<Seq<Seq<u8>>, Seq<char>>(info.pieces));
}

/// A well-formed info dictionary is read back from its canonical form: the
/// metainfo file that holds the canonical form under `info`, and nothing
/// else, describes a torrent without a tracker and with that info
/// dictionary.
pub proof fn lemma_canonical_form_is_read_back(info: InfoView)
    requires
        info.wf(),
        info.writable(),
    ensures
        torrent_of_bytes(metainfo_bytes(info)) == Ok::<TorrentView, Result<Seq<char>, BenError>>(
            TorrentView { announce: None, info },
        ),
{
    lemma_keys();
    lemma_canonical_form_is_bencode(info);
    lemma_info_value(info);
    let outer = metainfo_value(info);
    let entries = outer->Dict_0;
    assert(entries[0] == ("info"@, DictValueView::Bencode(info_value(info))));
    assert(entries.len() == 1);
    assert(pieces_mode()("info"@) is None);
    assert(entry_follows(entries[0].0, entries[0].1, pieces_mode()));
    assert(well_formed_value(entries[0].1));
    lemma_dict_value(entries, pieces_mode());
    lemma_round_trip(outer, pieces_mode());
    lemma_lookup_at(entries, 0);
    lemma_lookup_none(entries, "announce"@);
}

} // verus!
