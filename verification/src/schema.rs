//! The schema of a torrent descriptor, stated over documents: which keys a
//! descriptor must hold, which it may hold, and what value each is read as.
//!
//! Keys that the schema does not know are passed over. A key that it knows
//! must hold the kind of value that the schema gives it, optional or not.

use crate::field::{ascii_bytes, Field};
use crate::text::lossy_text;
use crate::value::Document;
use vstd::prelude::*;
use vstd::string::StringExecFns;
use vstd::utf8::{encode_utf8, is_ascii_chars, is_ascii_chars_encode_utf8};

verus! {

/// Why a document is no torrent descriptor.
#[derive(Clone, Copy, Debug, PartialEq, Eq, Structural)]
pub enum SchemaError {
    /// The document is no dictionary.
    NotADictionary,
    /// A key that every descriptor holds is absent.
    MissingField(Field),
    /// A key holds another kind of value than the schema gives it.
    InvalidField(Field),
    /// The `info` dictionary holds neither `length` nor `files`.
    MissingLayout,
    /// The `info` dictionary holds both `length` and `files`.
    ConflictingLayout,
}

impl SchemaError {
    /// The description of the error, with the key it is about.
    pub open spec fn message_spec(self) -> Seq<char> {
        match self {
            SchemaError::NotADictionary => "expected a dictionary at the top of the descriptor"@,
            SchemaError::MissingField(field) => "missing key `"@ + field.name() + "`"@,
            SchemaError::InvalidField(field) => "key `"@ + field.name()
                + "` holds a value of another kind than a descriptor gives it"@,
            SchemaError::MissingLayout => "`info` holds neither `length` nor `files`"@,
            SchemaError::ConflictingLayout => "`info` holds both `length` and `files`"@,
        }
    }

    /// Describes the error, with the key it is about.
    pub fn message(&self) -> (text: String)
        ensures
            text@ == self.message_spec(),
    {
        match self {
            SchemaError::NotADictionary => String::from_str(
                "expected a dictionary at the top of the descriptor",
            ),
            SchemaError::MissingField(field) => {
                let mut text = String::from_str("missing key `");
                text.append(field.as_str());
                text.append("`");
                text
            },
            SchemaError::InvalidField(field) => {
                let mut text = String::from_str("key `");
                text.append(field.as_str());
                text.append("` holds a value of another kind than a descriptor gives it");
                text
            },
            SchemaError::MissingLayout => String::from_str("`info` holds neither `length` nor `files`"),
            SchemaError::ConflictingLayout => String::from_str("`info` holds both `length` and `files`"),
        }
    }
}

/// One file of a multi-file torrent.
pub ghost struct FileModel {
    pub length: i64,
    pub path: Seq<Seq<char>>,
    pub md5sum: Option<Seq<char>>,
}

/// The `info` dictionary of a descriptor.
pub ghost struct InfoModel {
    pub files: Option<Seq<FileModel>>,
    pub length: Option<i64>,
    pub md5sum: Option<Seq<char>>,
    pub name: Option<Seq<char>>,
    pub path: Option<Seq<Seq<char>>>,
    pub piece_length: i64,
    pub pieces: Seq<u8>,
    pub private: Option<u8>,
    pub root_hash: Option<Seq<char>>,
}

/// A torrent descriptor.
pub ghost struct TorrentModel {
    pub announce: Option<Seq<char>>,
    pub announce_list: Option<Seq<Seq<Seq<char>>>>,
    pub comment: Option<Seq<char>>,
    pub created_by: Option<Seq<char>>,
    pub creation_date: Option<i64>,
    pub encoding: Option<Seq<char>>,
    pub info: InfoModel,
    pub nodes: Option<Seq<(Seq<char>, i64)>>,
    pub httpseeds: Option<Seq<Seq<char>>>,
    /// The `info` dictionary as it was decoded, unknown keys and all.
    pub raw_info: Option<Document>,
}

/// A document read as text: the text of a byte string.
pub open spec fn text_of_doc(doc: Document) -> Option<Seq<char>> {
    match doc {
        Document::Bytes(bytes) => Some(lossy_text(bytes)),
        _ => None,
    }
}

/// A document read as a list whose items are each read by `item`: nothing
/// unless it is a list and `item` reads every item of it.
pub open spec fn list_of<T>(doc: Document, item: spec_fn(Document) -> Option<T>) -> Option<Seq<T>> {
    match doc {
        Document::List(items) => if forall|i: int| 0 <= i < items.len() ==> item(#[trigger] items[i]) is Some {
            Some(Seq::new(items.len(), |i: int| item(items[i])->Some_0))
        } else {
            None
        },
        _ => None,
    }
}

/// A document read as a list of texts.
pub open spec fn texts_of(doc: Document) -> Option<Seq<Seq<char>>> {
    list_of(doc, |item: Document| text_of_doc(item))
}

/// A document read as a list of lists of texts.
pub open spec fn text_lists_of(doc: Document) -> Option<Seq<Seq<Seq<char>>>> {
    list_of(doc, |item: Document| texts_of(item))
}

/// A document read as a node: a list of a host and a port.
pub open spec fn node_of(doc: Document) -> Option<(Seq<char>, i64)> {
    match doc {
        Document::List(pair) => if pair.len() == 2 && pair[0] is Bytes && pair[1] is Int {
            Some((lossy_text(pair[0]->Bytes_0), pair[1]->Int_0))
        } else {
            None
        },
        _ => None,
    }
}

/// A document read as a list of nodes.
pub open spec fn nodes_of(doc: Document) -> Option<Seq<(Seq<char>, i64)>> {
    list_of(doc, |item: Document| node_of(item))
}

/// A document read as an entry of a file list: a dictionary with an
/// integer `length`, a `path` that is a list of texts, and perhaps a text
/// `md5sum`.
pub open spec fn file_of(doc: Document) -> Option<FileModel> {
    match doc {
        Document::Dict(map) => {
            let length = required_int_at(map, Field::Length);
            let path = texts_at(map, Field::Path);
            let md5sum = text_at(map, Field::Md5sum);
            if length is Ok && path is Ok && path->Ok_0 is Some && md5sum is Ok {
                Some(
                    FileModel {
                        length: length->Ok_0,
                        path: path->Ok_0->Some_0,
                        md5sum: md5sum->Ok_0,
                    },
                )
            } else {
                None
            }
        },
        _ => None,
    }
}

/// A document read as a file list.
pub open spec fn files_of(doc: Document) -> Option<Seq<FileModel>> {
    list_of(doc, |item: Document| file_of(item))
}

/// What stands under an optional key whose value is read by `read`:
/// nothing where the key is absent, an error where `read` cannot read what
/// the key holds.
pub open spec fn optional_at<T>(
    map: Map<Seq<u8>, Document>,
    field: Field,
    read: spec_fn(Document) -> Option<T>,
) -> Result<Option<T>, SchemaError> {
    if !map.dom().contains(field.key()) {
        Ok(None)
    } else {
        match read(map[field.key()]) {
            Some(value) => Ok(Some(value)),
            None => Err(SchemaError::InvalidField(field)),
        }
    }
}

/// A document read as an integer.
pub open spec fn int_of_doc(doc: Document) -> Option<i64> {
    match doc {
        Document::Int(i) => Some(i),
        _ => None,
    }
}

/// A document read as a flag: an integer from 0 to 255.
pub open spec fn flag_of_doc(doc: Document) -> Option<u8> {
    match doc {
        Document::Int(i) => if 0 <= i <= 255 {
            Some(i as u8)
        } else {
            None
        },
        _ => None,
    }
}

/// The text under an optional key.
pub open spec fn text_at(map: Map<Seq<u8>, Document>, field: Field) -> Result<
    Option<Seq<char>>,
    SchemaError,
> {
    optional_at(map, field, |doc: Document| text_of_doc(doc))
}

/// The integer under an optional key.
pub open spec fn int_at(map: Map<Seq<u8>, Document>, field: Field) -> Result<
    Option<i64>,
    SchemaError,
> {
    optional_at(map, field, |doc: Document| int_of_doc(doc))
}

/// The list of texts under an optional key.
pub open spec fn texts_at(map: Map<Seq<u8>, Document>, field: Field) -> Result<
    Option<Seq<Seq<char>>>,
    SchemaError,
> {
    optional_at(map, field, |doc: Document| texts_of(doc))
}

/// The integer under a key that must be there.
pub open spec fn required_int_at(map: Map<Seq<u8>, Document>, field: Field) -> Result<
    i64,
    SchemaError,
> {
    if !map.dom().contains(field.key()) {
        Err(SchemaError::MissingField(field))
    } else {
        match map[field.key()] {
            Document::Int(i) => Ok(i),
            _ => Err(SchemaError::InvalidField(field)),
        }
    }
}

/// The bytes under a key that must be there.
pub open spec fn required_bytes_at(map: Map<Seq<u8>, Document>, field: Field) -> Result<
    Seq<u8>,
    SchemaError,
> {
    if !map.dom().contains(field.key()) {
        Err(SchemaError::MissingField(field))
    } else {
        match map[field.key()] {
            Document::Bytes(bytes) => Ok(bytes),
            _ => Err(SchemaError::InvalidField(field)),
        }
    }
}

/// An `info` dictionary read by the schema. Its keys are looked at in the
/// order `files`, `length`, `md5sum`, `name`, `path`, `piece length`,
/// `pieces`, `private`, `root hash`, and the first that is wrong is
/// reported; then exactly one of `length` and `files` must be there.
pub open spec fn info_model(map: Map<Seq<u8>, Document>) -> Result<InfoModel, SchemaError> {
    let files = optional_at(map, Field::Files, |doc: Document| files_of(doc));
    let length = int_at(map, Field::Length);
    let md5sum = text_at(map, Field::Md5sum);
    let name = text_at(map, Field::Name);
    let path = texts_at(map, Field::Path);
    let piece_length = required_int_at(map, Field::PieceLength);
    let pieces = required_bytes_at(map, Field::Pieces);
    let private = optional_at(map, Field::Private, |doc: Document| flag_of_doc(doc));
    let root_hash = text_at(map, Field::RootHash);
    if files is Err {
        Err(files->Err_0)
    } else if length is Err {
        Err(length->Err_0)
    } else if md5sum is Err {
        Err(md5sum->Err_0)
    } else if name is Err {
        Err(name->Err_0)
    } else if path is Err {
        Err(path->Err_0)
    } else if piece_length is Err {
        Err(piece_length->Err_0)
    } else if pieces is Err {
        Err(pieces->Err_0)
    } else if private is Err {
        Err(private->Err_0)
    } else if root_hash is Err {
        Err(root_hash->Err_0)
    } else if files->Ok_0 is None && length->Ok_0 is None {
        Err(SchemaError::MissingLayout)
    } else if files->Ok_0 is Some && length->Ok_0 is Some {
        Err(SchemaError::ConflictingLayout)
    } else {
        Ok(
            InfoModel {
                files: files->Ok_0,
                length: length->Ok_0,
                md5sum: md5sum->Ok_0,
                name: name->Ok_0,
                path: path->Ok_0,
                piece_length: piece_length->Ok_0,
                pieces: pieces->Ok_0,
                private: private->Ok_0,
                root_hash: root_hash->Ok_0,
            },
        )
    }
}

/// The `info` dictionary under its key, which must be there.
pub open spec fn info_at(map: Map<Seq<u8>, Document>) -> Result<InfoModel, SchemaError> {
    if !map.dom().contains(Field::Info.key()) {
        Err(SchemaError::MissingField(Field::Info))
    } else {
        match map[Field::Info.key()] {
            Document::Dict(info) => info_model(info),
            _ => Err(SchemaError::InvalidField(Field::Info)),
        }
    }
}

/// A document read as a torrent descriptor. Its keys are looked at in the
/// order `announce`, `announce-list`, `comment`, `created by`,
/// `creation date`, `encoding`, `info`, `nodes`, `httpseeds`, and the first
/// that is wrong is reported.
pub open spec fn torrent_model(doc: Document) -> Result<TorrentModel, SchemaError> {
    match doc {
        Document::Dict(map) => {
            let announce = text_at(map, Field::Announce);
            let announce_list = optional_at(
                map,
                Field::AnnounceList,
                |doc: Document| text_lists_of(doc),
            );
            let comment = text_at(map, Field::Comment);
            let created_by = text_at(map, Field::CreatedBy);
            let creation_date = int_at(map, Field::CreationDate);
            let encoding = text_at(map, Field::Encoding);
            let info = info_at(map);
            let nodes = optional_at(map, Field::Nodes, |doc: Document| nodes_of(doc));
            let httpseeds = texts_at(map, Field::HttpSeeds);
            if announce is Err {
                Err(announce->Err_0)
            } else if announce_list is Err {
                Err(announce_list->Err_0)
            } else if comment is Err {
                Err(comment->Err_0)
            } else if created_by is Err {
                Err(created_by->Err_0)
            } else if creation_date is Err {
                Err(creation_date->Err_0)
            } else if encoding is Err {
                Err(encoding->Err_0)
            } else if info is Err {
                Err(info->Err_0)
            } else if nodes is Err {
                Err(nodes->Err_0)
            } else if httpseeds is Err {
                Err(httpseeds->Err_0)
            } else {
                Ok(
                    TorrentModel {
                        announce: announce->Ok_0,
                        announce_list: announce_list->Ok_0,
                        comment: comment->Ok_0,
                        created_by: created_by->Ok_0,
                        creation_date: creation_date->Ok_0,
                        encoding: encoding->Ok_0,
                        info: info->Ok_0,
                        nodes: nodes->Ok_0,
                        httpseeds: httpseeds->Ok_0,
                        raw_info: Some(map[Field::Info.key()]),
                    },
                )
            }
        },
        _ => Err(SchemaError::NotADictionary),
    }
}

/// A text as a document: the byte string of its UTF-8 encoding.
pub open spec fn text_document(text: Seq<char>) -> Document {
    Document::Bytes(encode_utf8(text))
}

/// A text of ASCII characters is, as a document, the byte string of its
/// characters' codes.
pub proof fn lemma_ascii_text_document(text: Seq<char>)
    requires
        is_ascii_chars(text),
    ensures
        text_document(text) == Document::Bytes(ascii_bytes(text)),
{
    is_ascii_chars_encode_utf8(text);
    assert(encode_utf8(text) =~= ascii_bytes(text));
}

/// A list of texts as a document.
pub open spec fn texts_document(texts: Seq<Seq<char>>) -> Document {
    Document::List(Seq::new(texts.len(), |i: int| text_document(texts[i])))
}

/// A text that may be absent as a document that may be absent.
pub open spec fn optional_text_document(text: Option<Seq<char>>) -> Option<Document> {
    match text {
        Some(text) => Some(text_document(text)),
        None => None,
    }
}

/// The dictionary with the entry for `field` added where there is a
/// document for it, and as it is where there is none.
pub open spec fn with_entry(
    map: Map<Seq<u8>, Document>,
    field: Field,
    doc: Option<Document>,
) -> Map<Seq<u8>, Document> {
    match doc {
        Some(doc) => map.insert(field.key(), doc),
        None => map,
    }
}

/// An entry of a file list as a document: the dictionary of its `length`,
/// its `md5sum` where it has one, and its `path`.
pub open spec fn file_document(file: FileModel) -> Document {
    Document::Dict(
        with_entry(
            with_entry(
                with_entry(Map::empty(), Field::Length, Some(Document::Int(file.length))),
                Field::Md5sum,
                optional_text_document(file.md5sum),
            ),
            Field::Path,
            Some(texts_document(file.path)),
        ),
    )
}

/// A file list as a document.
pub open spec fn files_document(files: Seq<FileModel>) -> Document {
    Document::List(Seq::new(files.len(), |i: int| file_document(files[i])))
}

/// The entries of an `info` dictionary for the fields that are set:
/// `files`, `length`, `md5sum`, `name`, `path`, `piece length`, `pieces`,
/// `private` and `root hash`, texts as their UTF-8 bytes. A field that is
/// absent has no entry; the piece length and the pieces always have one.
pub open spec fn info_entries(info: InfoModel) -> Map<Seq<u8>, Document> {
    let files = with_entry(
        Map::empty(),
        Field::Files,
        match info.files {
            Some(files) => Some(files_document(files)),
            None => None,
        },
    );
    let length = with_entry(
        files,
        Field::Length,
        match info.length {
            Some(length) => Some(Document::Int(length)),
            None => None,
        },
    );
    let md5sum = with_entry(length, Field::Md5sum, optional_text_document(info.md5sum));
    let name = with_entry(md5sum, Field::Name, optional_text_document(info.name));
    let path = with_entry(
        name,
        Field::Path,
        match info.path {
            Some(path) => Some(texts_document(path)),
            None => None,
        },
    );
    let piece_length = with_entry(path, Field::PieceLength, Some(Document::Int(info.piece_length)));
    let pieces = with_entry(piece_length, Field::Pieces, Some(Document::Bytes(info.pieces)));
    let private = with_entry(
        pieces,
        Field::Private,
        match info.private {
            Some(flag) => Some(Document::Int(flag as i64)),
            None => None,
        },
    );
    with_entry(private, Field::RootHash, optional_text_document(info.root_hash))
}

/// The `info` dictionary that the fields of a descriptor stand for.
pub open spec fn info_document(info: InfoModel) -> Document {
    Document::Dict(info_entries(info))
}

/// The number of files of a torrent: the length of its file list, or one
/// for a single file, or none where it has neither.
pub open spec fn file_count(info: InfoModel) -> nat {
    match info.files {
        Some(files) => files.len(),
        None => if info.length is Some {
            1
        } else {
            0
        },
    }
}

/// The sum of the lengths of the first `n` files.
pub open spec fn lengths_sum(files: Seq<FileModel>, n: nat) -> int
    decreases n,
{
    if n == 0 || n > files.len() {
        0
    } else {
        lengths_sum(files, (n - 1) as nat) + files[n - 1].length
    }
}

/// The size of a torrent's content: the sum of its files' lengths, or the
/// length of its single file, or zero where it has neither.
pub open spec fn content_size(info: InfoModel) -> int {
    match info.files {
        Some(files) => lengths_sum(files, files.len()),
        None => match info.length {
            Some(length) => length as int,
            None => 0,
        },
    }
}

/// A descriptor that the schema accepts is either single-file or
/// multi-file: it holds a file list exactly when it holds no length.
pub proof fn theorem_one_layout(doc: Document)
    requires
        torrent_model(doc) is Ok,
    ensures
        torrent_model(doc)->Ok_0.info.files is Some <==> torrent_model(doc)->Ok_0.info.length is None,
{
}

/// A document that is no dictionary is no descriptor.
pub proof fn theorem_only_dictionaries(doc: Document)
    requires
        !(doc is Dict),
    ensures
        torrent_model(doc) == Err::<TorrentModel, _>(SchemaError::NotADictionary),
{
}

/// A descriptor of nothing but an `info` dictionary with the given entries.
pub open spec fn descriptor_of(info: Map<Seq<u8>, Document>) -> Document {
    Document::Dict(Map::empty().insert(Field::Info.key(), Document::Dict(info)))
}

/// The least that an `info` dictionary must hold: a piece length and the
/// piece hashes.
pub open spec fn bare_info(piece_length: i64, pieces: Seq<u8>) -> Map<Seq<u8>, Document> {
    Map::empty().insert(Field::PieceLength.key(), Document::Int(piece_length)).insert(
        Field::Pieces.key(),
        Document::Bytes(pieces),
    )
}

/// A descriptor whose `info` dictionary holds a length, a piece length and
/// piece hashes, and no file list, is a single-file torrent: it has one
/// file, and its content is as long as the length says.
pub proof fn theorem_single_file_descriptor(length: i64, piece_length: i64, pieces: Seq<u8>)
    ensures
        ({
            let info = bare_info(piece_length, pieces).insert(
                Field::Length.key(),
                Document::Int(length),
            );
            let read = torrent_model(descriptor_of(info));
            &&& read is Ok
            &&& read->Ok_0.info.length == Some(length)
            &&& read->Ok_0.info.files is None
            &&& read->Ok_0.info.piece_length == piece_length
            &&& read->Ok_0.info.pieces == pieces
            &&& file_count(read->Ok_0.info) == 1
            &&& content_size(read->Ok_0.info) == length
        }),
{
    assert forall|a: Field, b: Field| a != b implies #[trigger] a.key() != #[trigger] b.key() by {
        a.lemma_keys_differ(b);
    }
    let info = bare_info(piece_length, pieces).insert(Field::Length.key(), Document::Int(length));
    assert(info_model(info) is Ok);
}

/// A descriptor whose `info` dictionary holds a piece length and piece
/// hashes but neither a length nor a file list is refused for that.
pub proof fn theorem_layout_is_required(piece_length: i64, pieces: Seq<u8>)
    ensures
        torrent_model(descriptor_of(bare_info(piece_length, pieces))) == Err::<TorrentModel, _>(
            SchemaError::MissingLayout,
        ),
{
    assert forall|a: Field, b: Field| a != b implies #[trigger] a.key() != #[trigger] b.key() by {
        a.lemma_keys_differ(b);
    }
    let info = bare_info(piece_length, pieces);
    assert(info_model(info) == Err::<InfoModel, _>(SchemaError::MissingLayout));
}

/// A single-file torrent, one with a length and no file list, has one file,
/// and its content is as long as that length.
pub proof fn theorem_single_file(info: InfoModel)
    requires
        info.files is None,
        info.length is Some,
    ensures
        file_count(info) == 1,
        content_size(info) == info.length->Some_0,
{
}

/// A multi-file torrent has the files of its list, and its content is as
/// long as their lengths together.
pub proof fn theorem_multi_file(info: InfoModel)
    requires
        info.files is Some,
    ensures
        file_count(info) == info.files->Some_0.len(),
        content_size(info) == lengths_sum(info.files->Some_0, info.files->Some_0.len()),
{
}

/// An `info` dictionary holds what the data of a torrent can be: pieces of
/// a positive length, whole 20-byte hashes of them, exactly one of a length
/// and a file list, and no negative length.
pub open spec fn valid_info(info: InfoModel) -> bool {
    &&& info.piece_length > 0
    &&& info.pieces.len() % 20 == 0
    &&& info.files is Some <==> info.length is None
    &&& info.length matches Some(length) ==> length >= 0
    &&& info.files matches Some(files) ==> forall|i: int|
        0 <= i < files.len() ==> (#[trigger] files[i]).length >= 0
}

} // verus!
