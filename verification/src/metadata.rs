//! Torrent descriptors in memory, and reading one out of a document.

use crate::decode::{decode, decode_spec, DecodeError};
use crate::field::Field;
use crate::schema::{
    content_size, file_count, file_document, file_of, files_document, files_of, flag_of_doc,
    info_at, info_document, info_model, int_at, lengths_sum, node_of, nodes_of, optional_at,
    optional_text_document, required_bytes_at, required_int_at, text_at, text_document,
    text_lists_of, text_of_doc, texts_at, texts_document, texts_of, torrent_model, valid_info,
    with_entry, FileModel, InfoModel, SchemaError, TorrentModel,
};
use crate::text::text_of;
use crate::value::{list_view, Dict, Document, Value};
use vstd::prelude::*;
use vstd::slice::slice_to_vec;
use vstd::string::{StringExecFns, StringSliceAdditionalSpecFns};

verus! {

/// One file of a multi-file torrent.
#[derive(Debug)]
pub struct File {
    pub length: i64,
    pub path: Vec<String>,
    pub md5sum: Option<String>,
}

/// A DHT bootstrap node.
#[derive(Debug)]
pub struct Node {
    pub host: String,
    pub port: i64,
}

/// The `info` dictionary of a descriptor, as far as the schema knows it.
#[derive(Debug)]
pub struct Info {
    pub files: Option<Vec<File>>,
    pub length: Option<i64>,
    pub md5sum: Option<String>,
    pub name: Option<String>,
    pub path: Option<Vec<String>>,
    pub piece_length: i64,
    pub pieces: Vec<u8>,
    pub private: Option<u8>,
    pub root_hash: Option<String>,
}

/// A torrent descriptor.
#[derive(Debug)]
pub struct Torrent {
    pub announce: Option<String>,
    pub announce_list: Option<Vec<Vec<String>>>,
    pub comment: Option<String>,
    pub created_by: Option<String>,
    pub creation_date: Option<i64>,
    pub encoding: Option<String>,
    pub info: Info,
    pub(crate) nodes: Option<Vec<Node>>,
    pub httpseeds: Option<Vec<String>>,
    /// The `info` dictionary as it was decoded; a descriptor that was not
    /// read from a document has none.
    pub(crate) raw_info: Option<Value>,
}

/// Why bytes are no torrent descriptor.
#[derive(Clone, Copy, Debug, PartialEq, Eq, Structural)]
pub enum TorrentError {
    /// The bytes are no document.
    Decode(DecodeError),
    /// The document is no descriptor.
    Schema(SchemaError),
}

impl TorrentError {
    /// The description of the error: whether the bytes were no document or
    /// the document no descriptor, and why.
    pub open spec fn message_spec(self) -> Seq<char> {
        match self {
            TorrentError::Decode(error) => "not a bencoded document: "@ + error.message_spec(),
            TorrentError::Schema(error) => "not a torrent descriptor: "@ + error.message_spec(),
        }
    }

    /// Describes the error.
    pub fn message(&self) -> (text: String)
        ensures
            text@ == self.message_spec(),
    {
        match self {
            TorrentError::Decode(error) => {
                let mut text = String::from_str("not a bencoded document: ");
                let why = error.message();
                text.append(why.as_str());
                text
            },
            TorrentError::Schema(error) => {
                let mut text = String::from_str("not a torrent descriptor: ");
                let why = error.message();
                text.append(why.as_str());
                text
            },
        }
    }
}

impl DeepView for File {
    type V = FileModel;

    open spec fn deep_view(&self) -> FileModel {
        FileModel {
            length: self.length,
            path: self.path.deep_view(),
            md5sum: self.md5sum.deep_view(),
        }
    }
}

impl View for File {
    type V = FileModel;

    open spec fn view(&self) -> FileModel {
        self.deep_view()
    }
}

impl DeepView for Node {
    type V = (Seq<char>, i64);

    open spec fn deep_view(&self) -> (Seq<char>, i64) {
        (self.host@, self.port)
    }
}

impl View for Info {
    type V = InfoModel;

    open spec fn view(&self) -> InfoModel {
        InfoModel {
            files: self.files.deep_view(),
            length: self.length,
            md5sum: self.md5sum.deep_view(),
            name: self.name.deep_view(),
            path: self.path.deep_view(),
            piece_length: self.piece_length,
            pieces: self.pieces@,
            private: self.private,
            root_hash: self.root_hash.deep_view(),
        }
    }
}

/// The document of a value that may be absent.
pub open spec fn document_of(value: Option<Value>) -> Option<Document> {
    match value {
        Some(value) => Some(value@),
        None => None,
    }
}

impl View for Torrent {
    type V = TorrentModel;

    open(crate) spec fn view(&self) -> TorrentModel {
        TorrentModel {
            announce: self.announce.deep_view(),
            announce_list: self.announce_list.deep_view(),
            comment: self.comment.deep_view(),
            created_by: self.created_by.deep_view(),
            creation_date: self.creation_date,
            encoding: self.encoding.deep_view(),
            info: self.info@,
            nodes: self.nodes.deep_view(),
            httpseeds: self.httpseeds.deep_view(),
            raw_info: document_of(self.raw_info),
        }
    }
}

/// What reading gave is what the schema says it gives.
pub open spec fn reads_as<T: DeepView>(read: Result<T, SchemaError>, model: Result<T::V, SchemaError>) -> bool {
    match model {
        Ok(value) => read is Ok && read->Ok_0.deep_view() == value,
        Err(error) => read is Err && read->Err_0 == error,
    }
}

fn read_text(dict: &Dict, field: Field) -> (read: Result<Option<String>, SchemaError>)
    ensures
        reads_as(read, text_at(dict@, field)),
{
    match dict.get(field.as_bytes()) {
        None => Ok(None),
        Some(value) => match value {
            Value::Bytes(bytes) => Ok(Some(text_of(bytes.as_slice()))),
            _ => Err(SchemaError::InvalidField(field)),
        },
    }
}

fn read_int(dict: &Dict, field: Field) -> (read: Result<Option<i64>, SchemaError>)
    ensures
        reads_as(read, int_at(dict@, field)),
{
    match dict.get(field.as_bytes()) {
        None => Ok(None),
        Some(value) => match value {
            Value::Int(i) => Ok(Some(*i)),
            _ => Err(SchemaError::InvalidField(field)),
        },
    }
}

fn read_flag(dict: &Dict, field: Field) -> (read: Result<Option<u8>, SchemaError>)
    ensures
        reads_as(read, optional_at(dict@, field, |doc: Document| flag_of_doc(doc))),
{
    match dict.get(field.as_bytes()) {
        None => Ok(None),
        Some(value) => match value {
            Value::Int(i) => if 0 <= *i && *i <= 255 {
                Ok(Some(*i as u8))
            } else {
                Err(SchemaError::InvalidField(field))
            },
            _ => Err(SchemaError::InvalidField(field)),
        },
    }
}

fn read_required_int(dict: &Dict, field: Field) -> (read: Result<i64, SchemaError>)
    ensures
        reads_as(read, required_int_at(dict@, field)),
{
    match dict.get(field.as_bytes()) {
        None => Err(SchemaError::MissingField(field)),
        Some(value) => match value {
            Value::Int(i) => Ok(*i),
            _ => Err(SchemaError::InvalidField(field)),
        },
    }
}

fn read_required_bytes(dict: &Dict, field: Field) -> (read: Result<Vec<u8>, SchemaError>)
    ensures
        match required_bytes_at(dict@, field) {
            Ok(bytes) => read is Ok && read->Ok_0@ == bytes,
            Err(error) => read is Err && read->Err_0 == error,
        },
{
    match dict.get(field.as_bytes()) {
        None => Err(SchemaError::MissingField(field)),
        Some(value) => match value {
            Value::Bytes(bytes) => Ok(slice_to_vec(bytes.as_slice())),
            _ => Err(SchemaError::InvalidField(field)),
        },
    }
}

#[verifier::loop_isolation(false)]
fn texts_from(value: &Value) -> (read: Option<Vec<String>>)
    ensures
        read.deep_view() == texts_of(value@),
{
    match value {
        Value::List(items) => {
            let ghost docs = list_view(items@);
            let mut texts: Vec<String> = Vec::new();
            let mut i: usize = 0;
            while i < items.len()
                invariant
                    i <= items.len(),
                    docs == list_view(items@),
                    texts.len() == i,
                    forall|j: int| 0 <= j < i ==> text_of_doc(#[trigger] docs[j]) is Some,
                    forall|j: int| 0 <= j < i ==> (#[trigger] texts@[j])@ == text_of_doc(docs[j])->Some_0,
                decreases items.len() - i,
            {
                assert(docs[i as int] == items@[i as int]@);
                match &items[i] {
                    Value::Bytes(bytes) => {
                        texts.push(text_of(bytes.as_slice()));
                    },
                    _ => {
                        assert(text_of_doc(docs[i as int]) is None);
                        return None;
                    },
                }
                i += 1;
            }
            assert(texts.deep_view() =~= texts_of(value@)->Some_0);
            Some(texts)
        },
        _ => None,
    }
}

#[verifier::loop_isolation(false)]
fn text_lists_from(value: &Value) -> (read: Option<Vec<Vec<String>>>)
    ensures
        read.deep_view() == text_lists_of(value@),
{
    match value {
        Value::List(items) => {
            let ghost docs = list_view(items@);
            let mut lists: Vec<Vec<String>> = Vec::new();
            let mut i: usize = 0;
            while i < items.len()
                invariant
                    i <= items.len(),
                    docs == list_view(items@),
                    lists.len() == i,
                    forall|j: int| 0 <= j < i ==> texts_of(#[trigger] docs[j]) is Some,
                    forall|j: int| 0 <= j < i ==> (#[trigger] lists@[j]).deep_view() == texts_of(docs[j])->Some_0,
                decreases items.len() - i,
            {
                assert(docs[i as int] == items@[i as int]@);
                match texts_from(&items[i]) {
                    Some(texts) => {
                        lists.push(texts);
                    },
                    None => {
                        assert(texts_of(docs[i as int]) is None);
                        return None;
                    },
                }
                i += 1;
            }
            assert(lists.deep_view() =~= text_lists_of(value@)->Some_0);
            Some(lists)
        },
        _ => None,
    }
}

fn node_from(value: &Value) -> (read: Option<Node>)
    ensures
        read.deep_view() == node_of(value@),
{
    match value {
        Value::List(pair) => {
            let ghost docs = list_view(pair@);
            if pair.len() != 2 {
                assert(docs.len() != 2);
                return None;
            }
            assert(docs[0] == pair@[0]@);
            assert(docs[1] == pair@[1]@);
            match (&pair[0], &pair[1]) {
                (Value::Bytes(host), Value::Int(port)) => Some(
                    Node { host: text_of(host.as_slice()), port: *port },
                ),
                _ => None,
            }
        },
        _ => None,
    }
}

#[verifier::loop_isolation(false)]
fn nodes_from(value: &Value) -> (read: Option<Vec<Node>>)
    ensures
        read.deep_view() == nodes_of(value@),
{
    match value {
        Value::List(items) => {
            let ghost docs = list_view(items@);
            let mut nodes: Vec<Node> = Vec::new();
            let mut i: usize = 0;
            while i < items.len()
                invariant
                    i <= items.len(),
                    docs == list_view(items@),
                    nodes.len() == i,
                    forall|j: int| 0 <= j < i ==> node_of(#[trigger] docs[j]) is Some,
                    forall|j: int| 0 <= j < i ==> (#[trigger] nodes@[j]).deep_view() == node_of(docs[j])->Some_0,
                decreases items.len() - i,
            {
                assert(docs[i as int] == items@[i as int]@);
                match node_from(&items[i]) {
                    Some(node) => {
                        nodes.push(node);
                    },
                    None => {
                        assert(node_of(docs[i as int]) is None);
                        return None;
                    },
                }
                i += 1;
            }
            assert(nodes.deep_view() =~= nodes_of(value@)->Some_0);
            Some(nodes)
        },
        _ => None,
    }
}

fn read_texts(dict: &Dict, field: Field) -> (read: Result<Option<Vec<String>>, SchemaError>)
    ensures
        reads_as(read, texts_at(dict@, field)),
{
    match dict.get(field.as_bytes()) {
        None => Ok(None),
        Some(value) => match texts_from(value) {
            Some(texts) => Ok(Some(texts)),
            None => Err(SchemaError::InvalidField(field)),
        },
    }
}

fn file_from(value: &Value) -> (read: Option<File>)
    ensures
        read.deep_view() == file_of(value@),
{
    match value {
        Value::Dict(dict) => {
            let length = match read_required_int(dict, Field::Length) {
                Ok(length) => length,
                Err(_) => {
                    return None;
                },
            };
            let path = match read_texts(dict, Field::Path) {
                Ok(Some(path)) => path,
                _ => {
                    return None;
                },
            };
            let md5sum = match read_text(dict, Field::Md5sum) {
                Ok(md5sum) => md5sum,
                Err(_) => {
                    return None;
                },
            };
            Some(File { length, path, md5sum })
        },
        _ => None,
    }
}

#[verifier::loop_isolation(false)]
fn files_from(value: &Value) -> (read: Option<Vec<File>>)
    ensures
        read.deep_view() == files_of(value@),
{
    match value {
        Value::List(items) => {
            let ghost docs = list_view(items@);
            let mut files: Vec<File> = Vec::new();
            let mut i: usize = 0;
            while i < items.len()
                invariant
                    i <= items.len(),
                    docs == list_view(items@),
                    files.len() == i,
                    forall|j: int| 0 <= j < i ==> file_of(#[trigger] docs[j]) is Some,
                    forall|j: int| 0 <= j < i ==> (#[trigger] files@[j]).deep_view() == file_of(docs[j])->Some_0,
                decreases items.len() - i,
            {
                assert(docs[i as int] == items@[i as int]@);
                match file_from(&items[i]) {
                    Some(file) => {
                        files.push(file);
                    },
                    None => {
                        assert(file_of(docs[i as int]) is None);
                        return None;
                    },
                }
                i += 1;
            }
            assert(files.deep_view() =~= files_of(value@)->Some_0);
            Some(files)
        },
        _ => None,
    }
}

fn read_files(dict: &Dict) -> (read: Result<Option<Vec<File>>, SchemaError>)
    ensures
        reads_as(read, optional_at(dict@, Field::Files, |doc: Document| files_of(doc))),
{
    match dict.get(Field::Files.as_bytes()) {
        None => Ok(None),
        Some(value) => match files_from(value) {
            Some(files) => Ok(Some(files)),
            None => Err(SchemaError::InvalidField(Field::Files)),
        },
    }
}

fn read_info(dict: &Dict) -> (read: Result<Info, SchemaError>)
    ensures
        match info_model(dict@) {
            Ok(info) => read is Ok && read->Ok_0@ == info,
            Err(error) => read is Err && read->Err_0 == error,
        },
{
    let files = read_files(dict)?;
    let length = read_int(dict, Field::Length)?;
    let md5sum = read_text(dict, Field::Md5sum)?;
    let name = read_text(dict, Field::Name)?;
    let path = read_texts(dict, Field::Path)?;
    let piece_length = read_required_int(dict, Field::PieceLength)?;
    let pieces = read_required_bytes(dict, Field::Pieces)?;
    let private = read_flag(dict, Field::Private)?;
    let root_hash = read_text(dict, Field::RootHash)?;
    if files.is_none() && length.is_none() {
        return Err(SchemaError::MissingLayout);
    }
    if files.is_some() && length.is_some() {
        return Err(SchemaError::ConflictingLayout);
    }
    Ok(Info { files, length, md5sum, name, path, piece_length, pieces, private, root_hash })
}

fn read_info_at(dict: &Dict) -> (read: Result<Info, SchemaError>)
    ensures
        match info_at(dict@) {
            Ok(info) => read is Ok && read->Ok_0@ == info,
            Err(error) => read is Err && read->Err_0 == error,
        },
{
    match dict.get(Field::Info.as_bytes()) {
        None => Err(SchemaError::MissingField(Field::Info)),
        Some(value) => match value {
            Value::Dict(info) => read_info(info),
            _ => Err(SchemaError::InvalidField(Field::Info)),
        },
    }
}

fn read_text_lists(dict: &Dict) -> (read: Result<Option<Vec<Vec<String>>>, SchemaError>)
    ensures
        reads_as(read, optional_at(dict@, Field::AnnounceList, |doc: Document| text_lists_of(doc))),
{
    match dict.get(Field::AnnounceList.as_bytes()) {
        None => Ok(None),
        Some(value) => match text_lists_from(value) {
            Some(lists) => Ok(Some(lists)),
            None => Err(SchemaError::InvalidField(Field::AnnounceList)),
        },
    }
}

fn read_nodes(dict: &Dict) -> (read: Result<Option<Vec<Node>>, SchemaError>)
    ensures
        reads_as(read, optional_at(dict@, Field::Nodes, |doc: Document| nodes_of(doc))),
{
    match dict.get(Field::Nodes.as_bytes()) {
        None => Ok(None),
        Some(value) => match nodes_from(value) {
            Some(nodes) => Ok(Some(nodes)),
            None => Err(SchemaError::InvalidField(Field::Nodes)),
        },
    }
}

fn text_value(text: &String) -> (value: Value)
    ensures
        value@ == text_document(text@),
{
    Value::Bytes(slice_to_vec(text.as_str().as_bytes()))
}

fn texts_value(texts: &Vec<String>) -> (value: Value)
    ensures
        value@ == texts_document(texts.deep_view()),
{
    let mut items: Vec<Value> = Vec::new();
    let mut i: usize = 0;
    while i < texts.len()
        invariant
            i <= texts.len(),
            items.len() == i,
            forall|j: int| 0 <= j < i ==> (#[trigger] items@[j])@ == text_document(texts@[j]@),
        decreases texts.len() - i,
    {
        items.push(text_value(&texts[i]));
        i += 1;
    }
    assert(list_view(items@) =~= texts_document(texts.deep_view())->List_0);
    Value::List(items)
}

fn optional_text_value(text: &Option<String>) -> (value: Option<Value>)
    ensures
        document_of(value) == optional_text_document(text.deep_view()),
{
    match text {
        Some(text) => Some(text_value(text)),
        None => None,
    }
}

/// Puts the value under the key of `field`, where there is one.
fn put(dict: &mut Dict, field: Field, value: Option<Value>)
    ensures
        final(dict)@ == with_entry(old(dict)@, field, document_of(value)),
{
    match value {
        Some(value) => dict.insert(slice_to_vec(field.as_bytes()), value),
        None => {},
    }
}

impl File {
    /// The entry of a file list that the file stands for.
    pub fn to_value(&self) -> (value: Value)
        ensures
            value@ == file_document(self@),
    {
        let mut dict = Dict::new();
        put(&mut dict, Field::Length, Some(Value::Int(self.length)));
        put(&mut dict, Field::Md5sum, optional_text_value(&self.md5sum));
        put(&mut dict, Field::Path, Some(texts_value(&self.path)));
        Value::Dict(dict)
    }
}

fn files_value(files: &Vec<File>) -> (value: Value)
    ensures
        value@ == files_document(files.deep_view()),
{
    let mut items: Vec<Value> = Vec::new();
    let mut i: usize = 0;
    while i < files.len()
        invariant
            i <= files.len(),
            items.len() == i,
            forall|j: int| 0 <= j < i ==> (#[trigger] items@[j])@ == file_document(files@[j]@),
        decreases files.len() - i,
    {
        items.push(files[i].to_value());
        i += 1;
    }
    assert(list_view(items@) =~= files_document(files.deep_view())->List_0);
    Value::List(items)
}

impl Info {
    /// The `info` dictionary that the fields stand for: an entry for each
    /// field that is set, texts as their UTF-8 bytes.
    pub fn to_value(&self) -> (value: Value)
        ensures
            value@ == info_document(self@),
    {
        let mut dict = Dict::new();
        let files = match &self.files {
            Some(files) => Some(files_value(files)),
            None => None,
        };
        put(&mut dict, Field::Files, files);
        let length = match self.length {
            Some(length) => Some(Value::Int(length)),
            None => None,
        };
        put(&mut dict, Field::Length, length);
        put(&mut dict, Field::Md5sum, optional_text_value(&self.md5sum));
        put(&mut dict, Field::Name, optional_text_value(&self.name));
        let path = match &self.path {
            Some(path) => Some(texts_value(path)),
            None => None,
        };
        put(&mut dict, Field::Path, path);
        put(&mut dict, Field::PieceLength, Some(Value::Int(self.piece_length)));
        put(&mut dict, Field::Pieces, Some(Value::Bytes(slice_to_vec(self.pieces.as_slice()))));
        let private = match self.private {
            Some(flag) => Some(Value::Int(flag as i64)),
            None => None,
        };
        put(&mut dict, Field::Private, private);
        put(&mut dict, Field::RootHash, optional_text_value(&self.root_hash));
        Value::Dict(dict)
    }
}

/// What reading bytes as a torrent descriptor gives: the descriptor of the
/// document they hold, or why they hold none.
pub open spec fn torrent_of_bytes(bytes: Seq<u8>) -> Result<TorrentModel, TorrentError> {
    match decode_spec(bytes) {
        Err(error) => Err(TorrentError::Decode(error)),
        Ok(doc) => match torrent_model(doc) {
            Err(error) => Err(TorrentError::Schema(error)),
            Ok(torrent) => Ok(torrent),
        },
    }
}

impl Torrent {
    /// Reads a document as a torrent descriptor, and keeps its `info`
    /// dictionary as it is.
    pub fn from_value(value: Value) -> (read: Result<Torrent, SchemaError>)
        ensures
            match torrent_model(value@) {
                Ok(torrent) => read is Ok && read->Ok_0@ == torrent,
                Err(error) => read is Err && read->Err_0 == error,
            },
            read is Ok ==> (read->Ok_0@.info.files is Some <==> read->Ok_0@.info.length is None),
    {
        let mut dict = match value {
            Value::Dict(dict) => dict,
            _ => {
                return Err(SchemaError::NotADictionary);
            },
        };
        let announce = read_text(&dict, Field::Announce)?;
        let announce_list = read_text_lists(&dict)?;
        let comment = read_text(&dict, Field::Comment)?;
        let created_by = read_text(&dict, Field::CreatedBy)?;
        let creation_date = read_int(&dict, Field::CreationDate)?;
        let encoding = read_text(&dict, Field::Encoding)?;
        let info = read_info_at(&dict)?;
        let nodes = read_nodes(&dict)?;
        let httpseeds = read_texts(&dict, Field::HttpSeeds)?;
        let raw_info = dict.remove(Field::Info.as_bytes());
        Ok(
            Torrent {
                announce,
                announce_list,
                comment,
                created_by,
                creation_date,
                encoding,
                info,
                nodes,
                httpseeds,
                raw_info,
            },
        )
    }

    /// Create `Torrent` from bytes.
    pub fn from_buf(buf: &[u8]) -> (read: Result<Torrent, TorrentError>)
        ensures
            match torrent_of_bytes(buf@) {
                Ok(torrent) => read is Ok && read->Ok_0@ == torrent,
                Err(error) => read is Err && read->Err_0 == error,
            },
            read is Ok ==> (read->Ok_0@.info.files is Some <==> read->Ok_0@.info.length is None),
    {
        match decode(buf) {
            Err(error) => Err(TorrentError::Decode(error)),
            Ok(value) => match Torrent::from_value(value) {
                Err(error) => Err(TorrentError::Schema(error)),
                Ok(torrent) => Ok(torrent),
            },
        }
    }

    /// The file list of a multi-file torrent.
    pub fn files(&self) -> (files: &Option<Vec<File>>)
        ensures
            files.deep_view() == self@.info.files,
    {
        &self.info.files
    }

    /// The number of files: the length of the file list, or one for a
    /// single file, or none where the descriptor has neither.
    pub fn num_files(&self) -> (count: usize)
        ensures
            count == file_count(self@.info),
    {
        match &self.info.files {
            Some(files) => files.len(),
            None => if self.info.length.is_some() {
                1
            } else {
                0
            },
        }
    }

    /// Whether the total size fits the type that `total_size` gives it in.
    pub fn size_fits(&self) -> (fits: bool)
        ensures
            fits == (i64::MIN <= content_size(self@.info) <= i64::MAX),
    {
        let sum = self.wide_size();
        -0x8000_0000_0000_0000i128 <= sum && sum <= 0x7fff_ffff_ffff_ffffi128
    }

    /// Get total size of all files in the torrent.
    pub fn total_size(&self) -> (size: i64)
        requires
            i64::MIN <= content_size(self@.info) <= i64::MAX,
        ensures
            size == content_size(self@.info),
    {
        self.wide_size() as i64
    }

    fn wide_size(&self) -> (sum: i128)
        ensures
            sum == content_size(self@.info),
    {
        match &self.info.files {
            None => match self.info.length {
                Some(length) => length as i128,
                None => 0,
            },
            Some(files) => {
                let ghost models = files.deep_view();
                let mut sum: i128 = 0;
                let mut i: usize = 0;
                while i < files.len()
                    invariant
                        i <= files.len(),
                        models == files.deep_view(),
                        sum == lengths_sum(models, i as nat),
                        -0x8000_0000_0000_0000 * i <= sum <= 0x8000_0000_0000_0000 * i,
                    decreases files.len() - i,
                {
                    assert(models[i as int].length == files@[i as int].length);
                    sum = sum + files[i].length as i128;
                    i += 1;
                }
                sum
            },
        }
    }

    /// The `info` dictionary as far as the schema knows it.
    pub fn info(&self) -> (info: &Info)
        ensures
            info@ == self@.info,
    {
        &self.info
    }

    pub fn name(&self) -> (name: &Option<String>)
        ensures
            name.deep_view() == self@.info.name,
    {
        &self.info.name
    }

    pub fn comment(&self) -> (comment: &Option<String>)
        ensures
            comment.deep_view() == self@.comment,
    {
        &self.comment
    }

    pub fn announce(&self) -> (announce: &Option<String>)
        ensures
            announce.deep_view() == self@.announce,
    {
        &self.announce
    }

    pub fn announce_list(&self) -> (announce_list: &Option<Vec<Vec<String>>>)
        ensures
            announce_list.deep_view() == self@.announce_list,
    {
        &self.announce_list
    }

    pub fn created_by(&self) -> (created_by: &Option<String>)
        ensures
            created_by.deep_view() == self@.created_by,
    {
        &self.created_by
    }

    pub fn creation_date(&self) -> (creation_date: &Option<i64>)
        ensures
            *creation_date == self@.creation_date,
    {
        &self.creation_date
    }

    pub fn encoding(&self) -> (encoding: &Option<String>)
        ensures
            encoding.deep_view() == self@.encoding,
    {
        &self.encoding
    }

    /// The DHT bootstrap nodes.
    pub fn nodes(&self) -> (nodes: &Option<Vec<Node>>)
        ensures
            nodes.deep_view() == self@.nodes,
    {
        &self.nodes
    }

    /// The HTTP seed URLs.
    pub fn httpseeds(&self) -> (httpseeds: &Option<Vec<String>>)
        ensures
            httpseeds.deep_view() == self@.httpseeds,
    {
        &self.httpseeds
    }

    /// The `info` dictionary as it was decoded, where the descriptor was
    /// read from a document.
    pub fn raw_info(&self) -> (raw: &Option<Value>)
        ensures
            document_of(*raw) == self@.raw_info,
    {
        &self.raw_info
    }
}

impl Info {
    /// Whether the dictionary holds what the data of a torrent can be:
    /// pieces of a positive length, whole 20-byte hashes of them, exactly
    /// one of a length and a file list, and no negative length.
    #[verifier::loop_isolation(false)]
    pub fn is_valid(&self) -> (valid: bool)
        ensures
            valid == valid_info(self@),
    {
        if self.piece_length <= 0 || self.pieces.len() % 20 != 0 {
            return false;
        }
        match &self.files {
            None => match self.length {
                Some(length) => length >= 0,
                None => false,
            },
            Some(files) => {
                if self.length.is_some() {
                    return false;
                }
                let ghost models = files.deep_view();
                let mut i: usize = 0;
                while i < files.len()
                    invariant
                        i <= files.len(),
                        models == files.deep_view(),
                        forall|j: int| 0 <= j < i ==> (#[trigger] models[j]).length >= 0,
                    decreases files.len() - i,
                {
                    assert(models[i as int].length == files@[i as int].length);
                    if files[i].length < 0 {
                        assert(models[i as int].length < 0);
                        return false;
                    }
                    i += 1;
                }
                true
            },
        }
    }

    pub fn name(&self) -> (name: &Option<String>)
        ensures
            *name == self.name,
    {
        &self.name
    }

    pub fn piece_length(&self) -> (piece_length: &i64)
        ensures
            *piece_length == self.piece_length,
    {
        &self.piece_length
    }

    pub fn pieces(&self) -> (pieces: &Vec<u8>)
        ensures
            *pieces == self.pieces,
    {
        &self.pieces
    }

    pub fn private(&self) -> (private: &Option<u8>)
        ensures
            *private == self.private,
    {
        &self.private
    }
}

impl File {
    /// A file of the given length at the given path, without a checksum.
    pub fn new(length: i64, path: Vec<String>) -> (file: File)
        ensures
            file.length == length,
            file.path == path,
            file.md5sum is None,
    {
        File { length, path, md5sum: None }
    }

    pub fn length(&self) -> (length: i64)
        ensures
            length == self.length,
    {
        self.length
    }

    pub fn path(&self) -> (path: &[String])
        ensures
            path@ == self.path@,
    {
        self.path.as_slice()
    }
}

impl Default for File {
    fn default() -> (file: File)
        ensures
            file.length == 0,
            file.path@.len() == 0,
            file.md5sum is None,
    {
        File { length: 0, path: Vec::new(), md5sum: None }
    }
}

impl Default for Info {
    fn default() -> (info: Info)
        ensures
            info.files is None,
            info.length is None,
            info.md5sum is None,
            info.name is None,
            info.path is None,
            info.piece_length == 0,
            info.pieces@.len() == 0,
            info.private is None,
            info.root_hash is None,
    {
        Info {
            files: None,
            length: None,
            md5sum: None,
            name: None,
            path: None,
            piece_length: 0,
            pieces: Vec::new(),
            private: None,
            root_hash: None,
        }
    }
}

impl Default for Torrent {
    fn default() -> (torrent: Torrent)
        ensures
            torrent@.announce is None,
            torrent@.announce_list is None,
            torrent@.comment is None,
            torrent@.created_by is None,
            torrent@.creation_date is None,
            torrent@.encoding is None,
            torrent@.info.files is None,
            torrent@.info.length is None,
            torrent@.info.md5sum is None,
            torrent@.info.name is None,
            torrent@.info.path is None,
            torrent@.info.piece_length == 0,
            torrent@.info.pieces.len() == 0,
            torrent@.info.private is None,
            torrent@.info.root_hash is None,
            torrent@.nodes is None,
            torrent@.httpseeds is None,
            torrent@.raw_info is None,
    {
        Torrent {
            announce: None,
            announce_list: None,
            comment: None,
            created_by: None,
            creation_date: None,
            encoding: None,
            info: Info::default(),
            nodes: None,
            httpseeds: None,
            raw_info: None,
        }
    }
}

} // verus!
