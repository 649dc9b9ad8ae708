//! What is shown of a descriptor: which lines, under which labels, in which
//! order. How a line is styled and put out is the caller's part.

use crate::dates::{date_text, format_creation_date};
use crate::fingerprint::fingerprint;
use crate::hex::{hex_text, to_hex};
use crate::metadata::Torrent;
use crate::schema::{content_size, file_count, TorrentModel};
use vstd::prelude::*;
use vstd::string::StringExecFns;

verus! {

/// The column at which the values of a summary start.
pub const COLUMN_WIDTH: usize = 19;

/// What a line of a summary shows beside its label.
#[derive(Debug)]
pub enum InfoValue {
    Text(String),
    Count(usize),
    /// A size in bytes, to be shown with a unit.
    Size(i64),
    /// A count of bytes, to be shown as a placeholder for them.
    Bytes(usize),
    Flag(bool),
    List(Vec<String>),
}

/// One line of a summary.
#[derive(Debug)]
pub struct InfoLine {
    pub label: &'static str,
    pub value: InfoValue,
}

/// What a line of a summary shows beside its label.
pub ghost enum InfoValueModel {
    Text(Seq<char>),
    Count(usize),
    Size(i64),
    Bytes(usize),
    Flag(bool),
    List(Seq<Seq<char>>),
}

/// One line of a summary.
pub ghost struct InfoLineModel {
    pub label: Seq<char>,
    pub value: InfoValueModel,
}

impl DeepView for InfoValue {
    type V = InfoValueModel;

    open spec fn deep_view(&self) -> InfoValueModel {
        match self {
            InfoValue::Text(text) => InfoValueModel::Text(text@),
            InfoValue::Count(count) => InfoValueModel::Count(*count),
            InfoValue::Size(size) => InfoValueModel::Size(*size),
            InfoValue::Bytes(count) => InfoValueModel::Bytes(*count),
            InfoValue::Flag(flag) => InfoValueModel::Flag(*flag),
            InfoValue::List(items) => InfoValueModel::List(items.deep_view()),
        }
    }
}

impl DeepView for InfoLine {
    type V = InfoLineModel;

    open spec fn deep_view(&self) -> InfoLineModel {
        InfoLineModel { label: self.label@, value: self.value.deep_view() }
    }
}

/// The blanks between a label and its value.
pub fn padding(label: &str) -> (blanks: usize)
    ensures
        blanks == if label@.len() <= COLUMN_WIDTH {
            COLUMN_WIDTH - label@.len()
        } else {
            0
        },
{
    let width = label.unicode_len();
    if width <= COLUMN_WIDTH {
        COLUMN_WIDTH - width
    } else {
        0
    }
}

/// The line for a text that may be absent: none where it is.
pub open spec fn optional_line(label: Seq<char>, text: Option<Seq<char>>) -> Seq<InfoLineModel> {
    match text {
        Some(text) => seq![InfoLineModel { label, value: InfoValueModel::Text(text) }],
        None => Seq::empty(),
    }
}

/// The info hash as it is shown: in hexadecimal, or why there is none.
pub open spec fn hash_text(torrent: TorrentModel) -> Seq<char> {
    match fingerprint(torrent) {
        Ok(digest) => hex_text(digest),
        Err(error) => "Could not calculate info hash: "@ + error.message_spec(),
    }
}

/// The lines of the summary of a descriptor: its name, comment, announce
/// URL, creator, creation date and encoding, each where it has one, then
/// the number of its files, its total size and its info hash.
pub open spec fn info_lines_spec(torrent: TorrentModel) -> Seq<InfoLineModel> {
    optional_line("name"@, torrent.info.name) + optional_line("comment"@, torrent.comment)
        + optional_line("announce url"@, torrent.announce) + optional_line(
        "created by"@,
        torrent.created_by,
    ) + optional_line(
        "created on"@,
        match torrent.creation_date {
            Some(timestamp) => Some(date_text(timestamp)),
            None => None,
        },
    ) + optional_line("encoding"@, torrent.encoding) + seq![
        InfoLineModel {
            label: "num files"@,
            value: InfoValueModel::Count(file_count(torrent.info) as usize),
        },
        InfoLineModel {
            label: "total size"@,
            value: InfoValueModel::Size(content_size(torrent.info) as i64),
        },
        InfoLineModel { label: "info hash"@, value: InfoValueModel::Text(hash_text(torrent)) },
    ]
}

/// The lines of the details of a descriptor: how many bytes of piece
/// hashes it holds, the path in its `info` dictionary where it has one, and
/// whether it is private where it says.
pub open spec fn extra_lines_spec(torrent: TorrentModel) -> Seq<InfoLineModel> {
    seq![
        InfoLineModel {
            label: "piece length"@,
            value: InfoValueModel::Bytes(torrent.info.pieces.len() as usize),
        },
    ] + match torrent.info.path {
        Some(path) => seq![InfoLineModel { label: "path"@, value: InfoValueModel::List(path) }],
        None => Seq::empty(),
    } + match torrent.info.private {
        Some(flag) => seq![InfoLineModel { label: "private"@, value: InfoValueModel::Flag(flag > 0) }],
        None => Seq::empty(),
    }
}

fn push_info(lines: &mut Vec<InfoLine>, label: &'static str, value: InfoValue)
    ensures
        final(lines).deep_view() == old(lines).deep_view() + seq![
            InfoLineModel { label: label@, value: value.deep_view() },
        ],
{
    lines.push(InfoLine { label, value });
    assert(lines.deep_view() =~= old(lines).deep_view() + seq![
        InfoLineModel { label: label@, value: value.deep_view() },
    ]);
}

fn push_optional(lines: &mut Vec<InfoLine>, label: &'static str, text: &Option<String>)
    ensures
        final(lines).deep_view() == old(lines).deep_view() + optional_line(label@, text.deep_view()),
{
    match text {
        Some(text) => push_info(lines, label, InfoValue::Text(text.clone())),
        None => {
            assert(lines.deep_view() =~= old(lines).deep_view() + optional_line(
                label@,
                text.deep_view(),
            ));
        },
    }
}

fn copy_texts(texts: &Vec<String>) -> (copy: Vec<String>)
    ensures
        copy.deep_view() == texts.deep_view(),
{
    let mut copy: Vec<String> = Vec::new();
    let mut i: usize = 0;
    while i < texts.len()
        invariant
            i <= texts.len(),
            copy.len() == i,
            forall|j: int| 0 <= j < i ==> (#[trigger] copy@[j])@ == texts@[j]@,
        decreases texts.len() - i,
    {
        copy.push(texts[i].clone());
        i += 1;
    }
    assert(copy.deep_view() =~= texts.deep_view());
    copy
}

impl Torrent {
    /// The info hash as it is shown: in hexadecimal, or why there is none.
    pub fn info_hash_text(&self) -> (text: String)
        ensures
            text@ == hash_text(self@),
    {
        match self.info_hash() {
            Ok(digest) => to_hex(digest.as_slice()),
            Err(error) => {
                let mut text = String::from_str("Could not calculate info hash: ");
                let why = error.message();
                text.append(why.as_str());
                text
            },
        }
    }

    /// The lines of the summary of the descriptor.
    pub fn info_lines(&self) -> (lines: Vec<InfoLine>)
        requires
            i64::MIN <= content_size(self@.info) <= i64::MAX,
        ensures
            lines.deep_view() == info_lines_spec(self@),
    {
        let mut lines: Vec<InfoLine> = Vec::new();
        assert(lines.deep_view() =~= Seq::<InfoLineModel>::empty());
        push_optional(&mut lines, "name", &self.info.name);
        push_optional(&mut lines, "comment", &self.comment);
        push_optional(&mut lines, "announce url", &self.announce);
        push_optional(&mut lines, "created by", &self.created_by);
        let created_on = match self.creation_date {
            Some(timestamp) => Some(format_creation_date(timestamp)),
            None => None,
        };
        push_optional(&mut lines, "created on", &created_on);
        push_optional(&mut lines, "encoding", &self.encoding);
        push_info(&mut lines, "num files", InfoValue::Count(self.num_files()));
        push_info(&mut lines, "total size", InfoValue::Size(self.total_size()));
        push_info(&mut lines, "info hash", InfoValue::Text(self.info_hash_text()));
        assert(lines.deep_view() =~= info_lines_spec(self@));
        lines
    }

    /// The lines of the details of the descriptor.
    pub fn extra_lines(&self) -> (lines: Vec<InfoLine>)
        ensures
            lines.deep_view() == extra_lines_spec(self@),
    {
        let mut lines: Vec<InfoLine> = Vec::new();
        assert(lines.deep_view() =~= Seq::<InfoLineModel>::empty());
        push_info(&mut lines, "piece length", InfoValue::Bytes(self.info.pieces.len()));
        match &self.info.path {
            Some(path) => push_info(&mut lines, "path", InfoValue::List(copy_texts(path))),
            None => {},
        }
        match self.info.private {
            Some(flag) => push_info(&mut lines, "private", InfoValue::Flag(flag > 0)),
            None => {},
        }
        assert(lines.deep_view() =~= extra_lines_spec(self@));
        lines
    }
}

} // verus!
