//! A document laid out as lines for display, and a summary of what a
//! dictionary holds. Neither needs the document to be a descriptor.

use crate::bytes::same_bytes;
use crate::decimal::{decimal, int_literal};
use crate::decode::{decode, decode_spec};
use crate::encode::{key_order, keys_in_order, lemma_order_lists_keys, sorted_keys};
use crate::field::Field;
use crate::metadata::{Torrent, TorrentError};
use crate::schema::SchemaError;
use crate::text::{ascii_text, decimal_string, int_string, lossy_text, text_of, utf8_text};
use crate::value::{
    distinct_keys, entries_view, lemma_entries_view_at, lemma_entries_view_finite,
    lemma_nests_within_more, list_view, nests_within, Dict, Document, Value,
};
use vstd::prelude::*;
use vstd::string::StringExecFns;
use vstd::utf8::{decode_utf8, valid_utf8};

verus! {

/// Byte strings longer than this are shown as a count of their bytes.
pub const BYTE_THRESHOLD: usize = 80;

/// What a line shows.
#[derive(Clone, Copy, Debug, PartialEq, Eq, Structural)]
pub enum LineKind {
    /// A key of a dictionary.
    Key,
    /// The position of an item in its list, counted from zero.
    Index,
    /// An integer, in decimal.
    Integer,
    /// A byte string that is text.
    Text,
    /// A note in place of a short byte string that is no text.
    Unreadable,
    /// A count of bytes in place of a long byte string.
    Placeholder,
}

/// One line of a document laid out for display.
#[derive(Debug)]
pub struct Line {
    /// How deep the line is nested: what it is to be indented by.
    pub depth: usize,
    pub kind: LineKind,
    pub text: String,
}

/// One line of a document laid out for display.
pub ghost struct LineModel {
    pub depth: nat,
    pub kind: LineKind,
    pub text: Seq<char>,
}

impl DeepView for Line {
    type V = LineModel;

    open spec fn deep_view(&self) -> LineModel {
        LineModel { depth: self.depth as nat, kind: self.kind, text: self.text@ }
    }
}

/// The text shown for a byte string of `len` bytes that is too long to show.
pub open spec fn placeholder_text(len: nat) -> Seq<char> {
    "["@ + ascii_text(decimal(len)) + " Bytes]"@
}

/// The line that shows a byte string: its text where it is short and valid
/// UTF-8, a note where it is short and is not, a count of its bytes where
/// it is long.
pub open spec fn bytes_line(bytes: Seq<u8>, depth: nat) -> LineModel {
    if bytes.len() > BYTE_THRESHOLD {
        LineModel { depth, kind: LineKind::Placeholder, text: placeholder_text(bytes.len()) }
    } else if valid_utf8(bytes) {
        LineModel { depth, kind: LineKind::Text, text: decode_utf8(bytes) }
    } else {
        LineModel { depth, kind: LineKind::Unreadable, text: "[invalid utf-8]"@ }
    }
}

/// The lines that show a document at a depth. A list shows, for each item,
/// its index and below it the item; a dictionary shows, by ascending key,
/// each key and below it the value.
pub open spec fn render_spec(doc: Document, depth: nat) -> Seq<LineModel>
    decreases doc, 0nat,
{
    match doc {
        Document::Int(i) => seq![
            LineModel { depth, kind: LineKind::Integer, text: ascii_text(int_literal(i as int)) },
        ],
        Document::Bytes(bytes) => seq![bytes_line(bytes, depth)],
        Document::List(items) => render_items(items, items.len(), depth),
        Document::Dict(map) => render_entries(map, sorted_keys(map), sorted_keys(map).len(), depth),
    }
}

/// The lines that show the first `n` items of a list.
pub open spec fn render_items(items: Seq<Document>, n: nat, depth: nat) -> Seq<LineModel>
    decreases items, n,
{
    if n == 0 || n > items.len() {
        Seq::empty()
    } else {
        render_items(items, (n - 1) as nat, depth) + seq![
            LineModel {
                depth,
                kind: LineKind::Index,
                text: ascii_text(decimal((n - 1) as nat)),
            },
        ] + render_spec(items[n - 1], depth + 1)
    }
}

/// The lines that show the entries of a dictionary under the first `n` of
/// `keys`.
pub open spec fn render_entries(
    map: Map<Seq<u8>, Document>,
    keys: Seq<Seq<u8>>,
    n: nat,
    depth: nat,
) -> Seq<LineModel>
    decreases map, n,
{
    if n == 0 || n > keys.len() {
        Seq::empty()
    } else {
        let key = keys[n - 1];
        let below = if map.dom().finite() && map.dom().contains(key) {
            render_spec(map[key], depth + 1)
        } else {
            Seq::empty()
        };
        render_entries(map, keys, (n - 1) as nat, depth) + seq![
            LineModel { depth, kind: LineKind::Key, text: lossy_text(key) },
        ] + below
    }
}

fn push_line(lines: &mut Vec<Line>, depth: usize, kind: LineKind, text: String)
    ensures
        final(lines).deep_view() == old(lines).deep_view().push(
            LineModel { depth: depth as nat, kind, text: text@ },
        ),
{
    lines.push(Line { depth, kind, text });
    assert(lines.deep_view() =~= old(lines).deep_view().push(
        LineModel { depth: depth as nat, kind, text: text@ },
    ));
}

fn push_bytes_line(lines: &mut Vec<Line>, bytes: &[u8], depth: usize)
    ensures
        final(lines).deep_view() == old(lines).deep_view().push(bytes_line(bytes@, depth as nat)),
{
    if bytes.len() > BYTE_THRESHOLD {
        let mut text = String::from_str("[");
        let count = decimal_string(bytes.len());
        text.append(count.as_str());
        text.append(" Bytes]");
        push_line(lines, depth, LineKind::Placeholder, text);
    } else {
        match utf8_text(bytes) {
            Some(text) => push_line(lines, depth, LineKind::Text, text),
            None => push_line(
                lines,
                depth,
                LineKind::Unreadable,
                String::from_str("[invalid utf-8]"),
            ),
        }
    }
}

/// Appends the lines that show `value` at `depth`. The depth of the
/// deepest line must fit the machine's integers, which
/// `Value::nests_within` tests.
#[verifier::loop_isolation(false)]
pub fn render_into(value: &Value, depth: usize, lines: &mut Vec<Line>)
    requires
        nests_within(value@, (usize::MAX - depth) as nat),
    ensures
        final(lines).deep_view() == old(lines).deep_view() + render_spec(value@, depth as nat),
    decreases value,
{
    match value {
        Value::Int(i) => {
            push_line(lines, depth, LineKind::Integer, int_string(*i));
            assert(lines.deep_view() =~= old(lines).deep_view() + render_spec(value@, depth as nat));
        },
        Value::Bytes(bytes) => {
            push_bytes_line(lines, bytes.as_slice(), depth);
            assert(lines.deep_view() =~= old(lines).deep_view() + render_spec(value@, depth as nat));
        },
        Value::List(items) => {
            let ghost docs = list_view(items@);
            let mut i: usize = 0;
            assert(lines.deep_view() =~= old(lines).deep_view() + render_items(docs, 0, depth as nat));
            while i < items.len()
                invariant
                    i <= items.len(),
                    lines.deep_view() == old(lines).deep_view() + render_items(
                        docs,
                        i as nat,
                        depth as nat,
                    ),
                decreases items.len() - i,
            {
                assert(docs[i as int] == items@[i as int]@);
                push_line(lines, depth, LineKind::Index, decimal_string(i));
                render_into(&items[i], depth + 1, lines);
                assert(lines.deep_view() =~= old(lines).deep_view() + render_items(
                    docs,
                    (i + 1) as nat,
                    depth as nat,
                ));
                i += 1;
            }
        },
        Value::Dict(dict) => {
            proof {
                use_type_invariant(dict);
            }
            let entries = &dict.entries;
            let count = entries.len();
            let order = key_order(entries);
            let ghost map = dict@;
            let ghost keys = keys_in_order(entries@, order@);
            proof {
                lemma_order_lists_keys(entries@, order@);
                lemma_entries_view_finite(entries@);
            }
            let mut p: usize = 0;
            assert(lines.deep_view() =~= old(lines).deep_view() + render_entries(
                map,
                keys,
                0,
                depth as nat,
            ));
            while p < count
                invariant
                    p <= count,
                    lines.deep_view() == old(lines).deep_view() + render_entries(
                        map,
                        keys,
                        p as nat,
                        depth as nat,
                    ),
                decreases count - p,
            {
                let at = order[p];
                proof {
                    lemma_entries_view_at(entries@, at as int);
                    assert(keys[p as int] == entries@[at as int].0@);
                }
                push_line(lines, depth, LineKind::Key, text_of(entries[at].0.as_slice()));
                render_into(&entries[at].1, depth + 1, lines);
                assert(lines.deep_view() =~= old(lines).deep_view() + render_entries(
                    map,
                    keys,
                    (p + 1) as nat,
                    depth as nat,
                ));
                p += 1;
            }
        },
    }
}

/// The lines that show `value` at `depth`. The depth of the deepest line
/// must fit the machine's integers, which `Value::nests_within` tests.
pub fn render(value: &Value, depth: usize) -> (lines: Vec<Line>)
    requires
        nests_within(value@, (usize::MAX - depth) as nat),
    ensures
        lines.deep_view() == render_spec(value@, depth as nat),
{
    let mut lines: Vec<Line> = Vec::new();
    assert(lines.deep_view() =~= Seq::<LineModel>::empty());
    render_into(value, depth, &mut lines);
    assert(lines.deep_view() =~= render_spec(value@, depth as nat));
    lines
}

/// What showing everything in an input gives: the lines of the dictionary
/// that the input holds, its keys at depth 1, or why it holds none.
pub open spec fn dump_spec(bytes: Seq<u8>) -> Result<Seq<LineModel>, TorrentError> {
    match decode_spec(bytes) {
        Err(error) => Err(TorrentError::Decode(error)),
        Ok(doc) => match doc {
            Document::Dict(_) => Ok(render_spec(doc, 1)),
            _ => Err(TorrentError::Schema(SchemaError::NotADictionary)),
        },
    }
}

/// Lays out all that an input holds, whether it is a descriptor or not.
pub fn dump(buf: &[u8]) -> (r: Result<Vec<Line>, TorrentError>)
    ensures
        match dump_spec(buf@) {
            Ok(lines) => r is Ok && r->Ok_0.deep_view() == lines,
            Err(error) => r is Err && r->Err_0 == error,
        },
{
    let total = buf.len();
    match decode(buf) {
        Err(error) => Err(TorrentError::Decode(error)),
        Ok(value) => match value {
            Value::Dict(_) => {
                proof {
                    lemma_nests_within_more(value@, (total - 1) as nat, (usize::MAX - 1) as nat);
                }
                Ok(render(&value, 1))
            },
            _ => Err(TorrentError::Schema(SchemaError::NotADictionary)),
        },
    }
}

/// The kind of a value, with how much it holds: the items of a list, the
/// bytes of a byte string, the entries of a dictionary, or the integer
/// itself.
#[derive(Clone, Copy, Debug, PartialEq, Eq, Structural)]
pub enum Shape {
    List(usize),
    Bytes(usize),
    Int(i64),
    Dict(usize),
}

/// What one key of a dictionary holds.
#[derive(Debug)]
pub struct KeySummary {
    pub key: String,
    pub shape: Shape,
    /// The key is `announce-list` and holds a list: where a descriptor was
    /// refused, its tracker tiers are the first thing to look at.
    pub suspect: bool,
}

/// What one key of a dictionary holds.
pub ghost struct KeySummaryModel {
    pub key: Seq<char>,
    pub shape: Shape,
    pub suspect: bool,
}

impl DeepView for KeySummary {
    type V = KeySummaryModel;

    open spec fn deep_view(&self) -> KeySummaryModel {
        KeySummaryModel { key: self.key@, shape: self.shape, suspect: self.suspect }
    }
}

/// The shape of a document.
pub open spec fn shape_of(doc: Document) -> Shape {
    match doc {
        Document::List(items) => Shape::List(items.len() as usize),
        Document::Bytes(bytes) => Shape::Bytes(bytes.len() as usize),
        Document::Int(i) => Shape::Int(i),
        Document::Dict(map) => Shape::Dict(map.dom().len() as usize),
    }
}

/// The summary of what `key` holds in `map`.
pub open spec fn summary_of(map: Map<Seq<u8>, Document>, key: Seq<u8>) -> KeySummaryModel {
    KeySummaryModel {
        key: lossy_text(key),
        shape: shape_of(map[key]),
        suspect: key == Field::AnnounceList.key() && map[key] is List,
    }
}

/// The summaries of the keys of a dictionary, by ascending key.
pub open spec fn structure_spec(map: Map<Seq<u8>, Document>) -> Seq<KeySummaryModel> {
    Seq::new(sorted_keys(map).len(), |i: int| summary_of(map, sorted_keys(map)[i]))
}

impl Value {
    /// The kind of the value and how much it holds.
    pub fn shape(&self) -> (shape: Shape)
        ensures
            shape == shape_of(self@),
    {
        match self {
            Value::List(items) => {
                assert(list_view(items@).len() == items@.len());
                Shape::List(items.len())
            },
            Value::Bytes(bytes) => Shape::Bytes(bytes.len()),
            Value::Int(i) => Shape::Int(*i),
            Value::Dict(dict) => Shape::Dict(dict.len()),
        }
    }
}

impl Torrent {
    /// Says of each key of a dictionary what it holds, by ascending key:
    /// what to look at when a document was refused as a descriptor.
    pub fn debug_torrent_structure(dict: &Dict) -> (summaries: Vec<KeySummary>)
        ensures
            summaries.deep_view() == structure_spec(dict@),
    {
        proof {
            use_type_invariant(dict);
        }
        let entries = &dict.entries;
        let count = entries.len();
        let order = key_order(entries);
        let ghost map = dict@;
        let ghost keys = keys_in_order(entries@, order@);
        proof {
            lemma_order_lists_keys(entries@, order@);
        }
        let mut summaries: Vec<KeySummary> = Vec::new();
        let mut p: usize = 0;
        while p < count
            invariant
                p <= count,
                count == order@.len(),
                count == entries@.len(),
                distinct_keys(entries@),
                map == entries_view(entries@),
                keys == keys_in_order(entries@, order@),
                forall|q: int| 0 <= q < order@.len() ==> (#[trigger] order@[q]) < count,
                summaries.len() == p,
                forall|q: int|
                    0 <= q < p ==> (#[trigger] summaries@[q]).deep_view() == summary_of(map, keys[q]),
            decreases count - p,
        {
            let at = order[p];
            proof {
                lemma_entries_view_at(entries@, at as int);
                assert(keys[p as int] == entries@[at as int].0@);
            }
            let key = entries[at].0.as_slice();
            let value = &entries[at].1;
            let shape = value.shape();
            let is_list = match value {
                Value::List(_) => true,
                _ => false,
            };
            let suspect = is_list && same_bytes(
                key,
                Field::AnnounceList.as_bytes(),
            );
            summaries.push(KeySummary { key: text_of(key), shape, suspect });
            p += 1;
        }
        assert(summaries.deep_view() =~= structure_spec(dict@));
        summaries
    }
}

} // verus!
