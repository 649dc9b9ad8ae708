//! The encoder: from a document to its canonical bytes.
//!
//! A dictionary is written with its keys in ascending byte order, whatever
//! order it holds them in: the keys are sorted here, each time.

use crate::bytes::{
    ascending, bytes_less, lemma_ascending_unique, lemma_lex_total, lemma_lex_transitive, lex_less,
    COLON, DICT, END, INT, LIST,
};
use crate::decimal::{decimal, int_literal, push_decimal, push_int};
use crate::decode::{decode_spec, DecodeError};
use crate::laws::theorem_value_round_trip;
use crate::value::{
    distinct_keys, entries_view, lemma_entries_view_at, lemma_entries_view_finite, list_view,
    Document, Value,
};
use vstd::prelude::*;

verus! {

/// `keys` lists the keys of `map`, each once, in ascending order.
pub open spec fn lists_keys(keys: Seq<Seq<u8>>, map: Map<Seq<u8>, Document>) -> bool {
    ascending(keys) && forall|key: Seq<u8>| keys.contains(key) <==> map.dom().contains(key)
}

/// The keys of a dictionary in ascending order.
pub open spec fn sorted_keys(map: Map<Seq<u8>, Document>) -> Seq<Seq<u8>> {
    choose|keys: Seq<Seq<u8>>| lists_keys(keys, map)
}

/// A byte string in encoded form: its length in decimal, `:`, its bytes.
pub open spec fn encode_bytes(bytes: Seq<u8>) -> Seq<u8> {
    decimal(bytes.len()) + seq![COLON] + bytes
}

/// The canonical encoding of a document.
pub open spec fn encode_spec(doc: Document) -> Seq<u8>
    decreases doc, 0nat,
{
    match doc {
        Document::Int(i) => seq![INT] + int_literal(i as int) + seq![END],
        Document::Bytes(bytes) => encode_bytes(bytes),
        Document::List(items) => seq![LIST] + encode_items(items, items.len()) + seq![END],
        Document::Dict(map) => {
            let keys = sorted_keys(map);
            seq![DICT] + encode_entries(map, keys, keys.len()) + seq![END]
        },
    }
}

/// The encodings of the first `n` items, one after the other.
pub open spec fn encode_items(items: Seq<Document>, n: nat) -> Seq<u8>
    decreases items, n,
{
    if n == 0 || n > items.len() {
        Seq::empty()
    } else {
        encode_items(items, (n - 1) as nat) + encode_spec(items[n - 1])
    }
}

/// One entry of `map`: its key as a byte string, then the encoding of the
/// value under that key.
pub open spec fn encode_entry(map: Map<Seq<u8>, Document>, key: Seq<u8>) -> Seq<u8>
    decreases map, 0nat,
{
    if map.dom().finite() && map.dom().contains(key) {
        encode_bytes(key) + encode_spec(map[key])
    } else {
        encode_bytes(key)
    }
}

/// The entries of `map` under the first `n` of `keys`, one after the other.
pub open spec fn encode_entries(map: Map<Seq<u8>, Document>, keys: Seq<Seq<u8>>, n: nat) -> Seq<u8>
    decreases map, n,
{
    if n == 0 || n > keys.len() {
        Seq::empty()
    } else {
        encode_entries(map, keys, (n - 1) as nat) + encode_entry(map, keys[n - 1])
    }
}

/// An ascending list of a dictionary's keys is its list of sorted keys.
pub proof fn lemma_sorted_keys_are(keys: Seq<Seq<u8>>, map: Map<Seq<u8>, Document>)
    requires
        lists_keys(keys, map),
    ensures
        sorted_keys(map) == keys,
{
    let chosen = sorted_keys(map);
    assert(lists_keys(chosen, map));
    lemma_ascending_unique(chosen, keys);
}

/// The keys of the entries, taken in the order that `order` names them.
pub open spec fn keys_in_order(entries: Seq<(Vec<u8>, Value)>, order: Seq<usize>) -> Seq<Seq<u8>> {
    Seq::new(order.len(), |p: int| entries[order[p] as int].0@)
}

/// `order` names each of the first `n` entries once.
pub open spec fn names_each_once(order: Seq<usize>, n: nat) -> bool {
    &&& order.len() == n
    &&& forall|p: int| 0 <= p < order.len() ==> (#[trigger] order[p]) < n
    &&& forall|i: usize| i < n ==> #[trigger] order.contains(i)
}

/// An order that names each of the first `n` positions once names each of
/// the first `n + 1` once when `n` is put anywhere into it.
pub proof fn lemma_insert_names_next(order: Seq<usize>, at: int, n: usize)
    requires
        names_each_once(order, n as nat),
        0 <= at <= order.len(),
        n < usize::MAX,
    ensures
        names_each_once(order.insert(at, n), (n + 1) as nat),
{
    let longer = order.insert(at, n);
    assert forall|j: usize| j < n + 1 implies #[trigger] longer.contains(j) by {
        if j == n {
            assert(longer[at] == j);
        } else {
            assert(order.contains(j));
            let q = choose|q: int| 0 <= q < order.len() && order[q] == j;
            if q < at {
                assert(longer[q] == j);
            } else {
                assert(longer[q + 1] == j);
            }
        }
    }
    assert forall|q: int| 0 <= q < longer.len() implies (#[trigger] longer[q]) < n + 1 by {
        if q < at {
            assert(longer[q] == order[q]);
        } else if q > at {
            assert(longer[q] == order[q - 1]);
        }
    }
}

/// The indices of the entries, ordered by ascending key.
pub(crate) fn key_order(entries: &Vec<(Vec<u8>, Value)>) -> (order: Vec<usize>)
    requires
        distinct_keys(entries@),
    ensures
        names_each_once(order@, entries@.len()),
        ascending(keys_in_order(entries@, order@)),
{
    let mut order: Vec<usize> = Vec::new();
    let mut i: usize = 0;
    while i < entries.len()
        invariant
            i <= entries.len(),
            distinct_keys(entries@),
            names_each_once(order@, i as nat),
            ascending(keys_in_order(entries@, order@)),
        decreases entries.len() - i,
    {
        let mut p: usize = 0;
        while p < order.len() && bytes_less(entries[order[p]].0.as_slice(), entries[i].0.as_slice())
            invariant
                p <= order.len(),
                i < entries.len(),
                names_each_once(order@, i as nat),
                forall|q: int| 0 <= q < p ==> lex_less(entries@[order@[q] as int].0@, entries@[i as int].0@),
            decreases order.len() - p,
        {
            p += 1;
        }
        let ghost before = order@;
        order.insert(p, i);
        proof {
            let after = order@;
            let new_key = entries@[i as int].0@;
            assert forall|q: int| p <= q < before.len() implies lex_less(
                new_key,
                entries@[before[q] as int].0@,
            ) by {
                let at_p = entries@[before[p as int] as int].0@;
                assert(before[p as int] < i);
                assert(entries@[before[p as int] as int].0@ != entries@[i as int].0@);
                lemma_lex_total(at_p, new_key);
                assert(lex_less(new_key, at_p));
                if q > p {
                    let old_keys = keys_in_order(entries@, before);
                    assert(lex_less(old_keys[p as int], old_keys[q]));
                    lemma_lex_transitive(new_key, at_p, entries@[before[q] as int].0@);
                }
            }
            let old_keys = keys_in_order(entries@, before);
            let new_keys = keys_in_order(entries@, after);
            assert forall|x: int, y: int| 0 <= x < y < new_keys.len() implies lex_less(
                #[trigger] new_keys[x],
                #[trigger] new_keys[y],
            ) by {
                if y < p {
                    assert(lex_less(old_keys[x], old_keys[y]));
                } else if y == p {
                } else if x < p {
                    assert(lex_less(old_keys[x], old_keys[y - 1]));
                } else if x == p {
                } else {
                    assert(lex_less(old_keys[x - 1], old_keys[y - 1]));
                }
            }
            lemma_insert_names_next(before, p as int, i);
        }
        i += 1;
    }
    order
}

/// Appends a byte string in encoded form.
fn push_bytes(out: &mut Vec<u8>, bytes: &[u8])
    ensures
        final(out)@ == old(out)@ + encode_bytes(bytes@),
{
    push_decimal(out, bytes.len() as u64);
    out.push(COLON);
    out.extend_from_slice(bytes);
    assert(out@ =~= old(out)@ + encode_bytes(bytes@));
}

/// The keys of the entries in ascending order are the sorted keys of the
/// dictionary that the entries make up.
pub(crate) proof fn lemma_order_lists_keys(entries: Seq<(Vec<u8>, Value)>, order: Seq<usize>)
    requires
        entries.len() <= usize::MAX,
        distinct_keys(entries),
        names_each_once(order, entries.len()),
        ascending(keys_in_order(entries, order)),
    ensures
        sorted_keys(entries_view(entries)) == keys_in_order(entries, order),
{
    let keys = keys_in_order(entries, order);
    let map = entries_view(entries);
    assert forall|key: Seq<u8>| keys.contains(key) <==> map.dom().contains(key) by {
        if keys.contains(key) {
            let p = choose|p: int| 0 <= p < keys.len() && keys[p] == key;
            assert(entries[order[p] as int].0@ == key);
        }
        if map.dom().contains(key) {
            let i = choose|i: int| 0 <= i < entries.len() && (#[trigger] entries[i]).0@ == key;
            assert(order.contains(i as usize));
            let p = choose|p: int| 0 <= p < order.len() && order[p] == i as usize;
            assert(keys[p] == key);
        }
    }
    lemma_sorted_keys_are(keys, map);
}

/// Appends the canonical encoding of `value`.
#[verifier::loop_isolation(false)]
pub fn encode_into(value: &Value, out: &mut Vec<u8>)
    ensures
        final(out)@ == old(out)@ + encode_spec(value@),
    decreases value,
{
    match value {
        Value::Int(i) => {
            out.push(INT);
            push_int(out, *i);
            out.push(END);
            assert(out@ =~= old(out)@ + encode_spec(value@));
        },
        Value::Bytes(bytes) => {
            push_bytes(out, bytes.as_slice());
        },
        Value::List(items) => {
            out.push(LIST);
            let ghost docs = list_view(items@);
            let mut i: usize = 0;
            while i < items.len()
                invariant
                    i <= items.len(),
                    out@ == old(out)@ + seq![LIST] + encode_items(docs, i as nat),
                decreases items.len() - i,
            {
                let ghost before = out@;
                encode_into(&items[i], out);
                proof {
                    assert(docs[i as int] == items@[i as int]@);
                    assert(out@ =~= old(out)@ + seq![LIST] + encode_items(docs, (i + 1) as nat));
                }
                i += 1;
            }
            out.push(END);
            assert(out@ =~= old(out)@ + encode_spec(value@));
        },
        Value::Dict(dict) => {
            proof {
                use_type_invariant(dict);
            }
            let entries = &dict.entries;
            let count = entries.len();
            let order = key_order(entries);
            let ghost map = dict@;
            let ghost keys = keys_in_order(entries@, order@);
            proof {
                lemma_order_lists_keys(entries@, order@);
                lemma_entries_view_finite(entries@);
            }
            out.push(DICT);
            let mut p: usize = 0;
            while p < count
                invariant
                    p <= count,
                    out@ == old(out)@ + seq![DICT] + encode_entries(map, keys, p as nat),
                decreases count - p,
            {
                let at = order[p];
                proof {
                    lemma_entries_view_at(entries@, at as int);
                    assert(keys[p as int] == entries@[at as int].0@);
                }
                push_bytes(out, entries[at].0.as_slice());
                encode_into(&entries[at].1, out);
                proof {
                    assert(encode_entry(map, keys[p as int]) == encode_bytes(keys[p as int])
                        + encode_spec(map[keys[p as int]]));
                    assert(out@ =~= old(out)@ + seq![DICT] + encode_entries(map, keys, (p + 1) as nat));
                }
                p += 1;
            }
            out.push(END);
            assert(out@ =~= old(out)@ + encode_spec(value@));
        },
    }
}

/// The canonical encoding of `value`, which decodes to `value` again.
pub fn encode(value: &Value) -> (out: Vec<u8>)
    ensures
        out@ == encode_spec(value@),
        decode_spec(out@) == Ok::<_, DecodeError>(value@),
{
    let mut out: Vec<u8> = Vec::new();
    encode_into(value, &mut out);
    assert(out@ =~= encode_spec(value@));
    proof {
        theorem_value_round_trip(*value);
    }
    out
}

} // verus!
