//! What holds of the codec as a whole: decoding undoes encoding, so a
//! document that was decoded once survives any number of round trips, and
//! the bytes of a dictionary do not depend on the order it was built in.

use crate::bytes::{ascending, lemma_ascending_listing, COLON, DICT, END, INT, LIST, MINUS};
use crate::decimal::{
    decimal, digit_run, digits_value, int_literal, is_digit, lemma_decimal_shape,
    lemma_decimal_value, lemma_digit_run_decimal, lemma_digit_run_shape,
};
use crate::decode::{
    decode_spec, parse_bytes, parse_entries, parse_int, parse_items, parse_value, DecodeError,
    DecodeErrorKind, Parsed,
};
use crate::encode::{
    encode_bytes, encode_entries, encode_entry, encode_items, encode_spec, lists_keys, sorted_keys,
};
use crate::value::{Document, Value};
use vstd::prelude::*;

verus! {

/// The sorted keys of a dictionary with finitely many keys list its keys,
/// each once, in ascending order.
pub proof fn lemma_sorted_keys_list(map: Map<Seq<u8>, Document>)
    requires
        map.dom().finite(),
    ensures
        lists_keys(sorted_keys(map), map),
{
    let keys = lemma_ascending_listing(map.dom());
    assert(lists_keys(keys, map));
}

/// An encoding is never empty and never starts with the `e` that closes a
/// list or a dictionary.
pub proof fn lemma_encoding_lead(doc: Document)
    ensures
        encode_spec(doc).len() >= 1,
        encode_spec(doc)[0] != END,
        doc is Bytes ==> is_digit(encode_spec(doc)[0]),
        doc is Int ==> encode_spec(doc)[0] == INT,
        doc is List ==> encode_spec(doc)[0] == LIST,
        doc is Dict ==> encode_spec(doc)[0] == DICT,
{
    match doc {
        Document::Bytes(bytes) => {
            lemma_decimal_shape(bytes.len());
        },
        _ => {},
    }
}

/// The encodings of some items start with the encoding of the first.
proof fn lemma_encode_items_front(items: Seq<Document>, n: nat)
    requires
        1 <= n <= items.len(),
    ensures
        encode_items(items, n) == encode_spec(items[0]) + encode_items(
            items.skip(1),
            (n - 1) as nat,
        ),
    decreases n,
{
    let tail = items.skip(1);
    if n == 1 {
        assert(encode_items(items, 0) =~= Seq::<u8>::empty());
        assert(encode_items(tail, 0) =~= Seq::<u8>::empty());
        assert(encode_items(items, 1) =~= encode_spec(items[0]));
        assert(encode_spec(items[0]) + encode_items(tail, 0) =~= encode_spec(items[0]));
    } else {
        lemma_encode_items_front(items, (n - 1) as nat);
        assert(tail[n - 2] == items[n - 1]);
        assert(encode_items(tail, (n - 1) as nat) == encode_items(tail, (n - 2) as nat) + encode_spec(
            tail[n - 2],
        ));
        assert(encode_items(items, n) =~= encode_spec(items[0]) + encode_items(tail, (n - 1) as nat));
    }
}

/// The encodings of some entries start with the encoding of the first.
proof fn lemma_encode_entries_front(map: Map<Seq<u8>, Document>, keys: Seq<Seq<u8>>, n: nat)
    requires
        1 <= n <= keys.len(),
    ensures
        encode_entries(map, keys, n) == encode_entry(map, keys[0]) + encode_entries(
            map,
            keys.skip(1),
            (n - 1) as nat,
        ),
    decreases n,
{
    let tail = keys.skip(1);
    if n == 1 {
        assert(encode_entries(map, keys, 0) =~= Seq::<u8>::empty());
        assert(encode_entries(map, tail, 0) =~= Seq::<u8>::empty());
        assert(encode_entries(map, keys, 1) =~= encode_entry(map, keys[0]));
        assert(encode_entry(map, keys[0]) + encode_entries(map, tail, 0) =~= encode_entry(
            map,
            keys[0],
        ));
    } else {
        lemma_encode_entries_front(map, keys, (n - 1) as nat);
        assert(tail[n - 2] == keys[n - 1]);
        assert(encode_entries(map, tail, (n - 1) as nat) == encode_entries(map, tail, (n - 2) as nat)
            + encode_entry(map, tail[n - 2]));
        assert(encode_entries(map, keys, n) =~= encode_entry(map, keys[0]) + encode_entries(
            map,
            tail,
            (n - 1) as nat,
        ));
    }
}

/// An integer in minimal decimal form, closed by `e`, is read back.
pub proof fn lemma_parse_int_literal(i: i64, rest: Seq<u8>)
    ensures
        parse_int(int_literal(i as int) + seq![END] + rest) == Ok::<_, (DecodeErrorKind, nat)>(
            (Document::Int(i), rest),
        ),
{
    let s = int_literal(i as int) + seq![END] + rest;
    let magnitude: nat = if i < 0 {
        (-i) as nat
    } else {
        i as nat
    };
    let numeral = decimal(magnitude);
    let after = seq![END] + rest;
    let t = numeral + after;
    lemma_decimal_shape(magnitude);
    lemma_decimal_value(magnitude);
    lemma_digit_run_decimal(magnitude, after);
    if i < 0 {
        assert(s[0] == MINUS);
        assert(s.skip(1) =~= t);
    } else {
        assert(s[0] == numeral[0]);
        assert(s =~= t);
    }
    let n = numeral.len();
    assert(t[n as int] == END);
    assert(t[0] == numeral[0]);
    assert(t.take(n as int) =~= numeral);
    assert(t.skip(n as int + 1) =~= rest);
}

/// An encoded byte string is read back.
pub proof fn lemma_parse_encoded_bytes(bytes: Seq<u8>, rest: Seq<u8>)
    ensures
        parse_bytes(encode_bytes(bytes) + rest) == Ok::<_, (DecodeErrorKind, nat)>((bytes, rest)),
        is_digit((encode_bytes(bytes) + rest)[0]),
{
    let s = encode_bytes(bytes) + rest;
    let numeral = decimal(bytes.len());
    let after = seq![COLON] + bytes + rest;
    lemma_decimal_shape(bytes.len());
    lemma_decimal_value(bytes.len());
    lemma_digit_run_decimal(bytes.len(), after);
    assert(s =~= numeral + after);
    let n = numeral.len();
    assert(s[n as int] == COLON);
    assert(s[0] == numeral[0]);
    assert(s.take(n as int) =~= numeral);
    let body = s.skip(n as int + 1);
    assert(body =~= bytes + rest);
    assert(body.take(bytes.len() as int) =~= bytes);
    assert(body.skip(bytes.len() as int) =~= rest);
}

/// The encoding of a document, followed by anything, is read back as that
/// document, and what followed is left.
pub proof fn lemma_parse_encoded(doc: Document, rest: Seq<u8>)
    requires
        doc.well_formed(),
    ensures
        parse_value(encode_spec(doc) + rest) == Ok::<_, (DecodeErrorKind, nat)>((doc, rest)),
    decreases doc, 0nat,
{
    let s = encode_spec(doc) + rest;
    lemma_encoding_lead(doc);
    assert(s[0] == encode_spec(doc)[0]);
    match doc {
        Document::Int(i) => {
            lemma_parse_int_literal(i, rest);
            assert(s.skip(1) =~= int_literal(i as int) + seq![END] + rest);
        },
        Document::Bytes(bytes) => {
            lemma_parse_encoded_bytes(bytes, rest);
        },
        Document::List(items) => {
            lemma_parse_encoded_items(items, 0, rest);
            assert(items.skip(0) =~= items);
            assert(items.take(0) =~= Seq::<Document>::empty());
            assert(s.skip(1) =~= encode_items(items, items.len()) + seq![END] + rest);
        },
        Document::Dict(map) => {
            lemma_sorted_keys_list(map);
            let keys = sorted_keys(map);
            lemma_parse_encoded_entries(map, keys, 0, rest);
            assert(keys.skip(0) =~= keys);
            assert(read_so_far(map, keys, 0) =~= Map::<Seq<u8>, Document>::empty());
            assert(s.skip(1) =~= encode_entries(map, keys, keys.len()) + seq![END] + rest);
        },
    }
}

/// The encodings of the items from the `from`-th on, closed by `e`, are
/// read back onto the items before them.
proof fn lemma_parse_encoded_items(items: Seq<Document>, from: int, rest: Seq<u8>)
    requires
        0 <= from <= items.len(),
        forall|i: int| 0 <= i < items.len() ==> (#[trigger] items[i]).well_formed(),
    ensures
        parse_items(
            encode_items(items.skip(from), (items.len() - from) as nat) + seq![END] + rest,
            items.take(from),
        ) == Ok::<_, (DecodeErrorKind, nat)>((items, rest)),
    decreases items, items.len() - from,
{
    let tail = items.skip(from);
    let s = encode_items(tail, (items.len() - from) as nat) + seq![END] + rest;
    if from == items.len() {
        assert(encode_items(tail, 0) =~= Seq::<u8>::empty());
        assert(s =~= seq![END] + rest);
        assert(s.skip(1) =~= rest);
        assert(items.take(from) =~= items);
    } else {
        let item = items[from];
        lemma_encode_items_front(tail, (items.len() - from) as nat);
        assert(tail[0] == item);
        assert(tail.skip(1) =~= items.skip(from + 1));
        let after = encode_items(items.skip(from + 1), (items.len() - from - 1) as nat) + seq![
            END,
        ] + rest;
        assert(s =~= encode_spec(item) + after);
        lemma_encoding_lead(item);
        assert(s[0] == encode_spec(item)[0]);
        lemma_parse_encoded(item, after);
        assert(items.take(from).push(item) =~= items.take(from + 1));
        lemma_parse_encoded_items(items, from + 1, rest);
    }
}

/// The part of `map` under the first `n` of `keys`.
pub open spec fn read_so_far(map: Map<Seq<u8>, Document>, keys: Seq<Seq<u8>>, n: int) -> Map<
    Seq<u8>,
    Document,
> {
    map.restrict(Set::new(|key: Seq<u8>| keys.take(n).contains(key)))
}

/// The encodings of the entries from the `from`-th key on, closed by `e`,
/// are read back onto the entries before them.
proof fn lemma_parse_encoded_entries(
    map: Map<Seq<u8>, Document>,
    keys: Seq<Seq<u8>>,
    from: int,
    rest: Seq<u8>,
)
    requires
        0 <= from <= keys.len(),
        Document::Dict(map).well_formed(),
        lists_keys(keys, map),
    ensures
        parse_entries(
            encode_entries(map, keys.skip(from), (keys.len() - from) as nat) + seq![END] + rest,
            read_so_far(map, keys, from),
        ) == Ok::<_, (DecodeErrorKind, nat)>((map, rest)),
    decreases map, keys.len() - from,
{
    let tail = keys.skip(from);
    let s = encode_entries(map, tail, (keys.len() - from) as nat) + seq![END] + rest;
    let read = read_so_far(map, keys, from);
    if from == keys.len() {
        assert(encode_entries(map, tail, 0) =~= Seq::<u8>::empty());
        assert(s =~= seq![END] + rest);
        assert(s.skip(1) =~= rest);
        assert(keys.take(from) =~= keys);
        assert(read =~= map);
    } else {
        let key = keys[from];
        assert(keys.contains(key));
        let value = map[key];
        lemma_encode_entries_front(map, tail, (keys.len() - from) as nat);
        assert(tail[0] == key);
        assert(tail.skip(1) =~= keys.skip(from + 1));
        let after = encode_entries(map, keys.skip(from + 1), (keys.len() - from - 1) as nat) + seq![
            END,
        ] + rest;
        let after_key = encode_spec(value) + after;
        assert(s =~= encode_bytes(key) + after_key);
        lemma_parse_encoded_bytes(key, after_key);
        lemma_decimal_shape(key.len());
        lemma_encoding_lead(value);
        lemma_parse_encoded(value, after);
        assert(read.insert(key, value) =~= read_so_far(map, keys, from + 1)) by {
            let longer = keys.take(from + 1);
            let shorter = keys.take(from);
            assert forall|k: Seq<u8>| longer.contains(k) <==> (shorter.contains(k) || k == key) by {
                if longer.contains(k) {
                    let i = choose|i: int| 0 <= i < longer.len() && longer[i] == k;
                    if i < from {
                        assert(shorter[i] == k);
                    }
                }
                if shorter.contains(k) {
                    let i = choose|i: int| 0 <= i < shorter.len() && shorter[i] == k;
                    assert(longer[i] == k);
                }
                if k == key {
                    assert(longer[from] == k);
                }
            }
        }
        lemma_parse_encoded_entries(map, keys, from + 1, rest);
    }
}

/// Reading a byte string or an integer uses up at least one byte.
proof fn lemma_parse_leaf_progress(s: Seq<u8>)
    ensures
        parse_bytes(s) matches Ok((bytes, rest)) ==> rest.len() < s.len(),
        parse_int(s) matches Ok((doc, rest)) ==> rest.len() < s.len() && doc.well_formed(),
{
    lemma_digit_run_shape(s);
    if s.len() > 0 {
        lemma_digit_run_shape(s.skip(1));
    }
}

/// What the grammar reads is a well-formed document, and reading it uses up
/// at least one byte.
pub proof fn lemma_parse_value_sound(s: Seq<u8>)
    ensures
        parse_value(s) matches Ok((doc, rest)) ==> doc.well_formed() && rest.len() < s.len(),
    decreases s.len(), 0nat,
{
    if s.len() > 0 {
        if s[0] == INT {
            lemma_parse_leaf_progress(s.skip(1));
        } else if is_digit(s[0]) {
            lemma_parse_leaf_progress(s);
        } else if s[0] == LIST {
            lemma_parse_items_sound(s.skip(1), Seq::empty());
        } else if s[0] == DICT {
            lemma_parse_entries_sound(s.skip(1), Map::empty());
        }
    }
}

/// Items read onto well-formed items are well formed.
proof fn lemma_parse_items_sound(s: Seq<u8>, read: Seq<Document>)
    requires
        forall|i: int| 0 <= i < read.len() ==> (#[trigger] read[i]).well_formed(),
    ensures
        parse_items(s, read) matches Ok((items, rest)) ==> Document::List(items).well_formed()
            && rest.len() < s.len(),
    decreases s.len(), 1nat,
{
    if s.len() > 0 && s[0] != END {
        lemma_parse_value_sound(s);
        match parse_value(s) {
            Ok((item, rest)) => {
                if rest.len() < s.len() {
                    lemma_parse_items_sound(rest, read.push(item));
                }
            },
            Err(_) => {},
        }
    }
}

/// Entries read onto a well-formed dictionary give a well-formed one.
proof fn lemma_parse_entries_sound(s: Seq<u8>, read: Map<Seq<u8>, Document>)
    requires
        Document::Dict(read).well_formed(),
    ensures
        parse_entries(s, read) matches Ok((map, rest)) ==> Document::Dict(map).well_formed()
            && rest.len() < s.len(),
    decreases s.len(), 1nat,
{
    if s.len() > 0 && s[0] != END {
        match parse_bytes(s) {
            Ok((key, after_key)) => {
                if after_key.len() < s.len() {
                    lemma_parse_value_sound(after_key);
                    match parse_value(after_key) {
                        Ok((value, rest)) => {
                            if rest.len() < after_key.len() {
                                lemma_parse_entries_sound(rest, read.insert(key, value));
                            }
                        },
                        Err(_) => {},
                    }
                }
            },
            Err(_) => {},
        }
    }
}

/// Decoding the canonical encoding of a document gives the document back.
pub proof fn theorem_decode_encoded(doc: Document)
    requires
        doc.well_formed(),
    ensures
        decode_spec(encode_spec(doc)) == Ok::<_, DecodeError>(doc),
{
    lemma_parse_encoded(doc, Seq::empty());
    assert(encode_spec(doc) + Seq::<u8>::empty() =~= encode_spec(doc));
}

/// Two documents with the same canonical encoding are the same document.
pub proof fn theorem_encoding_is_injective(a: Document, b: Document)
    requires
        a.well_formed(),
        b.well_formed(),
        encode_spec(a) == encode_spec(b),
    ensures
        a == b,
{
    theorem_decode_encoded(a);
    theorem_decode_encoded(b);
}

/// Every value in memory is what decoding its own encoding gives.
pub proof fn theorem_value_round_trip(value: Value)
    ensures
        decode_spec(encode_spec(value@)) == Ok::<_, DecodeError>(value@),
{
    value.lemma_view_well_formed();
    theorem_decode_encoded(value@);
}

/// For every input that decodes, decoding, encoding and decoding again
/// gives the document of the first decoding.
pub proof fn theorem_round_trip(bytes: Seq<u8>)
    requires
        decode_spec(bytes) is Ok,
    ensures
        decode_spec(encode_spec(decode_spec(bytes)->Ok_0)) == decode_spec(bytes),
{
    lemma_parse_value_sound(bytes);
    theorem_decode_encoded(decode_spec(bytes)->Ok_0);
}

/// The canonical encoding of a dictionary is `d`, its entries by ascending
/// key, each key once, and `e`.
pub proof fn theorem_canonical_order(map: Map<Seq<u8>, Document>)
    requires
        map.dom().finite(),
    ensures
        ascending(sorted_keys(map)),
        forall|key: Seq<u8>| sorted_keys(map).contains(key) <==> map.dom().contains(key),
        encode_spec(Document::Dict(map)) == seq![DICT] + encode_entries(
            map,
            sorted_keys(map),
            sorted_keys(map).len(),
        ) + seq![END],
{
    lemma_sorted_keys_list(map);
}

/// The dictionary that inserting the pairs one after the other builds.
pub open spec fn built_from(pairs: Seq<(Seq<u8>, Document)>) -> Map<Seq<u8>, Document>
    decreases pairs.len(),
{
    if pairs.len() == 0 {
        Map::empty()
    } else {
        built_from(pairs.drop_last()).insert(pairs.last().0, pairs.last().1)
    }
}

/// No two pairs share a key.
pub open spec fn distinct_pair_keys(pairs: Seq<(Seq<u8>, Document)>) -> bool {
    forall|i: int, j: int| 0 <= i < j < pairs.len() ==> (#[trigger] pairs[i]).0 != (#[trigger] pairs[j]).0
}

/// A dictionary built from pairs with distinct keys holds exactly the pairs.
proof fn lemma_built_from_holds(pairs: Seq<(Seq<u8>, Document)>)
    requires
        distinct_pair_keys(pairs),
    ensures
        forall|key: Seq<u8>, value: Document|
            (built_from(pairs).dom().contains(key) && built_from(pairs)[key] == value)
                <==> pairs.contains((key, value)),
    decreases pairs.len(),
{
    if pairs.len() > 0 {
        let front = pairs.drop_last();
        let last = pairs.last();
        assert(distinct_pair_keys(front)) by {
            assert forall|i: int, j: int| 0 <= i < j < front.len() implies (#[trigger] front[i]).0
                != (#[trigger] front[j]).0 by {
                assert(pairs[i].0 != pairs[j].0);
            }
        }
        lemma_built_from_holds(front);
        assert forall|key: Seq<u8>, value: Document|
            (built_from(pairs).dom().contains(key) && built_from(pairs)[key] == value)
                <==> pairs.contains((key, value)) by {
            if pairs.contains((key, value)) {
                let i = choose|i: int| 0 <= i < pairs.len() && pairs[i] == (key, value);
                if i < front.len() {
                    assert(front[i] == (key, value));
                    assert(front.contains((key, value)));
                    assert(pairs[i].0 != pairs[pairs.len() - 1].0);
                }
            }
            if built_from(pairs).dom().contains(key) && built_from(pairs)[key] == value {
                if key == last.0 {
                    assert(pairs[pairs.len() - 1] == (key, value));
                } else {
                    assert(front.contains((key, value)));
                    let i = choose|i: int| 0 <= i < front.len() && front[i] == (key, value);
                    assert(pairs[i] == (key, value));
                }
            }
        }
    }
}

/// A dictionary built by inserting the same pairs, under distinct keys, in
/// any two orders is the same dictionary, and so has the same encoding.
pub proof fn theorem_insertion_order(a: Seq<(Seq<u8>, Document)>, b: Seq<(Seq<u8>, Document)>)
    requires
        distinct_pair_keys(a),
        distinct_pair_keys(b),
        forall|pair: (Seq<u8>, Document)| a.contains(pair) <==> b.contains(pair),
    ensures
        built_from(a) == built_from(b),
        encode_spec(Document::Dict(built_from(a))) == encode_spec(Document::Dict(built_from(b))),
{
    lemma_built_from_holds(a);
    lemma_built_from_holds(b);
    let ma = built_from(a);
    let mb = built_from(b);
    assert forall|key: Seq<u8>| ma.dom().contains(key) <==> mb.dom().contains(key) by {
        if ma.dom().contains(key) {
            assert(a.contains((key, ma[key])));
            assert(b.contains((key, ma[key])));
        }
        if mb.dom().contains(key) {
            assert(b.contains((key, mb[key])));
            assert(a.contains((key, mb[key])));
        }
    }
    assert forall|key: Seq<u8>| ma.dom().contains(key) implies ma[key] == mb[key] by {
        assert(a.contains((key, ma[key])));
        assert(b.contains((key, ma[key])));
    }
    assert(ma =~= mb);
}

/// Cutting an input short cuts its front run of digits short, or leaves
/// it whole.
proof fn lemma_digit_run_cut(s: Seq<u8>, k: int)
    requires
        0 <= k <= s.len(),
    ensures
        digit_run(s.take(k)) == if digit_run(s) <= k {
            digit_run(s)
        } else {
            k as nat
        },
    decreases s.len(),
{
    if k > 0 && is_digit(s[0]) {
        lemma_digit_run_cut(s.skip(1), k - 1);
        assert(s.take(k).skip(1) =~= s.skip(1).take(k - 1));
    }
}

/// What is true of an item that was read off an input, when the input is
/// cut after its first `k` bytes: what was left is the end of the input;
/// a cut inside the item leaves an input that ends too early; a cut behind
/// it leaves the item to be read as before.
pub open spec fn cut_reads_alike<T>(whole: Parsed<T>, cut: Parsed<T>, s: Seq<u8>, k: int) -> bool {
    whole matches Ok((item, rest)) ==> {
        let used = s.len() - rest.len();
        &&& 0 <= used <= s.len()
        &&& rest == s.skip(used)
        &&& k < used ==> cut == Err::<(T, Seq<u8>), _>((DecodeErrorKind::UnexpectedEnd, 0nat))
        &&& k >= used ==> cut == Ok::<_, (DecodeErrorKind, nat)>((item, rest.take(k - used)))
    }
}

proof fn lemma_parse_bytes_cut(s: Seq<u8>, k: int)
    requires
        0 <= k <= s.len(),
    ensures
        cut_reads_alike(parse_bytes(s), parse_bytes(s.take(k)), s, k),
{
    let p = s.take(k);
    lemma_digit_run_cut(s, k);
    lemma_digit_run_shape(s);
    if parse_bytes(s) is Ok {
        let n = digit_run(s) as int;
        let len = digits_value(s.take(n)) as int;
        let body = s.skip(n + 1);
        let used = n + 1 + len;
        let rest = body.skip(len);
        assert(rest =~= s.skip(used));
        if k > n {
            assert(p.take(n) =~= s.take(n));
            assert(p[n] == s[n]);
            let cut_body = p.skip(n + 1);
            assert(cut_body.len() == k - n - 1);
            if k >= used {
                assert(cut_body.take(len) =~= body.take(len));
                assert(cut_body.skip(len) =~= rest.take(k - used));
            }
        }
    }
}

proof fn lemma_parse_int_cut(s: Seq<u8>, k: int)
    requires
        0 <= k <= s.len(),
    ensures
        cut_reads_alike(parse_int(s), parse_int(s.take(k)), s, k),
{
    let p = s.take(k);
    if parse_int(s) is Ok {
        let negative = s[0] == MINUS;
        let sign: int = if negative {
            1
        } else {
            0
        };
        let t = s.skip(sign);
        assert(t =~= if negative {
            s.skip(1)
        } else {
            s
        });
        lemma_digit_run_shape(t);
        let n = digit_run(t) as int;
        let used = sign + n + 1;
        assert(t.skip(n + 1) =~= s.skip(used));
        if k >= sign {
            let cut_t = p.skip(sign);
            assert(cut_t =~= t.take(k - sign));
            assert(cut_t =~= if k > 0 && p[0] == MINUS {
                p.skip(1)
            } else {
                p
            });
            lemma_digit_run_cut(t, k - sign);
            if k - sign > n {
                assert(cut_t[n] == t[n]);
                assert(cut_t[0] == t[0]);
                assert(cut_t.take(n) =~= t.take(n));
                assert(cut_t.skip(n + 1) =~= t.skip(n + 1).take(k - used));
            } else if k - sign > 0 {
                assert(cut_t[0] == t[0]);
            }
        } else {
            assert(p.len() == 0);
        }
    }
}

/// A value that was read off an input is read alike when the input is cut.
pub proof fn lemma_parse_value_cut(s: Seq<u8>, k: int)
    requires
        0 <= k <= s.len(),
    ensures
        cut_reads_alike(parse_value(s), parse_value(s.take(k)), s, k),
    decreases s.len(), 0nat,
{
    let p = s.take(k);
    if parse_value(s) is Ok {
        let below = if k > 0 {
            k - 1
        } else {
            0
        };
        if k > 0 {
            assert(p[0] == s[0]);
            assert(p.skip(1) =~= s.skip(1).take(k - 1));
        }
        if s[0] == INT {
            lemma_parse_int_cut(s.skip(1), below);
            let rest = parse_int(s.skip(1))->Ok_0.1;
            let used = s.skip(1).len() - rest.len();
            assert(s.skip(1).skip(used) =~= s.skip(used + 1));
        } else if is_digit(s[0]) {
            lemma_parse_bytes_cut(s, k);
        } else if s[0] == LIST {
            lemma_parse_items_cut(s.skip(1), Seq::empty(), below);
            let rest = parse_items(s.skip(1), Seq::empty())->Ok_0.1;
            let used = s.skip(1).len() - rest.len();
            assert(s.skip(1).skip(used) =~= s.skip(used + 1));
        } else if s[0] == DICT {
            lemma_parse_entries_cut(s.skip(1), Map::empty(), below);
            let rest = parse_entries(s.skip(1), Map::empty())->Ok_0.1;
            let used = s.skip(1).len() - rest.len();
            assert(s.skip(1).skip(used) =~= s.skip(used + 1));
        }
    }
}

proof fn lemma_parse_items_cut(s: Seq<u8>, read: Seq<Document>, k: int)
    requires
        0 <= k <= s.len(),
    ensures
        cut_reads_alike(parse_items(s, read), parse_items(s.take(k), read), s, k),
    decreases s.len(), 1nat,
{
    let p = s.take(k);
    if parse_items(s, read) is Ok {
        if k > 0 {
            assert(p[0] == s[0]);
        }
        if s[0] == END {
            if k > 0 {
                assert(p.skip(1) =~= s.skip(1).take(k - 1));
            }
        } else {
            lemma_parse_value_sound(s);
            lemma_parse_value_cut(s, k);
            let (item, after) = parse_value(s)->Ok_0;
            let used = s.len() - after.len();
            let k_rest = if k >= used {
                k - used
            } else {
                0
            };
            lemma_parse_items_cut(after, read.push(item), k_rest);
            let rest = parse_items(after, read.push(item))->Ok_0.1;
            let more = after.len() - rest.len();
            assert(after.skip(more) =~= s.skip(used + more));
        }
    }
}

proof fn lemma_parse_entries_cut(s: Seq<u8>, read: Map<Seq<u8>, Document>, k: int)
    requires
        0 <= k <= s.len(),
    ensures
        cut_reads_alike(parse_entries(s, read), parse_entries(s.take(k), read), s, k),
    decreases s.len(), 1nat,
{
    let p = s.take(k);
    if parse_entries(s, read) is Ok {
        if k > 0 {
            assert(p[0] == s[0]);
        }
        if s[0] == END {
            if k > 0 {
                assert(p.skip(1) =~= s.skip(1).take(k - 1));
            }
        } else {
            lemma_parse_bytes_cut(s, k);
            lemma_parse_leaf_progress(s);
            let (key, after_key) = parse_bytes(s)->Ok_0;
            let used_key = s.len() - after_key.len();
            let k_value = if k >= used_key {
                k - used_key
            } else {
                0
            };
            lemma_parse_value_sound(after_key);
            lemma_parse_value_cut(after_key, k_value);
            let (value, after) = parse_value(after_key)->Ok_0;
            let used_value = after_key.len() - after.len();
            let k_rest = if k_value >= used_value {
                k_value - used_value
            } else {
                0
            };
            lemma_parse_entries_cut(after, read.insert(key, value), k_rest);
            let rest = parse_entries(after, read.insert(key, value))->Ok_0.1;
            let more = after.len() - rest.len();
            assert(after_key.skip(used_value) =~= s.skip(used_key + used_value));
            assert(after.skip(more) =~= s.skip(used_key + used_value + more));
        }
    }
}

/// An input that decodes does not decode when it is cut short: whatever
/// number of its bytes is left, decoding them reports that the input ends
/// too early, at the cut.
pub proof fn theorem_truncated_input_is_refused(bytes: Seq<u8>, k: int)
    requires
        decode_spec(bytes) is Ok,
        0 <= k < bytes.len(),
    ensures
        decode_spec(bytes.take(k)) is Err,
        decode_spec(bytes.take(k))->Err_0.kind == DecodeErrorKind::UnexpectedEnd,
        decode_spec(bytes.take(k))->Err_0.offset == k as usize,
{
    lemma_parse_value_cut(bytes, k);
}

/// A front run of digits that ends inside the input stays as it is when
/// more input follows.
proof fn lemma_digit_run_extend(s: Seq<u8>, tail: Seq<u8>)
    requires
        digit_run(s) < s.len(),
    ensures
        digit_run(s + tail) == digit_run(s),
    decreases s.len(),
{
    if is_digit(s[0]) {
        lemma_digit_run_extend(s.skip(1), tail);
        assert((s + tail).skip(1) =~= s.skip(1) + tail);
    }
}

/// What is true of an item that was read off an input, when more input
/// follows: the item is read as before, and what follows is left as well.
pub open spec fn longer_reads_alike<T>(short: Parsed<T>, long: Parsed<T>, tail: Seq<u8>) -> bool {
    short matches Ok((item, rest)) ==> long == Ok::<_, (DecodeErrorKind, nat)>((item, rest + tail))
}

proof fn lemma_parse_bytes_extend(s: Seq<u8>, tail: Seq<u8>)
    ensures
        longer_reads_alike(parse_bytes(s), parse_bytes(s + tail), tail),
{
    if parse_bytes(s) is Ok {
        let long = s + tail;
        let n = digit_run(s) as int;
        lemma_digit_run_shape(s);
        lemma_digit_run_extend(s, tail);
        assert(long[n] == s[n]);
        assert(long.take(n) =~= s.take(n));
        let len = digits_value(s.take(n)) as int;
        let body = s.skip(n + 1);
        assert(long.skip(n + 1) =~= body + tail);
        assert((body + tail).take(len) =~= body.take(len));
        assert((body + tail).skip(len) =~= body.skip(len) + tail);
    }
}

proof fn lemma_parse_int_extend(s: Seq<u8>, tail: Seq<u8>)
    ensures
        longer_reads_alike(parse_int(s), parse_int(s + tail), tail),
{
    if parse_int(s) is Ok {
        let long = s + tail;
        assert(long[0] == s[0]);
        let negative = s[0] == MINUS;
        let t = if negative {
            s.skip(1)
        } else {
            s
        };
        let long_t = if negative {
            long.skip(1)
        } else {
            long
        };
        assert(long_t =~= t + tail);
        let n = digit_run(t) as int;
        lemma_digit_run_shape(t);
        lemma_digit_run_extend(t, tail);
        assert(long_t[n] == t[n]);
        assert(long_t[0] == t[0]);
        assert(long_t.take(n) =~= t.take(n));
        assert(long_t.skip(n + 1) =~= t.skip(n + 1) + tail);
    }
}

/// A value that was read off an input is read alike when more follows.
pub proof fn lemma_parse_value_extend(s: Seq<u8>, tail: Seq<u8>)
    ensures
        longer_reads_alike(parse_value(s), parse_value(s + tail), tail),
    decreases s.len(), 0nat,
{
    if parse_value(s) is Ok {
        let long = s + tail;
        assert(long[0] == s[0]);
        assert(long.skip(1) =~= s.skip(1) + tail);
        if s[0] == INT {
            lemma_parse_int_extend(s.skip(1), tail);
        } else if is_digit(s[0]) {
            lemma_parse_bytes_extend(s, tail);
        } else if s[0] == LIST {
            lemma_parse_items_extend(s.skip(1), Seq::empty(), tail);
        } else if s[0] == DICT {
            lemma_parse_entries_extend(s.skip(1), Map::empty(), tail);
        }
    }
}

proof fn lemma_parse_items_extend(s: Seq<u8>, read: Seq<Document>, tail: Seq<u8>)
    ensures
        longer_reads_alike(parse_items(s, read), parse_items(s + tail, read), tail),
    decreases s.len(), 1nat,
{
    if parse_items(s, read) is Ok {
        let long = s + tail;
        assert(long[0] == s[0]);
        if s[0] == END {
            assert(long.skip(1) =~= s.skip(1) + tail);
        } else {
            lemma_parse_value_extend(s, tail);
            let (item, after) = parse_value(s)->Ok_0;
            lemma_parse_items_extend(after, read.push(item), tail);
        }
    }
}

proof fn lemma_parse_entries_extend(s: Seq<u8>, read: Map<Seq<u8>, Document>, tail: Seq<u8>)
    ensures
        longer_reads_alike(parse_entries(s, read), parse_entries(s + tail, read), tail),
    decreases s.len(), 1nat,
{
    if parse_entries(s, read) is Ok {
        let long = s + tail;
        assert(long[0] == s[0]);
        if s[0] == END {
            assert(long.skip(1) =~= s.skip(1) + tail);
        } else {
            lemma_parse_bytes_extend(s, tail);
            let (key, after_key) = parse_bytes(s)->Ok_0;
            lemma_parse_value_extend(after_key, tail);
            let (value, after) = parse_value(after_key)->Ok_0;
            lemma_parse_entries_extend(after, read.insert(key, value), tail);
        }
    }
}

/// An input that decodes does not decode when anything follows it, be it
/// another document: decoding reports trailing bytes where the document
/// ends.
pub proof fn theorem_concatenated_input_is_refused(bytes: Seq<u8>, tail: Seq<u8>)
    requires
        decode_spec(bytes) is Ok,
        tail.len() > 0,
    ensures
        decode_spec(bytes + tail) is Err,
        decode_spec(bytes + tail)->Err_0.kind == DecodeErrorKind::TrailingBytes,
        decode_spec(bytes + tail)->Err_0.offset == bytes.len() as usize,
{
    lemma_parse_value_extend(bytes, tail);
    let rest = parse_value(bytes)->Ok_0.1;
    assert(rest + tail =~= tail);
}

} // verus!
