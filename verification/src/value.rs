//! The document tree that the codec reads and writes.
//!
//! A [`Value`] is what sits in memory; a [`Document`] is the mathematical
//! object it stands for. Two values have the same document exactly when they
//! are structurally the same, whatever order their dictionaries keep their
//! entries in.

use crate::bytes::same_bytes;
use vstd::prelude::*;

verus! {

/// A document: an integer, a byte string, a list of documents, or a
/// dictionary from byte-string keys to documents.
pub ghost enum Document {
    Int(i64),
    Bytes(Seq<u8>),
    List(Seq<Document>),
    Dict(Map<Seq<u8>, Document>),
}

impl Document {
    /// Every dictionary in the document has finitely many keys.
    pub open spec fn well_formed(self) -> bool
        decreases self,
    {
        match self {
            Document::Int(_) => true,
            Document::Bytes(_) => true,
            Document::List(items) => forall|i: int|
                0 <= i < items.len() ==> (#[trigger] items[i]).well_formed(),
            Document::Dict(map) => map.dom().finite() && forall|key: Seq<u8>|
                map.dom().contains(key) ==> (#[trigger] map[key]).well_formed(),
        }
    }
}

/// Lists and dictionaries of the document nest at most `levels` deep: a
/// byte string or an integer nests within any number of levels, a list or a
/// dictionary within one level more than each of its members.
pub open spec fn nests_within(doc: Document, levels: nat) -> bool
    decreases doc,
{
    match doc {
        Document::Int(_) => true,
        Document::Bytes(_) => true,
        Document::List(items) => levels > 0 && forall|i: int|
            0 <= i < items.len() ==> nests_within(#[trigger] items[i], (levels - 1) as nat),
        Document::Dict(map) => levels > 0 && map.dom().finite() && forall|key: Seq<u8>|
            map.dom().contains(key) ==> nests_within(#[trigger] map[key], (levels - 1) as nat),
    }
}

/// What nests within some levels nests within more.
pub proof fn lemma_nests_within_more(doc: Document, levels: nat, more: nat)
    requires
        nests_within(doc, levels),
        levels <= more,
    ensures
        nests_within(doc, more),
    decreases doc,
{
    match doc {
        Document::Int(_) => {},
        Document::Bytes(_) => {},
        Document::List(items) => {
            assert forall|i: int| 0 <= i < items.len() implies nests_within(
                #[trigger] items[i],
                (more - 1) as nat,
            ) by {
                lemma_nests_within_more(items[i], (levels - 1) as nat, (more - 1) as nat);
            }
        },
        Document::Dict(map) => {
            assert forall|key: Seq<u8>| map.dom().contains(key) implies nests_within(
                #[trigger] map[key],
                (more - 1) as nat,
            ) by {
                lemma_nests_within_more(map[key], (levels - 1) as nat, (more - 1) as nat);
            }
        },
    }
}

/// Each item of a list that nests within some levels nests within one
/// level less.
pub proof fn lemma_member_nests(items: Seq<Document>, levels: nat, i: int)
    requires
        nests_within(Document::List(items), levels),
        0 <= i < items.len(),
    ensures
        levels > 0,
        nests_within(items[i], (levels - 1) as nat),
{
    assert(Document::List(items)->List_0 == items);
}

/// A dictionary in memory: its entries in the order they were first
/// inserted, no key twice.
#[derive(Debug)]
pub struct Dict {
    pub(crate) entries: Vec<(Vec<u8>, Value)>,
}

/// A document in memory.
#[derive(Debug)]
pub enum Value {
    Int(i64),
    Bytes(Vec<u8>),
    List(Vec<Value>),
    Dict(Dict),
}

/// No two entries share a key.
pub open spec fn distinct_keys(entries: Seq<(Vec<u8>, Value)>) -> bool {
    forall|i: int, j: int|
        0 <= i < j < entries.len() ==> (#[trigger] entries[i]).0@ != (#[trigger] entries[j]).0@
}

/// The documents of a sequence of values, in order.
pub open spec fn list_view(items: Seq<Value>) -> Seq<Document>
    decreases items, 0int,
{
    Seq::new(
        items.len(),
        |i: int|
            if 0 <= i < items.len() {
                items[i].view()
            } else {
                Document::Int(0)
            },
    )
}

/// The map from each entry's key to the document of its value.
pub open spec fn entries_view(entries: Seq<(Vec<u8>, Value)>) -> Map<Seq<u8>, Document>
    decreases entries, 0int,
{
    Map::new(
        |key: Seq<u8>| exists|i: int| 0 <= i < entries.len() && (#[trigger] entries[i]).0@ == key,
        |key: Seq<u8>|
            {
                let i = choose|i: int| 0 <= i < entries.len() && (#[trigger] entries[i]).0@ == key;
                if 0 <= i < entries.len() {
                    entries[i].1.view()
                } else {
                    Document::Int(0)
                }
            },
    )
}

impl View for Value {
    type V = Document;

    open(crate) spec fn view(&self) -> Document
        decreases self, 1int,
    {
        match self {
            Value::Int(i) => Document::Int(*i),
            Value::Bytes(bytes) => Document::Bytes(bytes@),
            Value::List(items) => Document::List(list_view(items@)),
            Value::Dict(dict) => Document::Dict(entries_view(dict.entries@)),
        }
    }
}

impl View for Dict {
    type V = Map<Seq<u8>, Document>;

    open(crate) spec fn view(&self) -> Map<Seq<u8>, Document> {
        entries_view(self.entries@)
    }
}

/// Appending a value appends its document.
pub proof fn lemma_list_view_push(items: Seq<Value>, value: Value)
    ensures
        list_view(items.push(value)) == list_view(items).push(value@),
{
    assert(list_view(items.push(value)) =~= list_view(items).push(value@));
}

/// With distinct keys, each entry's key maps to that entry's value.
pub proof fn lemma_entries_view_at(entries: Seq<(Vec<u8>, Value)>, i: int)
    requires
        distinct_keys(entries),
        0 <= i < entries.len(),
    ensures
        entries_view(entries).dom().contains(entries[i].0@),
        entries_view(entries)[entries[i].0@] == entries[i].1@,
{
    let key = entries[i].0@;
    let c = choose|c: int| 0 <= c < entries.len() && (#[trigger] entries[c]).0@ == key;
    assert(c == i) by {
        if c < i {
            assert(entries[c].0@ != entries[i].0@);
        }
        if i < c {
            assert(entries[i].0@ != entries[c].0@);
        }
    }
}

/// Appending an entry under a fresh key inserts it into the map.
pub proof fn lemma_entries_view_push(entries: Seq<(Vec<u8>, Value)>, key: Vec<u8>, value: Value)
    requires
        distinct_keys(entries),
        forall|i: int| 0 <= i < entries.len() ==> (#[trigger] entries[i]).0@ != key@,
    ensures
        distinct_keys(entries.push((key, value))),
        entries_view(entries.push((key, value))) == entries_view(entries).insert(key@, value@),
{
    let longer = entries.push((key, value));
    assert(distinct_keys(longer));
    let a = entries_view(longer);
    let b = entries_view(entries).insert(key@, value@);
    assert forall|k: Seq<u8>| a.dom().contains(k) <==> b.dom().contains(k) by {
        if a.dom().contains(k) {
            let i = choose|i: int| 0 <= i < longer.len() && (#[trigger] longer[i]).0@ == k;
            if i < entries.len() {
                assert(entries[i].0@ == k);
            }
        }
        if b.dom().contains(k) {
            if k == key@ {
                assert(longer[entries.len() as int].0@ == k);
            } else {
                let i = choose|i: int| 0 <= i < entries.len() && (#[trigger] entries[i]).0@ == k;
                assert(longer[i].0@ == k);
            }
        }
    }
    assert forall|k: Seq<u8>| a.dom().contains(k) implies a[k] == b[k] by {
        let i = choose|i: int| 0 <= i < longer.len() && (#[trigger] longer[i]).0@ == k;
        lemma_entries_view_at(longer, i);
        if i < entries.len() {
            lemma_entries_view_at(entries, i);
        }
    }
    assert(a =~= b);
}

/// Replacing the value of an entry, under the same key, overwrites the key
/// in the map.
pub proof fn lemma_entries_view_update(
    entries: Seq<(Vec<u8>, Value)>,
    at: int,
    key: Vec<u8>,
    value: Value,
)
    requires
        distinct_keys(entries),
        0 <= at < entries.len(),
        entries[at].0@ == key@,
    ensures
        distinct_keys(entries.update(at, (key, value))),
        entries_view(entries.update(at, (key, value))) == entries_view(entries).insert(
            key@,
            value@,
        ),
{
    let changed = entries.update(at, (key, value));
    assert(distinct_keys(changed)) by {
        assert forall|i: int, j: int| 0 <= i < j < changed.len() implies (#[trigger] changed[i]).0@
            != (#[trigger] changed[j]).0@ by {
            assert(entries[i].0@ != entries[j].0@);
        }
    }
    let a = entries_view(changed);
    let b = entries_view(entries).insert(key@, value@);
    assert forall|k: Seq<u8>| a.dom().contains(k) <==> b.dom().contains(k) by {
        if a.dom().contains(k) {
            let i = choose|i: int| 0 <= i < changed.len() && (#[trigger] changed[i]).0@ == k;
            assert(entries[i].0@ == k);
        }
        if b.dom().contains(k) {
            if k == key@ {
                assert(changed[at].0@ == k);
            } else {
                let i = choose|i: int| 0 <= i < entries.len() && (#[trigger] entries[i]).0@ == k;
                assert(changed[i].0@ == k);
            }
        }
    }
    assert forall|k: Seq<u8>| a.dom().contains(k) implies a[k] == b[k] by {
        let i = choose|i: int| 0 <= i < changed.len() && (#[trigger] changed[i]).0@ == k;
        lemma_entries_view_at(changed, i);
        lemma_entries_view_at(entries, i);
    }
    assert(a =~= b);
}

/// Taking an entry out takes its key out of the map.
pub proof fn lemma_entries_view_remove(entries: Seq<(Vec<u8>, Value)>, at: int)
    requires
        distinct_keys(entries),
        0 <= at < entries.len(),
    ensures
        distinct_keys(entries.remove(at)),
        entries_view(entries.remove(at)) == entries_view(entries).remove(entries[at].0@),
{
    let shorter = entries.remove(at);
    assert(distinct_keys(shorter)) by {
        assert forall|i: int, j: int| 0 <= i < j < shorter.len() implies (#[trigger] shorter[i]).0@
            != (#[trigger] shorter[j]).0@ by {
            let si = if i < at { i } else { i + 1 };
            let sj = if j < at { j } else { j + 1 };
            assert(entries[si].0@ != entries[sj].0@);
        }
    }
    let a = entries_view(shorter);
    let b = entries_view(entries).remove(entries[at].0@);
    assert forall|k: Seq<u8>| a.dom().contains(k) <==> b.dom().contains(k) by {
        if a.dom().contains(k) {
            let i = choose|i: int| 0 <= i < shorter.len() && (#[trigger] shorter[i]).0@ == k;
            let si = if i < at { i } else { i + 1 };
            assert(entries[si].0@ == k);
            if si < at {
                assert(entries[si].0@ != entries[at].0@);
            } else {
                assert(entries[at].0@ != entries[si].0@);
            }
        }
        if b.dom().contains(k) {
            let i = choose|i: int| 0 <= i < entries.len() && (#[trigger] entries[i]).0@ == k;
            let si = if i < at { i } else { i - 1 };
            assert(shorter[si].0@ == k);
        }
    }
    assert forall|k: Seq<u8>| a.dom().contains(k) implies a[k] == b[k] by {
        let i = choose|i: int| 0 <= i < shorter.len() && (#[trigger] shorter[i]).0@ == k;
        let si = if i < at { i } else { i + 1 };
        lemma_entries_view_at(shorter, i);
        lemma_entries_view_at(entries, si);
    }
    assert(a =~= b);
}

/// The keys of a sequence of entries, in order.
pub open spec fn entry_keys(entries: Seq<(Vec<u8>, Value)>) -> Seq<Seq<u8>> {
    Seq::new(entries.len(), |i: int| entries[i].0@)
}

/// A map built from entries has exactly the entries' keys, so finitely many.
pub proof fn lemma_entries_view_finite(entries: Seq<(Vec<u8>, Value)>)
    ensures
        entries_view(entries).dom().finite(),
        entries_view(entries).dom() == entry_keys(entries).to_set(),
{
    let keys = entry_keys(entries);
    assert forall|k: Seq<u8>| entries_view(entries).dom().contains(k) <==> keys.to_set().contains(
        k,
    ) by {
        if entries_view(entries).dom().contains(k) {
            let i = choose|i: int| 0 <= i < entries.len() && (#[trigger] entries[i]).0@ == k;
            assert(keys[i] == k);
        }
        if keys.to_set().contains(k) {
            let i = choose|i: int| 0 <= i < keys.len() && keys[i] == k;
            assert(entries[i].0@ == k);
        }
    }
    assert(entries_view(entries).dom() =~= keys.to_set());
    vstd::seq_lib::seq_to_set_is_finite(keys);
}

/// A dictionary of entries with distinct keys has as many keys as entries.
pub proof fn lemma_distinct_count(entries: Seq<(Vec<u8>, Value)>)
    requires
        distinct_keys(entries),
    ensures
        entries_view(entries).dom().len() == entries.len(),
{
    lemma_entries_view_finite(entries);
    let keys = entry_keys(entries);
    assert(keys.no_duplicates()) by {
        assert forall|i: int, j: int|
            0 <= i < keys.len() && 0 <= j < keys.len() && i != j implies keys[i] != keys[j] by {
            if i < j {
                assert(entries[i].0@ != entries[j].0@);
            } else {
                assert(entries[j].0@ != entries[i].0@);
            }
        }
    }
    keys.unique_seq_to_set();
}

impl Value {
    /// Whether the lists and dictionaries of the value nest at most
    /// `levels` deep.
    #[verifier::loop_isolation(false)]
    pub fn nests_within(&self, levels: usize) -> (ok: bool)
        ensures
            ok == nests_within(self@, levels as nat),
        decreases self,
    {
        match self {
            Value::Int(_) => true,
            Value::Bytes(_) => true,
            Value::List(items) => {
                if levels == 0 {
                    return false;
                }
                let ghost docs = list_view(items@);
                let mut i: usize = 0;
                while i < items.len()
                    invariant
                        i <= items.len(),
                        forall|j: int| 0 <= j < i ==> nests_within(#[trigger] docs[j], (levels - 1) as nat),
                    decreases items.len() - i,
                {
                    assert(docs[i as int] == items@[i as int]@);
                    if !items[i].nests_within(levels - 1) {
                        proof {
                            if nests_within(Document::List(docs), levels as nat) {
                                lemma_member_nests(docs, levels as nat, i as int);
                            }
                        }
                        return false;
                    }
                    i += 1;
                }
                true
            },
            Value::Dict(dict) => {
                if levels == 0 {
                    return false;
                }
                proof {
                    use_type_invariant(dict);
                    lemma_entries_view_finite(dict.entries@);
                }
                let ghost entries = dict.entries@;
                let ghost map = entries_view(entries);
                let mut i: usize = 0;
                while i < dict.entries.len()
                    invariant
                        i <= dict.entries.len(),
                        forall|j: int|
                            0 <= j < i ==> nests_within((#[trigger] entries[j]).1@, (levels - 1) as nat),
                    decreases dict.entries.len() - i,
                {
                    if !dict.entries[i].1.nests_within(levels - 1) {
                        proof {
                            lemma_entries_view_at(entries, i as int);
                        }
                        return false;
                    }
                    i += 1;
                }
                proof {
                    assert forall|key: Seq<u8>| map.dom().contains(key) implies nests_within(
                        #[trigger] map[key],
                        (levels - 1) as nat,
                    ) by {
                        let j = choose|j: int| 0 <= j < entries.len() && (#[trigger] entries[j]).0@ == key;
                        lemma_entries_view_at(entries, j);
                    }
                }
                true
            },
        }
    }

    /// The document of any value is well formed.
    pub proof fn lemma_view_well_formed(self)
        ensures
            self@.well_formed(),
        decreases self,
    {
        match self {
            Value::Int(_) => {},
            Value::Bytes(_) => {},
            Value::List(items) => {
                let docs = list_view(items@);
                assert forall|i: int| 0 <= i < docs.len() implies (#[trigger] docs[i]).well_formed() by {
                    items@[i].lemma_view_well_formed();
                }
            },
            Value::Dict(dict) => {
                let entries = dict.entries@;
                let map = entries_view(entries);
                lemma_entries_view_finite(entries);
                assert forall|key: Seq<u8>| map.dom().contains(key) implies (#[trigger] map[key]).well_formed() by {
                    let i = choose|i: int| 0 <= i < entries.len() && (#[trigger] entries[i]).0@ == key;
                    entries[i].1.lemma_view_well_formed();
                }
            },
        }
    }
}

impl Dict {
    #[verifier::type_invariant]
    pub(crate) open spec fn keys_are_distinct(self) -> bool {
        distinct_keys(self.entries@)
    }

    /// A dictionary without entries.
    pub fn new() -> (dict: Dict)
        ensures
            dict@ == Map::<Seq<u8>, Document>::empty(),
    {
        let dict = Dict { entries: Vec::new() };
        assert(dict@ =~= Map::<Seq<u8>, Document>::empty());
        dict
    }

    /// The entries, in the order their keys were first inserted.
    pub fn entries(&self) -> (entries: &Vec<(Vec<u8>, Value)>)
        ensures
            distinct_keys(entries@),
            entries_view(entries@) == self@,
    {
        proof {
            use_type_invariant(self);
        }
        &self.entries
    }

    /// The number of entries.
    pub fn len(&self) -> (n: usize)
        ensures
            n == self@.dom().len(),
    {
        proof {
            use_type_invariant(self);
            lemma_distinct_count(self.entries@);
        }
        self.entries.len()
    }

    fn position(&self, key: &[u8]) -> (at: Option<usize>)
        ensures
            match at {
                Some(i) => i < self.entries.len() && self.entries[i as int].0@ == key@,
                None => forall|i: int| 0 <= i < self.entries.len() ==> (#[trigger] self.entries[i]).0@ != key@,
            },
    {
        let mut i: usize = 0;
        while i < self.entries.len()
            invariant
                i <= self.entries.len(),
                forall|j: int| 0 <= j < i ==> (#[trigger] self.entries[j]).0@ != key@,
            decreases self.entries.len() - i,
        {
            if same_bytes(self.entries[i].0.as_slice(), key) {
                return Some(i);
            }
            i += 1;
        }
        None
    }

    /// The value stored under `key`, if there is one.
    pub fn get(&self, key: &[u8]) -> (found: Option<&Value>)
        ensures
            match found {
                Some(value) => self@.dom().contains(key@) && self@[key@] == value@,
                None => !self@.dom().contains(key@),
            },
    {
        proof {
            use_type_invariant(self);
        }
        match self.position(key) {
            Some(i) => {
                proof {
                    lemma_entries_view_at(self.entries@, i as int);
                }
                Some(&self.entries[i].1)
            },
            None => None,
        }
    }

    /// Stores `value` under `key`. A value already stored under that key is
    /// replaced: the last insertion wins.
    pub fn insert(&mut self, key: Vec<u8>, value: Value)
        ensures
            final(self)@ == old(self)@.insert(key@, value@),
    {
        proof {
            use_type_invariant(&*self);
        }
        let found = self.position(key.as_slice());
        let mut entries: Vec<(Vec<u8>, Value)> = Vec::new();
        core::mem::swap(&mut self.entries, &mut entries);
        match found {
            Some(i) => {
                proof {
                    lemma_entries_view_update(entries@, i as int, key, value);
                }
                let _replaced = entries.remove(i);
                entries.insert(i, (key, value));
                assert(entries@ =~= old(self).entries@.update(i as int, (key, value)));
            },
            None => {
                proof {
                    lemma_entries_view_push(entries@, key, value);
                }
                entries.push((key, value));
            },
        }
        self.entries = entries;
    }

    /// Takes the value stored under `key` out of the dictionary.
    pub fn remove(&mut self, key: &[u8]) -> (taken: Option<Value>)
        ensures
            final(self)@ == old(self)@.remove(key@),
            match taken {
                Some(value) => old(self)@.dom().contains(key@) && old(self)@[key@] == value@,
                None => !old(self)@.dom().contains(key@),
            },
    {
        proof {
            use_type_invariant(&*self);
        }
        let found = self.position(key);
        let mut entries: Vec<(Vec<u8>, Value)> = Vec::new();
        core::mem::swap(&mut self.entries, &mut entries);
        let taken = match found {
            Some(i) => {
                proof {
                    lemma_entries_view_at(entries@, i as int);
                    lemma_entries_view_remove(entries@, i as int);
                }
                let entry = entries.remove(i);
                Some(entry.1)
            },
            None => {
                assert(entries_view(entries@) =~= entries_view(entries@).remove(key@));
                None
            },
        };
        self.entries = entries;
        taken
    }
}

} // verus!
