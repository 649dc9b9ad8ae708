//! When two values are the same document.

use crate::bytes::same_bytes;
use crate::value::{
    distinct_keys, entries_view, lemma_distinct_count, lemma_entries_view_at,
    lemma_entries_view_finite, list_view, Value,
};
use vstd::prelude::*;
use vstd::std_specs::cmp::PartialEqSpecImpl;

verus! {

/// Two lists of entries with distinct keys and of one length, where each
/// entry of the first has its key and value in the second, make the same
/// dictionary.
proof fn lemma_same_entries(a: Seq<(Vec<u8>, Value)>, b: Seq<(Vec<u8>, Value)>)
    requires
        distinct_keys(a),
        distinct_keys(b),
        a.len() == b.len(),
        forall|i: int|
            0 <= i < a.len() ==> entries_view(b).dom().contains((#[trigger] a[i]).0@) && entries_view(
                b,
            )[a[i].0@] == a[i].1@,
    ensures
        entries_view(a) == entries_view(b),
{
    let ma = entries_view(a);
    let mb = entries_view(b);
    lemma_entries_view_finite(a);
    lemma_entries_view_finite(b);
    lemma_distinct_count(a);
    lemma_distinct_count(b);
    assert(ma.dom().subset_of(mb.dom())) by {
        assert forall|key: Seq<u8>| ma.dom().contains(key) implies mb.dom().contains(key) by {
            let i = choose|i: int| 0 <= i < a.len() && (#[trigger] a[i]).0@ == key;
        }
    }
    vstd::set_lib::lemma_subset_equality(ma.dom(), mb.dom());
    assert forall|key: Seq<u8>| ma.dom().contains(key) implies ma[key] == mb[key] by {
        let i = choose|i: int| 0 <= i < a.len() && (#[trigger] a[i]).0@ == key;
        lemma_entries_view_at(a, i);
    }
    assert(ma =~= mb);
}

impl Value {
    /// Whether two values are the same document: the same integer, the same
    /// bytes, the same items in the same order, or the same keys with the
    /// same values, in whatever order each dictionary holds them.
    #[verifier::loop_isolation(false)]
    pub fn same_as(&self, other: &Value) -> (same: bool)
        ensures
            same == (self@ == other@),
        decreases self,
    {
        match (self, other) {
            (Value::Int(a), Value::Int(b)) => *a == *b,
            (Value::Bytes(a), Value::Bytes(b)) => same_bytes(a.as_slice(), b.as_slice()),
            (Value::List(a), Value::List(b)) => {
                if a.len() != b.len() {
                    assert(list_view(a@).len() != list_view(b@).len());
                    return false;
                }
                let mut i: usize = 0;
                while i < a.len()
                    invariant
                        i <= a.len(),
                        forall|j: int| 0 <= j < i ==> (#[trigger] a@[j])@ == b@[j]@,
                    decreases a.len() - i,
                {
                    if !a[i].same_as(&b[i]) {
                        assert(list_view(a@)[i as int] != list_view(b@)[i as int]);
                        return false;
                    }
                    i += 1;
                }
                assert(list_view(a@) =~= list_view(b@));
                true
            },
            (Value::Dict(a), Value::Dict(b)) => {
                proof {
                    use_type_invariant(a);
                    use_type_invariant(b);
                    lemma_distinct_count(a.entries@);
                    lemma_distinct_count(b.entries@);
                }
                if a.entries.len() != b.entries.len() {
                    return false;
                }
                let mut i: usize = 0;
                while i < a.entries.len()
                    invariant
                        i <= a.entries.len(),
                        forall|j: int|
                            0 <= j < i ==> b@.dom().contains((#[trigger] a.entries@[j]).0@) && b@[a.entries@[j].0@]
                                == a.entries@[j].1@,
                    decreases a.entries.len() - i,
                {
                    proof {
                        lemma_entries_view_at(a.entries@, i as int);
                    }
                    match b.get(a.entries[i].0.as_slice()) {
                        None => {
                            return false;
                        },
                        Some(theirs) => {
                            if !a.entries[i].1.same_as(theirs) {
                                return false;
                            }
                        },
                    }
                    i += 1;
                }
                proof {
                    lemma_same_entries(a.entries@, b.entries@);
                }
                true
            },
            _ => false,
        }
    }
}

impl PartialEq for Value {
    fn eq(&self, other: &Value) -> (same: bool) {
        self.same_as(other)
    }
}

impl PartialEqSpecImpl for Value {
    open spec fn obeys_eq_spec() -> bool {
        true
    }

    open spec fn eq_spec(&self, other: &Value) -> bool {
        self@ == other@
    }
}

} // verus!
