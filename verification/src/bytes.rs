//! Byte strings: equality and the lexicographic order that canonical
//! encoding sorts dictionary keys by.

use vstd::prelude::*;

verus! {

/// `i`, which starts an integer.
pub const INT: u8 = 0x69;

/// `l`, which starts a list.
pub const LIST: u8 = 0x6c;

/// `d`, which starts a dictionary.
pub const DICT: u8 = 0x64;

/// `e`, which ends an integer, a list or a dictionary.
pub const END: u8 = 0x65;

/// `:`, which stands between the length of a byte string and its bytes.
pub const COLON: u8 = 0x3a;

/// `-`, which starts a negative numeral.
pub const MINUS: u8 = 0x2d;

/// `0`, the first of the digits.
pub const ZERO: u8 = 0x30;

/// `9`, the last of the digits.
pub const NINE: u8 = 0x39;

/// `a` comes strictly before `b` when the two are compared byte by byte: at
/// the first position where they differ the byte of `a` is the smaller one,
/// or `a` is a proper prefix of `b`.
pub open spec fn lex_less(a: Seq<u8>, b: Seq<u8>) -> bool
    decreases a.len(),
{
    if b.len() == 0 {
        false
    } else if a.len() == 0 {
        true
    } else if a[0] != b[0] {
        a[0] < b[0]
    } else {
        lex_less(a.skip(1), b.skip(1))
    }
}

/// Every element of `keys` comes strictly before the elements after it.
pub open spec fn ascending(keys: Seq<Seq<u8>>) -> bool {
    forall|i: int, j: int| 0 <= i < j < keys.len() ==> lex_less(#[trigger] keys[i], #[trigger] keys[j])
}

/// No byte string comes before itself.
pub proof fn lemma_lex_irreflexive(a: Seq<u8>)
    ensures
        !lex_less(a, a),
    decreases a.len(),
{
    if a.len() > 0 {
        lemma_lex_irreflexive(a.skip(1));
    }
}

/// The order is transitive.
pub proof fn lemma_lex_transitive(a: Seq<u8>, b: Seq<u8>, c: Seq<u8>)
    requires
        lex_less(a, b),
        lex_less(b, c),
    ensures
        lex_less(a, c),
    decreases a.len(),
{
    if a.len() > 0 && b.len() > 0 && c.len() > 0 && a[0] == b[0] && b[0] == c[0] {
        lemma_lex_transitive(a.skip(1), b.skip(1), c.skip(1));
    }
}

/// Of two different byte strings one comes before the other.
pub proof fn lemma_lex_total(a: Seq<u8>, b: Seq<u8>)
    ensures
        a == b || lex_less(a, b) || lex_less(b, a),
    decreases a.len(),
{
    if a.len() == 0 || b.len() == 0 {
        if a.len() == 0 && b.len() == 0 {
            assert(a =~= b);
        }
    } else if a[0] == b[0] {
        lemma_lex_total(a.skip(1), b.skip(1));
        if a.skip(1) == b.skip(1) {
            assert(a =~= seq![a[0]] + a.skip(1));
            assert(b =~= seq![b[0]] + b.skip(1));
        }
    }
}

/// Two byte strings cannot each come before the other.
pub proof fn lemma_lex_asymmetric(a: Seq<u8>, b: Seq<u8>)
    requires
        lex_less(a, b),
    ensures
        !lex_less(b, a),
{
    if lex_less(b, a) {
        lemma_lex_transitive(a, b, a);
        lemma_lex_irreflexive(a);
    }
}

/// An ascending sequence holds no byte string twice.
pub proof fn lemma_ascending_distinct(keys: Seq<Seq<u8>>)
    requires
        ascending(keys),
    ensures
        forall|i: int, j: int| 0 <= i < j < keys.len() ==> #[trigger] keys[i] != #[trigger] keys[j],
{
    assert forall|i: int, j: int| 0 <= i < j < keys.len() implies #[trigger] keys[i] != #[trigger] keys[j] by {
        lemma_lex_irreflexive(keys[i]);
    }
}

/// Two ascending sequences with the same elements are the same sequence.
pub proof fn lemma_ascending_unique(a: Seq<Seq<u8>>, b: Seq<Seq<u8>>)
    requires
        ascending(a),
        ascending(b),
        forall|k: Seq<u8>| a.contains(k) <==> b.contains(k),
    ensures
        a == b,
    decreases a.len(),
{
    if a.len() == 0 {
        if b.len() > 0 {
            assert(b.contains(b[0]));
        }
        assert(a =~= b);
    } else if b.len() == 0 {
        assert(a.contains(a[0]));
    } else {
        // Both heads are the least element of the shared set.
        assert(a.contains(a[0]));
        assert(b.contains(b[0]));
        let i = choose|i: int| 0 <= i < b.len() && b[i] == a[0];
        let j = choose|j: int| 0 <= j < a.len() && a[j] == b[0];
        if i > 0 && j > 0 {
            assert(lex_less(b[0], b[i]));
            assert(lex_less(a[0], a[j]));
            lemma_lex_asymmetric(a[0], b[0]);
        }
        if i > 0 && j == 0 {
            lemma_lex_irreflexive(b[0]);
        }
        assert(a[0] == b[0]);
        let ta = a.skip(1);
        let tb = b.skip(1);
        lemma_ascending_distinct(a);
        lemma_ascending_distinct(b);
        assert forall|k: Seq<u8>| ta.contains(k) <==> tb.contains(k) by {
            if ta.contains(k) {
                let p = choose|p: int| 0 <= p < ta.len() && ta[p] == k;
                assert(a[p + 1] == k);
                assert(a.contains(k));
                let q = choose|q: int| 0 <= q < b.len() && b[q] == k;
                assert(q != 0);
                assert(tb[q - 1] == k);
            }
            if tb.contains(k) {
                let p = choose|p: int| 0 <= p < tb.len() && tb[p] == k;
                assert(b[p + 1] == k);
                assert(b.contains(k));
                let q = choose|q: int| 0 <= q < a.len() && a[q] == k;
                assert(q != 0);
                assert(ta[q - 1] == k);
            }
        }
        assert(ascending(ta)) by {
            assert forall|x: int, y: int| 0 <= x < y < ta.len() implies lex_less(#[trigger] ta[x], #[trigger] ta[y]) by {
                assert(lex_less(a[x + 1], a[y + 1]));
            }
        }
        assert(ascending(tb)) by {
            assert forall|x: int, y: int| 0 <= x < y < tb.len() implies lex_less(#[trigger] tb[x], #[trigger] tb[y]) by {
                assert(lex_less(b[x + 1], b[y + 1]));
            }
        }
        lemma_ascending_unique(ta, tb);
        assert(a =~= seq![a[0]] + ta);
        assert(b =~= seq![b[0]] + tb);
    }
}

/// A byte string that an ascending sequence lacks can be put in its place.
pub proof fn lemma_ascending_insert(keys: Seq<Seq<u8>>, key: Seq<u8>) -> (longer: Seq<Seq<u8>>)
    requires
        ascending(keys),
        !keys.contains(key),
    ensures
        ascending(longer),
        forall|k: Seq<u8>| longer.contains(k) <==> (keys.contains(k) || k == key),
    decreases keys.len(),
{
    if keys.len() == 0 {
        let longer = seq![key];
        assert(longer[0] == key);
        longer
    } else {
        let last = keys.last();
        let front = keys.drop_last();
        assert(keys.contains(last));
        assert forall|k: Seq<u8>| keys.contains(k) <==> (front.contains(k) || k == last) by {
            if keys.contains(k) {
                let i = choose|i: int| 0 <= i < keys.len() && keys[i] == k;
                if i < front.len() {
                    assert(front[i] == k);
                }
            }
            if front.contains(k) {
                let i = choose|i: int| 0 <= i < front.len() && front[i] == k;
                assert(keys[i] == k);
            }
        }
        if lex_less(last, key) {
            let longer = keys.push(key);
            assert forall|i: int, j: int| 0 <= i < j < longer.len() implies lex_less(
                #[trigger] longer[i],
                #[trigger] longer[j],
            ) by {
                if j == keys.len() {
                    if i < keys.len() - 1 {
                        assert(lex_less(keys[i], keys[keys.len() - 1]));
                        lemma_lex_transitive(keys[i], last, key);
                    }
                } else {
                    assert(lex_less(keys[i], keys[j]));
                }
            }
            assert forall|k: Seq<u8>| longer.contains(k) <==> (keys.contains(k) || k == key) by {
                if longer.contains(k) {
                    let i = choose|i: int| 0 <= i < longer.len() && longer[i] == k;
                    if i < keys.len() {
                        assert(keys[i] == k);
                    }
                }
                if keys.contains(k) {
                    let i = choose|i: int| 0 <= i < keys.len() && keys[i] == k;
                    assert(longer[i] == k);
                }
                if k == key {
                    assert(longer[keys.len() as int] == k);
                }
            }
            longer
        } else {
            lemma_lex_total(last, key);
            assert(ascending(front)) by {
                assert forall|i: int, j: int| 0 <= i < j < front.len() implies lex_less(
                    #[trigger] front[i],
                    #[trigger] front[j],
                ) by {
                    assert(lex_less(keys[i], keys[j]));
                }
            }
            let shorter = lemma_ascending_insert(front, key);
            let longer = shorter.push(last);
            assert forall|i: int, j: int| 0 <= i < j < longer.len() implies lex_less(
                #[trigger] longer[i],
                #[trigger] longer[j],
            ) by {
                if j == shorter.len() {
                    assert(shorter.contains(shorter[i]));
                    if shorter[i] != key {
                        let p = choose|p: int| 0 <= p < front.len() && front[p] == shorter[i];
                        assert(lex_less(keys[p], keys[keys.len() - 1]));
                    }
                } else {
                    assert(lex_less(shorter[i], shorter[j]));
                }
            }
            assert forall|k: Seq<u8>| longer.contains(k) <==> (keys.contains(k) || k == key) by {
                if longer.contains(k) {
                    let i = choose|i: int| 0 <= i < longer.len() && longer[i] == k;
                    if i < shorter.len() {
                        assert(shorter[i] == k);
                        assert(shorter.contains(k));
                    }
                }
                if front.contains(k) || k == key {
                    assert(shorter.contains(k));
                    let i = choose|i: int| 0 <= i < shorter.len() && shorter[i] == k;
                    assert(longer[i] == k);
                }
                if k == last {
                    assert(longer[shorter.len() as int] == k);
                }
            }
            longer
        }
    }
}

/// The byte strings of a finite set can be listed in ascending order.
pub proof fn lemma_ascending_listing(set: Set<Seq<u8>>) -> (keys: Seq<Seq<u8>>)
    requires
        set.finite(),
    ensures
        ascending(keys),
        forall|k: Seq<u8>| keys.contains(k) <==> set.contains(k),
    decreases set.len(),
{
    if set.len() == 0 {
        let keys = Seq::<Seq<u8>>::empty();
        assert forall|k: Seq<u8>| keys.contains(k) <==> set.contains(k) by {
            if set.contains(k) {
                vstd::set_lib::lemma_set_empty_equivalency_len(set);
            }
        }
        keys
    } else {
        let key = set.choose();
        let fewer = lemma_ascending_listing(set.remove(key));
        lemma_ascending_insert(fewer, key)
    }
}

/// Whether two byte strings hold the same bytes.
pub fn same_bytes(a: &[u8], b: &[u8]) -> (same: bool)
    ensures
        same == (a@ == b@),
{
    if a.len() != b.len() {
        return false;
    }
    let mut i: usize = 0;
    while i < a.len()
        invariant
            i <= a.len(),
            a.len() == b.len(),
            forall|j: int| 0 <= j < i ==> a@[j] == b@[j],
        decreases a.len() - i,
    {
        if a[i] != b[i] {
            return false;
        }
        i += 1;
    }
    assert(a@ =~= b@);
    true
}

/// Whether `a` comes strictly before `b` in lexicographic byte order.
pub fn bytes_less(a: &[u8], b: &[u8]) -> (less: bool)
    ensures
        less == lex_less(a@, b@),
{
    let mut i: usize = 0;
    proof {
        assert(a@.skip(0) =~= a@);
        assert(b@.skip(0) =~= b@);
    }
    while i < a.len() && i < b.len()
        invariant
            i <= a.len(),
            i <= b.len(),
            lex_less(a@, b@) == lex_less(a@.skip(i as int), b@.skip(i as int)),
        decreases a.len() - i,
    {
        proof {
            assert(a@.skip(i as int).skip(1) =~= a@.skip(i + 1));
            assert(b@.skip(i as int).skip(1) =~= b@.skip(i + 1));
        }
        if a[i] != b[i] {
            return a[i] < b[i];
        }
        i += 1;
    }
    i < b.len()
}

} // verus!
