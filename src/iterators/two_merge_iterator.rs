//! Merges two sorted sources into one; where both hold a key, the first wins.

use vstd::prelude::*;

use super::StorageIterator;
use crate::block::{Entry, keys_ascending};
use crate::key::{
    compare_keys, key_lt, lemma_key_lt_asymmetric, lemma_key_lt_irreflexive, lemma_key_lt_total,
    lemma_key_lt_transitive,
};

verus! {

/// The entries that merging `a` and `b` yields: at each step the smaller
/// head comes first; on equal keys the head of `a` comes and that of `b` is
/// skipped.
pub open spec fn merge_entries(a: Seq<Entry>, b: Seq<Entry>) -> Seq<Entry>
    decreases a.len() + b.len(),
{
    if a.len() == 0 {
        b
    } else if b.len() == 0 {
        a
    } else if key_lt(a[0].0, b[0].0) {
        seq![a[0]] + merge_entries(a.drop_first(), b)
    } else if key_lt(b[0].0, a[0].0) {
        seq![b[0]] + merge_entries(a, b.drop_first())
    } else {
        seq![a[0]] + merge_entries(a.drop_first(), b.drop_first())
    }
}

/// Merges two iterators of different types into one. If the two iterators
/// have the same key, only produce the key once and prefer the entry from A.
pub struct TwoMergeIterator<A: StorageIterator, B: StorageIterator> {
    a: A,
    b: B,
    use_a: bool,
    is_equal: bool,
}

impl<A: StorageIterator, B: StorageIterator> TwoMergeIterator<A, B> {
    /// `use_a` and `is_equal` describe the current heads of the two sides.
    closed spec fn synced(&self) -> bool {
        let ra = self.a.remaining();
        let rb = self.b.remaining();
        if ra.len() > 0 && rb.len() > 0 {
            &&& self.use_a == !key_lt(rb[0].0, ra[0].0)
            &&& self.is_equal == (ra[0].0 == rb[0].0)
        } else if ra.len() > 0 {
            self.use_a && !self.is_equal
        } else if rb.len() > 0 {
            !self.use_a && !self.is_equal
        } else {
            true
        }
    }

    /// Picks the active side for the current heads.
    fn resync(&mut self)
        requires
            old(self).a.well_formed(),
            old(self).b.well_formed(),
        ensures
            final(self).a == old(self).a,
            final(self).b == old(self).b,
            final(self).synced(),
    {
        let a_valid = self.a.is_valid();
        let b_valid = self.b.is_valid();
        if a_valid && b_valid {
            let ord = compare_keys(self.a.key(), self.b.key());
            proof {
                lemma_key_lt_total(self.a.remaining()[0].0, self.b.remaining()[0].0);
            }
            match ord {
                std::cmp::Ordering::Less => {
                    proof {
                        lemma_key_lt_asymmetric(self.a.remaining()[0].0, self.b.remaining()[0].0);
                    }
                    self.use_a = true;
                    self.is_equal = false;
                },
                std::cmp::Ordering::Equal => {
                    proof {
                        lemma_key_lt_irreflexive(self.a.remaining()[0].0);
                    }
                    self.use_a = true;
                    self.is_equal = true;
                },
                std::cmp::Ordering::Greater => {
                    proof {
                        lemma_key_lt_asymmetric(self.b.remaining()[0].0, self.a.remaining()[0].0);
                    }
                    self.use_a = false;
                    self.is_equal = false;
                },
            }
        } else if a_valid {
            self.use_a = true;
            self.is_equal = false;
        } else {
            self.use_a = false;
            self.is_equal = false;
        }
    }

    /// Creates the merged iterator over `a` and `b`.
    pub fn create(a: A, b: B) -> (r: Result<Self, anyhow::Error>)
        requires
            a.well_formed(),
            b.well_formed(),
        ensures
            r is Ok,
            r matches Ok(it) ==> it.well_formed() && it.remaining() == merge_entries(
                a.remaining(),
                b.remaining(),
            ),
    {
        let mut iter = Self { a, b, use_a: false, is_equal: false };
        iter.resync();
        Ok(iter)
    }
}

impl<A: StorageIterator, B: StorageIterator> StorageIterator for TwoMergeIterator<A, B> {
    closed spec fn well_formed(&self) -> bool {
        &&& self.a.well_formed()
        &&& self.b.well_formed()
        &&& self.synced()
    }

    closed spec fn remaining(&self) -> Seq<Entry> {
        merge_entries(self.a.remaining(), self.b.remaining())
    }

    fn key(&self) -> (r: &[u8]) {
        proof {
            self.lemma_head();
        }
        if self.use_a {
            self.a.key()
        } else {
            self.b.key()
        }
    }

    fn value(&self) -> (r: &[u8]) {
        proof {
            self.lemma_head();
        }
        if self.use_a {
            self.a.value()
        } else {
            self.b.value()
        }
    }

    fn is_valid(&self) -> (r: bool) {
        self.a.is_valid() || self.b.is_valid()
    }

    fn next(&mut self) -> (r: Result<(), anyhow::Error>) {
        let ghost ra = self.a.remaining();
        let ghost rb = self.b.remaining();
        proof {
            self.lemma_head();
            if ra.len() > 0 && rb.len() > 0 {
                lemma_key_lt_total(ra[0].0, rb[0].0);
            }
        }
        if self.use_a {
            match self.a.next() {
                Ok(()) => {},
                Err(e) => {
                    return Err(e);
                },
            }
            if self.is_equal {
                match self.b.next() {
                    Ok(()) => {},
                    Err(e) => {
                        return Err(e);
                    },
                }
            }
        } else {
            match self.b.next() {
                Ok(()) => {},
                Err(e) => {
                    return Err(e);
                },
            }
        }
        self.resync();
        Ok(())
    }
}

impl<A: StorageIterator, B: StorageIterator> TwoMergeIterator<A, B> {
    /// The active side holds the head of the merge; an active `a` with
    /// `is_equal` unset means `b` does not share its key.
    proof fn lemma_head(&self)
        requires
            self.a.well_formed(),
            self.b.well_formed(),
            self.synced(),
        ensures
            self.a.remaining().len() > 0 || self.b.remaining().len() > 0 ==> {
                let m = merge_entries(self.a.remaining(), self.b.remaining());
                let ra = self.a.remaining();
                let rb = self.b.remaining();
                &&& self.use_a ==> ra.len() > 0 && m[0] == ra[0]
                &&& !self.use_a ==> rb.len() > 0 && m[0] == rb[0]
                &&& self.use_a && self.is_equal ==> rb.len() > 0 && m == seq![ra[0]]
                    + merge_entries(ra.drop_first(), rb.drop_first())
                &&& self.use_a && !self.is_equal ==> m == seq![ra[0]] + merge_entries(
                    ra.drop_first(),
                    rb,
                )
                &&& !self.use_a ==> m == seq![rb[0]] + merge_entries(ra, rb.drop_first())
            },
    {
        let ra = self.a.remaining();
        let rb = self.b.remaining();
        if ra.len() > 0 && rb.len() > 0 {
            lemma_key_lt_total(ra[0].0, rb[0].0);
            lemma_key_lt_irreflexive(ra[0].0);
            if key_lt(rb[0].0, ra[0].0) {
                lemma_key_lt_asymmetric(rb[0].0, ra[0].0);
            }
        } else if ra.len() > 0 {
            assert(merge_entries(ra.drop_first(), rb) =~= ra.drop_first());
            assert(ra =~= seq![ra[0]] + ra.drop_first());
        } else if rb.len() > 0 {
            assert(merge_entries(ra, rb.drop_first()) =~= rb.drop_first());
            assert(rb =~= seq![rb[0]] + rb.drop_first());
        }
    }
}

/// Some entry of `s` has key `k`.
pub open spec fn has_key(s: Seq<Entry>, k: Seq<u8>) -> bool {
    exists|i: int| 0 <= i < s.len() && (#[trigger] s[i]).0 == k
}

proof fn lemma_cons(x: Entry, s: Seq<Entry>, e: Entry)
    ensures
        (seq![x] + s).contains(e) <==> (e == x || s.contains(e)),
        has_key(seq![x] + s, e.0) <==> (x.0 == e.0 || has_key(s, e.0)),
{
    let t = seq![x] + s;
    if t.contains(e) {
        let i = choose|i: int| 0 <= i < t.len() && t[i] == e;
        if i > 0 {
            assert(s[i - 1] == e);
        }
    }
    if s.contains(e) {
        let i = choose|i: int| 0 <= i < s.len() && s[i] == e;
        assert(t[i + 1] == e);
    }
    if e == x {
        assert(t[0] == e);
    }
    let k = e.0;
    if has_key(t, k) {
        let i = choose|i: int| 0 <= i < t.len() && (#[trigger] t[i]).0 == k;
        if i > 0 {
            assert(s[i - 1].0 == k);
        }
    }
    if has_key(s, k) {
        let i = choose|i: int| 0 <= i < s.len() && (#[trigger] s[i]).0 == k;
        assert(t[i + 1].0 == k);
    }
    if x.0 == k {
        assert(t[0].0 == k);
    }
}

/// A non-empty sequence is its head followed by its tail; the tail of an
/// ascending sequence ascends, and every key in it exceeds the head's.
proof fn lemma_split(a: Seq<Entry>)
    requires
        a.len() > 0,
        keys_ascending(a),
    ensures
        a == seq![a[0]] + a.drop_first(),
        keys_ascending(a.drop_first()),
        forall|e: Entry| a.drop_first().contains(e) ==> key_lt(a[0].0, e.0),
        forall|k: Seq<u8>| has_key(a.drop_first(), k) ==> key_lt(a[0].0, k),
{
    assert(a =~= seq![a[0]] + a.drop_first());
    let t = a.drop_first();
    assert forall|i: int, j: int| 0 <= i < j < t.len() implies key_lt(
        #[trigger] t[i].0,
        #[trigger] t[j].0,
    ) by {
        assert(t[i] == a[i + 1] && t[j] == a[j + 1]);
    }
    assert forall|e: Entry| t.contains(e) implies key_lt(a[0].0, e.0) by {
        let i = choose|i: int| 0 <= i < t.len() && t[i] == e;
        assert(t[i] == a[i + 1]);
    }
    assert forall|k: Seq<u8>| has_key(t, k) implies key_lt(a[0].0, k) by {
        let i = choose|i: int| 0 <= i < t.len() && (#[trigger] t[i]).0 == k;
        assert(t[i] == a[i + 1]);
    }
}

proof fn lemma_ascending_cons(x: Entry, s: Seq<Entry>)
    requires
        keys_ascending(s),
        forall|e: Entry| s.contains(e) ==> key_lt(x.0, e.0),
    ensures
        keys_ascending(seq![x] + s),
{
    let t = seq![x] + s;
    assert forall|i: int, j: int| 0 <= i < j < t.len() implies key_lt(
        #[trigger] t[i].0,
        #[trigger] t[j].0,
    ) by {
        if i == 0 {
            assert(s.contains(s[j - 1]));
        } else {
            assert(t[i] == s[i - 1] && t[j] == s[j - 1]);
        }
    }
}

/// What the merge of `a` and `b` is claimed to satisfy.
pub open spec fn merge_union(a: Seq<Entry>, b: Seq<Entry>, m: Seq<Entry>) -> bool {
    &&& keys_ascending(m)
    &&& forall|e: Entry| #[trigger]
        m.contains(e) <==> (a.contains(e) || (b.contains(e) && !has_key(a, e.0)))
}

/// The step where the head of `a` is the smaller.
proof fn lemma_merge_step_a(a: Seq<Entry>, b: Seq<Entry>)
    requires
        keys_ascending(a),
        keys_ascending(b),
        a.len() > 0,
        b.len() > 0,
        key_lt(a[0].0, b[0].0),
        merge_union(a.drop_first(), b, merge_entries(a.drop_first(), b)),
    ensures
        merge_union(a, b, merge_entries(a, b)),
{
    let (a0, b0, a1, b1) = (a[0], b[0], a.drop_first(), b.drop_first());
    lemma_split(a);
    lemma_split(b);
    let r = merge_entries(a1, b);
    let m = merge_entries(a, b);
    assert(m == seq![a0] + r);
    assert forall|e: Entry| b.contains(e) implies key_lt(a0.0, e.0) by {
        if e != b0 {
            lemma_key_lt_transitive(a0.0, b0.0, e.0);
        }
    }
    assert forall|e: Entry| r.contains(e) implies key_lt(a0.0, e.0) by {}
    lemma_ascending_cons(a0, r);
    lemma_key_lt_irreflexive(a0.0);
    assert forall|e: Entry| #[trigger] m.contains(e) <==> (a.contains(e) || (b.contains(e)
        && !has_key(a, e.0))) by {
        lemma_cons(a0, a1, e);
        lemma_cons(b0, b1, e);
        lemma_cons(a0, r, e);
        assert((seq![a0] + r).contains(e) == (e == a0 || r.contains(e)));
        assert(m.contains(e) == (e == a0 || r.contains(e)));
        assert(r.contains(e) == (a1.contains(e) || (b.contains(e) && !has_key(a1, e.0))));
        assert(a.contains(e) == (e == a0 || a1.contains(e)));
        assert(has_key(a, e.0) == (a0.0 == e.0 || has_key(a1, e.0)));
        if b.contains(e) {
            assert(key_lt(a0.0, e.0));
            assert(a0.0 != e.0);
        }
    }
}

/// The step where the head of `b` is the smaller.
proof fn lemma_merge_step_b(a: Seq<Entry>, b: Seq<Entry>)
    requires
        keys_ascending(a),
        keys_ascending(b),
        a.len() > 0,
        b.len() > 0,
        key_lt(b[0].0, a[0].0),
        merge_union(a, b.drop_first(), merge_entries(a, b.drop_first())),
    ensures
        merge_union(a, b, merge_entries(a, b)),
{
    let (a0, b0, a1, b1) = (a[0], b[0], a.drop_first(), b.drop_first());
    lemma_split(a);
    lemma_split(b);
    lemma_key_lt_asymmetric(b0.0, a0.0);
    let r = merge_entries(a, b1);
    let m = merge_entries(a, b);
    assert(m == seq![b0] + r);
    assert forall|e: Entry| a.contains(e) implies key_lt(b0.0, e.0) by {
        if e != a0 {
            lemma_key_lt_transitive(b0.0, a0.0, e.0);
        }
    }
    assert forall|e: Entry| r.contains(e) implies key_lt(b0.0, e.0) by {}
    lemma_ascending_cons(b0, r);
    lemma_key_lt_irreflexive(b0.0);
    assert(!has_key(a, b0.0)) by {
        if has_key(a1, b0.0) {
            lemma_key_lt_transitive(a0.0, b0.0, a0.0);
            lemma_key_lt_irreflexive(a0.0);
        }
    }
    assert forall|e: Entry| #[trigger] m.contains(e) <==> (a.contains(e) || (b.contains(e)
        && !has_key(a, e.0))) by {
        lemma_cons(a0, a1, e);
        lemma_cons(b0, b1, e);
        lemma_cons(b0, r, e);
        assert(m.contains(e) == (e == b0 || r.contains(e)));
        assert(r.contains(e) == (a.contains(e) || (b1.contains(e) && !has_key(a, e.0))));
        assert(b.contains(e) == (e == b0 || b1.contains(e)));
    }
}

/// The step where both heads share a key: `a`'s head is kept, `b`'s skipped.
proof fn lemma_merge_step_eq(a: Seq<Entry>, b: Seq<Entry>)
    requires
        keys_ascending(a),
        keys_ascending(b),
        a.len() > 0,
        b.len() > 0,
        a[0].0 == b[0].0,
        merge_union(a.drop_first(), b.drop_first(), merge_entries(a.drop_first(), b.drop_first())),
    ensures
        merge_union(a, b, merge_entries(a, b)),
{
    let (a0, b0, a1, b1) = (a[0], b[0], a.drop_first(), b.drop_first());
    lemma_split(a);
    lemma_split(b);
    lemma_key_lt_irreflexive(a0.0);
    let r = merge_entries(a1, b1);
    let m = merge_entries(a, b);
    assert(m == seq![a0] + r);
    assert forall|e: Entry| r.contains(e) implies key_lt(a0.0, e.0) by {}
    lemma_ascending_cons(a0, r);
    assert forall|e: Entry| #[trigger] m.contains(e) <==> (a.contains(e) || (b.contains(e)
        && !has_key(a, e.0))) by {
        lemma_cons(a0, a1, e);
        lemma_cons(b0, b1, e);
        lemma_cons(a0, r, e);
        assert(m.contains(e) == (e == a0 || r.contains(e)));
        assert(r.contains(e) == (a1.contains(e) || (b1.contains(e) && !has_key(a1, e.0))));
        assert(a.contains(e) == (e == a0 || a1.contains(e)));
        assert(b.contains(e) == (e == b0 || b1.contains(e)));
        assert(has_key(a, e.0) == (a0.0 == e.0 || has_key(a1, e.0)));
        if b1.contains(e) {
            assert(key_lt(b0.0, e.0));
            assert(a0.0 != e.0);
        }
    }
}

/// Merging two key-ascending sequences yields a key-ascending sequence (so
/// each key once) that holds every entry of `a`, and those entries of `b`
/// whose key `a` lacks; nothing else. Where both hold a key, `a`'s entry
/// is the one kept.
pub proof fn lemma_merge_sorted_union(a: Seq<Entry>, b: Seq<Entry>)
    requires
        keys_ascending(a),
        keys_ascending(b),
    ensures
        merge_union(a, b, merge_entries(a, b)),
    decreases a.len() + b.len(),
{
    if a.len() == 0 || b.len() == 0 {
        assert(!has_key(Seq::<Entry>::empty(), Seq::<u8>::empty()));
    } else {
        lemma_split(a);
        lemma_split(b);
        if key_lt(a[0].0, b[0].0) {
            lemma_merge_sorted_union(a.drop_first(), b);
            lemma_merge_step_a(a, b);
        } else if key_lt(b[0].0, a[0].0) {
            lemma_merge_sorted_union(a, b.drop_first());
            lemma_merge_step_b(a, b);
        } else {
            lemma_key_lt_total(a[0].0, b[0].0);
            lemma_merge_sorted_union(a.drop_first(), b.drop_first());
            lemma_merge_step_eq(a, b);
        }
    }
}

} // verus!
