//! A set of `u32` values, stored as a strictly ascending vector.
//!
//! This is the container the codec encodes from and decodes into. It offers
//! exactly what the codec needs: indexed ascending access, insertion of one
//! value, insertion of an inclusive range, and the largest element.

use vstd::prelude::*;

verus! {

/// Holds when `s` is strictly ascending (so also free of duplicates).
pub open spec fn sorted_strict(s: Seq<u32>) -> bool {
    forall|i: int, j: int| 0 <= i < j < s.len() ==> s[i] < s[j]
}

/// `s` with `v` placed at its sorted position, unchanged if already present.
pub open spec fn set_insert(s: Seq<u32>, v: u32) -> Seq<u32>
    decreases s.len(),
{
    if s.len() == 0 {
        seq![v]
    } else if v < s[0] {
        seq![v] + s
    } else if v == s[0] {
        s
    } else {
        seq![s[0]] + set_insert(s.skip(1), v)
    }
}

/// The set of all integers in the inclusive range `[lo, hi]`.
pub open spec fn range_set(lo: u32, hi: u32) -> Set<u32> {
    Set::new(|x: u32| lo <= x <= hi)
}

pub proof fn lemma_set_insert(s: Seq<u32>, v: u32)
    requires
        sorted_strict(s),
    ensures
        sorted_strict(set_insert(s, v)),
        set_insert(s, v).to_set() == s.to_set().insert(v),
        s.len() <= set_insert(s, v).len() <= s.len() + 1,
    decreases s.len(),
{
    if s.len() == 0 {
        assert(set_insert(s, v) == seq![v]);
        assert(seq![v].contains(v)) by {
            assert(seq![v][0] == v);
        }
        assert(set_insert(s, v).to_set() =~= s.to_set().insert(v));
    } else if v < s[0] {
        let r = seq![v] + s;
        assert forall|x: u32| r.contains(x) <==> (s.contains(x) || x == v) by {
            if r.contains(x) {
                let i = choose|i: int| 0 <= i < r.len() && r[i] == x;
                if i == 0 {
                } else {
                    assert(s[i - 1] == x);
                }
            }
            if s.contains(x) {
                let i = choose|i: int| 0 <= i < s.len() && s[i] == x;
                assert(r[i + 1] == x);
            }
            if x == v {
                assert(r[0] == x);
            }
        }
        assert(set_insert(s, v).to_set() =~= s.to_set().insert(v));
    } else if v == s[0] {
        assert(s.contains(v)) by {
            assert(s[0] == v);
        }
        assert(set_insert(s, v).to_set() =~= s.to_set().insert(v));
    } else {
        let tail = s.skip(1);
        assert(sorted_strict(tail)) by {
            assert(forall|i: int, j: int|
                0 <= i < j < tail.len() ==> tail[i] == s[i + 1] && tail[j] == s[j + 1]);
        }
        lemma_set_insert(tail, v);
        let rt = set_insert(tail, v);
        let r = seq![s[0]] + rt;
        assert(set_insert(s, v) == r);
        // every element of the tail-insertion is an element of tail or v,
        // hence greater than s[0]
        assert forall|k: int| 0 <= k < rt.len() implies s[0] < rt[k] by {
            assert(rt.to_set().contains(rt[k])) by {
                assert(rt.contains(rt[k]));
            }
            assert(tail.to_set().insert(v).contains(rt[k]));
            if rt[k] == v {
            } else {
                assert(tail.contains(rt[k]));
                let i = choose|i: int| 0 <= i < tail.len() && tail[i] == rt[k];
                assert(s[i + 1] == rt[k]);
            }
        }
        assert(sorted_strict(r)) by {
            assert(forall|i: int, j: int|
                0 <= i < j < r.len() && i > 0 ==> r[i] == rt[i - 1] && r[j] == rt[j - 1]);
        }
        assert forall|x: u32| r.contains(x) <==> (s.contains(x) || x == v) by {
            if r.contains(x) {
                let i = choose|i: int| 0 <= i < r.len() && r[i] == x;
                if i == 0 {
                    assert(s[0] == x);
                } else {
                    assert(rt.contains(x)) by {
                        assert(rt[i - 1] == x);
                    }
                    assert(rt.to_set().contains(x));
                    if x != v {
                        assert(tail.contains(x));
                        let k = choose|k: int| 0 <= k < tail.len() && tail[k] == x;
                        assert(s[k + 1] == x);
                    }
                }
            }
            if s.contains(x) {
                let i = choose|i: int| 0 <= i < s.len() && s[i] == x;
                if i == 0 {
                    assert(r[0] == x);
                } else {
                    assert(tail[i - 1] == x);
                    assert(tail.contains(x));
                    assert(rt.to_set().contains(x));
                    assert(rt.contains(x));
                    let k = choose|k: int| 0 <= k < rt.len() && rt[k] == x;
                    assert(r[k + 1] == x);
                }
            }
            if x == v {
                assert(rt.to_set().contains(x));
                assert(rt.contains(x));
                let k = choose|k: int| 0 <= k < rt.len() && rt[k] == x;
                assert(r[k + 1] == x);
            }
        }
        assert(set_insert(s, v).to_set() =~= s.to_set().insert(v));
    }
}

/// Splitting a sorted insertion at a prefix whose elements are all below `v`.
pub proof fn lemma_set_insert_split(s: Seq<u32>, v: u32, i: int)
    requires
        sorted_strict(s),
        0 <= i <= s.len(),
        forall|k: int| 0 <= k < i ==> s[k] < v,
    ensures
        set_insert(s, v) == s.take(i) + set_insert(s.skip(i), v),
    decreases i,
{
    if i == 0 {
        assert(s.skip(0) == s);
        assert(s.take(0) + set_insert(s, v) =~= set_insert(s, v));
    } else {
        let tail = s.skip(1);
        assert(sorted_strict(tail)) by {
            assert(forall|p: int, q: int|
                0 <= p < q < tail.len() ==> tail[p] == s[p + 1] && tail[q] == s[q + 1]);
        }
        assert(s[0] < v);
        assert(set_insert(s, v) == seq![s[0]] + set_insert(tail, v));
        assert(forall|k: int| 0 <= k < i - 1 ==> tail[k] == s[k + 1] && tail[k] < v);
        lemma_set_insert_split(tail, v, i - 1);
        assert(tail.take(i - 1) == s.take(i).skip(1)) by {
            assert(tail.take(i - 1) =~= s.take(i).skip(1));
        }
        assert(tail.skip(i - 1) == s.skip(i)) by {
            assert(tail.skip(i - 1) =~= s.skip(i));
        }
        assert(seq![s[0]] + (s.take(i).skip(1) + set_insert(s.skip(i), v)) =~= s.take(i)
            + set_insert(s.skip(i), v));
    }
}

/// A set of `u32` values kept as a strictly ascending vector.
#[derive(Clone, Debug)]
pub struct IntSet {
    values: Vec<u32>,
}

impl View for IntSet {
    type V = Seq<u32>;

    closed spec fn view(&self) -> Seq<u32> {
        self.values@
    }
}

impl IntSet {
    /// The container's invariant: its vector is strictly ascending.
    pub open spec fn wf(&self) -> bool {
        sorted_strict(self@)
    }

    /// The empty set.
    pub fn empty() -> (r: IntSet)
        ensures
            r.wf(),
            r@ == Seq::<u32>::empty(),
    {
        IntSet { values: Vec::new() }
    }

    /// How many values are present.
    pub fn len(&self) -> (n: usize)
        ensures
            n == self@.len(),
    {
        self.values.len()
    }

    /// The value at position `i` in ascending order.
    pub fn get(&self, i: usize) -> (v: u32)
        requires
            i < self@.len(),
        ensures
            v == self@[i as int],
    {
        self.values[i]
    }

    /// The largest value present, if any.
    pub fn last(&self) -> (r: Option<u32>)
        ensures
            match r {
                Some(v) => self@.len() > 0 && v == self@.last(),
                None => self@.len() == 0,
            },
    {
        if self.values.len() == 0 {
            None
        } else {
            Some(self.values[self.values.len() - 1])
        }
    }

    /// Whether `v` is present.
    pub fn contains(&self, v: u32) -> (r: bool)
        requires
            self.wf(),
        ensures
            r == self@.contains(v),
    {
        let n = self.values.len();
        let mut i: usize = 0;
        while i < n
            invariant
                n == self@.len(),
                0 <= i <= n,
                forall|k: int| 0 <= k < i ==> self@[k] != v,
            decreases n - i,
        {
            if self.values[i] == v {
                return true;
            }
            i += 1;
        }
        false
    }

    /// Inserts `v`, keeping the vector sorted; no effect if present.
    pub fn insert(&mut self, v: u32)
        requires
            old(self).wf(),
        ensures
            final(self).wf(),
            final(self)@ == set_insert(old(self)@, v),
            final(self)@.to_set() == old(self)@.to_set().insert(v),
    {
        let ghost s = self@;
        let n = self.values.len();
        let mut i: usize = 0;
        while i < n && self.values[i] < v
            invariant
                self@ == s,
                n == s.len(),
                0 <= i <= n,
                forall|k: int| 0 <= k < i ==> s[k] < v,
            decreases n - i,
        {
            i += 1;
        }
        proof {
            lemma_set_insert(s, v);
            lemma_set_insert_split(s, v, i as int);
        }
        if i < n && self.values[i] == v {
            proof {
                assert(s.skip(i as int)[0] == s[i as int]);
                assert(set_insert(s.skip(i as int), v) == s.skip(i as int));
                assert(s.take(i as int) + s.skip(i as int) =~= s);
            }
            return;
        }
        proof {
            let rest = s.skip(i as int);
            if i < n {
                assert(rest[0] == s[i as int]);
                assert(v < rest[0]);
                assert(set_insert(rest, v) == seq![v] + rest);
            } else {
                assert(rest.len() == 0);
                assert(set_insert(rest, v) == seq![v]);
                assert(seq![v] + rest =~= seq![v]);
            }
            assert(s.take(i as int) + (seq![v] + s.skip(i as int)) =~= s.insert(i as int, v));
        }
        self.values.insert(i, v);
    }

    /// Inserts every value in the inclusive range `[lo, hi]`; no effect when
    /// `lo > hi`.
    pub fn insert_range(&mut self, lo: u32, hi: u32)
        requires
            old(self).wf(),
        ensures
            final(self).wf(),
            final(self)@.to_set() == old(self)@.to_set().union(range_set(lo, hi)),
    {
        let ghost s0 = self@.to_set();
        if lo > hi {
            proof {
                assert(range_set(lo, hi) =~= Set::<u32>::empty());
                assert(s0.union(range_set(lo, hi)) =~= s0);
            }
            return;
        }
        let mut v = lo;
        while v < hi
            invariant
                self.wf(),
                lo <= v <= hi,
                self@.to_set() == if v == lo {
                    s0
                } else {
                    s0.union(range_set(lo, (v - 1) as u32))
                },
            decreases hi - v,
        {
            self.insert(v);
            proof {
                assert(self@.to_set() =~= s0.union(range_set(lo, v)));
            }
            v += 1;
        }
        self.insert(hi);
        proof {
            assert(self@.to_set() =~= s0.union(range_set(lo, hi)));
        }
    }
}

impl PartialEq for IntSet {
    fn eq(&self, other: &IntSet) -> (r: bool) {
        let n = self.values.len();
        if n != other.values.len() {
            return false;
        }
        let mut i: usize = 0;
        while i < n
            invariant
                n == self@.len(),
                n == other@.len(),
                0 <= i <= n,
                forall|k: int| 0 <= k < i ==> self@[k] == other@[k],
            decreases n - i,
        {
            if self.values[i] != other.values[i] {
                return false;
            }
            i += 1;
        }
        proof {
            assert(self@ =~= other@);
        }
        true
    }
}

impl vstd::std_specs::cmp::PartialEqSpecImpl for IntSet {
    open spec fn obeys_eq_spec() -> bool {
        true
    }

    open spec fn eq_spec(&self, other: &IntSet) -> bool {
        self@ == other@
    }
}

} // verus!
