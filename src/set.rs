use vstd::prelude::*;

use crate::ord::{sorted_distinct, strictly_increasing};
use crate::Mergeable;

verus! {

broadcast use vstd::seq_lib::group_seq_properties;

/// Three-way merge of sets: what the two sides kept of the ancestor, and
/// what either side added.
pub open spec fn three_way<A>(lca: Set<A>, left: Set<A>, right: Set<A>) -> Set<A> {
    lca.intersect(left).intersect(right).union(left.difference(lca)).union(right.difference(lca))
}

/// An unordered collection of distinct items, held ascending.
#[derive(Clone, Debug, PartialEq, Eq, Hash, Default)]
pub struct MrdtSet {
    items: Vec<u64>,
}

impl View for MrdtSet {
    type V = Set<u64>;

    closed spec fn view(&self) -> Set<u64> {
        self.items@.to_set()
    }
}

impl MrdtSet {
    pub closed spec fn wf(&self) -> bool {
        strictly_increasing(self.items@)
    }

    /// The items, ascending.
    pub closed spec fn spec_items(&self) -> Seq<u64> {
        self.items@
    }

    pub proof fn lemma_wf_items(&self)
        requires
            self.wf(),
        ensures
            self.spec_items().to_set() == self@,
            self.spec_items().no_duplicates(),
            forall|i: int, j: int|
                0 <= i < j < self.spec_items().len() ==> self.spec_items()[i]
                    < self.spec_items()[j],
            self@.finite(),
            self@.len() == self.spec_items().len(),
    {
        broadcast use vstd::seq_lib::seq_to_set_is_finite;

        assert forall|i: int, j: int|
            0 <= i < self.items@.len() && 0 <= j < self.items@.len() && i != j implies self.items@[i]
            != self.items@[j] by {
            if i < j {
                assert(self.items@[i] < self.items@[j]);
            } else {
                assert(self.items@[j] < self.items@[i]);
            }
        }
        self.items@.unique_seq_to_set();
    }

    pub fn new() -> (r: MrdtSet)
        ensures
            r.wf(),
            r@ == Set::<u64>::empty(),
    {
        let r = MrdtSet { items: Vec::new() };
        proof {
            assert(r@ =~= Set::<u64>::empty());
        }
        r
    }

    /// The set of the values of `v`.
    pub fn from_vec(v: Vec<u64>) -> (r: MrdtSet)
        ensures
            r.wf(),
            r@ == v@.to_set(),
    {
        let items = sorted_distinct(v);
        let r = MrdtSet { items };
        proof {
            assert(r@ =~= v@.to_set());
        }
        r
    }

    pub fn len(&self) -> (n: usize)
        requires
            self.wf(),
        ensures
            n == self@.len(),
    {
        proof {
            self.lemma_wf_items();
        }
        self.items.len()
    }

    pub fn is_empty(&self) -> (b: bool)
        requires
            self.wf(),
        ensures
            b == (self@.len() == 0),
    {
        proof {
            self.lemma_wf_items();
        }
        self.items.len() == 0
    }

    /// Where `x` stands among the items, or where it would be inserted.
    fn position(&self, x: u64) -> (p: usize)
        requires
            self.wf(),
        ensures
            p <= self.items@.len(),
            forall|i: int| 0 <= i < p ==> self.items@[i] < x,
            forall|i: int| p <= i < self.items@.len() ==> self.items@[i] >= x,
    {
        let mut lo: usize = 0;
        let mut hi: usize = self.items.len();
        while lo < hi
            invariant
                self.wf(),
                0 <= lo <= hi <= self.items@.len(),
                forall|i: int| 0 <= i < lo ==> self.items@[i] < x,
                forall|i: int| hi <= i < self.items@.len() ==> self.items@[i] >= x,
            decreases hi - lo,
        {
            let mid = lo + (hi - lo) / 2;
            if self.items[mid] < x {
                lo = mid + 1;
            } else {
                hi = mid;
            }
        }
        lo
    }

    pub fn contains(&self, x: &u64) -> (b: bool)
        requires
            self.wf(),
        ensures
            b == self@.contains(*x),
    {
        let p = self.position(*x);
        let b = p < self.items.len() && self.items[p] == *x;
        proof {
            if self@.contains(*x) {
                let i = choose|i: int| 0 <= i < self.items@.len() && self.items@[i] == *x;
                if i > p {
                    assert(self.items@[p as int] < self.items@[i]);
                }
            }
        }
        b
    }

    /// Adds `x`; returns whether it was new.
    pub fn insert(&mut self, x: u64) -> (added: bool)
        requires
            old(self).wf(),
        ensures
            final(self).wf(),
            final(self)@ == old(self)@.insert(x),
            added == !old(self)@.contains(x),
    {
        let p = self.position(x);
        if p < self.items.len() && self.items[p] == x {
            proof {
                assert(self@.insert(x) =~= self@);
            }
            return false;
        }
        let ghost s0 = self.items@;
        proof {
            if s0.contains(x) {
                let i = choose|i: int| 0 <= i < s0.len() && s0[i] == x;
                if i >= p && p < s0.len() {
                    assert(s0[p as int] <= s0[i]);
                    if i > p {
                        assert(s0[p as int] < s0[i]);
                    }
                }
            }
        }
        self.items.insert(p, x);
        proof {
            assert(self.items@ =~= s0.subrange(0, p as int).push(x) + s0.subrange(p as int, s0.len() as int));
            assert(self.items@.to_set() =~= s0.to_set().insert(x)) by {
                assert forall|y: u64| self.items@.contains(y) <==> (s0.contains(y) || y == x) by {
                    if s0.contains(y) {
                        let i = choose|i: int| 0 <= i < s0.len() && s0[i] == y;
                        if i < p {
                            assert(self.items@[i] == y);
                        } else {
                            assert(self.items@[i + 1] == y);
                        }
                    }
                    if self.items@.contains(y) && y != x {
                        let i = choose|i: int| 0 <= i < self.items@.len() && self.items@[i] == y;
                        if i < p {
                            assert(s0[i] == y);
                        } else {
                            assert(s0[i - 1] == y);
                        }
                    }
                    if y == x {
                        assert(self.items@[p as int] == x);
                    }
                }
            }
        }
        true
    }

    /// Removes `x`; returns whether it was there.
    pub fn remove(&mut self, x: &u64) -> (removed: bool)
        requires
            old(self).wf(),
        ensures
            final(self).wf(),
            final(self)@ == old(self)@.remove(*x),
            removed == old(self)@.contains(*x),
    {
        let p = self.position(*x);
        if p < self.items.len() && self.items[p] == *x {
            let ghost s0 = self.items@;
            self.items.remove(p);
            proof {
                assert(self.items@ =~= s0.subrange(0, p as int) + s0.subrange(p + 1, s0.len() as int));
                assert forall|y: u64| self.items@.contains(y) <==> (s0.contains(y) && y != *x) by {
                    if s0.contains(y) && y != *x {
                        let i = choose|i: int| 0 <= i < s0.len() && s0[i] == y;
                        if i < p {
                            assert(self.items@[i] == y);
                        } else {
                            assert(i != p);
                            assert(self.items@[i - 1] == y);
                        }
                    }
                    if self.items@.contains(y) {
                        let i = choose|i: int| 0 <= i < self.items@.len() && self.items@[i] == y;
                        if i < p {
                            assert(s0[i] == y);
                            assert(s0[i] < s0[p as int]);
                        } else {
                            assert(s0[i + 1] == y);
                            assert(s0[p as int] < s0[i + 1]);
                        }
                    }
                }
                assert(self@ =~= s0.to_set().remove(*x));
            }
            true
        } else {
            proof {
                if self@.contains(*x) {
                    let i = choose|i: int| 0 <= i < self.items@.len() && self.items@[i] == *x;
                    if i > p {
                        assert(self.items@[p as int] < self.items@[i]);
                    }
                }
                assert(self@.remove(*x) =~= self@);
            }
            false
        }
    }

    /// The items, ascending.
    pub fn iter(&self) -> (v: Vec<u64>)
        requires
            self.wf(),
        ensures
            v@ == self.spec_items(),
            v@.to_set() == self@,
    {
        self.items.clone()
    }

    /// Three-way merge: an item stays where it was in the ancestor and both
    /// sides kept it, or where either side added it.
    pub fn merge(lca: &MrdtSet, left: &MrdtSet, right: &MrdtSet) -> (r: MrdtSet)
        requires
            lca.wf(),
            left.wf(),
            right.wf(),
        ensures
            r.wf(),
            r@ == three_way(lca@, left@, right@),
    {
        let mut out: Vec<u64> = Vec::new();
        let mut i: usize = 0;
        while i < left.items.len()
            invariant
                lca.wf(),
                left.wf(),
                right.wf(),
                i <= left.items@.len(),
                forall|y: u64|
                    out@.contains(y) <==> left.items@.subrange(0, i as int).contains(y) && (
                    !lca@.contains(y) || right@.contains(y)),
            decreases left.items@.len() - i,
        {
            let x = left.items[i];
            if !lca.contains(&x) || right.contains(&x) {
                out.push(x);
            }
            proof {
                assert(left.items@.subrange(0, i + 1) =~= left.items@.subrange(0, i as int).push(x));
            }
            i += 1;
        }
        proof {
            assert(left.items@.subrange(0, i as int) =~= left.items@);
        }
        let mut j: usize = 0;
        while j < right.items.len()
            invariant
                lca.wf(),
                left.wf(),
                right.wf(),
                j <= right.items@.len(),
                forall|y: u64|
                    #![trigger out@.contains(y)]
                    out@.contains(y) <==> (left@.contains(y) && (!lca@.contains(y)
                        || right@.contains(y))) || (right.items@.subrange(0, j as int).contains(y)
                        && !lca@.contains(y) && !left@.contains(y)),
            decreases right.items@.len() - j,
        {
            let x = right.items[j];
            let ghost o0 = out@;
            let fresh = !lca.contains(&x) && !left.contains(&x);
            if fresh {
                out.push(x);
            }
            proof {
                let pre = right.items@.subrange(0, j as int);
                assert(right.items@.subrange(0, j + 1) =~= pre.push(x));
                assert forall|y: u64|
                    #![trigger out@.contains(y)]
                    out@.contains(y) <==> (left@.contains(y) && (!lca@.contains(y)
                        || right@.contains(y))) || (pre.push(x).contains(y) && !lca@.contains(y)
                        && !left@.contains(y)) by {
                    assert(o0.contains(y) <==> (left@.contains(y) && (!lca@.contains(y)
                        || right@.contains(y))) || (pre.contains(y) && !lca@.contains(y)
                        && !left@.contains(y)));
                    if fresh {
                        assert(out@ == o0.push(x));
                    } else {
                        assert(out@ == o0);
                    }
                }
            }
            j += 1;
        }
        proof {
            assert(right.items@.subrange(0, j as int) =~= right.items@);
        }
        let r = MrdtSet::from_vec(out);
        proof {
            assert(r@ =~= three_way(lca@, left@, right@));
        }
        r
    }
}

impl Mergeable<MrdtSet> for MrdtSet {
    open spec fn well_formed(v: &MrdtSet) -> bool {
        v.wf()
    }

    fn merge(lca: &MrdtSet, left: &MrdtSet, right: &MrdtSet) -> (r: MrdtSet) {
        MrdtSet::merge(lca, left, right)
    }
}

/// The merge keeps what both sides kept of the ancestor and adds what
/// either side added: the result is `(L ∩ A ∩ B) ∪ (A \ L) ∪ (B \ L)`.
pub proof fn lemma_merge_law(lca: Set<u64>, left: Set<u64>, right: Set<u64>, x: u64)
    ensures
        three_way(lca, left, right).contains(x) <==> (lca.contains(x) && left.contains(x)
            && right.contains(x)) || (left.contains(x) && !lca.contains(x)) || (right.contains(x)
            && !lca.contains(x)),
{
}

/// The merge does not depend on which side is left and which is right,
/// and a side that only added to the ancestor, merged with itself, is
/// itself.
pub proof fn lemma_merge_converges(lca: Set<u64>, left: Set<u64>, right: Set<u64>, x: Set<u64>)
    requires
        lca.subset_of(x),
    ensures
        three_way(lca, left, right) == three_way(lca, right, left),
        three_way(lca, x, x) == x,
{
    assert(three_way(lca, left, right) =~= three_way(lca, right, left));
    assert(three_way(lca, x, x) =~= x);
}

} // verus!
