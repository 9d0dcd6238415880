use vstd::prelude::*;

use crate::ord::{lemma_no_dup_remove, merged_order, MrdtOrd};
use crate::set::{three_way, MrdtSet};
use crate::Mergeable;

verus! {

/// The three-way merge of sequences: the members by the set merge, their
/// order by the merge of orders.
pub open spec fn list_merge(lca: Seq<u64>, left: Seq<u64>, right: Seq<u64>) -> Seq<u64> {
    merged_order(lca, left, right, three_way(lca.to_set(), left.to_set(), right.to_set()))
}

/// A sequence of distinct items: the set of its members and their order.
#[derive(Clone, Debug, PartialEq, Eq, Hash, Default)]
pub struct MrdtList {
    mem: MrdtSet,
    ord: MrdtOrd,
}

impl View for MrdtList {
    type V = Seq<u64>;

    closed spec fn view(&self) -> Seq<u64> {
        self.ord@
    }
}

impl MrdtList {
    /// The members are exactly the items of the order.
    pub closed spec fn wf(&self) -> bool {
        &&& self.mem.wf()
        &&& self.ord.wf()
        &&& self.ord@.to_set() == self.mem@
    }

    pub proof fn lemma_wf(&self)
        requires
            self.wf(),
        ensures
            self@.no_duplicates(),
    {
        self.ord.lemma_wf();
    }

    pub fn new() -> (r: MrdtList)
        ensures
            r.wf(),
            r@ == Seq::<u64>::empty(),
    {
        let r = MrdtList { mem: MrdtSet::new(), ord: MrdtOrd::new() };
        proof {
            assert(r.ord@.to_set() =~= r.mem@);
        }
        r
    }

    pub fn len(&self) -> (n: usize)
        ensures
            n == self@.len(),
    {
        self.ord.len()
    }

    pub fn is_empty(&self) -> (b: bool)
        ensures
            b == (self@.len() == 0),
    {
        self.ord.is_empty()
    }

    /// The items in order.
    pub fn iter(&self) -> (v: Vec<u64>)
        ensures
            v@ == self@,
    {
        self.ord.iter()
    }

    pub fn contains(&self, value: &u64) -> (b: bool)
        requires
            self.wf(),
        ensures
            b == self@.contains(*value),
    {
        self.mem.contains(value)
    }

    pub fn index_of(&self, value: &u64) -> (r: Option<usize>)
        requires
            self.wf(),
        ensures
            match r {
                Some(i) => i < self@.len() && self@[i as int] == *value,
                None => !self@.contains(*value),
            },
    {
        self.ord.index_of(value)
    }

    /// Inserts `value`, which is not in the list, at `ix`.
    pub fn insert(&mut self, ix: usize, value: u64)
        requires
            old(self).wf(),
            ix <= old(self)@.len(),
            !old(self)@.contains(value),
        ensures
            final(self).wf(),
            final(self)@ == old(self)@.insert(ix as int, value),
    {
        let ghost s0 = self.ord@;
        self.mem.insert(value);
        self.ord.insert(ix, value);
        proof {
            let s1 = s0.insert(ix as int, value);
            assert forall|x: u64| s1.contains(x) <==> s0.contains(x) || x == value by {
                if s1.contains(x) {
                    let k = choose|k: int| 0 <= k < s1.len() && s1[k] == x;
                    if k < ix {
                        assert(s0[k] == x);
                    } else if k > ix {
                        assert(s0[k - 1] == x);
                    }
                }
                if s0.contains(x) {
                    let k = choose|k: int| 0 <= k < s0.len() && s0[k] == x;
                    if k < ix {
                        assert(s1[k] == x);
                    } else {
                        assert(s1[k + 1] == x);
                    }
                }
                if x == value {
                    assert(s1[ix as int] == x);
                }
            }
            assert(self.ord@.to_set() =~= self.mem@);
        }
    }

    /// Appends `value`, which is not in the list.
    pub fn add(&mut self, value: u64)
        requires
            old(self).wf(),
            !old(self)@.contains(value),
        ensures
            final(self).wf(),
            final(self)@ == old(self)@.push(value),
    {
        let n = self.len();
        self.insert(n, value);
        proof {
            assert(old(self)@.insert(n as int, value) =~= old(self)@.push(value));
        }
    }

    /// Removes the item at `ix`, if there is one, and returns it.
    pub fn remove_at(&mut self, ix: usize) -> (r: Option<u64>)
        requires
            old(self).wf(),
        ensures
            final(self).wf(),
            ix < old(self)@.len() ==> r == Some(old(self)@[ix as int]) && final(self)@ == old(
                self,
            )@.remove(ix as int),
            ix >= old(self)@.len() ==> r.is_none() && final(self)@ == old(self)@,
    {
        let ghost s0 = self.ord@;
        proof {
            self.ord.lemma_wf();
        }
        let r = self.ord.remove_at(ix);
        match r {
            Some(v) => {
                self.mem.remove(&v);
                proof {
                    self.ord.lemma_wf();
                    lemma_no_dup_remove(s0, ix as int);
                    assert(self.ord@.to_set() =~= self.mem@);
                }
            },
            None => {},
        }
        r
    }

    /// The list of the given items, if they are distinct.
    pub fn from_items(items: &Vec<u64>) -> (r: Option<MrdtList>)
        ensures
            match r {
                Some(l) => l.wf() && l@ == items@,
                None => !items@.no_duplicates(),
            },
    {
        let mem = MrdtSet::from_vec(items.clone());
        let n = mem.len();
        proof {
            mem.lemma_wf_items();
        }
        if n != items.len() {
            proof {
                if items@.no_duplicates() {
                    items@.unique_seq_to_set();
                }
            }
            return None;
        }
        proof {
            items@.lemma_no_dup_set_cardinality();
        }
        let ord = MrdtOrd::from_distinct(items.clone());
        Some(MrdtList { mem, ord })
    }

    /// Three-way merge of lists.
    pub fn merge(lca: &MrdtList, left: &MrdtList, right: &MrdtList) -> (r: MrdtList)
        requires
            lca.wf(),
            left.wf(),
            right.wf(),
        ensures
            r.wf(),
            r@ == list_merge(lca@, left@, right@),
    {
        let mem = MrdtSet::merge(&lca.mem, &left.mem, &right.mem);
        let ord = MrdtOrd::merge(&lca.ord, &left.ord, &right.ord, &mem);
        MrdtList { mem, ord }
    }
}

impl Mergeable<MrdtList> for MrdtList {
    open spec fn well_formed(v: &MrdtList) -> bool {
        v.wf()
    }

    fn merge(lca: &MrdtList, left: &MrdtList, right: &MrdtList) -> (r: MrdtList) {
        MrdtList::merge(lca, left, right)
    }
}

} // verus!
