use vstd::prelude::*;

use crate::id::{Id, Timestamp};

verus! {

broadcast use vstd::seq_lib::group_seq_properties;

/// The time that a clock holds for `id`; a missing key counts as zero.
pub open spec fn time_in(c: Map<Id, Timestamp>, id: Id) -> nat {
    if c.contains_key(id) {
        c[id].0 as nat
    } else {
        0
    }
}

/// Pointwise maximum over the ids of either clock.
pub open spec fn clock_merge(a: Map<Id, Timestamp>, b: Map<Id, Timestamp>) -> Map<Id, Timestamp> {
    Map::new(
        |id: Id| a.contains_key(id) || b.contains_key(id),
        |id: Id|
            if !b.contains_key(id) || (a.contains_key(id) && a[id].0 >= b[id].0) {
                a[id]
            } else {
                b[id]
            },
    )
}

/// Pointwise minimum over the ids of both clocks.
pub open spec fn clock_lca(a: Map<Id, Timestamp>, b: Map<Id, Timestamp>) -> Map<Id, Timestamp> {
    Map::new(
        |id: Id| a.contains_key(id) && b.contains_key(id),
        |id: Id|
            if a[id].0 <= b[id].0 {
                a[id]
            } else {
                b[id]
            },
    )
}

/// The map of a list of entries, a later entry for an id replacing an
/// earlier one.
pub open spec fn entries_map(s: Seq<(Id, Timestamp)>) -> Map<Id, Timestamp>
    decreases s.len(),
{
    if s.len() == 0 {
        Map::empty()
    } else {
        entries_map(s.drop_last()).insert(s.last().0, s.last().1)
    }
}

pub open spec fn keys_ascending(s: Seq<(Id, Timestamp)>) -> bool {
    forall|i: int, j: int| 0 <= i < j < s.len() ==> s[i].0.0 < s[j].0.0
}

pub open spec fn view_of(s: Seq<(Id, Timestamp)>) -> Map<Id, Timestamp> {
    Map::new(
        |id: Id| exists|i: int| 0 <= i < s.len() && #[trigger] s[i].0 == id,
        |id: Id| s[choose|i: int| 0 <= i < s.len() && #[trigger] s[i].0 == id].1,
    )
}

proof fn lemma_lookup(s: Seq<(Id, Timestamp)>, i: int)
    requires
        keys_ascending(s),
        0 <= i < s.len(),
    ensures
        view_of(s).contains_key(s[i].0),
        view_of(s)[s[i].0] == s[i].1,
{
    let id = s[i].0;
    assert(exists|k: int| 0 <= k < s.len() && #[trigger] s[k].0 == id);
    let k = choose|k: int| 0 <= k < s.len() && #[trigger] s[k].0 == id;
    if k < i {
        assert(s[k].0.0 < s[i].0.0);
    }
    if k > i {
        assert(s[i].0.0 < s[k].0.0);
    }
}

/// Each replica's id with the number of its events that a version includes.
#[derive(Clone, Debug, PartialEq, Eq, Hash, Default)]
pub struct VectorClock {
    entries: Vec<(Id, Timestamp)>,
}

impl View for VectorClock {
    type V = Map<Id, Timestamp>;

    closed spec fn view(&self) -> Map<Id, Timestamp> {
        view_of(self.entries@)
    }
}

impl VectorClock {
    /// The entries are held ascending by id, so that equal clocks are equal
    /// values.
    pub closed spec fn wf(&self) -> bool {
        keys_ascending(self.entries@)
    }

    pub proof fn lemma_view_of_entries(&self)
        ensures
            self@ == view_of(self.spec_entries()),
            self.wf() == keys_ascending(self.spec_entries()),
    {
    }

    /// The entries, ascending by id.
    pub closed spec fn spec_entries(&self) -> Seq<(Id, Timestamp)> {
        self.entries@
    }


    pub fn new() -> (r: VectorClock)
        ensures
            r.wf(),
            r@ == Map::<Id, Timestamp>::empty(),
    {
        let r = VectorClock { entries: Vec::new() };
        proof {
            assert(r@ =~= Map::<Id, Timestamp>::empty());
        }
        r
    }

    /// Where `id` stands, or where it would be inserted.
    fn find(&self, id: Id) -> (r: Result<usize, usize>)
        requires
            self.wf(),
        ensures
            match r {
                Ok(i) => i < self.entries@.len() && self.entries@[i as int].0 == id,
                Err(p) => p <= self.entries@.len() && (forall|k: int|
                    0 <= k < p ==> self.entries@[k].0.0 < id.0) && (forall|k: int|
                    p <= k < self.entries@.len() ==> self.entries@[k].0.0 > id.0),
            },
    {
        let mut i: usize = 0;
        while i < self.entries.len() && self.entries[i].0.0 < id.0
            invariant
                i <= self.entries@.len(),
                forall|k: int| 0 <= k < i ==> self.entries@[k].0.0 < id.0,
            decreases self.entries@.len() - i,
        {
            i += 1;
        }
        if i < self.entries.len() && self.entries[i].0.0 == id.0 {
            Ok(i)
        } else {
            proof {
                assert forall|k: int| i <= k < self.entries@.len() implies self.entries@[k].0.0 > id.0 by {
                    if k > i {
                        assert(self.entries@[i as int].0.0 < self.entries@[k].0.0);
                    }
                }
            }
            Err(i)
        }
    }

    /// The time of `id`, if the clock holds one.
    pub fn time_of(&self, id: Id) -> (r: Option<Timestamp>)
        requires
            self.wf(),
        ensures
            r == (if self@.contains_key(id) {
                Some(self@[id])
            } else {
                None
            }),
    {
        match self.find(id) {
            Ok(i) => {
                proof {
                    lemma_lookup(self.entries@, i as int);
                }
                Some(self.entries[i].1)
            },
            Err(p) => {
                proof {
                    if self@.contains_key(id) {
                        let k = choose|k: int| 0 <= k < self.entries@.len() && #[trigger] self.entries@[k].0 == id;
                    }
                }
                None
            },
        }
    }

    /// Sets the time of `id` to `t`.
    fn set_time(&mut self, id: Id, t: Timestamp)
        requires
            old(self).wf(),
        ensures
            final(self).wf(),
            final(self)@ == old(self)@.insert(id, t),
            final(self).entries@.len() == old(self).entries@.len() + (if old(self)@.contains_key(id) { 0int } else { 1int }),
    {
        let ghost s0 = self.entries@;
        match self.find(id) {
            Ok(i) => {
                self.entries.set(i, (id, t));
                proof {
                    let s1 = self.entries@;
                    assert(keys_ascending(s1)) by {
                        assert forall|a: int, b: int| 0 <= a < b < s1.len() implies s1[a].0.0 < s1[b].0.0 by {
                            assert(s0[a].0.0 < s0[b].0.0);
                        }
                    }
                    lemma_lookup(s0, i as int);
                    assert forall|k: Id| #[trigger] view_of(s1).contains_key(k) <==> view_of(s0).insert(id, t).contains_key(k) by {
                        if view_of(s0).contains_key(k) {
                            let a = choose|a: int| 0 <= a < s0.len() && #[trigger] s0[a].0 == k;
                            assert(s1[a].0 == k);
                        }
                        if view_of(s1).contains_key(k) {
                            let a = choose|a: int| 0 <= a < s1.len() && #[trigger] s1[a].0 == k;
                            assert(s0[a].0 == k);
                        }
                    }
                    assert forall|k: Id| #[trigger] view_of(s1).contains_key(k) implies view_of(s1)[k] == view_of(s0).insert(id, t)[k] by {
                        let a = choose|a: int| 0 <= a < s1.len() && #[trigger] s1[a].0 == k;
                        lemma_lookup(s1, a);
                        if a != i {
                            lemma_lookup(s0, a);
                        }
                    }
                    assert(view_of(s1) =~= view_of(s0).insert(id, t));
                }
            },
            Err(p) => {
                self.entries.insert(p, (id, t));
                proof {
                    let s1 = self.entries@;
                    assert(s1 =~= s0.insert(p as int, (id, t)));
                    assert(keys_ascending(s1)) by {
                        assert forall|a: int, b: int| 0 <= a < b < s1.len() implies s1[a].0.0 < s1[b].0.0 by {
                            if a < p && b < p {
                                assert(s0[a].0.0 < s0[b].0.0);
                            } else if a < p && b > p {
                                assert(s0[a].0.0 < s0[b - 1].0.0);
                            } else if a > p {
                                assert(s0[a - 1].0.0 < s0[b - 1].0.0);
                            }
                        }
                    }
                    assert(!view_of(s0).contains_key(id)) by {
                        if view_of(s0).contains_key(id) {
                            let a = choose|a: int| 0 <= a < s0.len() && #[trigger] s0[a].0 == id;
                        }
                    }
                    assert forall|k: Id| #[trigger] view_of(s1).contains_key(k) <==> view_of(s0).insert(id, t).contains_key(k) by {
                        if view_of(s0).contains_key(k) {
                            let a = choose|a: int| 0 <= a < s0.len() && #[trigger] s0[a].0 == k;
                            if a < p {
                                assert(s1[a].0 == k);
                            } else {
                                assert(s1[a + 1].0 == k);
                            }
                        }
                        if k == id {
                            assert(s1[p as int].0 == k);
                        }
                        if view_of(s1).contains_key(k) {
                            let a = choose|a: int| 0 <= a < s1.len() && #[trigger] s1[a].0 == k;
                            if a < p {
                                assert(s0[a].0 == k);
                            } else if a > p {
                                assert(s0[a - 1].0 == k);
                            }
                        }
                    }
                    assert forall|k: Id| #[trigger] view_of(s1).contains_key(k) implies view_of(s1)[k] == view_of(s0).insert(id, t)[k] by {
                        let a = choose|a: int| 0 <= a < s1.len() && #[trigger] s1[a].0 == k;
                        lemma_lookup(s1, a);
                        if a < p {
                            lemma_lookup(s0, a);
                        } else if a > p {
                            lemma_lookup(s0, a - 1);
                        }
                    }
                    assert(view_of(s1) =~= view_of(s0).insert(id, t));
                }
            },
        }
    }

    /// Advances the time of `id` by one; a missing id starts from zero.
    pub fn inc(&mut self, id: Id)
        requires
            old(self).wf(),
            time_in(old(self)@, id) < u32::MAX,
        ensures
            final(self).wf(),
            final(self)@ == old(self)@.insert(id, Timestamp((time_in(old(self)@, id) + 1) as u32)),
    {
        let t = match self.time_of(id) {
            Some(t) => t,
            None => Timestamp::zero(),
        };
        self.set_time(id, t.inc());
    }

    /// The pointwise maximum of two clocks.
    pub fn merge(left: &VectorClock, right: &VectorClock) -> (r: VectorClock)
        requires
            left.wf(),
            right.wf(),
        ensures
            r.wf(),
            r@ == clock_merge(left@, right@),
    {
        let ghost m = clock_merge(left@, right@);
        let mut r = VectorClock::new();
        let mut i: usize = 0;
        while i < left.entries.len()
            invariant
                left.wf(),
                right.wf(),
                r.wf(),
                m == clock_merge(left@, right@),
                i <= left.entries@.len(),
                forall|k: Id| #[trigger] r@.contains_key(k) <==> exists|j: int| 0 <= j < i && #[trigger] left.entries@[j].0 == k,
                forall|k: Id| #[trigger] r@.contains_key(k) ==> r@[k] == m[k],
            decreases left.entries@.len() - i,
        {
            let (id, t) = left.entries[i];
            proof {
                lemma_lookup(left.entries@, i as int);
            }
            let t2 = match right.time_of(id) {
                Some(u) => if u.0 > t.0 { u } else { t },
                None => t,
            };
            let ghost r0 = r@;
            r.set_time(id, t2);
            proof {
                assert forall|k: Id| #[trigger] r@.contains_key(k) <==> exists|j: int| 0 <= j < i + 1 && #[trigger] left.entries@[j].0 == k by {
                    if k == id {
                        assert(left.entries@[i as int].0 == k);
                    }
                    if exists|j: int| 0 <= j < i + 1 && #[trigger] left.entries@[j].0 == k {
                        let j = choose|j: int| 0 <= j < i + 1 && #[trigger] left.entries@[j].0 == k;
                        if j < i {
                            assert(r0.contains_key(k));
                        }
                    }
                }
            }
            i += 1;
        }
        let mut j: usize = 0;
        while j < right.entries.len()
            invariant
                left.wf(),
                right.wf(),
                r.wf(),
                m == clock_merge(left@, right@),
                j <= right.entries@.len(),
                forall|k: Id| #[trigger] r@.contains_key(k) <==> left@.contains_key(k) || exists|a: int| 0 <= a < j && #[trigger] right.entries@[a].0 == k,
                forall|k: Id| #[trigger] r@.contains_key(k) ==> r@[k] == m[k],
            decreases right.entries@.len() - j,
        {
            let (id, t) = right.entries[j];
            proof {
                lemma_lookup(right.entries@, j as int);
            }
            let ghost r0 = r@;
            if left.time_of(id).is_none() {
                r.set_time(id, t);
            }
            proof {
                assert forall|k: Id| #[trigger] r@.contains_key(k) <==> left@.contains_key(k) || exists|a: int| 0 <= a < j + 1 && #[trigger] right.entries@[a].0 == k by {
                    if k == id {
                        assert(right.entries@[j as int].0 == k);
                    }
                    if exists|a: int| 0 <= a < j + 1 && #[trigger] right.entries@[a].0 == k {
                        let a = choose|a: int| 0 <= a < j + 1 && #[trigger] right.entries@[a].0 == k;
                        if a < j {
                            assert(r0.contains_key(k));
                        }
                    }
                }
            }
            j += 1;
        }
        proof {
            assert forall|k: Id| #[trigger] r@.contains_key(k) <==> m.contains_key(k) by {
                if right@.contains_key(k) {
                    let a = choose|a: int| 0 <= a < right.entries@.len() && #[trigger] right.entries@[a].0 == k;
                }
            }
            assert(r@ =~= m);
        }
        r
    }

    /// The pointwise minimum of two clocks, over the ids that both hold.
    pub fn lca(left: &VectorClock, right: &VectorClock) -> (r: VectorClock)
        requires
            left.wf(),
            right.wf(),
        ensures
            r.wf(),
            r@ == clock_lca(left@, right@),
    {
        let ghost m = clock_lca(left@, right@);
        let mut r = VectorClock::new();
        let mut i: usize = 0;
        while i < left.entries.len()
            invariant
                left.wf(),
                right.wf(),
                r.wf(),
                m == clock_lca(left@, right@),
                i <= left.entries@.len(),
                forall|k: Id| #[trigger] r@.contains_key(k) <==> right@.contains_key(k) && exists|j: int| 0 <= j < i && #[trigger] left.entries@[j].0 == k,
                forall|k: Id| #[trigger] r@.contains_key(k) ==> r@[k] == m[k],
            decreases left.entries@.len() - i,
        {
            let (id, t) = left.entries[i];
            proof {
                lemma_lookup(left.entries@, i as int);
            }
            let ghost r0 = r@;
            match right.time_of(id) {
                Some(u) => {
                    let t2 = if u.0 < t.0 { u } else { t };
                    r.set_time(id, t2);
                },
                None => {},
            }
            proof {
                assert forall|k: Id| #[trigger] r@.contains_key(k) <==> right@.contains_key(k) && exists|j: int| 0 <= j < i + 1 && #[trigger] left.entries@[j].0 == k by {
                    if k == id {
                        assert(left.entries@[i as int].0 == k);
                    }
                    if exists|j: int| 0 <= j < i + 1 && #[trigger] left.entries@[j].0 == k {
                        let j = choose|j: int| 0 <= j < i + 1 && #[trigger] left.entries@[j].0 == k;
                        if j < i && right@.contains_key(k) {
                            assert(r0.contains_key(k));
                        }
                    }
                }
            }
            i += 1;
        }
        proof {
            assert forall|k: Id| #[trigger] r@.contains_key(k) <==> m.contains_key(k) by {
                if left@.contains_key(k) {
                    let a = choose|a: int| 0 <= a < left.entries@.len() && #[trigger] left.entries@[a].0 == k;
                }
            }
            assert(r@ =~= m);
        }
        r
    }

    /// The clock of a list of entries; a later entry for an id replaces an
    /// earlier one.
    pub fn from_entries(entries: &[(Id, Timestamp)]) -> (r: VectorClock)
        ensures
            r.wf(),
            r@ == entries_map(entries@),
    {
        let mut r = VectorClock::new();
        let mut i: usize = 0;
        while i < entries.len()
            invariant
                r.wf(),
                i <= entries@.len(),
                r@ == entries_map(entries@.subrange(0, i as int)),
            decreases entries@.len() - i,
        {
            let (id, t) = entries[i];
            r.set_time(id, t);
            proof {
                assert(entries@.subrange(0, i + 1).drop_last() =~= entries@.subrange(0, i as int));
            }
            i += 1;
        }
        proof {
            assert(entries@.subrange(0, i as int) =~= entries@);
        }
        r
    }

    /// A copy of the clock.
    pub fn duplicate(&self) -> (r: VectorClock)
        ensures
            r.spec_entries() == self.spec_entries(),
            r@ == self@,
            r.wf() == self.wf(),
    {
        let mut entries: Vec<(Id, Timestamp)> = Vec::new();
        let mut i: usize = 0;
        while i < self.entries.len()
            invariant
                i <= self.entries@.len(),
                entries@ == self.entries@.subrange(0, i as int),
            decreases self.entries@.len() - i,
        {
            entries.push(self.entries[i]);
            proof {
                assert(self.entries@.subrange(0, i + 1) =~= self.entries@.subrange(0, i as int).push(self.entries@[i as int]));
            }
            i += 1;
        }
        proof {
            assert(self.entries@.subrange(0, i as int) =~= self.entries@);
        }
        VectorClock { entries }
    }

    /// Whether two clocks hold the same entries.
    pub fn same_entries(&self, other: &VectorClock) -> (b: bool)
        ensures
            b == (self.spec_entries() == other.spec_entries()),
    {
        if self.entries.len() != other.entries.len() {
            return false;
        }
        let mut i: usize = 0;
        while i < self.entries.len()
            invariant
                self.entries@.len() == other.entries@.len(),
                i <= self.entries@.len(),
                forall|k: int| 0 <= k < i ==> self.entries@[k] == other.entries@[k],
            decreases self.entries@.len() - i,
        {
            let (a, x) = self.entries[i];
            let (b, y) = other.entries[i];
            if a.0 != b.0 || x.0 != y.0 {
                return false;
            }
            i += 1;
        }
        proof {
            assert(self.entries@ =~= other.entries@);
        }
        true
    }

    /// The entries, ascending by id.
    pub fn entries(&self) -> (r: Vec<(Id, Timestamp)>)
        ensures
            r@ == self.spec_entries(),
            keys_ascending(r@) == self.wf(),
            view_of(r@) == self@,
    {
        self.duplicate().entries
    }

    /// The number of ids that the clock holds.
    pub fn len(&self) -> (n: usize)
        requires
            self.wf(),
        ensures
            n == self@.dom().len(),
    {
        proof {
            self.lemma_len();
        }
        self.entries.len()
    }

    pub fn is_empty(&self) -> (b: bool)
        requires
            self.wf(),
        ensures
            b == (self@.dom().len() == 0),
    {
        proof {
            self.lemma_len();
        }
        self.entries.len() == 0
    }

    proof fn lemma_len(&self)
        requires
            self.wf(),
        ensures
            self@.dom().len() == self.entries@.len(),
            self@.dom().finite(),
    {
        let s = self.entries@;
        let keys = s.map_values(|e: (Id, Timestamp)| e.0);
        assert forall|a: int, b: int| 0 <= a < keys.len() && 0 <= b < keys.len() && a != b implies keys[a] != keys[b] by {
            if a < b {
                assert(s[a].0.0 < s[b].0.0);
            } else {
                assert(s[b].0.0 < s[a].0.0);
            }
        }
        keys.unique_seq_to_set();
        assert forall|k: Id| self@.dom().contains(k) <==> keys.to_set().contains(k) by {
            if self@.dom().contains(k) {
                let a = choose|a: int| 0 <= a < s.len() && #[trigger] s[a].0 == k;
                assert(keys[a] == k);
            }
            if keys.to_set().contains(k) {
                let a = choose|a: int| 0 <= a < keys.len() && keys[a] == k;
                assert(s[a].0 == k);
            }
        }
        assert(self@.dom() =~= keys.to_set());
    }

    /// The sum of the timestamps.
    pub fn sum(&self) -> (r: Timestamp)
        requires
            self.wf(),
            clock_total(self@) <= u32::MAX,
        ensures
            r.0 == clock_total(self@),
    {
        proof {
            lemma_total(self.entries@);
        }
        let mut acc: u32 = 0;
        let mut i: usize = 0;
        while i < self.entries.len()
            invariant
                i <= self.entries@.len(),
                acc == seq_total(self.entries@.subrange(0, i as int)),
                seq_total(self.entries@) <= u32::MAX,
            decreases self.entries@.len() - i,
        {
            proof {
                assert(self.entries@.subrange(0, i + 1).drop_last() =~= self.entries@.subrange(0, i as int));
                lemma_total_prefix(self.entries@, i + 1);
            }
            acc = acc + self.entries[i].1.0;
            i += 1;
        }
        proof {
            assert(self.entries@.subrange(0, i as int) =~= self.entries@);
        }
        Timestamp(acc)
    }
}

pub open spec fn seq_total(s: Seq<(Id, Timestamp)>) -> nat
    decreases s.len(),
{
    if s.len() == 0 {
        0
    } else {
        seq_total(s.drop_last()) + s.last().1.0 as nat
    }
}

proof fn lemma_total_prefix(s: Seq<(Id, Timestamp)>, i: int)
    requires
        0 <= i <= s.len(),
    ensures
        seq_total(s.subrange(0, i)) <= seq_total(s),
    decreases s.len() - i,
{
    if i < s.len() {
        lemma_total_prefix(s, i + 1);
        assert(s.subrange(0, i + 1).drop_last() =~= s.subrange(0, i));
    } else {
        assert(s.subrange(0, i) =~= s);
    }
}

/// Merging clocks is idempotent, commutative and associative.
pub proof fn lemma_merge_lattice(a: Map<Id, Timestamp>, b: Map<Id, Timestamp>, c: Map<Id, Timestamp>)
    ensures
        clock_merge(a, a) == a,
        clock_merge(a, b) == clock_merge(b, a),
        clock_merge(clock_merge(a, b), c) == clock_merge(a, clock_merge(b, c)),
{
    assert(clock_merge(a, a) =~= a);
    assert(clock_merge(a, b) =~= clock_merge(b, a));
    assert(clock_merge(clock_merge(a, b), c) =~= clock_merge(a, clock_merge(b, c)));
}

/// The common ancestor of clocks is idempotent, commutative and associative.
pub proof fn lemma_lca_lattice(a: Map<Id, Timestamp>, b: Map<Id, Timestamp>, c: Map<Id, Timestamp>)
    ensures
        clock_lca(a, a) == a,
        clock_lca(a, b) == clock_lca(b, a),
        clock_lca(clock_lca(a, b), c) == clock_lca(a, clock_lca(b, c)),
{
    assert(clock_lca(a, a) =~= a);
    assert(clock_lca(a, b) =~= clock_lca(b, a));
    assert(clock_lca(clock_lca(a, b), c) =~= clock_lca(a, clock_lca(b, c)));
}

/// The common ancestor of a clock and its merge with another is the clock.
pub proof fn lemma_absorption(a: Map<Id, Timestamp>, b: Map<Id, Timestamp>)
    ensures
        clock_lca(a, clock_merge(a, b)) == a,
{
    assert(clock_lca(a, clock_merge(a, b)) =~= a);
}


/// Clocks with the same entries are the same clock.
pub proof fn lemma_canonical(a: VectorClock, b: VectorClock)
    requires
        a.spec_entries() == b.spec_entries(),
    ensures
        a@ == b@,
        a.wf() == b.wf(),
{
    a.lemma_view_of_entries();
    b.lemma_view_of_entries();
}


/// The (id, time) pairs of a clock.
pub open spec fn clock_pairs(m: Map<Id, Timestamp>) -> Set<(Id, Timestamp)> {
    Set::new(|p: (Id, Timestamp)| m.contains_key(p.0) && m[p.0] == p.1)
}

pub open spec fn add_time(acc: nat, p: (Id, Timestamp)) -> nat {
    acc + p.1.0 as nat
}

/// The sum of the times that a clock holds.
pub open spec fn clock_total(m: Map<Id, Timestamp>) -> nat {
    clock_pairs(m).fold(0nat, |acc: nat, p: (Id, Timestamp)| add_time(acc, p))
}

proof fn lemma_view_drop_last(s: Seq<(Id, Timestamp)>)
    requires
        keys_ascending(s),
        s.len() > 0,
    ensures
        view_of(s) == view_of(s.drop_last()).insert(s.last().0, s.last().1),
        !view_of(s.drop_last()).contains_key(s.last().0),
{
    let t = s.drop_last();
    let n = s.len() - 1;
    assert(keys_ascending(t));
    lemma_lookup(s, n);
    assert forall|k: Id| #[trigger] view_of(s).contains_key(k) <==> view_of(t).insert(s.last().0, s.last().1).contains_key(k) by {
        if view_of(t).contains_key(k) {
            let a = choose|a: int| 0 <= a < t.len() && #[trigger] t[a].0 == k;
            assert(s[a].0 == k);
        }
        if view_of(s).contains_key(k) && k != s.last().0 {
            let a = choose|a: int| 0 <= a < s.len() && #[trigger] s[a].0 == k;
            assert(t[a].0 == k);
        }
    }
    assert forall|k: Id| #[trigger] view_of(s).contains_key(k) implies view_of(s)[k] == view_of(t).insert(s.last().0, s.last().1)[k] by {
        let a = choose|a: int| 0 <= a < s.len() && #[trigger] s[a].0 == k;
        lemma_lookup(s, a);
        if a < n {
            lemma_lookup(t, a);
        }
    }
    assert(view_of(s) =~= view_of(t).insert(s.last().0, s.last().1));
    if view_of(t).contains_key(s.last().0) {
        let a = choose|a: int| 0 <= a < t.len() && #[trigger] t[a].0 == s.last().0;
        assert(s[a].0.0 < s[n].0.0);
    }
}

/// The sum of the entries is the total of the clock.
proof fn lemma_total(s: Seq<(Id, Timestamp)>)
    requires
        keys_ascending(s),
    ensures
        seq_total(s) == clock_total(view_of(s)),
        clock_pairs(view_of(s)).finite(),
    decreases s.len(),
{
    let f = |acc: nat, p: (Id, Timestamp)| add_time(acc, p);
    assert(vstd::set::fold::is_fun_commutative(f));
    if s.len() == 0 {
        assert(clock_pairs(view_of(s)) =~= Set::empty());
        vstd::set::fold::lemma_fold_empty(0nat, f);
    } else {
        let t = s.drop_last();
        let e = s.last();
        assert(keys_ascending(t));
        lemma_total(t);
        lemma_view_drop_last(s);
        assert(clock_pairs(view_of(s)) =~= clock_pairs(view_of(t)).insert(e));
        assert(!clock_pairs(view_of(t)).contains(e));
        vstd::set::fold::lemma_fold_insert(clock_pairs(view_of(t)), 0nat, f, e);
    }
}

/// Clocks held in order are equal exactly when their maps are.
pub proof fn lemma_entries_canonical(a: VectorClock, b: VectorClock)
    requires
        a.wf(),
        b.wf(),
        a@ == b@,
    ensures
        a.spec_entries() == b.spec_entries(),
{
    a.lemma_view_of_entries();
    b.lemma_view_of_entries();
    let s1 = a.spec_entries();
    let s2 = b.spec_entries();
    lemma_seq_len(s1);
    lemma_seq_len(s2);
    assert(view_of(s1).dom() == view_of(s2).dom());
    assert forall|i: int| 0 <= i < s1.len() implies s1[i] == s2[i] by {
        lemma_entry_at(s1, s2, i);
    }
    assert(s1 =~= s2);
}

proof fn lemma_seq_len(s: Seq<(Id, Timestamp)>)
    requires
        keys_ascending(s),
    ensures
        view_of(s).dom().len() == s.len(),
        view_of(s).dom().finite(),
{
    let keys = s.map_values(|e: (Id, Timestamp)| e.0);
    assert forall|a: int, b: int| 0 <= a < keys.len() && 0 <= b < keys.len() && a != b implies keys[a] != keys[b] by {
        if a < b {
            assert(s[a].0.0 < s[b].0.0);
        } else {
            assert(s[b].0.0 < s[a].0.0);
        }
    }
    keys.unique_seq_to_set();
    assert forall|k: Id| view_of(s).dom().contains(k) <==> keys.to_set().contains(k) by {
        if view_of(s).dom().contains(k) {
            let a = choose|a: int| 0 <= a < s.len() && #[trigger] s[a].0 == k;
            assert(keys[a] == k);
        }
        if keys.to_set().contains(k) {
            let a = choose|a: int| 0 <= a < keys.len() && keys[a] == k;
            assert(s[a].0 == k);
        }
    }
    assert(view_of(s).dom() =~= keys.to_set());
}

proof fn lemma_entry_at(s1: Seq<(Id, Timestamp)>, s2: Seq<(Id, Timestamp)>, i: int)
    requires
        keys_ascending(s1),
        keys_ascending(s2),
        view_of(s1) == view_of(s2),
        s1.len() == s2.len(),
        0 <= i < s1.len(),
    ensures
        s1[i] == s2[i],
    decreases i,
{
    if i > 0 {
        lemma_entry_at(s1, s2, i - 1);
    }
    lemma_lookup(s1, i);
    lemma_lookup(s2, i);
    let k = choose|k: int| 0 <= k < s2.len() && #[trigger] s2[k].0 == s1[i].0;
    let j = choose|j: int| 0 <= j < s1.len() && #[trigger] s1[j].0 == s2[i].0;
    if k < i {
        lemma_entry_at(s1, s2, k);
        assert(s1[k].0.0 < s1[i].0.0);
    }
    if j < i {
        lemma_entry_at(s1, s2, j);
        assert(s2[j].0.0 < s2[i].0.0);
    }
    if k > i {
        assert(s2[i].0.0 < s2[k].0.0);
        if j > i {
            assert(s1[i].0.0 < s1[j].0.0);
        }
    }
    lemma_lookup(s2, k);
}

} // verus!
