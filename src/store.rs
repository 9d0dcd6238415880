use std::collections::HashMap;

use vstd::prelude::*;

use crate::id::{Id, Timestamp};
use crate::refs::{chain_refs, digest_words, is_chain, same_commit, word_digest, Commit, Ref, TableCounts};
use crate::vector_clock::VectorClock;

verus! {

broadcast use {vstd::seq_lib::group_seq_properties, vstd::std_specs::hash::group_hash_axioms};

/// Why a store operation failed.
#[derive(Clone, Copy, Debug, PartialEq, Eq, Structural)]
pub enum StoreError {
    /// A referenced commit, object, ref or replica head is missing.
    NotFound,
    /// The data breaks what the store relies on: an empty structure, a
    /// cycle of refs, or an identifier already taken.
    Invariant,
}

/// The object ref of an item: the digest of its value.
pub open spec fn object_ref_of(item: u64) -> u64 {
    word_digest(seq![item])
}

/// The object ref of an item.
pub fn object_ref(item: u64) -> (r: u64)
    ensures
        r == object_ref_of(item),
{
    let words: Vec<u64> = vec![item];
    proof {
        assert(words@ =~= seq![item]);
    }
    digest_words(words.as_slice())
}

/// The object refs of a sequence of items.
pub open spec fn object_refs(items: Seq<u64>) -> Seq<u64> {
    items.map_values(|x: u64| object_ref_of(x))
}

/// The object refs of a chain ending at `id`, first to last, following
/// left links at most `fuel` times; `None` where a ref is missing or the
/// fuel runs out.
pub open spec fn walk(refs: Map<u64, Ref>, id: u64, fuel: nat) -> Option<Seq<u64>>
    decreases fuel,
{
    if fuel == 0 || !refs.contains_key(id) {
        None
    } else {
        match refs[id].left {
            None => Some(seq![refs[id].object_ref]),
            Some(l) => match walk(refs, l, (fuel - 1) as nat) {
                Some(s) => Some(s.push(refs[id].object_ref)),
                None => None,
            },
        }
    }
}

/// What `resolve_versioned` finds at `root`.
pub open spec fn resolved(objects: Map<u64, u64>, refs: Map<u64, Ref>, root: u64) -> Result<
    Option<Seq<u64>>,
    StoreError,
> {
    if !refs.contains_key(root) {
        Ok(None)
    } else {
        match walk(refs, root, refs.len()) {
            None => Err(StoreError::NotFound),
            Some(orefs) => if forall|i: int| 0 <= i < orefs.len() ==> objects.contains_key(#[trigger] orefs[i]) {
                Ok(Some(orefs.map_values(|o: u64| objects[o])))
            } else {
                Err(StoreError::NotFound)
            },
        }
    }
}

/// The refs of a chain have distinct ids.
pub open spec fn ids_distinct(chain: Seq<Ref>) -> bool {
    forall|i: int, j: int| 0 <= i < j < chain.len() ==> chain[i].id != chain[j].id
}

/// No two different items share an object ref.
pub open spec fn digests_distinct(items: Seq<u64>) -> bool {
    forall|x: u64, y: u64|
        items.contains(x) && items.contains(y) && object_ref_of(x) == object_ref_of(y) ==> x == y
}

/// The items reads back at `root` from the chain that stored them, as long
/// as no two refs of the chain share an id and no two items an object ref.
pub open spec fn stores_items(store: &MemStore, items: Seq<u64>, root: u64) -> bool {
    exists|chain: Seq<Ref>|
        #[trigger] is_chain(object_refs(items), chain) && root == chain.last().id
            && (ids_distinct(chain) && digests_distinct(items) ==> resolved(
            store.objects_view(),
            store.refs_view(),
            root,
        ) == Ok::<Option<Seq<u64>>, StoreError>(Some(items)))
}

/// A versioned store held in memory: objects by content hash, refs by id,
/// commits in the order they were made, and the head commit of each replica.
pub struct MemStore {
    objects: HashMap<u64, u64>,
    refs: HashMap<u64, Ref>,
    commits: Vec<Commit>,
    replicas: HashMap<u128, u128>,
}

impl MemStore {
    pub closed spec fn objects_view(&self) -> Map<u64, u64> {
        self.objects@
    }

    pub closed spec fn refs_view(&self) -> Map<u64, Ref> {
        self.refs@
    }

    pub closed spec fn commits_view(&self) -> Seq<Commit> {
        self.commits@
    }

    pub closed spec fn heads(&self) -> Map<u128, u128> {
        self.replicas@
    }

    pub closed spec fn wf(&self) -> bool {
        &&& self.refs@.dom().finite()
        &&& forall|i: int| 0 <= i < self.commits@.len() ==> (#[trigger] self.commits@[i]).version.wf()
        &&& ids_unique(self.commits@)
    }

    pub fn new() -> (r: MemStore)
        ensures
            r.wf(),
            r.objects_view() == Map::<u64, u64>::empty(),
            r.refs_view() == Map::<u64, Ref>::empty(),
            r.commits_view() == Seq::<Commit>::empty(),
            r.heads() == Map::<u128, u128>::empty(),
    {
        MemStore {
            objects: HashMap::new(),
            refs: HashMap::new(),
            commits: Vec::new(),
            replicas: HashMap::new(),
        }
    }

    /// Stores an item under its object ref, and returns the ref.
    pub fn insert_object(&mut self, item: u64) -> (r: u64)
        requires
            old(self).wf(),
        ensures
            final(self).wf(),
            r == object_ref_of(item),
            final(self).objects_view() == old(self).objects_view().insert(r, item),
            final(self).refs_view() == old(self).refs_view(),
            final(self).commits_view() == old(self).commits_view(),
            final(self).heads() == old(self).heads(),
    {
        let r = object_ref(item);
        self.objects.insert(r, item);
        r
    }

    /// The item stored under an object ref.
    pub fn resolve_object(&self, r: u64) -> (item: Option<u64>)
        ensures
            item == (if self.objects_view().contains_key(r) {
                Some(self.objects_view()[r])
            } else {
                None
            }),
    {
        match self.objects.get(&r) {
            Some(v) => Some(*v),
            None => None,
        }
    }


    fn insert_items(&mut self, items: &Vec<u64>) -> (orefs: Vec<u64>)
        requires
            old(self).wf(),
        ensures
            final(self).wf(),
            orefs@ == items@.map_values(|x: u64| object_ref_of(x)),
            stored_items(old(self).objects_view(), items@, final(self).objects_view()),
            final(self).refs_view() == old(self).refs_view(),
            final(self).commits_view() == old(self).commits_view(),
            final(self).heads() == old(self).heads(),
    {
        let ghost o0 = self.objects@;
        let mut orefs: Vec<u64> = Vec::new();
        let mut i: usize = 0;
        proof {
            assert(stored_items(o0, items@.subrange(0, 0), self.objects@));
        }
        while i < items.len()
            invariant
                self.wf(),
                i <= items@.len(),
                orefs@ == items@.subrange(0, i as int).map_values(|x: u64| object_ref_of(x)),
                self.refs@ == old(self).refs@,
                self.commits@ == old(self).commits@,
                self.replicas@ == old(self).replicas@,
                stored_items(o0, items@.subrange(0, i as int), self.objects@),
            decreases items@.len() - i,
        {
            let ghost ob = self.objects@;
            let r = self.insert_object(items[i]);
            orefs.push(r);
            proof {
                let pre = items@.subrange(0, i as int);
                let post = items@.subrange(0, i + 1);
                assert(post =~= pre.push(items@[i as int]));
                assert(orefs@ =~= post.map_values(|x: u64| object_ref_of(x)));
                lemma_stored_items_push(o0, pre, ob, items@[i as int]);
            }
            i += 1;
        }
        proof {
            assert(items@.subrange(0, i as int) =~= items@);
        }
        orefs
    }

    fn insert_refs(&mut self, chain: &Vec<Ref>)
        requires
            old(self).wf(),
        ensures
            final(self).wf(),
            stored_chain(old(self).refs_view(), chain@, final(self).refs_view()),
            final(self).objects_view() == old(self).objects_view(),
            final(self).commits_view() == old(self).commits_view(),
            final(self).heads() == old(self).heads(),
    {
        let ghost f0 = self.refs@;
        let mut k: usize = 0;
        proof {
            assert(stored_chain(f0, chain@.subrange(0, 0), self.refs@));
        }
        while k < chain.len()
            invariant
                self.wf(),
                k <= chain@.len(),
                stored_chain(f0, chain@.subrange(0, k as int), self.refs@),
                self.objects@ == old(self).objects@,
                self.commits@ == old(self).commits@,
                self.replicas@ == old(self).replicas@,
            decreases chain@.len() - k,
        {
            let ghost fb = self.refs@;
            let c = chain[k];
            self.refs.insert(c.id, c);
            proof {
                let pre = chain@.subrange(0, k as int);
                assert(chain@.subrange(0, k + 1) =~= pre.push(c));
                lemma_stored_chain_push(f0, pre, fb, c);
            }
            k += 1;
        }
        proof {
            assert(chain@.subrange(0, k as int) =~= chain@);
        }
    }

    /// Stores the items of a structure as objects and a chain of refs over
    /// them, and returns the id of the root, its last ref.
    pub fn insert_versioned(&mut self, items: &Vec<u64>) -> (r: Result<u64, StoreError>)
        requires
            old(self).wf(),
        ensures
            final(self).wf(),
            final(self).commits_view() == old(self).commits_view(),
            final(self).heads() == old(self).heads(),
            items@.len() == 0 ==> r == Err::<u64, StoreError>(StoreError::Invariant) && final(self).objects_view() == old(self).objects_view()
                && final(self).refs_view() == old(self).refs_view(),
            items@.len() > 0 ==> r.is_ok() && exists|chain: Seq<Ref>| {
                &&& is_chain(items@.map_values(|x: u64| object_ref_of(x)), chain)
                &&& r == Ok::<u64, StoreError>(chain.last().id)
                &&& stored_chain(old(self).refs_view(), chain, final(self).refs_view())
                &&& (ids_distinct(chain) && digests_distinct(items@) ==> resolved(
                    final(self).objects_view(),
                    final(self).refs_view(),
                    chain.last().id,
                ) == Ok::<Option<Seq<u64>>, StoreError>(Some(items@)))
            },
            items@.len() > 0 ==> stored_items(old(self).objects_view(), items@, final(self).objects_view()),
            items@.len() > 0 ==> r.is_ok() && stores_items(final(self), items@, r.unwrap()),
    {
        if items.len() == 0 {
            return Err(StoreError::Invariant);
        }
        let ghost objects0 = self.objects@;
        let ghost refs0 = self.refs@;
        let orefs = self.insert_items(items);
        let chain = chain_refs(&orefs);
        self.insert_refs(&chain);
        proof {
            if ids_distinct(chain@) && digests_distinct(items@) {
                lemma_round_trip(objects0, refs0, items@, chain@, self.objects@, self.refs@);
            }
            assert(is_chain(object_refs(items@), chain@));
        }
        Ok(chain[chain.len() - 1].id)
    }
}

/// `after` is `before` with the refs of `chain` written in order, a later
/// ref with the same id replacing an earlier one.
pub open spec fn stored_chain(before: Map<u64, Ref>, chain: Seq<Ref>, after: Map<u64, Ref>) -> bool {
    &&& forall|k: u64| #[trigger] after.contains_key(k) <==> before.contains_key(k) || exists|i: int| 0 <= i < chain.len() && #[trigger] chain[i].id == k
    &&& forall|k: u64| after.contains_key(k) && !(exists|i: int| 0 <= i < chain.len() && #[trigger] chain[i].id == k) ==> #[trigger] after[k] == before[k]
    &&& forall|i: int| 0 <= i < chain.len() && (forall|j: int| i < j < chain.len() ==> (#[trigger] chain[j]).id != chain[i].id) ==> after[(#[trigger] chain[i]).id] == chain[i]
}

/// `after` is `before` with the items stored in order under their object
/// refs, a later item with the same ref replacing an earlier one.
pub open spec fn stored_items(before: Map<u64, u64>, items: Seq<u64>, after: Map<u64, u64>) -> bool {
    &&& forall|k: u64| #[trigger] after.contains_key(k) <==> before.contains_key(k) || exists|i: int| 0 <= i < items.len() && object_ref_of(#[trigger] items[i]) == k
    &&& forall|k: u64| after.contains_key(k) && !(exists|i: int| 0 <= i < items.len() && object_ref_of(#[trigger] items[i]) == k) ==> #[trigger] after[k] == before[k]
    &&& forall|i: int| 0 <= i < items.len() && (forall|j: int| i < j < items.len() && object_ref_of(#[trigger] items[j]) == object_ref_of(items[i]) ==> items[j] == items[i]) ==> after[object_ref_of(#[trigger] items[i])] == items[i]
}

proof fn lemma_stored_items_push(before: Map<u64, u64>, items: Seq<u64>, mid: Map<u64, u64>, x: u64)
    requires
        stored_items(before, items, mid),
    ensures
        stored_items(before, items.push(x), mid.insert(object_ref_of(x), x)),
{
    let post = items.push(x);
    let after = mid.insert(object_ref_of(x), x);
    assert forall|k: u64| #[trigger] after.contains_key(k) <==> before.contains_key(k) || exists|i: int| 0 <= i < post.len() && object_ref_of(#[trigger] post[i]) == k by {
        if k == object_ref_of(x) {
            assert(object_ref_of(post[items.len() as int]) == k);
        }
        if exists|i: int| 0 <= i < items.len() && object_ref_of(#[trigger] items[i]) == k {
            let i = choose|i: int| 0 <= i < items.len() && object_ref_of(#[trigger] items[i]) == k;
            assert(post[i] == items[i]);
            assert(object_ref_of(post[i]) == k);
        }
        if exists|i: int| 0 <= i < post.len() && object_ref_of(#[trigger] post[i]) == k {
            let i = choose|i: int| 0 <= i < post.len() && object_ref_of(#[trigger] post[i]) == k;
            if i < items.len() {
                assert(object_ref_of(items[i]) == k);
            }
        }
    }
    assert forall|k: u64| after.contains_key(k) && !(exists|i: int| 0 <= i < post.len() && object_ref_of(#[trigger] post[i]) == k) implies #[trigger] after[k] == before[k] by {
        assert(object_ref_of(post[items.len() as int]) == object_ref_of(x));
        if exists|i: int| 0 <= i < items.len() && object_ref_of(#[trigger] items[i]) == k {
            let i = choose|i: int| 0 <= i < items.len() && object_ref_of(#[trigger] items[i]) == k;
            assert(object_ref_of(post[i]) == k);
        }
    }
    assert forall|i: int| 0 <= i < post.len() && (forall|j: int| i < j < post.len() && object_ref_of(#[trigger] post[j]) == object_ref_of(post[i]) ==> post[j] == post[i]) implies after[object_ref_of(#[trigger] post[i])] == post[i] by {
        if i < items.len() {
            assert(post[i] == items[i]);
            assert(object_ref_of(post[items.len() as int]) == object_ref_of(post[i]) ==> post[items.len() as int] == post[i]);
            assert forall|j: int| i < j < items.len() && object_ref_of(#[trigger] items[j]) == object_ref_of(items[i]) implies items[j] == items[i] by {
                assert(post[j] == items[j]);
            }
        }
    }
}

proof fn lemma_stored_chain_push(before: Map<u64, Ref>, chain: Seq<Ref>, mid: Map<u64, Ref>, c: Ref)
    requires
        stored_chain(before, chain, mid),
    ensures
        stored_chain(before, chain.push(c), mid.insert(c.id, c)),
{
    let post = chain.push(c);
    let after = mid.insert(c.id, c);
    assert forall|k: u64| #[trigger] after.contains_key(k) <==> before.contains_key(k) || exists|i: int| 0 <= i < post.len() && #[trigger] post[i].id == k by {
        if k == c.id {
            assert(post[chain.len() as int].id == k);
        }
        if exists|i: int| 0 <= i < chain.len() && #[trigger] chain[i].id == k {
            let i = choose|i: int| 0 <= i < chain.len() && #[trigger] chain[i].id == k;
            assert(post[i] == chain[i]);
            assert(post[i].id == k);
        }
        if exists|i: int| 0 <= i < post.len() && #[trigger] post[i].id == k {
            let i = choose|i: int| 0 <= i < post.len() && #[trigger] post[i].id == k;
            if i < chain.len() {
                assert(chain[i].id == k);
            }
        }
    }
    assert forall|k: u64| after.contains_key(k) && !(exists|i: int| 0 <= i < post.len() && #[trigger] post[i].id == k) implies #[trigger] after[k] == before[k] by {
        assert(post[chain.len() as int].id == c.id);
        if exists|i: int| 0 <= i < chain.len() && #[trigger] chain[i].id == k {
            let i = choose|i: int| 0 <= i < chain.len() && #[trigger] chain[i].id == k;
            assert(post[i].id == k);
        }
    }
    assert forall|i: int| 0 <= i < post.len() && (forall|j: int| i < j < post.len() ==> (#[trigger] post[j]).id != post[i].id) implies after[(#[trigger] post[i]).id] == post[i] by {
        if i < chain.len() {
            assert(post[chain.len() as int].id != post[i].id);
            assert forall|j: int| i < j < chain.len() implies (#[trigger] chain[j]).id != chain[i].id by {
                assert(post[j].id != post[i].id);
            }
        }
    }
}


impl MemStore {
    /// Reads back the items of the structure whose root ref is `root`:
    /// follows the left links back to the first ref, then loads the objects.
    pub fn resolve_versioned(&self, root: u64) -> (r: Result<Option<Vec<u64>>, StoreError>)
        requires
            self.wf(),
        ensures
            match r {
                Ok(Some(v)) => resolved(self.objects_view(), self.refs_view(), root) == Ok::<Option<Seq<u64>>, StoreError>(Some(v@)),
                Ok(None) => resolved(self.objects_view(), self.refs_view(), root) == Ok::<Option<Seq<u64>>, StoreError>(None),
                Err(e) => resolved(self.objects_view(), self.refs_view(), root) == Err::<Option<Seq<u64>>, StoreError>(e),
            },
    {
        let ghost refs = self.refs@;
        let total = self.refs.len();
        let node = match self.refs.get(&root) {
            Some(n) => *n,
            None => {
                return Ok(None);
            },
        };
        proof {
            assert(refs.dom().contains(root));
            vstd::set_lib::lemma_len_subset(set![root], refs.dom());
        }
        let ghost fuel_all = refs.len();
        let mut acc: Vec<u64> = Vec::new();
        acc.push(node.object_ref);
        let mut cur = node;
        let ghost mut cid: u64 = root;
        let ghost mut after: Seq<u64> = Seq::empty();
        let mut fuel: usize = total;
        while cur.left.is_some()
            invariant
                refs == self.refs@,
                fuel_all == refs.len(),
                1 <= fuel <= fuel_all,
                refs.contains_key(root),
                refs.contains_key(cid),
                refs[cid] == cur,
                acc@.reverse() == seq![cur.object_ref] + after,
                walk(refs, root, fuel_all) == match walk(refs, cid, fuel as nat) {
                    Some(s) => Some(s + after),
                    None => None::<Seq<u64>>,
                },
            decreases fuel,
        {
            let l = cur.left.unwrap();
            proof {
                assert(walk(refs, cid, fuel as nat) == match walk(refs, l, (fuel - 1) as nat) {
                    Some(s) => Some(s.push(cur.object_ref)),
                    None => None::<Seq<u64>>,
                });
            }
            if fuel == 1 {
                proof {
                    assert(walk(refs, l, 0) == None::<Seq<u64>>);
                    assert(walk(refs, root, fuel_all).is_none());
                    assert(resolved(self.objects_view(), self.refs_view(), root) == Err::<Option<Seq<u64>>, StoreError>(StoreError::NotFound));
                }
                return Err(StoreError::NotFound);
            }
            let next = match self.refs.get(&l) {
                Some(n) => *n,
                None => {
                    proof {
                        assert(walk(refs, l, (fuel - 1) as nat) == None::<Seq<u64>>);
                        assert(walk(refs, root, fuel_all).is_none());
                        assert(resolved(self.objects_view(), self.refs_view(), root) == Err::<Option<Seq<u64>>, StoreError>(StoreError::NotFound));
                    }
                    return Err(StoreError::NotFound);
                },
            };
            let ghost a0 = acc@;
            acc.push(next.object_ref);
            proof {
                assert(acc@.reverse() =~= seq![next.object_ref] + a0.reverse());
                match walk(refs, l, (fuel - 1) as nat) {
                    Some(s) => {
                        assert(s.push(cur.object_ref) + after =~= s + (seq![cur.object_ref] + after));
                    },
                    None => {},
                }
                after = seq![cur.object_ref] + after;
                cid = l;
            }
            cur = next;
            fuel = fuel - 1;
        }
        proof {
            assert(walk(refs, cid, fuel as nat) == Some(seq![cur.object_ref]));
            assert(walk(refs, root, fuel_all) == Some(acc@.reverse()));
        }
        let ghost orefs = acc@.reverse();
        let mut items: Vec<u64> = Vec::new();
        let mut i: usize = 0;
        while i < acc.len()
            invariant
                orefs == acc@.reverse(),
                refs == self.refs@,
                fuel_all == refs.len(),
                refs.contains_key(root),
                walk(refs, root, fuel_all) == Some(orefs),
                i <= acc@.len(),
                items@ == orefs.subrange(0, i as int).map_values(|o: u64| self.objects@[o]),
                forall|k: int| 0 <= k < i ==> self.objects@.contains_key(#[trigger] orefs[k]),
            decreases acc@.len() - i,
        {
            let o = acc[acc.len() - 1 - i];
            proof {
                assert(orefs[i as int] == o);
            }
            match self.objects.get(&o) {
                Some(v) => {
                    items.push(*v);
                    proof {
                        assert(orefs.subrange(0, i + 1) =~= orefs.subrange(0, i as int).push(o));
                        assert(items@ =~= orefs.subrange(0, i + 1).map_values(|o: u64| self.objects@[o]));
                    }
                },
                None => {
                    proof {
                        assert(!(forall|k: int| 0 <= k < orefs.len() ==> self.objects@.contains_key(#[trigger] orefs[k])));
                    }
                    return Err(StoreError::NotFound);
                },
            }
            i += 1;
        }
        proof {
            assert(orefs.subrange(0, i as int) =~= orefs);
        }
        Ok(Some(items))
    }
}


proof fn lemma_walk_chain(refs: Map<u64, Ref>, orefs: Seq<u64>, chain: Seq<Ref>, k: int, f: nat)
    requires
        is_chain(orefs, chain),
        0 <= k < chain.len(),
        f >= k + 1,
        forall|i: int| 0 <= i < chain.len() ==> refs.contains_key((#[trigger] chain[i]).id) && refs[chain[i].id] == chain[i],
    ensures
        walk(refs, chain[k].id, f) == Some(orefs.subrange(0, k + 1)),
    decreases k,
{
    let c = chain[k];
    assert(refs[c.id] == c);
    if k == 0 {
        assert(orefs.subrange(0, 1) =~= seq![c.object_ref]);
    } else {
        assert(c.left == Some(chain[k - 1].id));
        lemma_walk_chain(refs, orefs, chain, k - 1, (f - 1) as nat);
        assert(orefs.subrange(0, k + 1) =~= orefs.subrange(0, k).push(c.object_ref));
    }
}

/// Reading back a structure right after storing it gives its items, as long
/// as the refs of its chain have distinct ids and no two different items
/// share an object ref.
pub proof fn lemma_round_trip(
    objects: Map<u64, u64>,
    refs: Map<u64, Ref>,
    items: Seq<u64>,
    chain: Seq<Ref>,
    objects_after: Map<u64, u64>,
    refs_after: Map<u64, Ref>,
)
    requires
        items.len() > 0,
        refs_after.dom().finite(),
        is_chain(items.map_values(|x: u64| object_ref_of(x)), chain),
        stored_chain(refs, chain, refs_after),
        stored_items(objects, items, objects_after),
        forall|i: int, j: int| 0 <= i < j < chain.len() ==> chain[i].id != chain[j].id,
        forall|x: u64, y: u64|
            items.contains(x) && items.contains(y) && object_ref_of(x) == object_ref_of(y) ==> x == y,
    ensures
        resolved(objects_after, refs_after, chain.last().id) == Ok::<Option<Seq<u64>>, StoreError>(Some(items)),
{
    let orefs = items.map_values(|x: u64| object_ref_of(x));
    let n = chain.len();
    assert forall|i: int| 0 <= i < n implies refs_after.contains_key((#[trigger] chain[i]).id) && refs_after[chain[i].id] == chain[i] by {
        assert(exists|j: int| 0 <= j < chain.len() && #[trigger] chain[j].id == chain[i].id);
        assert forall|j: int| i < j < chain.len() implies (#[trigger] chain[j]).id != chain[i].id by {}
    }
    let ids = chain.map_values(|c: Ref| c.id);
    assert(ids.no_duplicates()) by {
        assert forall|a: int, b: int| 0 <= a < ids.len() && 0 <= b < ids.len() && a != b implies ids[a] != ids[b] by {
            if a < b {
                assert(chain[a].id != chain[b].id);
            } else {
                assert(chain[b].id != chain[a].id);
            }
        }
    }
    ids.unique_seq_to_set();
    assert(ids.to_set().subset_of(refs_after.dom())) by {
        assert forall|k: u64| ids.to_set().contains(k) implies refs_after.dom().contains(k) by {
            let a = choose|a: int| 0 <= a < ids.len() && ids[a] == k;
            assert(refs_after.contains_key(chain[a].id));
        }
    }
    vstd::set_lib::lemma_len_subset(ids.to_set(), refs_after.dom());
    lemma_walk_chain(refs_after, orefs, chain, n - 1, refs_after.len());
    assert(n - 1 + 1 == n);
    assert(orefs.subrange(0, n as int) =~= orefs);
    assert forall|i: int| 0 <= i < orefs.len() implies objects_after.contains_key(#[trigger] orefs[i]) && objects_after[orefs[i]] == items[i] by {
        assert(object_ref_of(items[i]) == orefs[i]);
        assert(exists|j: int| 0 <= j < items.len() && object_ref_of(#[trigger] items[j]) == orefs[i]);
        assert forall|j: int| i < j < items.len() && object_ref_of(#[trigger] items[j]) == object_ref_of(items[i]) implies items[j] == items[i] by {
            assert(items.contains(items[j]) && items.contains(items[i]));
        }
    }
    assert(orefs.map_values(|o: u64| objects_after[o]) =~= items);
}


/// No two commits share an id.
pub open spec fn ids_unique(cs: Seq<Commit>) -> bool {
    forall|i: int, j: int| 0 <= i < j < cs.len() ==> cs[i].id != cs[j].id
}

pub open spec fn has_commit(cs: Seq<Commit>, id: Id) -> bool {
    exists|i: int| 0 <= i < cs.len() && #[trigger] cs[i].id == id
}

/// The commit with id `id`.
pub open spec fn commit_of(cs: Seq<Commit>, id: Id) -> Commit {
    cs[choose|i: int| 0 <= i < cs.len() && #[trigger] cs[i].id == id]
}

/// The commit `n` parent links back from `id`, if the chain is that long.
pub open spec fn ancestor(cs: Seq<Commit>, id: Id, n: nat) -> Option<Id>
    decreases n,
{
    if n == 0 {
        Some(id)
    } else if !has_commit(cs, id) {
        None
    } else {
        match commit_of(cs, id).parent_commit_id {
            Some(p) => ancestor(cs, p, (n - 1) as nat),
            None => None,
        }
    }
}

proof fn lemma_commit_of_push(cs: Seq<Commit>, c: Commit, id: Id)
    requires
        ids_unique(cs),
        !has_commit(cs, c.id),
        has_commit(cs, id),
    ensures
        has_commit(cs.push(c), id),
        commit_of(cs.push(c), id) == commit_of(cs, id),
{
    let i = choose|i: int| 0 <= i < cs.len() && #[trigger] cs[i].id == id;
    assert(cs.push(c)[i].id == id);
    let j = choose|j: int| 0 <= j < cs.push(c).len() && #[trigger] cs.push(c)[j].id == id;
    if j != i {
        if j == cs.len() {
            assert(cs[i].id == c.id);
        } else if i < j {
            assert(cs[i].id != cs[j].id);
        } else {
            assert(cs[j].id != cs[i].id);
        }
    }
}

proof fn lemma_ancestor_push(cs: Seq<Commit>, c: Commit, id: Id, n: nat)
    requires
        ids_unique(cs),
        !has_commit(cs, c.id),
        id != c.id,
    ensures
        ancestor(cs, id, n).is_some() ==> ancestor(cs.push(c), id, n) == ancestor(cs, id, n),
    decreases n,
{
    if n > 0 && has_commit(cs, id) {
        lemma_commit_of_push(cs, c, id);
        match commit_of(cs, id).parent_commit_id {
            Some(p) => {
                if p != c.id {
                    lemma_ancestor_push(cs, c, p, (n - 1) as nat);
                } else if n - 1 > 0 {
                    // p names no commit of `cs`, so the old chain stops here
                    assert(!has_commit(cs, p));
                }
            },
            None => {},
        }
    }
}

/// A commit appended with a fresh id, whose parent is `head`, is one more
/// link on the chain of `head`: `n + 1` links back from the new commit is
/// where `n` links back from `head` was. By induction, after `N` commits on
/// a replica starting from head `H`, the chain of the new head reaches `H`
/// after `N` links.
pub proof fn lemma_commit_chain(cs: Seq<Commit>, c: Commit, head: Id, n: nat)
    requires
        ids_unique(cs),
        !has_commit(cs, c.id),
        c.parent_commit_id == Some(head),
        ancestor(cs, head, n).is_some(),
    ensures
        ancestor(cs.push(c), c.id, n + 1) == ancestor(cs, head, n),
{
    let cs2 = cs.push(c);
    assert(cs2[cs.len() as int].id == c.id);
    assert(has_commit(cs2, c.id));
    let i = choose|i: int| 0 <= i < cs2.len() && #[trigger] cs2[i].id == c.id;
    if i != cs.len() {
        assert(cs[i].id == c.id);
    }
    assert(commit_of(cs2, c.id) == c);
    if n > 0 {
        assert(has_commit(cs, head));
        assert(head != c.id);
        lemma_ancestor_push(cs, c, head, n);
    }
    assert((n + 1 - 1) as nat == n);
}

/// After `n` commits on a replica, each with a fresh id and the previous
/// head as parent, the parent chain of the final head reaches the starting
/// head after exactly `n` links. `history[k]` holds the commits before the
/// `k`-th of them, `heads[k]` the replica's head at that point.
pub proof fn lemma_commit_chain_n(history: Seq<Seq<Commit>>, heads: Seq<Id>, n: nat)
    requires
        history.len() == n + 1,
        heads.len() == n + 1,
        ids_unique(history[0]),
        forall|k: int| 0 <= k < n ==> {
            let c = #[trigger] history[k + 1].last();
            &&& history[k + 1] == history[k].push(c)
            &&& !has_commit(history[k], c.id)
            &&& c.parent_commit_id == Some(heads[k])
            &&& heads[k + 1] == c.id
        },
    ensures
        ancestor(history[n as int], heads[n as int], n) == Some(heads[0]),
    decreases n,
{
    if n > 0 {
        let m = (n - 1) as nat;
        lemma_commit_chain_n(history.subrange(0, n as int), heads.subrange(0, n as int), m);
        lemma_history_unique(history, m as int);
        let c = history[n as int].last();
        assert(history[m as int + 1] == history[m as int].push(c));
        lemma_commit_chain(history[m as int], c, heads[m as int], m);
    }
}

proof fn lemma_history_unique(history: Seq<Seq<Commit>>, k: int)
    requires
        0 <= k < history.len(),
        ids_unique(history[0]),
        forall|j: int| 0 <= j < k ==> {
            let c = #[trigger] history[j + 1].last();
            &&& history[j + 1] == history[j].push(c)
            &&& !has_commit(history[j], c.id)
        },
    ensures
        ids_unique(history[k]),
    decreases k,
{
    if k > 0 {
        lemma_history_unique(history, k - 1);
        let prev = history[k - 1];
        let c = history[k].last();
        assert(history[k - 1 + 1] == prev.push(c));
        assert forall|i: int, j: int| 0 <= i < j < history[k].len() implies history[k][i].id != history[k][j].id by {
            if j == prev.len() {
                assert(history[k][i] == prev[i]);
                if prev[i].id == c.id {
                    assert(has_commit(prev, c.id));
                }
            } else {
                assert(history[k][i] == prev[i] && history[k][j] == prev[j]);
            }
        }
    }
}

impl MemStore {
    /// What a well-formed store guarantees: commit ids are unique, every
    /// commit's version is well formed, and finitely many refs are stored.
    pub proof fn lemma_wf(&self)
        requires
            self.wf(),
        ensures
            ids_unique(self.commits_view()),
            forall|i: int| 0 <= i < self.commits_view().len() ==> (#[trigger] self.commits_view()[i]).version.wf(),
            self.refs_view().dom().finite(),
    {
    }

    /// Each stored commit is the commit of its id.
    pub proof fn lemma_commit_of_index(&self, i: int)
        requires
            self.wf(),
            0 <= i < self.commits_view().len(),
        ensures
            has_commit(self.commits_view(), self.commits_view()[i].id),
            commit_of(self.commits_view(), self.commits_view()[i].id) == self.commits_view()[i],
    {
        let cs = self.commits_view();
        assert(cs[i].id == cs[i].id);
        let j = choose|j: int| 0 <= j < cs.len() && #[trigger] cs[j].id == cs[i].id;
        if j < i {
            assert(cs[j].id != cs[i].id);
        } else if j > i {
            assert(cs[i].id != cs[j].id);
        }
    }

    pub proof fn lemma_commit_versions_wf(&self, i: int)
        requires
            self.wf(),
            0 <= i < self.commits_view().len(),
        ensures
            self.commits_view()[i].version.wf(),
    {
    }

    pub proof fn lemma_commit_of_wf(&self, id: Id)
        requires
            self.wf(),
            has_commit(self.commits_view(), id),
        ensures
            commit_of(self.commits_view(), id).version.wf(),
    {
        let i = choose|i: int| 0 <= i < self.commits@.len() && #[trigger] self.commits@[i].id == id;
        assert(self.commits@[i].version.wf());
    }

    fn find_commit(&self, id: Id) -> (r: Option<usize>)
        requires
            self.wf(),
        ensures
            match r {
                Some(i) => i < self.commits@.len() && self.commits@[i as int].id == id && commit_of(self.commits@, id) == self.commits@[i as int],
                None => !has_commit(self.commits@, id),
            },
    {
        let mut i: usize = 0;
        while i < self.commits.len()
            invariant
                self.wf(),
                i <= self.commits@.len(),
                forall|k: int| 0 <= k < i ==> self.commits@[k].id != id,
            decreases self.commits@.len() - i,
        {
            if self.commits[i].id.0 == id.0 {
                proof {
                    let j = choose|j: int| 0 <= j < self.commits@.len() && #[trigger] self.commits@[j].id == id;
                    if j != i {
                        if j < i {
                            assert(self.commits@[j].id != id);
                        } else {
                            assert(self.commits@[i as int].id != self.commits@[j].id);
                        }
                    }
                }
                return Some(i);
            }
            i += 1;
        }
        None
    }

    /// The commit with the given id.
    pub fn resolve_commit(&self, id: Id) -> (r: Result<Commit, StoreError>)
        requires
            self.wf(),
        ensures
            match r {
                Ok(c) => has_commit(self.commits_view(), id) && same_commit(c, commit_of(self.commits_view(), id)),
                Err(e) => !has_commit(self.commits_view(), id) && e == StoreError::NotFound,
            },
    {
        match self.find_commit(id) {
            Some(i) => Ok(self.commits[i].duplicate()),
            None => Err(StoreError::NotFound),
        }
    }

    /// The head commit of a replica, if it has one.
    pub fn latest_commit_for_replica(&self, replica: Id) -> (r: Result<Option<Commit>, StoreError>)
        requires
            self.wf(),
        ensures
            !self.heads().contains_key(replica.0) ==> r == Ok::<Option<Commit>, StoreError>(None),
            self.heads().contains_key(replica.0) ==> match r {
                Ok(Some(c)) => has_commit(self.commits_view(), Id(self.heads()[replica.0]))
                    && same_commit(c, commit_of(self.commits_view(), Id(self.heads()[replica.0]))),
                Ok(None) => false,
                Err(e) => !has_commit(self.commits_view(), Id(self.heads()[replica.0])) && e == StoreError::NotFound,
            },
    {
        match self.replicas.get(&replica.0) {
            Some(h) => match self.resolve_commit(Id(*h)) {
                Ok(c) => Ok(Some(c)),
                Err(e) => Err(e),
            },
            None => Ok(None),
        }
    }

    /// The first commit whose version holds exactly the entries of `version`.
    pub fn resolve_commit_for_version(&self, version: &VectorClock) -> (r: Result<Commit, StoreError>)
        requires
            self.wf(),
        ensures
            match r {
                Ok(c) => exists|i: int| 0 <= i < self.commits_view().len()
                    && self.commits_view()[i].version.spec_entries() == version.spec_entries()
                    && same_commit(c, self.commits_view()[i])
                    && forall|k: int| 0 <= k < i ==> self.commits_view()[k].version.spec_entries() != version.spec_entries(),
                Err(e) => e == StoreError::NotFound && forall|k: int| 0 <= k < self.commits_view().len() ==> self.commits_view()[k].version.spec_entries() != version.spec_entries(),
            },
    {
        let mut i: usize = 0;
        while i < self.commits.len()
            invariant
                i <= self.commits@.len(),
                forall|k: int| 0 <= k < i ==> self.commits@[k].version.spec_entries() != version.spec_entries(),
            decreases self.commits@.len() - i,
        {
            if self.commits[i].version.same_entries(version) {
                return Ok(self.commits[i].duplicate());
            }
            i += 1;
        }
        Err(StoreError::NotFound)
    }

    /// Records a new commit `id` of `replica`, with the replica's head as
    /// parent, and moves the replica's head to it; refuses an id already taken.
    pub fn commit_with_id(&mut self, replica: Id, version: VectorClock, root_ref: u64, id: Id) -> (r: Result<Commit, StoreError>)
        requires
            old(self).wf(),
            version.wf(),
        ensures
            final(self).wf(),
            final(self).objects_view() == old(self).objects_view(),
            final(self).refs_view() == old(self).refs_view(),
            r.is_err() <==> has_commit(old(self).commits_view(), id),
            match r {
                Ok(c) => {
                    &&& c.id == id
                    &&& !has_commit(old(self).commits_view(), c.id)
                    &&& c.version@ == version@
                    &&& c.root_ref == root_ref
                    &&& c.parent_commit_id == (if old(self).heads().contains_key(replica.0) {
                        Some(Id(old(self).heads()[replica.0]))
                    } else {
                        None
                    })
                    &&& final(self).commits_view().len() == old(self).commits_view().len() + 1
                    &&& final(self).commits_view().drop_last() == old(self).commits_view()
                    &&& same_commit(final(self).commits_view().last(), c)
                    &&& final(self).heads() == old(self).heads().insert(replica.0, c.id.0)
                },
                Err(e) => e == StoreError::Invariant && final(self).commits_view() == old(self).commits_view()
                    && final(self).heads() == old(self).heads(),
            },
    {
        if self.find_commit(id).is_some() {
            return Err(StoreError::Invariant);
        }
        let parent = match self.replicas.get(&replica.0) {
            Some(h) => Some(Id(*h)),
            None => None,
        };
        let c = Commit { id, version, root_ref, parent_commit_id: parent };
        let ghost cs0 = self.commits@;
        self.commits.push(c.duplicate());
        self.replicas.insert(replica.0, id.0);
        proof {
            assert(self.commits@.drop_last() =~= cs0);
            assert forall|i: int, j: int| 0 <= i < j < self.commits@.len() implies self.commits@[i].id != self.commits@[j].id by {
                if j == cs0.len() {
                    assert(cs0[i].id != id);
                } else {
                    assert(cs0[i].id != cs0[j].id);
                }
            }
            assert forall|i: int| 0 <= i < self.commits@.len() implies (#[trigger] self.commits@[i]).version.wf() by {
                if i < cs0.len() {
                    assert(self.commits@[i] == cs0[i]);
                }
            }
        }
        Ok(c)
    }

    /// Records a new commit of `replica` under a fresh random id, with the
    /// replica's head as parent, and moves the replica's head to it. It fails
    /// only where the random id is already taken, so never on an empty store.
    pub fn commit(&mut self, replica: Id, version: VectorClock, root_ref: u64) -> (r: Result<Commit, StoreError>)
        requires
            old(self).wf(),
            version.wf(),
        ensures
            final(self).wf(),
            final(self).objects_view() == old(self).objects_view(),
            final(self).refs_view() == old(self).refs_view(),
            old(self).commits_view().len() == 0 ==> r.is_ok(),
            match r {
                Ok(c) => {
                    &&& !has_commit(old(self).commits_view(), c.id)
                    &&& c.version@ == version@
                    &&& c.root_ref == root_ref
                    &&& c.parent_commit_id == (if old(self).heads().contains_key(replica.0) {
                        Some(Id(old(self).heads()[replica.0]))
                    } else {
                        None
                    })
                    &&& final(self).commits_view().len() == old(self).commits_view().len() + 1
                    &&& final(self).commits_view().drop_last() == old(self).commits_view()
                    &&& same_commit(final(self).commits_view().last(), c)
                    &&& final(self).heads() == old(self).heads().insert(replica.0, c.id.0)
                },
                Err(e) => e == StoreError::Invariant && final(self).commits_view() == old(self).commits_view()
                    && final(self).heads() == old(self).heads(),
            },
    {
        self.commit_with_id(replica, version, root_ref, Id::gen())
    }

    /// Binds `replica` to the first commit of the store, and returns it.
    pub fn clone(&mut self, replica: Id) -> (r: Result<Commit, StoreError>)
        requires
            old(self).wf(),
        ensures
            final(self).wf(),
            final(self).objects_view() == old(self).objects_view(),
            final(self).refs_view() == old(self).refs_view(),
            final(self).commits_view() == old(self).commits_view(),
            old(self).commits_view().len() == 0 ==> r == Err::<Commit, StoreError>(StoreError::NotFound)
                && final(self).heads() == old(self).heads(),
            old(self).commits_view().len() > 0 ==> r.is_ok() && same_commit(r.unwrap(), old(self).commits_view()[0])
                && final(self).heads() == old(self).heads().insert(replica.0, old(self).commits_view()[0].id.0),
    {
        if self.commits.len() == 0 {
            return Err(StoreError::NotFound);
        }
        let c = self.commits[0].duplicate();
        self.replicas.insert(replica.0, c.id.0);
        Ok(c)
    }

    /// Stores a ref under its id.
    pub fn insert_ref(&mut self, reference: Ref)
        requires
            old(self).wf(),
        ensures
            final(self).wf(),
            final(self).refs_view() == old(self).refs_view().insert(reference.id, reference),
            final(self).objects_view() == old(self).objects_view(),
            final(self).commits_view() == old(self).commits_view(),
            final(self).heads() == old(self).heads(),
    {
        self.refs.insert(reference.id, reference);
    }

    /// Adds a commit read from elsewhere; refuses one whose id is taken.
    pub fn load_commit(&mut self, c: Commit) -> (r: Result<(), StoreError>)
        requires
            old(self).wf(),
            c.version.wf(),
        ensures
            final(self).wf(),
            final(self).objects_view() == old(self).objects_view(),
            final(self).refs_view() == old(self).refs_view(),
            final(self).heads() == old(self).heads(),
            has_commit(old(self).commits_view(), c.id) ==> r == Err::<(), StoreError>(StoreError::Invariant)
                && final(self).commits_view() == old(self).commits_view(),
            !has_commit(old(self).commits_view(), c.id) ==> r.is_ok() && final(self).commits_view() == old(self).commits_view().push(c),
    {
        if self.find_commit(c.id).is_some() {
            return Err(StoreError::Invariant);
        }
        let ghost cs0 = self.commits@;
        let id = c.id;
        self.commits.push(c);
        proof {
            assert forall|i: int, j: int| 0 <= i < j < self.commits@.len() implies self.commits@[i].id != self.commits@[j].id by {
                if j == cs0.len() {
                    assert(cs0[i].id != id);
                } else {
                    assert(cs0[i].id != cs0[j].id);
                }
            }
            assert forall|i: int| 0 <= i < self.commits@.len() implies (#[trigger] self.commits@[i]).version.wf() by {
                if i < cs0.len() {
                    assert(self.commits@[i] == cs0[i]);
                }
            }
        }
        Ok(())
    }

    /// Points the head of `replica` at the commit `commit`.
    pub fn set_head(&mut self, replica: Id, commit: Id)
        requires
            old(self).wf(),
        ensures
            final(self).wf(),
            final(self).heads() == old(self).heads().insert(replica.0, commit.0),
            final(self).objects_view() == old(self).objects_view(),
            final(self).refs_view() == old(self).refs_view(),
            final(self).commits_view() == old(self).commits_view(),
    {
        self.replicas.insert(replica.0, commit.0);
    }

    /// How many rows each table holds.
    pub fn table_counts(&self) -> (t: TableCounts)
        ensures
            t.commits == self.commits_view().len(),
            t.objects == self.objects_view().len(),
            t.refs == self.refs_view().len(),
            t.replicas == self.heads().len(),
    {
        TableCounts {
            commits: self.commits.len() as u64,
            objects: self.objects.len() as u64,
            refs: self.refs.len() as u64,
            replicas: self.replicas.len() as u64,
        }
    }
}


/// What a store with the same objects and refs reads back is the same.
pub proof fn lemma_stores_items_kept(before: &MemStore, after: &MemStore, items: Seq<u64>, root: u64)
    requires
        stores_items(before, items, root),
        after.objects_view() == before.objects_view(),
        after.refs_view() == before.refs_view(),
    ensures
        stores_items(after, items, root),
{
    let chain = choose|chain: Seq<Ref>|
        #[trigger] is_chain(object_refs(items), chain) && root == chain.last().id
            && (ids_distinct(chain) && digests_distinct(items) ==> resolved(
            before.objects_view(),
            before.refs_view(),
            root,
        ) == Ok::<Option<Seq<u64>>, StoreError>(Some(items)));
    assert(is_chain(object_refs(items), chain));
}

/// The index of the first commit whose version is `v`.
pub open spec fn version_index(cs: Seq<Commit>, v: Map<Id, Timestamp>) -> Option<int> {
    if exists|i: int| 0 <= i < cs.len() && #[trigger] cs[i].version@ == v {
        Some(
            choose|i: int|
                0 <= i < cs.len() && #[trigger] cs[i].version@ == v && forall|k: int|
                    0 <= k < i ==> cs[k].version@ != v,
        )
    } else {
        None
    }
}

pub proof fn lemma_version_absent(cs: Seq<Commit>, v: VectorClock)
    requires
        v.wf(),
        forall|i: int| 0 <= i < cs.len() ==> (#[trigger] cs[i]).version.wf(),
        forall|k: int| 0 <= k < cs.len() ==> cs[k].version.spec_entries() != v.spec_entries(),
    ensures
        version_index(cs, v@) is None,
{
    if exists|i: int| 0 <= i < cs.len() && #[trigger] cs[i].version@ == v@ {
        let i = choose|i: int| 0 <= i < cs.len() && #[trigger] cs[i].version@ == v@;
        crate::vector_clock::lemma_entries_canonical(cs[i].version, v);
    }
}

pub proof fn lemma_version_found(cs: Seq<Commit>, v: VectorClock, c: Commit) -> (i: int)
    requires
        v.wf(),
        forall|i: int| 0 <= i < cs.len() ==> (#[trigger] cs[i]).version.wf(),
        exists|i: int|
            0 <= i < cs.len() && cs[i].version.spec_entries() == v.spec_entries() && same_commit(
                c,
                cs[i],
            ) && forall|k: int| 0 <= k < i ==> cs[k].version.spec_entries() != v.spec_entries(),
    ensures
        0 <= i < cs.len(),
        version_index(cs, v@) == Some(i),
        same_commit(c, cs[i]),
{
    let i = choose|i: int|
        0 <= i < cs.len() && cs[i].version.spec_entries() == v.spec_entries() && same_commit(c, cs[i])
            && forall|k: int| 0 <= k < i ==> cs[k].version.spec_entries() != v.spec_entries();
    crate::vector_clock::lemma_canonical(cs[i].version, v);
    assert forall|k: int| 0 <= k < i implies cs[k].version@ != v@ by {
        if cs[k].version@ == v@ {
            crate::vector_clock::lemma_entries_canonical(cs[k].version, v);
        }
    }
    assert(cs[i].version@ == v@);
    let j = choose|j: int|
        0 <= j < cs.len() && #[trigger] cs[j].version@ == v@ && forall|k: int| 0 <= k < j ==> cs[k].version@ != v@;
    if j < i {
        assert(cs[j].version@ != v@);
    }
    if j > i {
        assert(cs[i].version@ != v@);
    }
    i
}

} // verus!
