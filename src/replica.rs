use vstd::prelude::*;

use crate::id::Id;
use crate::list::{list_merge, MrdtList};
use crate::set::{three_way, MrdtSet};
use crate::id::Timestamp;
use crate::refs::{same_commit, Commit};
use crate::store::{
    commit_of, has_commit, lemma_stores_items_kept, lemma_version_absent, lemma_version_found, resolved,
    stores_items, version_index, MemStore, StoreError,
};
use crate::vector_clock::{clock_lca, clock_merge, time_in, VectorClock};

verus! {

/// A replica: its id and the commit it stands on, over a shared store.
pub struct Replica {
    id: Id,
    latest_commit: Commit,
}

/// The list stored at `root`, where it reads back as distinct items.
pub open spec fn stored_list(store: &MemStore, root: u64) -> Option<Seq<u64>> {
    match resolved(store.objects_view(), store.refs_view(), root) {
        Ok(Some(s)) => if s.no_duplicates() {
            Some(s)
        } else {
            None
        },
        _ => None,
    }
}

/// The set stored at `root`: the items that it reads back as.
pub open spec fn stored_set(store: &MemStore, root: u64) -> Option<Set<u64>> {
    match resolved(store.objects_view(), store.refs_view(), root) {
        Ok(Some(s)) => Some(s.to_set()),
        _ => None,
    }
}

/// The head commit of `replica` in the store, if it has one.
pub open spec fn head_of(store: &MemStore, replica: Id) -> Option<Id> {
    if store.heads().contains_key(replica.0) {
        Some(Id(store.heads()[replica.0]))
    } else {
        None
    }
}

/// `after` is `before` with the fresh commit `c` of `replica` appended, its
/// parent the replica's head before, and the replica's head moved to it.
pub open spec fn committed(before: &MemStore, after: &MemStore, replica: Id, c: Commit) -> bool {
    &&& !has_commit(before.commits_view(), c.id)
    &&& c.parent_commit_id == head_of(before, replica)
    &&& after.commits_view().len() == before.commits_view().len() + 1
    &&& after.commits_view().drop_last() == before.commits_view()
    &&& same_commit(after.commits_view().last(), c)
    &&& after.heads() == before.heads().insert(replica.0, c.id.0)
}

/// The commits and heads are as they were.
pub open spec fn unchanged_commits(before: &MemStore, after: &MemStore) -> bool {
    after.commits_view() == before.commits_view() && after.heads() == before.heads()
}

/// A version advanced by one event of `id`.
pub open spec fn next_clock(v: Map<Id, Timestamp>, id: Id) -> Map<Id, Timestamp> {
    v.insert(id, Timestamp((time_in(v, id) + 1) as u32))
}

/// The head commit of another replica, where it has one that is stored.
pub open spec fn other_head(store: &MemStore, other: Id) -> Option<Commit> {
    if store.heads().contains_key(other.0) && has_commit(store.commits_view(), Id(store.heads()[other.0])) {
        Some(commit_of(store.commits_view(), Id(store.heads()[other.0])))
    } else {
        None
    }
}

/// The first commit at the common ancestor version of two commits.
pub open spec fn base_of(store: &MemStore, mine: Commit, head: Commit) -> Option<Commit> {
    match version_index(store.commits_view(), clock_lca(mine.version@, head.version@)) {
        Some(i) => Some(store.commits_view()[i]),
        None => None,
    }
}

/// The ancestor's, this replica's and the other replica's lists that a
/// merge reads, where all three can be read.
pub open spec fn list_inputs(store: &MemStore, mine: Commit, other: Id) -> Option<(Seq<u64>, Seq<u64>, Seq<u64>)> {
    match other_head(store, other) {
        None => None,
        Some(h) => match base_of(store, mine, h) {
            None => None,
            Some(b) => match (stored_list(store, b.root_ref), stored_list(store, mine.root_ref), stored_list(store, h.root_ref)) {
                (Some(l), Some(a), Some(t)) => Some((l, a, t)),
                _ => None,
            },
        },
    }
}

/// The ancestor's, this replica's and the other replica's sets that a
/// merge reads, where all three can be read.
pub open spec fn set_inputs(store: &MemStore, mine: Commit, other: Id) -> Option<(Set<u64>, Set<u64>, Set<u64>)> {
    match other_head(store, other) {
        None => None,
        Some(h) => match base_of(store, mine, h) {
            None => None,
            Some(b) => match (stored_set(store, b.root_ref), stored_set(store, mine.root_ref), stored_set(store, h.root_ref)) {
                (Some(l), Some(a), Some(t)) => Some((l, a, t)),
                _ => None,
            },
        },
    }
}

impl Replica {
    pub closed spec fn spec_id(&self) -> Id {
        self.id
    }

    pub closed spec fn spec_latest(&self) -> Commit {
        self.latest_commit
    }

    pub closed spec fn wf(&self) -> bool {
        self.latest_commit.version.wf()
    }

    /// A replica forked from the first commit of the store.
    pub fn clone(id: Id, store: &mut MemStore) -> (r: Result<Replica, StoreError>)
        requires
            old(store).wf(),
        ensures
            final(store).wf(),
            old(store).commits_view().len() == 0 ==> r == Err::<Replica, StoreError>(StoreError::NotFound),
            old(store).commits_view().len() > 0 ==> r.is_ok() && r.unwrap().spec_id() == id
                && same_commit(r.unwrap().spec_latest(), old(store).commits_view()[0]),
            r.is_ok() ==> r.unwrap().wf(),
    {
        proof {
            if store.commits_view().len() > 0 {
                store.lemma_commit_versions_wf(0);
            }
        }
        match store.clone(id) {
            Ok(c) => Ok(Replica { id, latest_commit: c }),
            Err(e) => Err(e),
        }
    }

    /// Returns the identifier of the replica.
    pub fn id(&self) -> (r: Id)
        ensures
            r == self.spec_id(),
    {
        self.id
    }

    /// Returns the latest commit of the replica.
    pub fn latest_commit(&self) -> (r: &Commit)
        ensures
            *r == self.spec_latest(),
    {
        &self.latest_commit
    }

    /// Returns the latest version of the replica.
    pub fn latest_version(&self) -> (r: &VectorClock)
        ensures
            *r == self.spec_latest().version,
    {
        &self.latest_commit.version
    }

    /// The items of the latest commit's object.
    pub fn latest_object(&self, store: &MemStore) -> (r: Result<Option<Vec<u64>>, StoreError>)
        requires
            store.wf(),
        ensures
            match r {
                Ok(Some(v)) => resolved(store.objects_view(), store.refs_view(), self.spec_latest().root_ref) == Ok::<Option<Seq<u64>>, StoreError>(Some(v@)),
                Ok(None) => resolved(store.objects_view(), store.refs_view(), self.spec_latest().root_ref) == Ok::<Option<Seq<u64>>, StoreError>(None),
                Err(e) => resolved(store.objects_view(), store.refs_view(), self.spec_latest().root_ref) == Err::<Option<Seq<u64>>, StoreError>(e),
            },
    {
        store.resolve_versioned(self.latest_commit.root_ref)
    }

    /// Commits a root ref with a version under the id `id`, and makes it
    /// the latest commit; refuses an id already taken.
    pub fn commit_with_id(&mut self, store: &mut MemStore, root_ref: u64, version: VectorClock, id: Id) -> (r: Result<Commit, StoreError>)
        requires
            old(store).wf(),
            old(self).wf(),
            version.wf(),
        ensures
            final(store).wf(),
            final(self).wf(),
            final(self).spec_id() == old(self).spec_id(),
            final(store).objects_view() == old(store).objects_view(),
            final(store).refs_view() == old(store).refs_view(),
            r.is_err() <==> has_commit(old(store).commits_view(), id),
            match r {
                Ok(c) => c.id == id && c.version@ == version@ && c.root_ref == root_ref
                    && committed(old(store), final(store), old(self).spec_id(), c)
                    && same_commit(final(self).spec_latest(), c),
                Err(_) => final(self).spec_latest() == old(self).spec_latest() && unchanged_commits(old(store), final(store)),
            },
    {
        let r = store.commit_with_id(self.id, version, root_ref, id);
        match r {
            Ok(c) => {
                proof {
                    store.lemma_commit_versions_wf((store.commits_view().len() - 1) as int);
                }
                self.latest_commit = c.duplicate();
                Ok(c)
            },
            Err(e) => Err(e),
        }
    }

    /// Commits a root ref with a version under a fresh random id, and makes
    /// it the latest commit. It fails only where the random id is taken.
    pub fn commit(&mut self, store: &mut MemStore, root_ref: u64, version: VectorClock) -> (r: Result<Commit, StoreError>)
        requires
            old(store).wf(),
            old(self).wf(),
            version.wf(),
        ensures
            final(store).wf(),
            final(self).wf(),
            final(self).spec_id() == old(self).spec_id(),
            final(store).objects_view() == old(store).objects_view(),
            final(store).refs_view() == old(store).refs_view(),
            old(store).commits_view().len() == 0 ==> r.is_ok(),
            match r {
                Ok(c) => c.version@ == version@ && c.root_ref == root_ref
                    && committed(old(store), final(store), old(self).spec_id(), c)
                    && same_commit(final(self).spec_latest(), c),
                Err(_) => final(self).spec_latest() == old(self).spec_latest() && unchanged_commits(old(store), final(store)),
            },
    {
        self.commit_with_id(store, root_ref, version, Id::gen())
    }

    /// The latest version advanced by one event of this replica.
    fn next_version(&self) -> (r: Option<VectorClock>)
        requires
            self.wf(),
        ensures
            time_in(self.spec_latest().version@, self.spec_id()) < u32::MAX ==> r.is_some() && r.unwrap().wf()
                && r.unwrap()@ == next_clock(self.spec_latest().version@, self.spec_id()),
            time_in(self.spec_latest().version@, self.spec_id()) >= u32::MAX ==> r.is_none(),
    {
        let mut version = self.latest_commit.version.duplicate();
        match version.time_of(self.id) {
            Some(t) => {
                if t.0 == u32::MAX {
                    return None;
                }
            },
            None => {},
        }
        version.inc(self.id);
        Some(version)
    }

    /// Stores the items as this replica's next commit `id`, one event later.
    /// Fails exactly where there are no items, the replica's own time is at
    /// its maximum, or `id` is taken.
    pub fn commit_object_with_id(&mut self, store: &mut MemStore, items: &Vec<u64>, id: Id) -> (r: Result<Commit, StoreError>)
        requires
            old(store).wf(),
            old(self).wf(),
        ensures
            final(store).wf(),
            final(self).wf(),
            final(self).spec_id() == old(self).spec_id(),
            r.is_err() <==> (items@.len() == 0 || time_in(old(self).spec_latest().version@, old(self).spec_id()) >= u32::MAX
                || has_commit(old(store).commits_view(), id)),
            items@.len() == 0 || time_in(old(self).spec_latest().version@, old(self).spec_id()) >= u32::MAX
                ==> r == Err::<Commit, StoreError>(StoreError::Invariant),
            match r {
                Ok(c) => c.id == id
                    && c.version@ == next_clock(old(self).spec_latest().version@, old(self).spec_id())
                    && committed(old(store), final(store), old(self).spec_id(), c)
                    && stores_items(final(store), items@, c.root_ref)
                    && same_commit(final(self).spec_latest(), c),
                Err(_) => final(self).spec_latest() == old(self).spec_latest() && unchanged_commits(old(store), final(store)),
            },
    {
        let version = match self.next_version() {
            Some(v) => v,
            None => {
                return Err(StoreError::Invariant);
            },
        };
        let ghost s1 = *store;
        let root = match store.insert_versioned(items) {
            Ok(root) => root,
            Err(e) => {
                return Err(e);
            },
        };
        let ghost s2 = *store;
        let r = self.commit_with_id(store, root, version, id);
        proof {
            if r.is_ok() {
                lemma_stores_items_kept(&s2, store, items@, root);
            }
        }
        r
    }

    /// Stores the items as this replica's next commit, one event later,
    /// under a fresh random id.
    pub fn commit_object(&mut self, store: &mut MemStore, items: &Vec<u64>) -> (r: Result<Commit, StoreError>)
        requires
            old(store).wf(),
            old(self).wf(),
        ensures
            final(store).wf(),
            final(self).wf(),
            final(self).spec_id() == old(self).spec_id(),
            items@.len() == 0 || time_in(old(self).spec_latest().version@, old(self).spec_id()) >= u32::MAX
                ==> r == Err::<Commit, StoreError>(StoreError::Invariant),
            items@.len() > 0 && time_in(old(self).spec_latest().version@, old(self).spec_id()) < u32::MAX
                && old(store).commits_view().len() == 0 ==> r.is_ok(),
            match r {
                Ok(c) => c.version@ == next_clock(old(self).spec_latest().version@, old(self).spec_id())
                    && committed(old(store), final(store), old(self).spec_id(), c)
                    && stores_items(final(store), items@, c.root_ref)
                    && same_commit(final(self).spec_latest(), c),
                Err(_) => final(self).spec_latest() == old(self).spec_latest() && unchanged_commits(old(store), final(store)),
            },
    {
        self.commit_object_with_id(store, items, Id::gen())
    }

    /// Merges the list of another replica's head into this replica's list,
    /// against the list committed at the common ancestor version, and commits
    /// the result under `id` with the pointwise maximum of the two versions.
    /// Fails exactly where one of the three lists cannot be read, the
    /// merged list is empty, or `id` is taken.
    pub fn merge_with_id(&mut self, store: &mut MemStore, other: Id, id: Id) -> (r: Result<(Commit, MrdtList), StoreError>)
        requires
            old(store).wf(),
            old(self).wf(),
        ensures
            final(store).wf(),
            final(self).wf(),
            final(self).spec_id() == old(self).spec_id(),
            match list_inputs(old(store), old(self).spec_latest(), other) {
                None => r.is_err(),
                Some((l, a, t)) => r.is_err() <==> (list_merge(l, a, t).len() == 0 || has_commit(old(store).commits_view(), id)),
            },
            match r {
                Ok((c, merged)) => {
                    &&& list_inputs(old(store), old(self).spec_latest(), other) is Some
                    &&& merged.wf()
                    &&& merged@ == list_merge(
                        list_inputs(old(store), old(self).spec_latest(), other).unwrap().0,
                        list_inputs(old(store), old(self).spec_latest(), other).unwrap().1,
                        list_inputs(old(store), old(self).spec_latest(), other).unwrap().2,
                    )
                    &&& c.id == id
                    &&& c.version@ == clock_merge(old(self).spec_latest().version@, other_head(old(store), other).unwrap().version@)
                    &&& committed(old(store), final(store), old(self).spec_id(), c)
                    &&& stores_items(final(store), merged@, c.root_ref)
                    &&& same_commit(final(self).spec_latest(), c)
                },
                Err(_) => final(self).spec_latest() == old(self).spec_latest() && unchanged_commits(old(store), final(store)),
            },
    {
        proof {
            store.lemma_wf();
        }
        let other_commit = match store.latest_commit_for_replica(other) {
            Ok(Some(c)) => c,
            Ok(None) => {
                return Err(StoreError::NotFound);
            },
            Err(e) => {
                return Err(e);
            },
        };
        let ghost head = other_head(&*store, other).unwrap();
        proof {
            store.lemma_commit_of_wf(Id(store.heads()[other.0]));
        }
        let mine = match read_list(store, self.latest_commit.root_ref) {
            Ok(l) => l,
            Err(e) => {
                return Err(e);
            },
        };
        let theirs = match read_list(store, other_commit.root_ref) {
            Ok(l) => l,
            Err(e) => {
                return Err(e);
            },
        };
        let lca_version = VectorClock::lca(&self.latest_commit.version, &other_commit.version);
        let lca_commit = match store.resolve_commit_for_version(&lca_version) {
            Ok(c) => c,
            Err(e) => {
                proof {
                    lemma_version_absent(store.commits_view(), lca_version);
                }
                return Err(e);
            },
        };
        proof {
            let i = lemma_version_found(store.commits_view(), lca_version, lca_commit);
        }
        let lca = match read_list(store, lca_commit.root_ref) {
            Ok(l) => l,
            Err(e) => {
                return Err(e);
            },
        };
        let merged = MrdtList::merge(&lca, &mine, &theirs);
        let items = merged.iter();
        let ghost s1 = *store;
        let root = match store.insert_versioned(&items) {
            Ok(root) => root,
            Err(e) => {
                return Err(e);
            },
        };
        let ghost s2 = *store;
        let version = VectorClock::merge(&self.latest_commit.version, &other_commit.version);
        match self.commit_with_id(store, root, version, id) {
            Ok(c) => {
                proof {
                    lemma_stores_items_kept(&s2, store, items@, root);
                }
                Ok((c, merged))
            },
            Err(e) => Err(e),
        }
    }

    /// Merges the list of another replica's head into this replica's list,
    /// committing the result under a fresh random id.
    pub fn merge_with(&mut self, store: &mut MemStore, other: Id) -> (r: Result<(Commit, MrdtList), StoreError>)
        requires
            old(store).wf(),
            old(self).wf(),
        ensures
            final(store).wf(),
            final(self).wf(),
            final(self).spec_id() == old(self).spec_id(),
            list_inputs(old(store), old(self).spec_latest(), other) is None ==> r.is_err(),
            match r {
                Ok((c, merged)) => {
                    &&& list_inputs(old(store), old(self).spec_latest(), other) is Some
                    &&& merged.wf()
                    &&& merged@ == list_merge(
                        list_inputs(old(store), old(self).spec_latest(), other).unwrap().0,
                        list_inputs(old(store), old(self).spec_latest(), other).unwrap().1,
                        list_inputs(old(store), old(self).spec_latest(), other).unwrap().2,
                    )
                    &&& c.version@ == clock_merge(old(self).spec_latest().version@, other_head(old(store), other).unwrap().version@)
                    &&& committed(old(store), final(store), old(self).spec_id(), c)
                    &&& stores_items(final(store), merged@, c.root_ref)
                    &&& same_commit(final(self).spec_latest(), c)
                },
                Err(_) => final(self).spec_latest() == old(self).spec_latest() && unchanged_commits(old(store), final(store)),
            },
    {
        self.merge_with_id(store, other, Id::gen())
    }

    /// Merges the set of another replica's head into this replica's set,
    /// against the set committed at the common ancestor version, and commits
    /// the result under `id` with the pointwise maximum of the two versions.
    /// Fails exactly where one of the three sets cannot be read, the
    /// merged set is empty, or `id` is taken.
    pub fn merge_set_with_id(&mut self, store: &mut MemStore, other: Id, id: Id) -> (r: Result<(Commit, MrdtSet), StoreError>)
        requires
            old(store).wf(),
            old(self).wf(),
        ensures
            final(store).wf(),
            final(self).wf(),
            final(self).spec_id() == old(self).spec_id(),
            match set_inputs(old(store), old(self).spec_latest(), other) {
                None => r.is_err(),
                Some((l, a, t)) => r.is_err() <==> (three_way(l, a, t).len() == 0 || has_commit(old(store).commits_view(), id)),
            },
            match r {
                Ok((c, merged)) => {
                    &&& set_inputs(old(store), old(self).spec_latest(), other) is Some
                    &&& merged.wf()
                    &&& merged@ == three_way(
                        set_inputs(old(store), old(self).spec_latest(), other).unwrap().0,
                        set_inputs(old(store), old(self).spec_latest(), other).unwrap().1,
                        set_inputs(old(store), old(self).spec_latest(), other).unwrap().2,
                    )
                    &&& c.id == id
                    &&& c.version@ == clock_merge(old(self).spec_latest().version@, other_head(old(store), other).unwrap().version@)
                    &&& committed(old(store), final(store), old(self).spec_id(), c)
                    &&& stores_items(final(store), merged.spec_items(), c.root_ref)
                    &&& same_commit(final(self).spec_latest(), c)
                },
                Err(_) => final(self).spec_latest() == old(self).spec_latest() && unchanged_commits(old(store), final(store)),
            },
    {
        proof {
            store.lemma_wf();
        }
        let other_commit = match store.latest_commit_for_replica(other) {
            Ok(Some(c)) => c,
            Ok(None) => {
                return Err(StoreError::NotFound);
            },
            Err(e) => {
                return Err(e);
            },
        };
        let ghost head = other_head(&*store, other).unwrap();
        proof {
            store.lemma_commit_of_wf(Id(store.heads()[other.0]));
        }
        let mine = match read_set(store, self.latest_commit.root_ref) {
            Ok(l) => l,
            Err(e) => {
                return Err(e);
            },
        };
        let theirs = match read_set(store, other_commit.root_ref) {
            Ok(l) => l,
            Err(e) => {
                return Err(e);
            },
        };
        let lca_version = VectorClock::lca(&self.latest_commit.version, &other_commit.version);
        let lca_commit = match store.resolve_commit_for_version(&lca_version) {
            Ok(c) => c,
            Err(e) => {
                proof {
                    lemma_version_absent(store.commits_view(), lca_version);
                }
                return Err(e);
            },
        };
        proof {
            let i = lemma_version_found(store.commits_view(), lca_version, lca_commit);
        }
        let lca = match read_set(store, lca_commit.root_ref) {
            Ok(l) => l,
            Err(e) => {
                return Err(e);
            },
        };
        let merged = MrdtSet::merge(&lca, &mine, &theirs);
        proof {
            merged.lemma_wf_items();
        }
        let items = merged.iter();
        let ghost s1 = *store;
        let root = match store.insert_versioned(&items) {
            Ok(root) => root,
            Err(e) => {
                return Err(e);
            },
        };
        let ghost s2 = *store;
        let version = VectorClock::merge(&self.latest_commit.version, &other_commit.version);
        match self.commit_with_id(store, root, version, id) {
            Ok(c) => {
                proof {
                    lemma_stores_items_kept(&s2, store, items@, root);
                }
                Ok((c, merged))
            },
            Err(e) => Err(e),
        }
    }

    /// Merges the set of another replica's head into this replica's set,
    /// committing the result under a fresh random id.
    pub fn merge_set_with(&mut self, store: &mut MemStore, other: Id) -> (r: Result<(Commit, MrdtSet), StoreError>)
        requires
            old(store).wf(),
            old(self).wf(),
        ensures
            final(store).wf(),
            final(self).wf(),
            final(self).spec_id() == old(self).spec_id(),
            set_inputs(old(store), old(self).spec_latest(), other) is None ==> r.is_err(),
            match r {
                Ok((c, merged)) => {
                    &&& set_inputs(old(store), old(self).spec_latest(), other) is Some
                    &&& merged.wf()
                    &&& merged@ == three_way(
                        set_inputs(old(store), old(self).spec_latest(), other).unwrap().0,
                        set_inputs(old(store), old(self).spec_latest(), other).unwrap().1,
                        set_inputs(old(store), old(self).spec_latest(), other).unwrap().2,
                    )
                    &&& c.version@ == clock_merge(old(self).spec_latest().version@, other_head(old(store), other).unwrap().version@)
                    &&& committed(old(store), final(store), old(self).spec_id(), c)
                    &&& stores_items(final(store), merged.spec_items(), c.root_ref)
                    &&& same_commit(final(self).spec_latest(), c)
                },
                Err(_) => final(self).spec_latest() == old(self).spec_latest() && unchanged_commits(old(store), final(store)),
            },
    {
        self.merge_set_with_id(store, other, Id::gen())
    }

}

/// The set stored at `root`.
fn read_set(store: &MemStore, root: u64) -> (r: Result<MrdtSet, StoreError>)
    requires
        store.wf(),
    ensures
        match r {
            Ok(s) => s.wf() && stored_set(store, root) == Some(s@),
            Err(_) => stored_set(store, root).is_none(),
        },
{
    match store.resolve_versioned(root) {
        Ok(Some(items)) => Ok(MrdtSet::from_vec(items)),
        Ok(None) => Err(StoreError::NotFound),
        Err(e) => Err(e),
    }
}

/// The list stored at `root`.
fn read_list(store: &MemStore, root: u64) -> (r: Result<MrdtList, StoreError>)
    requires
        store.wf(),
    ensures
        match r {
            Ok(l) => l.wf() && stored_list(store, root) == Some(l@),
            Err(_) => stored_list(store, root).is_none(),
        },
{
    match store.resolve_versioned(root) {
        Ok(Some(items)) => match MrdtList::from_items(&items) {
            Some(l) => {
                proof {
                    l.lemma_wf();
                }
                Ok(l)
            },
            None => Err(StoreError::Invariant),
        },
        Ok(None) => Err(StoreError::NotFound),
        Err(e) => Err(e),
    }
}

} // verus!
