//! Mergeable replicated data types: three-way merges of sets, ordered
//! sequences, lists and queues, vector clocks, and the versioned store
//! that records them as chains of content-addressed refs.

pub mod id;
pub mod list;
pub mod ord;
pub mod queue;
pub mod refs;
pub mod replica;
pub mod set;
pub mod store;
pub mod vector_clock;

pub use id::{Id, Timestamp};
pub use list::MrdtList;
pub use ord::{map_to_ordering, toposort, MrdtOrd};
pub use queue::MrdtQueue;
pub use refs::{chain_refs, Commit, Ref, TableCounts};
pub use replica::Replica;
pub use store::{object_ref, MemStore, StoreError};
pub use set::MrdtSet;
pub use vector_clock::VectorClock;

use vstd::prelude::*;

verus! {

/// A value that merges three-way against a common ancestor.
pub trait Mergeable<T> {
    spec fn well_formed(v: &T) -> bool;

    fn merge(lca: &T, left: &T, right: &T) -> (r: T)
        requires
            Self::well_formed(lca),
            Self::well_formed(left),
            Self::well_formed(right),
        ensures
            Self::well_formed(&r),
    ;
}

} // verus!
