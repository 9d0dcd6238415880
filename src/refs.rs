use vstd::prelude::*;

use crate::id::Id;
use crate::vector_clock::VectorClock;

verus! {

broadcast use vstd::seq_lib::group_seq_properties;

/// The digest that std's `DefaultHasher`, with its fixed keys, gives a
/// sequence of words.
pub uninterp spec fn word_digest(words: Seq<u64>) -> u64;

/// Relies on `BuildHasher::hash_one` over `BuildHasherDefault<DefaultHasher>`:
/// every hasher it builds starts from the same fixed keys, so the digest
/// depends on the words alone.
#[verifier::external_body]
pub(crate) fn digest_words(words: &[u64]) -> (r: u64)
    ensures
        r == word_digest(words@),
{
    std::hash::BuildHasher::hash_one(&std::hash::BuildHasherDefault::<std::hash::DefaultHasher>::default(), words)
}

/// The words that identify a ref: its object, then its links where present.
pub open spec fn ref_words(object_ref: u64, left: Option<u64>, right: Option<u64>) -> Seq<u64> {
    seq![object_ref] + (match left {
        Some(l) => seq![l],
        None => Seq::empty(),
    }) + (match right {
        Some(r) => seq![r],
        None => Seq::empty(),
    })
}

/// A node of a persistent linked list of objects, addressed by its content.
#[derive(Clone, Copy, Debug, PartialEq, Eq, Structural, Hash)]
pub struct Ref {
    pub id: u64,
    pub left: Option<u64>,
    pub right: Option<u64>,
    pub object_ref: u64,
}

impl Ref {
    /// The ref of an object with its links; its id is the digest of them.
    pub fn compute(object_ref: u64, left: Option<u64>, right: Option<u64>) -> (r: Ref)
        ensures
            r.id == word_digest(ref_words(object_ref, left, right)),
            r.left == left,
            r.right == right,
            r.object_ref == object_ref,
    {
        let mut words: Vec<u64> = Vec::new();
        words.push(object_ref);
        match left {
            Some(l) => words.push(l),
            None => {},
        }
        match right {
            Some(x) => words.push(x),
            None => {},
        }
        let id = digest_words(words.as_slice());
        proof {
            assert(words@ =~= ref_words(object_ref, left, right));
        }
        Ref { id, left, right, object_ref }
    }
}

/// The refs that chain `objects` from first to last: each links left to the
/// one before it, and the last is the root.
pub open spec fn is_chain(objects: Seq<u64>, refs: Seq<Ref>) -> bool {
    &&& refs.len() == objects.len()
    &&& forall|i: int|
        0 <= i < refs.len() ==> {
            &&& (#[trigger] refs[i]).object_ref == objects[i]
            &&& refs[i].right.is_none()
            &&& refs[i].left == (if i == 0 {
                None
            } else {
                Some(refs[i - 1].id)
            })
            &&& refs[i].id == word_digest(ref_words(objects[i], refs[i].left, None))
        }
}

/// The chain of refs over the given object refs, in order.
pub fn chain_refs(objects: &Vec<u64>) -> (refs: Vec<Ref>)
    ensures
        is_chain(objects@, refs@),
{
    let mut refs: Vec<Ref> = Vec::new();
    let mut prev: Option<u64> = None;
    let mut i: usize = 0;
    while i < objects.len()
        invariant
            i <= objects@.len(),
            is_chain(objects@.subrange(0, i as int), refs@),
            prev == (if i == 0 {
                None
            } else {
                Some(refs@[i - 1].id)
            }),
        decreases objects@.len() - i,
    {
        let r = Ref::compute(objects[i], prev, None);
        let ghost r0 = refs@;
        refs.push(r);
        prev = Some(r.id);
        proof {
            assert forall|k: int| 0 <= k < refs@.len() implies {
                &&& (#[trigger] refs@[k]).object_ref == objects@.subrange(0, i + 1)[k]
                &&& refs@[k].right.is_none()
                &&& refs@[k].left == (if k == 0 {
                    None
                } else {
                    Some(refs@[k - 1].id)
                })
                &&& refs@[k].id == word_digest(ref_words(objects@.subrange(0, i + 1)[k], refs@[k].left, None))
            } by {
                if k < i {
                    assert(refs@[k] == r0[k]);
                    assert(objects@.subrange(0, i as int)[k] == objects@.subrange(0, i + 1)[k]);
                }
            }
        }
        i += 1;
    }
    proof {
        assert(objects@.subrange(0, i as int) =~= objects@);
    }
    refs
}

/// A commit of a replica: a version, the root of its object, and the commit
/// before it.
#[derive(Clone, Debug)]
pub struct Commit {
    pub id: Id,
    pub version: VectorClock,
    pub root_ref: u64,
    pub parent_commit_id: Option<Id>,
}

impl Commit {
    /// A copy of the commit.
    pub fn duplicate(&self) -> (r: Commit)
        ensures
            same_commit(r, *self),
    {
        Commit {
            id: self.id,
            version: self.version.duplicate(),
            root_ref: self.root_ref,
            parent_commit_id: self.parent_commit_id,
        }
    }
}

/// The same commit: equal fields, the version as a map and as entries.
pub open spec fn same_commit(a: Commit, b: Commit) -> bool {
    &&& a.id == b.id
    &&& a.version@ == b.version@
    &&& a.version.spec_entries() == b.version.spec_entries()
    &&& a.version.wf() == b.version.wf()
    &&& a.root_ref == b.root_ref
    &&& a.parent_commit_id == b.parent_commit_id
}

/// How many rows each table of a store holds.
#[derive(Clone, Copy, Debug, PartialEq, Eq, Structural)]
pub struct TableCounts {
    pub commits: u64,
    pub objects: u64,
    pub refs: u64,
    pub replicas: u64,
}

} // verus!
