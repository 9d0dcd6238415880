use std::collections::HashMap;

use vstd::prelude::*;

use crate::set::{three_way, MrdtSet};

verus! {

broadcast use {vstd::seq_lib::group_seq_properties, vstd::std_specs::hash::group_hash_axioms};

/// The nodes that a relation mentions, on either side of a pair.
pub open spec fn nodes_of(rel: Set<(u64, u64)>) -> Set<u64> {
    Set::new(|v: u64| exists|p: (u64, u64)| rel.contains(p) && (p.0 == v || p.1 == v))
}

/// `v` is left to place and none of its predecessors is.
pub open spec fn is_ready(rel: Set<(u64, u64)>, rest: Set<u64>, v: u64) -> bool {
    &&& rest.contains(v)
    &&& forall|u: u64| #[trigger] rel.contains((u, v)) ==> !rest.contains(u)
}

/// What is left to place once the first `i` nodes of `out` are placed.
pub open spec fn rest_after(rel: Set<(u64, u64)>, out: Seq<u64>, i: int) -> Set<u64> {
    nodes_of(rel).difference(out.subrange(0, i).to_set())
}

/// No node left is ready: a cycle blocks what is left.
pub open spec fn none_ready(rel: Set<(u64, u64)>, rest: Set<u64>) -> bool {
    !exists|w: u64| is_ready(rel, rest, w)
}

/// Before the `i`-th placement, a cycle had already left no node ready.
pub open spec fn blocked_before(rel: Set<(u64, u64)>, out: Seq<u64>, i: int) -> bool {
    exists|j: int| 0 <= j < i && #[trigger] none_ready(rel, rest_after(rel, out, j))
}

/// The node placed next: the least ready node; once a cycle has left no
/// node ready, the least node left, so that what remains follows in
/// ascending order.
pub open spec fn greedy_choice(rel: Set<(u64, u64)>, rest: Set<u64>, blocked: bool, v: u64) -> bool {
    if !blocked && !none_ready(rel, rest) {
        &&& is_ready(rel, rest, v)
        &&& forall|w: u64| is_ready(rel, rest, w) ==> v <= w
    } else {
        &&& rest.contains(v)
        &&& forall|w: u64| rest.contains(w) ==> v <= w
    }
}

/// `out` places every node of `rel` once, each by the greedy choice.
pub open spec fn is_topo_order(rel: Set<(u64, u64)>, out: Seq<u64>) -> bool {
    &&& out.no_duplicates()
    &&& out.to_set() == nodes_of(rel)
    &&& forall|i: int|
        0 <= i < out.len() ==> greedy_choice(
            rel,
            rest_after(rel, out, i),
            blocked_before(rel, out, i),
            #[trigger] out[i],
        )
}

/// Every node of `out` was placed by the greedy choice.
#[verifier::opaque]
pub open spec fn greedy_prefix(rel: Set<(u64, u64)>, out: Seq<u64>) -> bool {
    forall|i: int|
        0 <= i < out.len() ==> greedy_choice(
            rel,
            rest_after(rel, out, i),
            blocked_before(rel, out, i),
            #[trigger] out[i],
        )
}

pub open spec fn strictly_increasing(s: Seq<u64>) -> bool {
    forall|i: int, j: int| 0 <= i < j < s.len() ==> s[i] < s[j]
}

/// Relies on `slice::sort_unstable`: ascending order, same elements.
#[verifier::external_body]
fn sort_ascending(v: &mut Vec<u64>)
    ensures
        final(v)@.len() == old(v)@.len(),
        forall|i: int, j: int| 0 <= i <= j < final(v)@.len() ==> final(v)@[i] <= final(v)@[j],
        forall|x: u64| final(v)@.contains(x) <==> old(v)@.contains(x),
{
    v.sort_unstable();
}

/// The distinct values of `v`, ascending.
pub(crate) fn sorted_distinct(v: Vec<u64>) -> (r: Vec<u64>)
    ensures
        strictly_increasing(r@),
        forall|x: u64| r@.contains(x) <==> v@.contains(x),
{
    let mut s = v;
    sort_ascending(&mut s);
    let mut r: Vec<u64> = Vec::new();
    let mut i: usize = 0;
    while i < s.len()
        invariant
            i <= s.len(),
            forall|a: int, b: int| 0 <= a <= b < s@.len() ==> s@[a] <= s@[b],
            forall|x: u64| s@.contains(x) <==> v@.contains(x),
            strictly_increasing(r@),
            forall|x: u64| r@.contains(x) <==> s@.subrange(0, i as int).contains(x),
            r@.len() > 0 ==> i > 0 && r@[r@.len() - 1] == s@[i - 1],
        decreases s.len() - i,
    {
        let ghost r0 = r@;
        let x = s[i];
        if r.len() == 0 || r[r.len() - 1] < x {
            r.push(x);
        } else {
            assert(r0[r0.len() - 1] == x);
        }
        proof {
            assert(s@.subrange(0, i + 1) =~= s@.subrange(0, i as int).push(x));
            if r@.len() > r0.len() {
                assert(r@ == r0.push(x));
            }
        }
        i += 1;
    }
    proof {
        assert(s@.subrange(0, s@.len() as int) =~= s@);
    }
    r
}


/// The graph of a relation over the ranks of its nodes: `ns` holds the nodes
/// ascending, `succ[r]` and `preds[r]` the ranks of the successors and the
/// predecessors of `ns[r]`.
pub open spec fn graph_ok(
    rel: Set<(u64, u64)>,
    ns: Seq<u64>,
    succ: Seq<Vec<usize>>,
    preds: Seq<Vec<usize>>,
) -> bool {
    &&& strictly_increasing(ns)
    &&& forall|v: u64| ns.contains(v) <==> nodes_of(rel).contains(v)
    &&& succ.len() == ns.len()
    &&& preds.len() == ns.len()
    &&& forall|r: int, j: int|
        0 <= r < ns.len() && 0 <= j < succ[r]@.len() ==> (#[trigger] succ[r]@[j]) < ns.len()
            && rel.contains((ns[r], ns[succ[r]@[j] as int]))
    &&& forall|r: int, j: int|
        0 <= r < ns.len() && 0 <= j < preds[r]@.len() ==> (#[trigger] preds[r]@[j]) < ns.len()
            && rel.contains((ns[preds[r]@[j] as int], ns[r]))
    &&& forall|a: int, b: int|
        0 <= a < ns.len() && 0 <= b < ns.len() && #[trigger] rel.contains((ns[a], ns[b]))
            ==> succ[a]@.contains(b as usize) && preds[b]@.contains(a as usize)
}

/// The position of `x` in the ascending `ns`.
fn rank_of(ns: &Vec<u64>, x: u64) -> (r: usize)
    requires
        strictly_increasing(ns@),
        ns@.contains(x),
    ensures
        r < ns@.len(),
        ns@[r as int] == x,
{
    let mut lo: usize = 0;
    let mut hi: usize = ns.len();
    while lo + 1 < hi
        invariant
            strictly_increasing(ns@),
            0 <= lo < hi <= ns@.len(),
            exists|k: int| lo <= k < hi && ns@[k] == x,
        decreases hi - lo,
    {
        let mid = lo + (hi - lo) / 2;
        if ns[mid] <= x {
            lo = mid;
        } else {
            hi = mid;
        }
    }
    lo
}

fn empty_lists(n: usize) -> (v: Vec<Vec<usize>>)
    ensures
        v@.len() == n,
        forall|r: int| 0 <= r < n ==> (#[trigger] v@[r])@.len() == 0,
{
    let mut v: Vec<Vec<usize>> = Vec::new();
    for i in 0..n
        invariant
            v@.len() == i,
            forall|r: int| 0 <= r < i ==> (#[trigger] v@[r])@.len() == 0,
    {
        v.push(Vec::new());
    }
    v
}

fn flags(n: usize) -> (v: Vec<bool>)
    ensures
        v@.len() == n,
        forall|r: int| 0 <= r < n ==> !(#[trigger] v@[r]),
{
    let mut v: Vec<bool> = Vec::new();
    for i in 0..n
        invariant
            v@.len() == i,
            forall|r: int| 0 <= r < i ==> !(#[trigger] v@[r]),
    {
        v.push(false);
    }
    v
}

fn push_at(lists: &mut Vec<Vec<usize>>, r: usize, x: usize)
    requires
        r < old(lists)@.len(),
    ensures
        final(lists)@ == old(lists)@.update(r as int, final(lists)@[r as int]),
        final(lists)@[r as int]@ == old(lists)@[r as int]@.push(x),
{
    let mut inner: Vec<usize> = Vec::new();
    lists.set_and_swap(r, &mut inner);
    inner.push(x);
    lists.set_and_swap(r, &mut inner);
}

fn build_graph(pairs: &Vec<(u64, u64)>) -> (g: (Vec<u64>, Vec<Vec<usize>>, Vec<Vec<usize>>))
    ensures
        graph_ok(pairs@.to_set(), g.0@, g.1@, g.2@),
{
    let ghost rel = pairs@.to_set();
    let mut ends: Vec<u64> = Vec::new();
    for k in 0..pairs.len()
        invariant
            forall|v: u64|
                ends@.contains(v) <==> exists|i: int|
                    0 <= i < k && (pairs@[i].0 == v || pairs@[i].1 == v),
    {
        let (a, b) = pairs[k];
        ends.push(a);
        ends.push(b);
        proof {
            assert forall|v: u64|
                ends@.contains(v) <==> exists|i: int|
                    0 <= i < k + 1 && (pairs@[i].0 == v || pairs@[i].1 == v) by {
                if v == a || v == b {
                    assert(pairs@[k as int].0 == v || pairs@[k as int].1 == v);
                }
            }
        }
    }
    let ns = sorted_distinct(ends);
    proof {
        assert forall|v: u64| ns@.contains(v) <==> nodes_of(rel).contains(v) by {
            if ns@.contains(v) {
                let i = choose|i: int|
                    0 <= i < pairs@.len() && (pairs@[i].0 == v || pairs@[i].1 == v);
                assert(rel.contains(pairs@[i]));
            }
            if nodes_of(rel).contains(v) {
                let p = choose|p: (u64, u64)| rel.contains(p) && (p.0 == v || p.1 == v);
                let i = choose|i: int| 0 <= i < pairs@.len() && pairs@[i] == p;
                assert(0 <= i < pairs@.len() && (pairs@[i].0 == v || pairs@[i].1 == v));
            }
        }
    }
    let n = ns.len();
    let mut succ = empty_lists(n);
    let mut preds = empty_lists(n);
    let mut k: usize = 0;
    while k < pairs.len()
        invariant
            k <= pairs@.len(),
            n == ns@.len(),
            strictly_increasing(ns@),
            forall|v: u64| ns@.contains(v) <==> nodes_of(rel).contains(v),
            rel == pairs@.to_set(),
            succ@.len() == n,
            preds@.len() == n,
            forall|r: int, j: int|
                0 <= r < n && 0 <= j < succ@[r]@.len() ==> (#[trigger] succ@[r]@[j]) < n
                    && pairs@.subrange(0, k as int).contains((ns@[r], ns@[succ@[r]@[j] as int])),
            forall|r: int, j: int|
                0 <= r < n && 0 <= j < preds@[r]@.len() ==> (#[trigger] preds@[r]@[j]) < n
                    && pairs@.subrange(0, k as int).contains((ns@[preds@[r]@[j] as int], ns@[r])),
            forall|a: int, b: int|
                0 <= a < n && 0 <= b < n && #[trigger] pairs@.subrange(0, k as int).contains(
                    (ns@[a], ns@[b]),
                ) ==> succ@[a]@.contains(b as usize) && preds@[b]@.contains(a as usize),
        decreases pairs@.len() - k,
    {
        let (a, b) = pairs[k];
        proof {
            assert(rel.contains(pairs@[k as int]));
            assert(nodes_of(rel).contains(a));
            assert(nodes_of(rel).contains(b));
        }
        let ra = rank_of(&ns, a);
        let rb = rank_of(&ns, b);
        let ghost s0 = succ@;
        let ghost p0 = preds@;
        push_at(&mut succ, ra, rb);
        push_at(&mut preds, rb, ra);
        proof {
            let pre = pairs@.subrange(0, k as int);
            let post = pairs@.subrange(0, k + 1);
            assert(post =~= pre.push((a, b)));
            assert forall|r: int, j: int|
                0 <= r < n && 0 <= j < succ@[r]@.len() implies (#[trigger] succ@[r]@[j]) < n
                    && post.contains((ns@[r], ns@[succ@[r]@[j] as int])) by {
                if r == ra && j == s0[r]@.len() {
                } else {
                    assert(succ@[r]@[j] == s0[r]@[j]);
                }
            }
            assert forall|r: int, j: int|
                0 <= r < n && 0 <= j < preds@[r]@.len() implies (#[trigger] preds@[r]@[j]) < n
                    && post.contains((ns@[preds@[r]@[j] as int], ns@[r])) by {
                if r == rb && j == p0[r]@.len() {
                } else {
                    assert(preds@[r]@[j] == p0[r]@[j]);
                }
            }
            assert forall|x: int, y: int|
                0 <= x < n && 0 <= y < n && #[trigger] post.contains((ns@[x], ns@[y])) implies succ@[
                x]@.contains(y as usize) && preds@[y]@.contains(x as usize) by {
                if ns@[x] == a && ns@[y] == b {
                    assert(x == ra as int) by {
                        if x < ra { assert(ns@[x] < ns@[ra as int]); }
                        if x > ra { assert(ns@[ra as int] < ns@[x]); }
                    }
                    assert(y == rb as int) by {
                        if y < rb { assert(ns@[y] < ns@[rb as int]); }
                        if y > rb { assert(ns@[rb as int] < ns@[y]); }
                    }
                    assert(succ@[x]@[s0[x]@.len() as int] == y as usize);
                    assert(preds@[y]@[p0[y]@.len() as int] == x as usize);
                } else {
                    assert(pre.contains((ns@[x], ns@[y])));
                    assert(s0[x]@.contains(y as usize));
                    assert(p0[y]@.contains(x as usize));
                    let j = choose|j: int| 0 <= j < s0[x]@.len() && s0[x]@[j] == y as usize;
                    assert(succ@[x]@[j] == y as usize);
                    let i = choose|i: int| 0 <= i < p0[y]@.len() && p0[y]@[i] == x as usize;
                    assert(preds@[y]@[i] == x as usize);
                }
            }
        }
        k += 1;
    }
    proof {
        assert(pairs@.subrange(0, pairs@.len() as int) =~= pairs@);
    }
    (ns, succ, preds)
}


proof fn lemma_placed_bound(out: Seq<u64>, ns: Seq<u64>)
    requires
        out.no_duplicates(),
        ns.no_duplicates(),
        forall|i: int| 0 <= i < out.len() ==> ns.contains(#[trigger] out[i]),
    ensures
        out.len() <= ns.len(),
        out.len() == ns.len() ==> forall|r: int| 0 <= r < ns.len() ==> out.contains(#[trigger] ns[r]),
        out.len() < ns.len() ==> exists|r: int| 0 <= r < ns.len() && !out.contains(#[trigger] ns[r]),
{
    broadcast use vstd::seq_lib::seq_to_set_is_finite;

    out.unique_seq_to_set();
    ns.unique_seq_to_set();
    assert(out.to_set().subset_of(ns.to_set()));
    vstd::set_lib::lemma_len_subset(out.to_set(), ns.to_set());
    if out.len() == ns.len() {
        vstd::set_lib::lemma_subset_equality(out.to_set(), ns.to_set());
        assert forall|r: int| 0 <= r < ns.len() implies out.contains(#[trigger] ns[r]) by {
            assert(ns.to_set().contains(ns[r]));
        }
    }
    if out.len() < ns.len() {
        if forall|r: int| 0 <= r < ns.len() ==> out.contains(#[trigger] ns[r]) {
            assert(ns.to_set().subset_of(out.to_set())) by {
                assert forall|v: u64| ns.to_set().contains(v) implies out.to_set().contains(v) by {
                    let r = choose|r: int| 0 <= r < ns.len() && ns[r] == v;
                    assert(out.contains(ns[r]));
                }
            }
            vstd::set_lib::lemma_len_subset(ns.to_set(), out.to_set());
        }
    }
}

/// Every predecessor listed in `ps` is placed.
pub open spec fn all_placed(ps: Seq<usize>, done: Seq<bool>) -> bool {
    forall|j: int| 0 <= j < ps.len() ==> done[#[trigger] ps[j] as int]
}

fn preds_placed(ps: &Vec<usize>, done: &Vec<bool>) -> (b: bool)
    requires
        forall|j: int| 0 <= j < ps@.len() ==> (#[trigger] ps@[j]) < done@.len(),
    ensures
        b == all_placed(ps@, done@),
{
    let mut j: usize = 0;
    while j < ps.len()
        invariant
            j <= ps@.len(),
            forall|i: int| 0 <= i < ps@.len() ==> (#[trigger] ps@[i]) < done@.len(),
            forall|i: int| 0 <= i < j ==> done@[#[trigger] ps@[i] as int],
        decreases ps@.len() - j,
    {
        if !done[ps[j]] {
            return false;
        }
        j += 1;
    }
    true
}

pub open spec fn strictly_decreasing(s: Seq<usize>) -> bool {
    forall|i: int, j: int| 0 <= i < j < s.len() ==> s[i] > s[j]
}

/// Inserts `v` into the descending `ready`, which does not hold it.
fn insert_descending(ready: &mut Vec<usize>, v: usize)
    requires
        strictly_decreasing(old(ready)@),
        !old(ready)@.contains(v),
    ensures
        strictly_decreasing(final(ready)@),
        forall|x: usize| final(ready)@.contains(x) <==> (old(ready)@.contains(x) || x == v),
{
    let mut p: usize = 0;
    while p < ready.len() && ready[p] > v
        invariant
            p <= ready@.len(),
            forall|i: int| 0 <= i < p ==> ready@[i] > v,
        decreases ready@.len() - p,
    {
        p += 1;
    }
    let ghost r0 = ready@;
    ready.insert(p, v);
    proof {
        assert(ready@ =~= r0.subrange(0, p as int).push(v) + r0.subrange(p as int, r0.len() as int));
        if p < r0.len() {
            assert(r0[p as int] != v);
            assert(r0[p as int] < v);
        }
        assert forall|x: usize| ready@.contains(x) <==> (r0.contains(x) || x == v) by {
            if r0.contains(x) {
                let i = choose|i: int| 0 <= i < r0.len() && r0[i] == x;
                if i < p {
                    assert(ready@[i] == x);
                } else {
                    assert(ready@[i + 1] == x);
                }
            }
            if ready@.contains(x) && x != v {
                let i = choose|i: int| 0 <= i < ready@.len() && ready@[i] == x;
                if i < p {
                    assert(r0[i] == x);
                } else {
                    assert(r0[i - 1] == x);
                }
            }
            if x == v {
                assert(ready@[p as int] == v);
            }
        }
    }
}

/// The ready list: descending ranks, exactly those flagged as queued, each
/// one unplaced with all its predecessors placed.
pub open spec fn queue_ok(
    n: nat,
    preds: Seq<Vec<usize>>,
    done: Seq<bool>,
    queued: Seq<bool>,
    ready: Seq<usize>,
) -> bool {
    &&& n <= usize::MAX
    &&& preds.len() == n
    &&& done.len() == n
    &&& queued.len() == n
    &&& strictly_decreasing(ready)
    &&& forall|i: int| 0 <= i < ready.len() ==> #[trigger] ready[i] < n
    &&& forall|x: int| 0 <= x < n ==> (#[trigger] queued[x] <==> ready.contains(x as usize))
    &&& forall|x: int|
        0 <= x < n && #[trigger] queued[x] ==> !done[x] && all_placed(preds[x]@, done)
    &&& forall|x: int, j: int|
        0 <= x < n && 0 <= j < preds[x]@.len() ==> (#[trigger] preds[x]@[j]) < n
}

/// Every unplaced rank whose predecessors are all placed is queued.
pub open spec fn queue_complete(n: nat, preds: Seq<Vec<usize>>, done: Seq<bool>, queued: Seq<bool>) -> bool {
    forall|x: int| 0 <= x < n && !done[x] && all_placed(preds[x]@, done) ==> #[trigger] queued[x]
}

/// What the ranks say of what is left: ranks stand for the nodes, the
/// unplaced ranks for what is left, and the ready ones for its ready nodes.
pub open spec fn ranks_match(
    rel: Set<(u64, u64)>,
    ns: Seq<u64>,
    preds: Seq<Vec<usize>>,
    done: Seq<bool>,
    rest: Set<u64>,
) -> bool {
    &&& forall|w: u64| rest.contains(w) ==> exists|x: int| 0 <= x < ns.len() && ns[x] == w
    &&& forall|x: int| 0 <= x < ns.len() ==> (rest.contains(#[trigger] ns[x]) <==> !done[x])
    &&& forall|x: int|
        0 <= x < ns.len() ==> (is_ready(rel, rest, #[trigger] ns[x]) <==> !done[x] && all_placed(
            preds[x]@,
            done,
        ))
}

/// Removes the least rank of the ready list.
fn pop_least(
    n: usize,
    preds: &Vec<Vec<usize>>,
    done: &Vec<bool>,
    queued: &mut Vec<bool>,
    ready: &mut Vec<usize>,
) -> (m: usize)
    requires
        n == done@.len(),
        queue_ok(n as nat, preds@, done@, old(queued)@, old(ready)@),
        old(ready)@.len() > 0,
    ensures
        m == old(ready)@[old(ready)@.len() - 1],
        m < n,
        old(queued)@[m as int],
        forall|i: int| 0 <= i < old(ready)@.len() ==> m <= #[trigger] old(ready)@[i],
        queue_ok(n as nat, preds@, done@.update(m as int, true), final(queued)@, final(ready)@),
        forall|x: int| 0 <= x < n && x != m ==> #[trigger] final(queued)@[x] == old(queued)@[x],
{
    let ghost r0 = ready@;
    let ghost f0 = queued@;
    let m = ready.pop().unwrap();
    proof {
        assert(r0[r0.len() - 1] == m);
        assert(r0.contains(m));
        assert(ready@ == r0.drop_last());
        assert forall|i: int| 0 <= i < r0.len() implies m <= #[trigger] r0[i] by {
            if i < r0.len() - 1 {
                assert(r0[i] > r0[r0.len() - 1]);
            }
        }
        assert forall|x: int| 0 <= x < n && x != m implies (f0[x] <==> ready@.contains(
            x as usize,
        )) by {
            if r0.contains(x as usize) {
                let i = choose|i: int| 0 <= i < r0.len() && r0[i] == x as usize;
                assert(ready@[i] == x as usize);
            }
        }
        assert(!ready@.contains(m)) by {
            if ready@.contains(m) {
                let i = choose|i: int| 0 <= i < ready@.len() && ready@[i] == m;
                assert(r0[i] > r0[r0.len() - 1]);
            }
        }
    }
    queued.set(m, false);
    proof {
        let d1 = done@.update(m as int, true);
        assert forall|x: int| 0 <= x < n && #[trigger] queued@[x] implies !d1[x] && all_placed(
            preds@[x]@,
            d1,
        ) by {
            assert(f0[x]);
            assert forall|j: int| 0 <= j < preds@[x]@.len() implies d1[#[trigger] preds@[x]@[j] as int] by {
                assert(done@[preds@[x]@[j] as int]);
            }
        }
        assert forall|i: int| 0 <= i < ready@.len() implies #[trigger] ready@[i] < n by {
            assert(ready@[i] == r0[i]);
        }
    }
    m
}

/// The least unplaced rank, from `lo` on.
fn least_unplaced(done: &Vec<bool>, lo: &mut usize) -> (m: usize)
    requires
        *old(lo) <= done@.len(),
        forall|x: int| 0 <= x < *old(lo) ==> #[trigger] done@[x],
        exists|x: int| 0 <= x < done@.len() && !(#[trigger] done@[x]),
    ensures
        m == *final(lo),
        m < done@.len(),
        !done@[m as int],
        forall|x: int| 0 <= x < m ==> #[trigger] done@[x],
{
    let n = done.len();
    while done[*lo]
        invariant
            n == done@.len(),
            *lo < done@.len(),
            exists|x: int| *lo <= x < done@.len() && !(#[trigger] done@[x]),
            forall|x: int| 0 <= x < *lo ==> #[trigger] done@[x],
        decreases done@.len() - *lo,
    {
        *lo += 1;
    }
    *lo
}

proof fn lemma_least_ready(
    rel: Set<(u64, u64)>,
    ns: Seq<u64>,
    preds: Seq<Vec<usize>>,
    done: Seq<bool>,
    queued: Seq<bool>,
    ready: Seq<usize>,
    rest: Set<u64>,
    m: usize,
)
    requires
        strictly_increasing(ns),
        ranks_match(rel, ns, preds, done, rest),
        queue_ok(ns.len(), preds, done, queued, ready),
        queue_complete(ns.len(), preds, done, queued),
        ready.len() > 0,
        m == ready[ready.len() - 1],
        forall|i: int| 0 <= i < ready.len() ==> m <= #[trigger] ready[i],
    ensures
        !none_ready(rel, rest),
        greedy_choice(rel, rest, false, ns[m as int]),
{
    assert(ready.contains(m));
    assert(queued[m as int]);
    assert(is_ready(rel, rest, ns[m as int]));
    assert forall|w: u64| is_ready(rel, rest, w) implies ns[m as int] <= w by {
        let rw = choose|rw: int| 0 <= rw < ns.len() && ns[rw] == w;
        assert(queued[rw]);
        let i = choose|i: int| 0 <= i < ready.len() && ready[i] == rw as usize;
        assert(m <= ready[i]);
        if m < rw {
            assert(ns[m as int] < ns[rw]);
        }
    }
}

proof fn lemma_nothing_ready(
    rel: Set<(u64, u64)>,
    ns: Seq<u64>,
    preds: Seq<Vec<usize>>,
    done: Seq<bool>,
    queued: Seq<bool>,
    ready: Seq<usize>,
    rest: Set<u64>,
)
    requires
        ranks_match(rel, ns, preds, done, rest),
        queue_ok(ns.len(), preds, done, queued, ready),
        queue_complete(ns.len(), preds, done, queued),
        ready.len() == 0,
    ensures
        none_ready(rel, rest),
{
    assert forall|w: u64| !is_ready(rel, rest, w) by {
        if is_ready(rel, rest, w) {
            let rw = choose|rw: int| 0 <= rw < ns.len() && ns[rw] == w;
            assert(queued[rw]);
            assert(ready.contains(rw as usize));
        }
    }
}

proof fn lemma_least_left(
    rel: Set<(u64, u64)>,
    ns: Seq<u64>,
    preds: Seq<Vec<usize>>,
    done: Seq<bool>,
    rest: Set<u64>,
    blocked: bool,
    m: usize,
)
    requires
        strictly_increasing(ns),
        ranks_match(rel, ns, preds, done, rest),
        blocked || none_ready(rel, rest),
        m < ns.len(),
        !done[m as int],
        forall|x: int| 0 <= x < m ==> #[trigger] done[x],
    ensures
        greedy_choice(rel, rest, blocked, ns[m as int]),
{
    assert(rest.contains(ns[m as int]));
    assert forall|w: u64| rest.contains(w) implies ns[m as int] <= w by {
        let rw = choose|rw: int| 0 <= rw < ns.len() && ns[rw] == w;
        assert(!done[rw]);
        if rw < m {
            assert(ns[rw] < ns[m as int]);
        }
    }
}

/// The rank placed next, by the greedy choice, taken off the ready list.
#[verifier::spinoff_prover]
fn pick(
    Ghost(rel): Ghost<Set<(u64, u64)>>,
    ns: &Vec<u64>,
    preds: &Vec<Vec<usize>>,
    done: &Vec<bool>,
    queued: &mut Vec<bool>,
    ready: &mut Vec<usize>,
    lo: &mut usize,
    stuck: &mut bool,
    Ghost(out): Ghost<Seq<u64>>,
) -> (m: usize)
    requires
        strictly_increasing(ns@),
        ns@.len() == done@.len(),
        ranks_match(rel, ns@, preds@, done@, rest_after(rel, out, out.len() as int)),
        !*old(stuck) ==> queue_ok(ns@.len(), preds@, done@, old(queued)@, old(ready)@),
        !*old(stuck) ==> queue_complete(ns@.len(), preds@, done@, old(queued)@),
        forall|x: int| 0 <= x < ns@.len() ==> (#[trigger] done@[x] <==> out.contains(ns@[x])),
        out.no_duplicates(),
        forall|i: int| 0 <= i < out.len() ==> ns@.contains(#[trigger] out[i]),
        out.len() < ns@.len(),
        *old(lo) <= ns@.len(),
        forall|x: int| 0 <= x < *old(lo) ==> #[trigger] done@[x],
    ensures
        m < ns@.len(),
        !done@[m as int],
        greedy_choice(rel, rest_after(rel, out, out.len() as int), *old(stuck), ns@[m as int]),
        *final(stuck) == (*old(stuck) || none_ready(rel, rest_after(rel, out, out.len() as int))),
        !*final(stuck) ==> queue_ok(ns@.len(), preds@, done@.update(m as int, true), final(queued)@, final(ready)@),
        !*final(stuck) ==> forall|x: int| 0 <= x < ns@.len() && x != m ==> #[trigger] final(queued)@[x] == old(queued)@[x],
        *final(lo) <= ns@.len(),
        forall|x: int| 0 <= x < *final(lo) ==> #[trigger] done@[x],
{
    let ghost rest = rest_after(rel, out, out.len() as int);
    let n = ns.len();
    if !*stuck && ready.len() > 0 {
        let ghost r0 = ready@;
        let ghost q0 = queued@;
        let m = pop_least(n, preds, done, queued, ready);
        proof {
            lemma_least_ready(rel, ns@, preds@, done@, q0, r0, rest, m);
        }
        m
    } else {
        proof {
            if !*stuck {
                lemma_nothing_ready(rel, ns@, preds@, done@, queued@, ready@, rest);
            }
            strictly_increasing_no_dup(ns@);
            lemma_placed_bound(out, ns@);
            let x = choose|x: int| 0 <= x < n && !out.contains(#[trigger] ns@[x]);
            assert(!done@[x]);
        }
        let ghost stuck0 = *stuck;
        let m = least_unplaced(done, lo);
        proof {
            lemma_least_left(rel, ns@, preds@, done@, rest, stuck0, m);
        }
        *stuck = true;
        m
    }
}

/// Queues those of `succ_m` that the placing of their predecessor has made ready.
fn release(
    succ_m: &Vec<usize>,
    preds: &Vec<Vec<usize>>,
    done: &Vec<bool>,
    queued: &mut Vec<bool>,
    ready: &mut Vec<usize>,
)
    requires
        queue_ok(done@.len() as nat, preds@, done@, old(queued)@, old(ready)@),
        forall|j: int| 0 <= j < succ_m@.len() ==> (#[trigger] succ_m@[j]) < done@.len(),
        forall|x: int|
            0 <= x < done@.len() && !done@[x] && all_placed(preds@[x]@, done@) ==> #[trigger] old(
                queued,
            )@[x] || succ_m@.contains(x as usize),
    ensures
        queue_ok(done@.len() as nat, preds@, done@, final(queued)@, final(ready)@),
        queue_complete(done@.len() as nat, preds@, done@, final(queued)@),
{
    let ghost n = done@.len() as nat;
    let mut j: usize = 0;
    while j < succ_m.len()
        invariant
            n == done@.len(),
            j <= succ_m@.len(),
            queue_ok(n, preds@, done@, queued@, ready@),
            forall|i: int| 0 <= i < succ_m@.len() ==> (#[trigger] succ_m@[i]) < n,
            forall|x: int|
                0 <= x < n && !done@[x] && all_placed(preds@[x]@, done@) ==> #[trigger] queued@[x]
                    || succ_m@.subrange(j as int, succ_m@.len() as int).contains(x as usize),
        decreases succ_m@.len() - j,
    {
        let v = succ_m[j];
        if !done[v] && !queued[v] && preds_placed(&preds[v], done) {
            let ghost r0 = ready@;
            let ghost q0 = queued@;
            assert(!r0.contains(v));
            insert_descending(ready, v);
            queued.set(v, true);
            proof {
                assert forall|i: int| 0 <= i < ready@.len() implies #[trigger] ready@[i] < n by {
                    assert(ready@.contains(ready@[i]));
                    if ready@[i] != v {
                        let k = choose|k: int| 0 <= k < r0.len() && r0[k] == ready@[i];
                    }
                }
                assert forall|x: int| 0 <= x < n implies (#[trigger] queued@[x] <==> ready@.contains(
                    x as usize,
                )) by {
                    if x != v {
                        assert(queued@[x] == q0[x]);
                    }
                }
            }
        }
        proof {
            let tail = succ_m@.subrange(j + 1, succ_m@.len() as int);
            assert(succ_m@.subrange(j as int, succ_m@.len() as int) =~= seq![v].add(tail));
            assert forall|x: int|
                0 <= x < n && !done@[x] && all_placed(preds@[x]@, done@) && x != v implies #[trigger] queued@[x]
                    || tail.contains(x as usize) by {
                if !queued@[x] {
                    let s0 = succ_m@.subrange(j as int, succ_m@.len() as int);
                    assert(s0.contains(x as usize));
                    let k = choose|k: int| 0 <= k < s0.len() && s0[k] == x as usize;
                    assert(k != 0);
                    assert(tail[k - 1] == x as usize);
                }
            }
        }
        j += 1;
    }
    proof {
        assert(succ_m@.subrange(succ_m@.len() as int, succ_m@.len() as int).len() == 0);
    }
}

/// The nodes of `pairs` in topological order: at each step the least node
/// (in the order of `u64`) none of whose predecessors is left; once a cycle
/// leaves no such node, the nodes left follow in ascending order. The
/// result depends on the set of pairs alone.
#[verifier::rlimit(50)]
#[verifier::spinoff_prover]
pub fn toposort(pairs: &Vec<(u64, u64)>) -> (out: Vec<u64>)
    ensures
        is_topo_order(pairs@.to_set(), out@),
{
    let ghost rel = pairs@.to_set();
    let (ns, succ, preds) = build_graph(pairs);
    let n = ns.len();
    let mut done = flags(n);
    let mut queued = flags(n);
    let mut ready: Vec<usize> = Vec::new();
    let mut r: usize = n;
    while r > 0
        invariant
            r <= n,
            graph_ok(rel, ns@, succ@, preds@),
            n == ns@.len(),
            forall|x: int| 0 <= x < n ==> !done@[x],
            queue_ok(n as nat, preds@, done@, queued@, ready@),
            forall|i: int| 0 <= i < ready@.len() ==> r <= #[trigger] ready@[i],
            forall|x: int|
                r <= x < n && all_placed(preds@[x]@, done@) ==> #[trigger] queued@[x],
        decreases r,
    {
        r -= 1;
        if preds_placed(&preds[r], &done) {
            let ghost q0 = ready@;
            let ghost f0 = queued@;
            ready.push(r);
            queued.set(r, true);
            proof {
                assert forall|x: int| 0 <= x < n implies (#[trigger] queued@[x] <==> ready@.contains(
                    x as usize,
                )) by {
                    if x == r {
                        assert(ready@[q0.len() as int] == r);
                    } else {
                        assert(queued@[x] == f0[x]);
                        if ready@.contains(x as usize) {
                            let i = choose|i: int| 0 <= i < ready@.len() && ready@[i] == x as usize;
                            assert(q0[i] == x as usize);
                        }
                    }
                }
            }
        }
    }
    let mut out: Vec<u64> = Vec::new();
    let mut lo: usize = 0;
    let mut stuck = false;
    proof {
        assert(!blocked_before(rel, out@, 0));
        reveal(greedy_prefix);
    }
    while out.len() < n
        invariant
            graph_ok(rel, ns@, succ@, preds@),
            n == ns@.len(),
            done@.len() == n,
            !stuck ==> queue_ok(n as nat, preds@, done@, queued@, ready@),
            !stuck ==> queue_complete(n as nat, preds@, done@, queued@),
            stuck == blocked_before(rel, out@, out@.len() as int),
            forall|x: int| 0 <= x < n ==> (#[trigger] done@[x] <==> out@.contains(ns@[x])),
            out@.no_duplicates(),
            forall|i: int| 0 <= i < out@.len() ==> ns@.contains(#[trigger] out@[i]),
            out@.len() <= n,
            lo <= n,
            forall|x: int| 0 <= x < lo ==> #[trigger] done@[x],
            greedy_prefix(rel, out@),
        decreases n - out@.len(),
    {
        let ghost o0 = out@;
        let ghost d0 = done@;
        let ghost rest = rest_after(rel, o0, o0.len() as int);
        let ghost stuck0 = stuck;
        proof {
            assert(o0.subrange(0, o0.len() as int) =~= o0);
            ready_matches(rel, ns@, preds@, d0, o0, rest);
        }
        let ghost q_before = queued@;
        let m = pick(Ghost(rel), &ns, &preds, &done, &mut queued, &mut ready, &mut lo, &mut stuck, Ghost(o0));
        done.set(m, true);
        out.push(ns[m]);
        proof {
            assert(greedy_choice(rel, rest, stuck0, ns@[m as int]));
            assert(out@ == o0.push(ns@[m as int]));
            assert(stuck == (stuck0 || none_ready(rel, rest)));
            lemma_extend(rel, o0, ns@[m as int], stuck0, stuck);
            lemma_mark(ns@, d0, o0, m as int);
            if !stuck {
                lemma_newly_ready(rel, ns@, succ@, preds@, d0, q_before, queued@, m as int);
            }
        }
        if !stuck {
            release(&succ[m], &preds, &done, &mut queued, &mut ready);
        }
        proof {
            lemma_placed_bound(out@, ns@);
        }
    }
    proof {
        reveal(greedy_prefix);
        strictly_increasing_no_dup(ns@);
        lemma_placed_bound(out@, ns@);
        assert forall|v: u64| out@.to_set().contains(v) <==> nodes_of(rel).contains(v) by {
            if nodes_of(rel).contains(v) {
                assert(ns@.contains(v));
                let x = choose|x: int| 0 <= x < n && ns@[x] == v;
                assert(out@.contains(ns@[x]));
            }
        }
        assert(out@.to_set() =~= nodes_of(rel));
    }
    out
}

proof fn strictly_increasing_no_dup(s: Seq<u64>)
    requires
        strictly_increasing(s),
    ensures
        s.no_duplicates(),
{
    assert forall|i: int, j: int| 0 <= i < s.len() && 0 <= j < s.len() && i != j implies s[i]
        != s[j] by {
        if i < j {
            assert(s[i] < s[j]);
        } else {
            assert(s[j] < s[i]);
        }
    }
}

/// Placing one more node by the greedy choice keeps every placement greedy.
proof fn lemma_extend(rel: Set<(u64, u64)>, o0: Seq<u64>, v: u64, stuck0: bool, stuck: bool)
    requires
        stuck0 == blocked_before(rel, o0, o0.len() as int),
        stuck == (stuck0 || none_ready(rel, rest_after(rel, o0, o0.len() as int))),
        greedy_choice(rel, rest_after(rel, o0, o0.len() as int), stuck0, v),
        greedy_prefix(rel, o0),
    ensures
        stuck == blocked_before(rel, o0.push(v), o0.len() as int + 1),
        greedy_prefix(rel, o0.push(v)),
{
    reveal(greedy_prefix);
    let out = o0.push(v);
    assert forall|j: int| 0 <= j <= o0.len() implies #[trigger] rest_after(rel, out, j) == rest_after(rel, o0, j) by {
        assert(out.subrange(0, j) =~= o0.subrange(0, j));
    }
    assert forall|i: int| 0 <= i <= o0.len() implies blocked_before(rel, out, i) == blocked_before(rel, o0, i) by {
        if blocked_before(rel, o0, i) {
            let j = choose|j: int| 0 <= j < i && #[trigger] none_ready(rel, rest_after(rel, o0, j));
            assert(rest_after(rel, out, j) == rest_after(rel, o0, j));
        }
        if blocked_before(rel, out, i) {
            let j = choose|j: int| 0 <= j < i && #[trigger] none_ready(rel, rest_after(rel, out, j));
            assert(rest_after(rel, out, j) == rest_after(rel, o0, j));
        }
    }
    let n0 = o0.len() as int;
    assert(stuck == blocked_before(rel, out, n0 + 1)) by {
        assert(rest_after(rel, out, n0) == rest_after(rel, o0, n0));
        if stuck && !stuck0 {
            assert(none_ready(rel, rest_after(rel, out, n0)));
        }
        if stuck0 {
            let j = choose|j: int| 0 <= j < n0 && #[trigger] none_ready(rel, rest_after(rel, o0, j));
            assert(rest_after(rel, out, j) == rest_after(rel, o0, j));
        }
        if blocked_before(rel, out, n0 + 1) && !stuck0 {
            let j = choose|j: int| 0 <= j < n0 + 1 && #[trigger] none_ready(rel, rest_after(rel, out, j));
            if j < n0 {
                assert(rest_after(rel, out, j) == rest_after(rel, o0, j));
                assert(blocked_before(rel, o0, n0));
            }
        }
    }
    assert forall|i: int| 0 <= i < n0 + 1 implies greedy_choice(
        rel,
        rest_after(rel, out, i),
        blocked_before(rel, out, i),
        #[trigger] out[i],
    ) by {
        if i < n0 {
            assert(out[i] == o0[i]);
        }
    }
}

/// Placing the node of rank `m` marks exactly that rank.
proof fn lemma_mark(ns: Seq<u64>, done: Seq<bool>, out: Seq<u64>, m: int)
    requires
        strictly_increasing(ns),
        done.len() == ns.len(),
        0 <= m < ns.len(),
        forall|x: int| 0 <= x < ns.len() ==> (#[trigger] done[x] <==> out.contains(ns[x])),
    ensures
        forall|x: int| 0 <= x < ns.len() ==> (#[trigger] done.update(m, true)[x] <==> out.push(ns[m]).contains(ns[x])),
{
    assert forall|x: int| 0 <= x < ns.len() implies (#[trigger] done.update(m, true)[x] <==> out.push(ns[m]).contains(ns[x])) by {
        if x != m {
            if ns[x] == ns[m] {
                if x < m {
                    assert(ns[x] < ns[m]);
                }
                if x > m {
                    assert(ns[m] < ns[x]);
                }
            }
        }
    }
}

/// Once `m` is placed, a rank whose predecessors are all placed is queued
/// already or is a successor of `m`.
proof fn lemma_newly_ready(
    rel: Set<(u64, u64)>,
    ns: Seq<u64>,
    succ: Seq<Vec<usize>>,
    preds: Seq<Vec<usize>>,
    d0: Seq<bool>,
    q0: Seq<bool>,
    queued: Seq<bool>,
    m: int,
)
    requires
        graph_ok(rel, ns, succ, preds),
        ns.len() <= usize::MAX,
        d0.len() == ns.len(),
        0 <= m < ns.len(),
        queue_complete(ns.len(), preds, d0, q0),
        forall|x: int| 0 <= x < ns.len() && x != m ==> #[trigger] queued[x] == q0[x],
    ensures
        forall|x: int|
            0 <= x < ns.len() && !d0.update(m, true)[x] && all_placed(preds[x]@, d0.update(m, true)) ==> #[trigger] queued[x]
                || succ[m]@.contains(x as usize),
{
    let d1 = d0.update(m, true);
    assert forall|x: int|
        0 <= x < ns.len() && !d1[x] && all_placed(preds[x]@, d1) implies #[trigger] queued[x]
            || succ[m]@.contains(x as usize) by {
        if !succ[m]@.contains(x as usize) {
            assert forall|j: int| 0 <= j < preds[x]@.len() implies d0[#[trigger] preds[x]@[j] as int] by {
                let p = preds[x]@[j] as int;
                if p == m {
                    assert(rel.contains((ns[m], ns[x])));
                }
            }
            assert(q0[x]);
        }
    }
}

/// Ties the ranks that are not placed, and those whose predecessors are
/// all placed, to what is left and what is ready.
proof fn ready_matches(
    rel: Set<(u64, u64)>,
    ns: Seq<u64>,
    preds: Seq<Vec<usize>>,
    done: Seq<bool>,
    out: Seq<u64>,
    rest: Set<u64>,
)
    requires
        strictly_increasing(ns),
        forall|v: u64| ns.contains(v) <==> nodes_of(rel).contains(v),
        ns.len() <= usize::MAX,
        preds.len() == ns.len(),
        done.len() == ns.len(),
        forall|r: int, j: int|
            0 <= r < ns.len() && 0 <= j < preds[r]@.len() ==> (#[trigger] preds[r]@[j]) < ns.len()
                && rel.contains((ns[preds[r]@[j] as int], ns[r])),
        forall|a: int, b: int|
            0 <= a < ns.len() && 0 <= b < ns.len() && #[trigger] rel.contains((ns[a], ns[b]))
                ==> preds[b]@.contains(a as usize),
        forall|x: int| 0 <= x < ns.len() ==> (#[trigger] done[x] <==> out.contains(ns[x])),
        rest == nodes_of(rel).difference(out.to_set()),
    ensures
        ranks_match(rel, ns, preds, done, rest),
{
    assert forall|w: u64| rest.contains(w) implies exists|x: int| 0 <= x < ns.len() && ns[x] == w by {
        assert(ns.contains(w));
    }
    assert forall|x: int| 0 <= x < ns.len() implies (rest.contains(#[trigger] ns[x]) <==> !done[x]) by {
        assert(ns.contains(ns[x]));
    }
    assert forall|x: int| 0 <= x < ns.len() implies (is_ready(rel, rest, #[trigger] ns[x]) <==> !done[x]
        && all_placed(preds[x]@, done)) by {
        assert(ns.contains(ns[x]));
        if is_ready(rel, rest, ns[x]) {
            assert forall|j: int| 0 <= j < preds[x]@.len() implies done[#[trigger] preds[x]@[j] as int] by {
                let p = preds[x]@[j] as int;
                assert(rel.contains((ns[p], ns[x])));
                assert(ns.contains(ns[p]));
            }
        }
        if !done[x] && all_placed(preds[x]@, done) {
            assert forall|u: u64| #[trigger] rel.contains((u, ns[x])) implies !rest.contains(u) by {
                assert(nodes_of(rel).contains(u));
                assert(ns.contains(u));
                let a = choose|a: int| 0 <= a < ns.len() && ns[a] == u;
                assert(rel.contains((ns[a], ns[x])));
                assert(preds[x]@.contains(a as usize));
                let j = choose|j: int| 0 <= j < preds[x]@.len() && preds[x]@[j] == a as usize;
                assert(done[preds[x]@[j] as int]);
            }
        }
    }
}


/// Two greedy orders of one relation are the same order.
pub proof fn lemma_topo_order_unique(rel: Set<(u64, u64)>, t1: Seq<u64>, t2: Seq<u64>)
    requires
        is_topo_order(rel, t1),
        is_topo_order(rel, t2),
    ensures
        t1 == t2,
{
    t1.unique_seq_to_set();
    t2.unique_seq_to_set();
    assert(t1.len() == t2.len());
    assert forall|i: int| 0 <= i < t1.len() implies t1[i] == t2[i] by {
        lemma_topo_prefix(rel, t1, t2, i);
        assert(t1.subrange(0, i + 1)[i] == t2.subrange(0, i + 1)[i]);
    }
    assert(t1 =~= t2);
}

proof fn lemma_topo_prefix(rel: Set<(u64, u64)>, t1: Seq<u64>, t2: Seq<u64>, i: int)
    requires
        is_topo_order(rel, t1),
        is_topo_order(rel, t2),
        t1.len() == t2.len(),
        0 <= i < t1.len(),
    ensures
        t1.subrange(0, i + 1) == t2.subrange(0, i + 1),
    decreases i,
{
    if i > 0 {
        lemma_topo_prefix(rel, t1, t2, i - 1);
    }
    assert(t1.subrange(0, i) =~= t2.subrange(0, i)) by {
        if i > 0 {
            assert(t1.subrange(0, i) =~= t1.subrange(0, i - 1 + 1));
            assert(t2.subrange(0, i) =~= t2.subrange(0, i - 1 + 1));
        }
    }
    assert forall|j: int| 0 <= j <= i implies #[trigger] rest_after(rel, t1, j) == rest_after(rel, t2, j) by {
        assert(t1.subrange(0, j) =~= t2.subrange(0, j)) by {
            assert forall|k: int| 0 <= k < j implies t1.subrange(0, j)[k] == t2.subrange(0, j)[k] by {
                assert(t1.subrange(0, i)[k] == t2.subrange(0, i)[k]);
            }
        }
    }
    assert(blocked_before(rel, t1, i) == blocked_before(rel, t2, i)) by {
        if blocked_before(rel, t1, i) {
            let j = choose|j: int| 0 <= j < i && #[trigger] none_ready(rel, rest_after(rel, t1, j));
            assert(rest_after(rel, t1, j) == rest_after(rel, t2, j));
        }
        if blocked_before(rel, t2, i) {
            let j = choose|j: int| 0 <= j < i && #[trigger] none_ready(rel, rest_after(rel, t2, j));
            assert(rest_after(rel, t1, j) == rest_after(rel, t2, j));
        }
    }
    let rest = rest_after(rel, t1, i);
    let blocked = blocked_before(rel, t1, i);
    assert(greedy_choice(rel, rest, blocked, t1[i]));
    assert(greedy_choice(rel, rest, blocked, t2[i]));
    assert(t1[i] <= t2[i] && t2[i] <= t1[i]);
    assert(t1.subrange(0, i + 1) =~= t2.subrange(0, i + 1)) by {
        assert forall|k: int| 0 <= k < i + 1 implies #[trigger] t1.subrange(0, i + 1)[k] == t2.subrange(0, i + 1)[k] by {
            if k < i {
                assert(t1.subrange(0, i)[k] == t2.subrange(0, i)[k]);
            }
        }
    }
}

/// The greedy order of a relation.
pub open spec fn topo_order(rel: Set<(u64, u64)>) -> Seq<u64> {
    choose|t: Seq<u64>| is_topo_order(rel, t)
}

/// The elements of a finite set, ascending.
pub open spec fn ascending(s: Set<u64>) -> Seq<u64> {
    choose|t: Seq<u64>| strictly_increasing(t) && t.to_set() == s
}

proof fn lemma_ascending_unique(t1: Seq<u64>, t2: Seq<u64>)
    requires
        strictly_increasing(t1),
        strictly_increasing(t2),
        t1.to_set() == t2.to_set(),
    ensures
        t1 == t2,
    decreases t1.len(),
{
    if t1.len() == 0 {
        if t2.len() > 0 {
            assert(t2.to_set().contains(t2[0]));
        }
    } else if t2.len() == 0 {
        assert(t1.to_set().contains(t1[0]));
    } else {
        assert(t1.to_set().contains(t2[0]));
        assert(t2.to_set().contains(t1[0]));
        let a = choose|k: int| 0 <= k < t1.len() && t1[k] == t2[0];
        let b = choose|k: int| 0 <= k < t2.len() && t2[k] == t1[0];
        if a > 0 { assert(t1[0] < t1[a]); }
        if b > 0 { assert(t2[0] < t2[b]); }
        assert(t1[0] == t2[0]);
        let r1 = t1.drop_first();
        let r2 = t2.drop_first();
        assert(r1.to_set() =~= r2.to_set()) by {
            assert forall|v: u64| r1.to_set().contains(v) implies r2.to_set().contains(v) by {
                let k = choose|k: int| 0 <= k < r1.len() && r1[k] == v;
                assert(t1[k + 1] == v);
                assert(t2.to_set().contains(v));
                let j = choose|j: int| 0 <= j < t2.len() && t2[j] == v;
                assert(t1[0] < t1[k + 1]);
                assert(j != 0);
                assert(r2[j - 1] == v);
            }
            assert forall|v: u64| r2.to_set().contains(v) implies r1.to_set().contains(v) by {
                let k = choose|k: int| 0 <= k < r2.len() && r2[k] == v;
                assert(t2[k + 1] == v);
                assert(t1.to_set().contains(v));
                let j = choose|j: int| 0 <= j < t1.len() && t1[j] == v;
                assert(t2[0] < t2[k + 1]);
                assert(j != 0);
                assert(r1[j - 1] == v);
            }
        }
        lemma_ascending_unique(r1, r2);
        assert(t1 =~= t2) by {
            assert forall|k: int| 0 <= k < t1.len() implies t1[k] == t2[k] by {
                if k > 0 {
                    assert(t1[k] == r1[k - 1]);
                    assert(t2[k] == r2[k - 1]);
                }
            }
        }
    }
}

/// The successor relation of a sequence: each element with the one after it.
pub open spec fn succ_rel(s: Seq<u64>) -> Set<(u64, u64)> {
    Set::new(|p: (u64, u64)| exists|i: int| 0 <= i < s.len() - 1 && #[trigger] s[i] == p.0 && s[i + 1] == p.1)
}

/// The relation that the merge orders: the three-way merge of the three
/// successor relations.
pub open spec fn merged_rel(lca: Seq<u64>, left: Seq<u64>, right: Seq<u64>) -> Set<(u64, u64)> {
    three_way(succ_rel(lca), succ_rel(left), succ_rel(right))
}

pub open spec fn member_of(mem: Set<u64>) -> spec_fn(u64) -> bool {
    |v: u64| mem.contains(v)
}

/// The merged order: the greedy order of the merged relation, kept to the
/// members, then the members that the relation does not mention, ascending.
pub open spec fn merged_order(lca: Seq<u64>, left: Seq<u64>, right: Seq<u64>, mem: Set<u64>) -> Seq<u64> {
    let rel = merged_rel(lca, left, right);
    topo_order(rel).filter(member_of(mem)) + ascending(mem.difference(nodes_of(rel)))
}

/// Position of each element of a duplicate-free sequence.
fn position_map(s: &Vec<u64>) -> (m: HashMap<u64, usize>)
    requires
        s@.no_duplicates(),
    ensures
        forall|i: int| 0 <= i < s@.len() ==> m@.contains_key(#[trigger] s@[i]) && m@[s@[i]] == i,
        forall|v: u64| m@.contains_key(v) ==> s@.contains(v),
{
    let mut m: HashMap<u64, usize> = HashMap::new();
    let mut i: usize = 0;
    while i < s.len()
        invariant
            i <= s@.len(),
            s@.no_duplicates(),
            forall|k: int| 0 <= k < i ==> m@.contains_key(#[trigger] s@[k]) && m@[s@[k]] == k,
            forall|v: u64| m@.contains_key(v) ==> s@.subrange(0, i as int).contains(v),
        decreases s@.len() - i,
    {
        m.insert(s[i], i);
        proof {
            assert(s@.subrange(0, i + 1) =~= s@.subrange(0, i as int).push(s@[i as int]));
        }
        i += 1;
    }
    proof {
        assert(s@.subrange(0, i as int) =~= s@);
    }
    m
}

/// Whether `y` follows `x` directly in `s`.
fn adjacent(s: &Vec<u64>, m: &HashMap<u64, usize>, x: u64, y: u64) -> (b: bool)
    requires
        s@.no_duplicates(),
        forall|i: int| 0 <= i < s@.len() ==> m@.contains_key(#[trigger] s@[i]) && m@[s@[i]] == i,
        forall|v: u64| m@.contains_key(v) ==> s@.contains(v),
    ensures
        b == succ_rel(s@).contains((x, y)),
{
    match m.get(&x) {
        Some(i) => {
            let i = *i;
            proof {
                assert(m@.contains_key(x) && m@[x] == i);
                assert(s@.contains(x));
                let k = choose|k: int| 0 <= k < s@.len() && s@[k] == x;
                assert(m@[s@[k]] == k);
                assert(i < s@.len());
            }
            let n = s.len();
            let b = i + 1 < n && s[i + 1] == y;
            proof {
                if succ_rel(s@).contains((x, y)) {
                    let k = choose|k: int| 0 <= k < s@.len() - 1 && #[trigger] s@[k] == x && s@[k + 1] == y;
                    assert(m@[s@[k]] == k);
                }
            }
            b
        },
        None => {
            proof {
                if succ_rel(s@).contains((x, y)) {
                    let k = choose|k: int| 0 <= k < s@.len() - 1 && #[trigger] s@[k] == x && s@[k + 1] == y;
                    assert(m@.contains_key(s@[k]));
                }
            }
            false
        },
    }
}

/// The pairs of the merged relation, each once.
#[verifier::loop_isolation(false)]
fn merged_pairs(lca: &Vec<u64>, left: &Vec<u64>, right: &Vec<u64>) -> (u: Vec<(u64, u64)>)
    requires
        lca@.no_duplicates(),
        left@.no_duplicates(),
        right@.no_duplicates(),
    ensures
        u@.to_set() == merged_rel(lca@, left@, right@),
{
    let ml = position_map(lca);
    let ma = position_map(left);
    let mb = position_map(right);
    let ghost rl = succ_rel(lca@);
    let ghost ra = succ_rel(left@);
    let ghost rb = succ_rel(right@);
    let mut u: Vec<(u64, u64)> = Vec::new();
    let mut i: usize = 1;
    while i < left.len()
        invariant
            1 <= i,
            i <= left@.len() || i == 1,
            forall|p: (u64, u64)|
                #![trigger u@.contains(p)]
                u@.contains(p) <==> (exists|k: int| 0 <= k < i - 1 && #[trigger] left@[k] == p.0 && left@[k + 1] == p.1)
                    && (!rl.contains(p) || rb.contains(p)),
        decreases left@.len() - i,
    {
        let x = left[i - 1];
        let y = left[i];
        let p = (x, y);
        let in_l = adjacent(lca, &ml, x, y);
        let in_r = adjacent(right, &mb, x, y);
        let keep = !in_l || in_r;
        let ghost u0 = u@;
        if keep {
            u.push(p);
        }
        proof {
            assert forall|q: (u64, u64)|
                u@.contains(q) <==> (exists|k: int| 0 <= k < i && #[trigger] left@[k] == q.0 && left@[k + 1] == q.1)
                    && (!rl.contains(q) || rb.contains(q)) by {
                let old_ex = exists|k: int| 0 <= k < i - 1 && #[trigger] left@[k] == q.0 && left@[k + 1] == q.1;
                let new_ex = exists|k: int| 0 <= k < i && #[trigger] left@[k] == q.0 && left@[k + 1] == q.1;
                if new_ex {
                    let k = choose|k: int| 0 <= k < i && #[trigger] left@[k] == q.0 && left@[k + 1] == q.1;
                    if k < i - 1 {
                        assert(old_ex);
                    } else {
                        assert(q == p);
                    }
                }
                if q == p {
                    assert(left@[i - 1] == q.0 && left@[i - 1 + 1] == q.1);
                    assert(new_ex);
                }
                if old_ex {
                    let k = choose|k: int| 0 <= k < i - 1 && #[trigger] left@[k] == q.0 && left@[k + 1] == q.1;
                    assert(new_ex);
                }
                assert(new_ex <==> old_ex || q == p);
                assert(u0.contains(q) <==> old_ex && (!rl.contains(q) || rb.contains(q)));
                assert(keep <==> (!rl.contains(p) || rb.contains(p)));
                if keep {
                    assert(u@ == u0.push(p));
                    assert(u@.contains(q) <==> u0.contains(q) || q == p);
                } else {
                    assert(u@ == u0);
                }
            }
        }
        i += 1;
    }
    proof {
        assert forall|p: (u64, u64)|
            u@.contains(p) <==> ra.contains(p) && (!rl.contains(p) || rb.contains(p)) by {
            if ra.contains(p) {
                let k = choose|k: int| 0 <= k < left@.len() - 1 && #[trigger] left@[k] == p.0 && left@[k + 1] == p.1;
                assert(0 <= k < i - 1);
            }
            if exists|k: int| 0 <= k < i - 1 && #[trigger] left@[k] == p.0 && left@[k + 1] == p.1 {
                let k = choose|k: int| 0 <= k < i - 1 && #[trigger] left@[k] == p.0 && left@[k + 1] == p.1;
                assert(0 <= k < left@.len() - 1);
                assert(ra.contains(p));
            }
        }
    }
    let mut j: usize = 1;
    while j < right.len()
        invariant
            1 <= j,
            j <= right@.len() || j == 1,
            forall|p: (u64, u64)|
                #![trigger u@.contains(p)]
                u@.contains(p) <==> (ra.contains(p) && (!rl.contains(p) || rb.contains(p))) || ((exists|k: int|
                    0 <= k < j - 1 && #[trigger] right@[k] == p.0 && right@[k + 1] == p.1) && !rl.contains(p)
                    && !ra.contains(p)),
        decreases right@.len() - j,
    {
        let x = right[j - 1];
        let y = right[j];
        let p = (x, y);
        let in_l = adjacent(lca, &ml, x, y);
        let in_a = adjacent(left, &ma, x, y);
        let fresh = !in_l && !in_a;
        let ghost u0 = u@;
        if fresh {
            u.push(p);
        }
        proof {
            assert forall|q: (u64, u64)|
                u@.contains(q) <==> (ra.contains(q) && (!rl.contains(q) || rb.contains(q))) || ((exists|k: int|
                    0 <= k < j && #[trigger] right@[k] == q.0 && right@[k + 1] == q.1) && !rl.contains(q)
                    && !ra.contains(q)) by {
                if q == p {
                    assert(right@[j - 1] == q.0 && right@[j - 1 + 1] == q.1);
                }
                if exists|k: int| 0 <= k < j && #[trigger] right@[k] == q.0 && right@[k + 1] == q.1 {
                    let k = choose|k: int| 0 <= k < j && #[trigger] right@[k] == q.0 && right@[k + 1] == q.1;
                    if k < j - 1 {
                        assert(exists|k: int| 0 <= k < j - 1 && #[trigger] right@[k] == q.0 && right@[k + 1] == q.1);
                    } else {
                        assert(q == p);
                    }
                }
                if fresh {
                    assert(u@ == u0.push(p));
                } else {
                    assert(u@ == u0);
                }
            }
        }
        j += 1;
    }
    proof {
        assert forall|p: (u64, u64)| u@.to_set().contains(p) <==> merged_rel(lca@, left@, right@).contains(p) by {
            if rb.contains(p) {
                let k = choose|k: int| 0 <= k < right@.len() - 1 && #[trigger] right@[k] == p.0 && right@[k + 1] == p.1;
                assert(0 <= k < j - 1);
            }
            if exists|k: int| 0 <= k < j - 1 && #[trigger] right@[k] == p.0 && right@[k + 1] == p.1 {
                let k = choose|k: int| 0 <= k < j - 1 && #[trigger] right@[k] == p.0 && right@[k + 1] == p.1;
                assert(0 <= k < right@.len() - 1);
                assert(rb.contains(p));
            }
        }
        assert(u@.to_set() =~= merged_rel(lca@, left@, right@));
    }
    u
}


proof fn lemma_no_dup_insert(s: Seq<u64>, i: int, v: u64)
    requires
        s.no_duplicates(),
        0 <= i <= s.len(),
        !s.contains(v),
    ensures
        s.insert(i, v).no_duplicates(),
{
    let t = s.insert(i, v);
    assert forall|a: int, b: int| 0 <= a < t.len() && 0 <= b < t.len() && a != b implies t[a] != t[b] by {
        let sa = if a < i { a } else { a - 1 };
        let sb = if b < i { b } else { b - 1 };
        if a != i && b != i {
            assert(t[a] == s[sa] && t[b] == s[sb]);
        } else if a == i {
            assert(t[b] == s[sb]);
        } else {
            assert(t[a] == s[sa]);
        }
    }
}

pub(crate) proof fn lemma_no_dup_remove(s: Seq<u64>, i: int)
    requires
        s.no_duplicates(),
        0 <= i < s.len(),
    ensures
        s.remove(i).no_duplicates(),
        !s.remove(i).contains(s[i]),
        forall|x: u64| s.remove(i).contains(x) <==> s.contains(x) && x != s[i],
{
    let t = s.remove(i);
    assert forall|a: int, b: int| 0 <= a < t.len() && 0 <= b < t.len() && a != b implies t[a] != t[b] by {
        let sa = if a < i { a } else { a + 1 };
        let sb = if b < i { b } else { b + 1 };
        assert(t[a] == s[sa] && t[b] == s[sb]);
    }
    assert forall|x: u64| t.contains(x) <==> s.contains(x) && x != s[i] by {
        if t.contains(x) {
            let a = choose|a: int| 0 <= a < t.len() && t[a] == x;
            let sa = if a < i { a } else { a + 1 };
            assert(s[sa] == x);
        }
        if s.contains(x) && x != s[i] {
            let a = choose|a: int| 0 <= a < s.len() && s[a] == x;
            if a < i {
                assert(t[a] == x);
            } else {
                assert(t[a - 1] == x);
            }
        }
    }
}

proof fn lemma_no_dup_concat(a: Seq<u64>, b: Seq<u64>)
    requires
        a.no_duplicates(),
        b.no_duplicates(),
        forall|x: u64| a.contains(x) ==> !b.contains(x),
    ensures
        (a + b).no_duplicates(),
        forall|x: u64| (a + b).contains(x) <==> a.contains(x) || b.contains(x),
{
    let c = a + b;
    assert forall|i: int, j: int| 0 <= i < c.len() && 0 <= j < c.len() && i != j implies c[i] != c[j] by {
        if i < a.len() && j >= a.len() {
            assert(a.contains(c[i]) && b.contains(c[j]) && c[j] == b[j - a.len()]);
        } else if j < a.len() && i >= a.len() {
            assert(a.contains(c[j]) && b.contains(c[i]) && c[i] == b[i - a.len()]);
        }
    }
}

/// Each item of an order with its index.
pub open spec fn index_map(s: Seq<u64>) -> Map<u64, int> {
    Map::new(|v: u64| s.contains(v), |v: u64| choose|k: int| 0 <= k < s.len() && s[k] == v)
}

/// Each item with its index in a total order: the items, held in order of
/// index, each once. The indices are therefore always `0..n`.
#[derive(Clone, Debug, PartialEq, Eq, Hash, Default)]
pub struct MrdtOrd {
    order: Vec<u64>,
}

impl View for MrdtOrd {
    type V = Seq<u64>;

    closed spec fn view(&self) -> Seq<u64> {
        self.order@
    }
}

impl MrdtOrd {
    pub closed spec fn wf(&self) -> bool {
        self.order@.no_duplicates()
    }

    /// The items in the order are distinct.
    pub proof fn lemma_wf(&self)
        requires
            self.wf(),
        ensures
            self@.no_duplicates(),
    {
    }

    /// Whatever operations built it, the indices of an order form the prefix
    /// `0..n`: every item has an index below `n`, and every index below `n`
    /// belongs to exactly one item.
    pub proof fn lemma_prefix(&self)
        requires
            self.wf(),
        ensures
            index_map(self@).dom() == self@.to_set(),
            forall|v: u64| #[trigger] index_map(self@).contains_key(v) ==> 0 <= index_map(self@)[v] < self@.len(),
            forall|i: int| 0 <= i < self@.len() ==> index_map(self@).contains_key(#[trigger] self@[i]) && index_map(self@)[self@[i]] == i,
            forall|v: u64, w: u64| #[trigger] index_map(self@).contains_key(v) && #[trigger] index_map(self@).contains_key(w) && index_map(self@)[v] == index_map(self@)[w] ==> v == w,
    {
        let s = self@;
        assert(index_map(s).dom() =~= s.to_set());
        assert forall|i: int| 0 <= i < s.len() implies index_map(s).contains_key(#[trigger] s[i]) && index_map(s)[s[i]] == i by {
            let k = choose|k: int| 0 <= k < s.len() && s[k] == s[i];
            if k != i {
                assert(s[k] != s[i]);
            }
        }
        assert forall|v: u64, w: u64| #[trigger] index_map(s).contains_key(v) && #[trigger] index_map(s).contains_key(w) && index_map(s)[v] == index_map(s)[w] implies v == w by {
            let a = choose|k: int| 0 <= k < s.len() && s[k] == v;
            let b = choose|k: int| 0 <= k < s.len() && s[k] == w;
        }
    }

    pub fn new() -> (r: MrdtOrd)
        ensures
            r.wf(),
            r@ == Seq::<u64>::empty(),
    {
        MrdtOrd { order: Vec::new() }
    }

    pub fn len(&self) -> (n: usize)
        ensures
            n == self@.len(),
    {
        self.order.len()
    }

    /// The order of distinct items, in the given order.
    pub fn from_distinct(items: Vec<u64>) -> (r: MrdtOrd)
        requires
            items@.no_duplicates(),
        ensures
            r.wf(),
            r@ == items@,
    {
        MrdtOrd { order: items }
    }

    pub fn is_empty(&self) -> (b: bool)
        ensures
            b == (self@.len() == 0),
    {
        self.order.len() == 0
    }

    /// The index of `value`, if it is in the order.
    pub fn index_of(&self, value: &u64) -> (r: Option<usize>)
        requires
            self.wf(),
        ensures
            match r {
                Some(i) => i < self@.len() && self@[i as int] == *value,
                None => !self@.contains(*value),
            },
    {
        let mut i: usize = 0;
        while i < self.order.len()
            invariant
                i <= self.order@.len(),
                forall|k: int| 0 <= k < i ==> self.order@[k] != *value,
            decreases self.order@.len() - i,
        {
            if self.order[i] == *value {
                return Some(i);
            }
            i += 1;
        }
        None
    }

    pub fn contains(&self, value: &u64) -> (b: bool)
        requires
            self.wf(),
        ensures
            b == self@.contains(*value),
    {
        self.index_of(value).is_some()
    }

    /// The items in order of index.
    pub fn iter(&self) -> (v: Vec<u64>)
        ensures
            v@ == self@,
    {
        self.order.clone()
    }

    /// Binds `value` to `ix`, shifting every index from `ix` on up by one.
    pub fn insert(&mut self, ix: usize, value: u64)
        requires
            old(self).wf(),
            ix <= old(self)@.len(),
            !old(self)@.contains(value),
        ensures
            final(self).wf(),
            final(self)@ == old(self)@.insert(ix as int, value),
    {
        proof {
            lemma_no_dup_insert(self.order@, ix as int, value);
        }
        self.order.insert(ix, value);
    }

    /// Unbinds the item at `ix`, shifting every later index down by one.
    pub fn remove_at(&mut self, ix: usize) -> (r: Option<u64>)
        requires
            old(self).wf(),
        ensures
            final(self).wf(),
            ix < old(self)@.len() ==> r == Some(old(self)@[ix as int]) && final(self)@ == old(
                self,
            )@.remove(ix as int),
            ix >= old(self)@.len() ==> r.is_none() && final(self)@ == old(self)@,
    {
        if ix < self.order.len() {
            proof {
                lemma_no_dup_remove(self.order@, ix as int);
            }
            let v = self.order.remove(ix);
            Some(v)
        } else {
            None
        }
    }

    /// Unbinds `value`, shifting every later index down by one.
    pub fn remove(&mut self, value: &u64)
        requires
            old(self).wf(),
        ensures
            final(self).wf(),
            !old(self)@.contains(*value) ==> final(self)@ == old(self)@,
            forall|i: int|
                0 <= i < old(self)@.len() && old(self)@[i] == *value ==> final(self)@ == old(
                    self,
                )@.remove(i),
    {
        match self.index_of(value) {
            Some(i) => {
                proof {
                    assert forall|k: int| 0 <= k < self@.len() && self@[k] == *value implies k == i by {
                    }
                }
                self.remove_at(i);
            },
            None => {},
        }
    }

    /// Three-way merge of orders. The three successor relations are merged
    /// as sets, the result ordered greedily and kept to `merged_mem`; the
    /// members that the relation does not mention follow, ascending.
    pub fn merge(lca: &MrdtOrd, left: &MrdtOrd, right: &MrdtOrd, merged_mem: &MrdtSet) -> (r: MrdtOrd)
        requires
            lca.wf(),
            left.wf(),
            right.wf(),
            merged_mem.wf(),
        ensures
            r.wf(),
            r@ == merged_order(lca@, left@, right@, merged_mem@),
            r@.to_set() == merged_mem@,
    {
        let ghost rel = merged_rel(lca@, left@, right@);
        let u = merged_pairs(&lca.order, &left.order, &right.order);
        let t = toposort(&u);
        proof {
            lemma_topo_order_unique(rel, t@, topo_order(rel));
            merged_mem.lemma_wf_items();
        }
        let nodes = MrdtSet::from_vec(t.clone());
        let ghost pred = member_of(merged_mem@);
        let mut out: Vec<u64> = Vec::new();
        let mut i: usize = 0;
        while i < t.len()
            invariant
                i <= t@.len(),
                t@.no_duplicates(),
                merged_mem.wf(),
                pred == member_of(merged_mem@),
                out@ == t@.subrange(0, i as int).filter(pred),
                out@.no_duplicates(),
                forall|x: u64| out@.contains(x) <==> t@.subrange(0, i as int).contains(x) && merged_mem@.contains(x),
            decreases t@.len() - i,
        {
            let x = t[i];
            let ghost o0 = out@;
            proof {
                assert(t@.subrange(0, i + 1) =~= t@.subrange(0, i as int).push(x));
                t@.subrange(0, i as int).lemma_filter_push(x, pred);
                assert(!t@.subrange(0, i as int).contains(x)) by {
                    if t@.subrange(0, i as int).contains(x) {
                        let k = choose|k: int| 0 <= k < i && t@.subrange(0, i as int)[k] == x;
                        assert(t@[k] == t@[i as int]);
                    }
                }
            }
            if merged_mem.contains(&x) {
                out.push(x);
                proof {
                    assert forall|a: int, b: int| 0 <= a < out@.len() && 0 <= b < out@.len() && a != b implies out@[a] != out@[b] by {
                        if a == o0.len() {
                            assert(o0.contains(out@[b]));
                        } else if b == o0.len() {
                            assert(o0.contains(out@[a]));
                        }
                    }
                }
            }
            i += 1;
        }
        proof {
            assert(t@.subrange(0, t@.len() as int) =~= t@);
        }
        let members = merged_mem.iter();
        let ghost extra_set = merged_mem@.difference(nodes_of(rel));
        let mut extra: Vec<u64> = Vec::new();
        let mut j: usize = 0;
        while j < members.len()
            invariant
                j <= members@.len(),
                members@ == merged_mem.spec_items(),
                forall|a: int, b: int| 0 <= a < b < members@.len() ==> members@[a] < members@[b],
                nodes@ == nodes_of(rel),
                nodes.wf(),
                strictly_increasing(extra@),
                forall|k: int| 0 <= k < extra@.len() ==> exists|a: int| 0 <= a < j && members@[a] == #[trigger] extra@[k],
                forall|x: u64| extra@.contains(x) <==> members@.subrange(0, j as int).contains(x) && !nodes_of(rel).contains(x),
            decreases members@.len() - j,
        {
            let x = members[j];
            let ghost e0 = extra@;
            if !nodes.contains(&x) {
                extra.push(x);
                proof {
                    assert forall|a: int, b: int| 0 <= a < b < extra@.len() implies extra@[a] < extra@[b] by {
                        if b == e0.len() {
                            let c = choose|c: int| 0 <= c < j && members@[c] == #[trigger] e0[a];
                            assert(members@[c] < members@[j as int]);
                        }
                    }
                }
            }
            proof {
                assert(members@.subrange(0, j + 1) =~= members@.subrange(0, j as int).push(x));
                assert forall|k: int| 0 <= k < extra@.len() implies exists|a: int| 0 <= a < j + 1 && members@[a] == #[trigger] extra@[k] by {
                    if k < e0.len() {
                        let c = choose|c: int| 0 <= c < j && members@[c] == #[trigger] e0[k];
                        assert(members@[c] == extra@[k]);
                    } else {
                        assert(members@[j as int] == extra@[k]);
                    }
                }
            }
            j += 1;
        }
        proof {
            assert(members@.subrange(0, members@.len() as int) =~= members@);
            assert(extra@.to_set() =~= extra_set);
            lemma_ascending_unique(extra@, ascending(extra_set));
            strictly_increasing_no_dup(extra@);
            assert forall|x: u64| out@.contains(x) implies !extra@.contains(x) by {
                assert(t@.contains(x));
                assert(t@.to_set().contains(x));
            }
            lemma_no_dup_concat(out@, extra@);
        }
        let mut order = out;
        let mut extra = extra;
        order.append(&mut extra);
        let r = MrdtOrd { order };
        proof {
            assert(r@ == merged_order(lca@, left@, right@, merged_mem@));
            assert forall|x: u64| r@.to_set().contains(x) <==> merged_mem@.contains(x) by {
                if merged_mem@.contains(x) && !nodes_of(rel).contains(x) {
                    assert(extra_set.contains(x));
                }
                if merged_mem@.contains(x) && nodes_of(rel).contains(x) {
                    assert(t@.to_set().contains(x));
                }
            }
            assert(r@.to_set() =~= merged_mem@);
        }
        r
    }
}


/// The successor relation of an order: each item with the one after it.
pub fn map_to_ordering(ordering: &MrdtOrd) -> (r: Vec<(u64, u64)>)
    ensures
        r@.to_set() == succ_rel(ordering@),
{
    let items = ordering.iter();
    let mut r: Vec<(u64, u64)> = Vec::new();
    let mut i: usize = 1;
    while i < items.len()
        invariant
            items@ == ordering@,
            1 <= i,
            i <= items@.len() || i == 1,
            forall|p: (u64, u64)|
                #![trigger r@.contains(p)]
                r@.contains(p) <==> exists|k: int| 0 <= k < i - 1 && #[trigger] items@[k] == p.0 && items@[k + 1] == p.1,
        decreases items@.len() - i,
    {
        let x = items[i - 1];
        let y = items[i];
        let ghost r0 = r@;
        r.push((x, y));
        proof {
            assert forall|q: (u64, u64)|
                #![trigger r@.contains(q)]
                r@.contains(q) <==> exists|k: int| 0 <= k < i && #[trigger] items@[k] == q.0 && items@[k + 1] == q.1 by {
                if exists|k: int| 0 <= k < i && #[trigger] items@[k] == q.0 && items@[k + 1] == q.1 {
                    let k = choose|k: int| 0 <= k < i && #[trigger] items@[k] == q.0 && items@[k + 1] == q.1;
                    if k < i - 1 {
                        assert(r0.contains(q));
                    } else {
                        assert(q == (x, y));
                    }
                }
                if q == (x, y) {
                    assert(items@[i - 1] == q.0 && items@[i - 1 + 1] == q.1);
                }
                if r0.contains(q) {
                    let k = choose|k: int| 0 <= k < i - 1 && #[trigger] items@[k] == q.0 && items@[k + 1] == q.1;
                }
            }
        }
        i += 1;
    }
    proof {
        assert forall|p: (u64, u64)| r@.to_set().contains(p) <==> succ_rel(ordering@).contains(p) by {
            if succ_rel(ordering@).contains(p) {
                let k = choose|k: int| 0 <= k < items@.len() - 1 && #[trigger] items@[k] == p.0 && items@[k + 1] == p.1;
                assert(r@.contains(p));
            }
            if r@.contains(p) {
                let k = choose|k: int| 0 <= k < i - 1 && #[trigger] items@[k] == p.0 && items@[k + 1] == p.1;
                assert(0 <= k < items@.len() - 1);
            }
        }
        assert(r@.to_set() =~= succ_rel(ordering@));
    }
    r
}

} // verus!
