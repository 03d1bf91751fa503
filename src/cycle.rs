//! Cycle detection over the directed relation "edge.source -> edge.target".
//!
//! Nodes with no incoming edge from a remaining node are removed one at a
//! time. If every node can be removed, the removal order ranks the graph
//! and no cycle exists; if the process gets stuck, walking backwards along
//! incoming edges among the remaining nodes must revisit a node, which
//! closes a cycle.

use crate::types::RelayGraph;
use vstd::prelude::*;
use vstd::set_lib::*;

verus! {

/// `p` is a directed cycle: a non-empty walk along edges between nodes of
/// the graph that returns to its first identifier.
pub open spec fn is_cycle(g: &RelayGraph, p: Seq<u32>) -> bool {
    &&& p.len() > 0
    &&& forall|k: int, m: int|
        0 <= k && m == k + 1 && m < p.len() ==> g.linked(#[trigger] p[k], #[trigger] p[m])
    &&& g.linked(p.last(), p[0])
}

/// The graph contains at least one directed cycle.
pub open spec fn has_directed_cycle(g: &RelayGraph) -> bool {
    exists|p: Seq<u32>| is_cycle(g, p)
}

/// Every edge leads from a lower to a strictly higher rank.
pub open spec fn ranks_edges(g: &RelayGraph, rank: spec_fn(u32) -> int) -> bool {
    forall|a: u32, b: u32| #[trigger] g.linked(a, b) ==> rank(a) < rank(b)
}

/// A graph whose edges all climb some ranking has no cycle.
pub proof fn lemma_ranked_has_no_cycle(g: &RelayGraph, rank: spec_fn(u32) -> int)
    requires
        ranks_edges(g, rank),
    ensures
        !has_directed_cycle(g),
{
    if has_directed_cycle(g) {
        let p = choose|p: Seq<u32>| is_cycle(g, p);
        lemma_rank_climbs(g, rank, p, p.len() - 1);
        assert(g.linked(p.last(), p[0]));
    }
}

proof fn lemma_rank_climbs(g: &RelayGraph, rank: spec_fn(u32) -> int, p: Seq<u32>, j: int)
    requires
        ranks_edges(g, rank),
        is_cycle(g, p),
        0 <= j < p.len(),
    ensures
        rank(p[0]) + j <= rank(p[j]),
    decreases j,
{
    if j > 0 {
        lemma_rank_climbs(g, rank, p, j - 1);
        assert(g.linked(p[j - 1], p[j]));
        assert(rank(p[j - 1]) < rank(p[j]));
    }
}

/// Some edge of `g` leads from `a` to `b`.
pub open spec fn edge_from_to(g: &RelayGraph, a: u32, b: u32) -> bool {
    exists|k: int| 0 <= k < g.edges@.len() && (#[trigger] g.edges@[k]).source_id == a && g.edges@[k].target_id == b
}

/// Whether a graph has a cycle depends only on its set of node identifiers
/// and on which identifier pairs its edges join: reordering, repeating or
/// relabelling the category of nodes and edges changes nothing.
pub proof fn lemma_cycle_independent_of_order(g1: &RelayGraph, g2: &RelayGraph)
    requires
        forall|a: u32| #[trigger] g1.has_id(a) == g2.has_id(a),
        forall|a: u32, b: u32| #[trigger] edge_from_to(g1, a, b) == edge_from_to(g2, a, b),
    ensures
        has_directed_cycle(g1) == has_directed_cycle(g2),
{
    assert forall|a: u32, b: u32| #[trigger] g1.linked(a, b) == g2.linked(a, b) by {
        assert(g1.has_id(a) == g2.has_id(a));
        assert(g1.has_id(b) == g2.has_id(b));
        assert(edge_from_to(g1, a, b) == edge_from_to(g2, a, b));
    }
    if has_directed_cycle(g1) {
        let p = choose|p: Seq<u32>| is_cycle(g1, p);
        assert(is_cycle(g2, p));
    }
    if has_directed_cycle(g2) {
        let p = choose|p: Seq<u32>| is_cycle(g2, p);
        assert(is_cycle(g1, p));
    }
}

/// A sequence of distinct values below `n` has at most `n` elements.
pub proof fn lemma_distinct_below(s: Seq<int>, n: int)
    requires
        n >= 0,
        s.no_duplicates(),
        forall|k: int| 0 <= k < s.len() ==> 0 <= #[trigger] s[k] < n,
    ensures
        s.len() <= n,
{
    s.unique_seq_to_set();
    lemma_int_range(0, n);
    assert(s.to_set().subset_of(set_int_range(0, n)));
    lemma_len_subset(s.to_set(), set_int_range(0, n));
}

/// Outcome of one search for a node that can be removed.
enum Scan {
    Free(usize),
    AllRemoved,
    Stuck,
}

/// Some remaining node has no incoming edge from a remaining node, or every
/// node has been removed, or every remaining node has such an edge.
fn find_free(ends: &Vec<(usize, usize)>, removed: &Vec<bool>) -> (r: Scan)
    requires
        forall|k: int|
            0 <= k < ends@.len() ==> (#[trigger] ends@[k]).0 < removed@.len() && ends@[k].1
                < removed@.len(),
    ensures
        match r {
            Scan::Free(i) => i < removed@.len() && !removed@[i as int] && forall|k: int|
                0 <= k < ends@.len() && (#[trigger] ends@[k]).1 == i ==> removed@[ends@[k].0 as int],
            Scan::AllRemoved => forall|i: int| 0 <= i < removed@.len() ==> #[trigger] removed@[i],
            Scan::Stuck => (exists|i: int| 0 <= i < removed@.len() && !#[trigger] removed@[i])
                && forall|i: int|
                0 <= i < removed@.len() && !removed@[i] ==> #[trigger] blocked(ends@, removed@, i),
        },
{
    let n = removed.len();
    let mut any_live = false;
    let mut i: usize = 0;
    while i < n
        invariant
            n == removed@.len(),
            i <= n,
            forall|k: int|
                0 <= k < ends@.len() ==> (#[trigger] ends@[k]).0 < removed@.len() && ends@[k].1
                    < removed@.len(),
            any_live ==> exists|x: int| 0 <= x < removed@.len() && !#[trigger] removed@[x],
            !any_live ==> forall|x: int| 0 <= x < i ==> #[trigger] removed@[x],
            forall|x: int| 0 <= x < i && !removed@[x] ==> #[trigger] blocked(ends@, removed@, x),
        decreases n - i,
    {
        if !removed[i] {
            any_live = true;
            let mut has_live_pred = false;
            let mut k: usize = 0;
            while k < ends.len()
                invariant
                    n == removed@.len(),
                    i < n,
                    k <= ends@.len(),
                    forall|q: int|
                        0 <= q < ends@.len() ==> (#[trigger] ends@[q]).0 < removed@.len()
                            && ends@[q].1 < removed@.len(),
                    has_live_pred ==> blocked(ends@, removed@, i as int),
                    !has_live_pred ==> forall|q: int|
                        0 <= q < k && (#[trigger] ends@[q]).1 == i ==> removed@[ends@[q].0 as int],
                decreases ends@.len() - k,
            {
                let (s, t) = ends[k];
                if t == i && !removed[s] {
                    has_live_pred = true;
                }
                k = k + 1;
            }
            if !has_live_pred {
                return Scan::Free(i);
            }
        }
        i = i + 1;
    }
    if any_live {
        Scan::Stuck
    } else {
        Scan::AllRemoved
    }
}

/// Node `x` has an incoming edge from a node that has not been removed.
pub(crate) open spec fn blocked(ends: Seq<(usize, usize)>, removed: Seq<bool>, x: int) -> bool {
    exists|k: int| 0 <= k < ends.len() && (#[trigger] ends[k]).1 == x && !removed[ends[k].0 as int]
}

/// A predecessor of `x` through `ends` that has not been removed.
spec fn live_pred(ends: Seq<(usize, usize)>, removed: Seq<bool>, x: int) -> int {
    let k = choose|k: int|
        0 <= k < ends.len() && (#[trigger] ends[k]).1 == x && !removed[ends[k].0 as int];
    ends[k].0 as int
}

/// Starting at `x`, `len` steps backwards along edges among the remaining
/// nodes.
spec fn back_walk(ends: Seq<(usize, usize)>, removed: Seq<bool>, x: int, len: nat) -> Seq<int>
    decreases len,
{
    if len <= 1 {
        seq![x]
    } else {
        let w = back_walk(ends, removed, x, (len - 1) as nat);
        w.push(live_pred(ends, removed, w.last()))
    }
}

proof fn lemma_back_walk(ends: Seq<(usize, usize)>, removed: Seq<bool>, x: int, len: nat)
    requires
        len >= 1,
        0 <= x < removed.len(),
        !removed[x],
        forall|k: int|
            0 <= k < ends.len() ==> (#[trigger] ends[k]).0 < removed.len() && ends[k].1 < removed.len(),
        forall|i: int|
            0 <= i < removed.len() && !removed[i] ==> #[trigger] blocked(ends, removed, i),
    ensures
        back_walk(ends, removed, x, len).len() == len,
        back_walk(ends, removed, x, len)[0] == x,
        forall|j: int|
            0 <= j < len ==> 0 <= #[trigger] back_walk(ends, removed, x, len)[j] < removed.len()
                && !removed[back_walk(ends, removed, x, len)[j]],
        forall|j: int|
            0 <= j < len - 1 ==> back_walk(ends, removed, x, len)[j + 1] == #[trigger] live_pred(
                ends,
                removed,
                back_walk(ends, removed, x, len)[j],
            ),
    decreases len,
{
    if len > 1 {
        let w = back_walk(ends, removed, x, (len - 1) as nat);
        lemma_back_walk(ends, removed, x, (len - 1) as nat);
        let y = w[w.len() - 1];
        assert(!removed[y]);
        lemma_live_pred(ends, removed, y);
        let w2 = back_walk(ends, removed, x, len);
        assert(w2 == w.push(live_pred(ends, removed, y)));
        assert forall|j: int| 0 <= j < len - 1 implies w2[j + 1] == #[trigger] live_pred(ends, removed, w2[j]) by {
            if j < len - 2 {
                assert(w2[j] == w[j]);
                assert(w2[j + 1] == w[j + 1]);
            }
        }
    }
}

proof fn lemma_live_pred(ends: Seq<(usize, usize)>, removed: Seq<bool>, x: int)
    requires
        0 <= x < removed.len(),
        !removed[x],
        forall|k: int|
            0 <= k < ends.len() ==> (#[trigger] ends[k]).0 < removed.len() && ends[k].1 < removed.len(),
        forall|i: int|
            0 <= i < removed.len() && !removed[i] ==> #[trigger] blocked(ends, removed, i),
    ensures
        0 <= live_pred(ends, removed, x) < removed.len(),
        !removed[live_pred(ends, removed, x)],
        exists|k: int|
            0 <= k < ends.len() && (#[trigger] ends[k]).1 == x && ends[k].0 == live_pred(ends, removed, x),
{
    assert(blocked(ends, removed, x));
    let k = choose|k: int|
        0 <= k < ends.len() && (#[trigger] ends[k]).1 == x && !removed[ends[k].0 as int];
    assert(ends[k].0 < removed.len());
}

/// Every position in `ends` names a node below `n`.
pub(crate) open spec fn ends_below(ends: Seq<(usize, usize)>, n: int) -> bool {
    forall|k: int| 0 <= k < ends.len() ==> (#[trigger] ends[k]).0 < n && ends[k].1 < n
}

/// `at` and `order` are inverse: `order` lists the placed nodes, `at[v]` is
/// the place of `v` in `order`, or `n` where `v` was never placed; every
/// edge into a placed node comes from a node placed before it.
pub(crate) open spec fn is_removal_order(
    ends: Seq<(usize, usize)>,
    n: int,
    order: Seq<usize>,
    at: Seq<usize>,
) -> bool {
    &&& at.len() == n
    &&& order.len() <= n
    &&& forall|j: int| 0 <= j < order.len() ==> (#[trigger] order[j]) < n && at[order[j] as int] == j
    &&& forall|v: int| 0 <= v < n ==> #[trigger] at[v] <= n
    &&& forall|v: int| 0 <= v < n && #[trigger] at[v] < n ==> at[v] < order.len() && order[at[v] as int] == v
    &&& forall|k: int|
        0 <= k < ends.len() && at[(#[trigger] ends[k]).1 as int] < n ==> at[ends[k].0 as int] < at[ends[k].1 as int]
}

/// Removes, one at a time, a node with no incoming edge from a node still
/// present. Returns the order of removal, the place of each node in it, and
/// whether every node was removed.
pub(crate) fn removal_order(ends: &Vec<(usize, usize)>, n: usize) -> (r: (Vec<usize>, Vec<usize>, bool))
    requires
        ends_below(ends@, n as int),
    ensures
        is_removal_order(ends@, n as int, r.0@, r.1@),
        r.2 ==> r.0@.len() == n,
        r.2 ==> forall|v: int| 0 <= v < n ==> #[trigger] r.1@[v] < n,
        !r.2 ==> exists|v: int| 0 <= v < n && #[trigger] r.1@[v] == n,
        !r.2 ==> forall|v: int|
            0 <= v < n && r.1@[v] == n ==> #[trigger] blocked(ends@, live_of(r.1@, n as int), v),
{
    let mut removed: Vec<bool> = Vec::new();
    let mut at: Vec<usize> = Vec::new();
    while removed.len() < n
        invariant
            removed@.len() <= n,
            at@.len() == removed@.len(),
            forall|i: int| 0 <= i < removed@.len() ==> !#[trigger] removed@[i],
            forall|i: int| 0 <= i < at@.len() ==> #[trigger] at@[i] == n,
        decreases n - removed@.len(),
    {
        removed.push(false);
        at.push(n);
    }
    let mut order: Vec<usize> = Vec::new();
    loop
        invariant
            ends_below(ends@, n as int),
            removed@.len() == n,
            is_removal_order(ends@, n as int, order@, at@),
            forall|i: int| 0 <= i < n ==> (#[trigger] removed@[i] <==> at@[i] < n),
        decreases n - order@.len(),
    {
        match find_free(ends, &removed) {
            Scan::Free(i) => {
                proof {
                    let o2 = order@.push(i).map_values(|x: usize| x as int);
                    assert forall|a: int, b: int| 0 <= a < o2.len() && 0 <= b < o2.len() && a != b
                        implies o2[a] != o2[b] by {
                        if a < order@.len() && b < order@.len() {
                            assert(at@[order@[a] as int] == a);
                            assert(at@[order@[b] as int] == b);
                        } else if a < order@.len() {
                            assert(at@[order@[a] as int] == a);
                        } else {
                            assert(at@[order@[b] as int] == b);
                        }
                    }
                    lemma_distinct_below(o2, n as int);
                }
                let ghost at0 = at@;
                let ghost order0 = order@;
                at.set(i, order.len());
                order.push(i);
                removed.set(i, true);
                proof {
                    assert forall|j: int| 0 <= j < order@.len() implies (#[trigger] order@[j]) < n
                        && at@[order@[j] as int] == j by {
                        if j < order0.len() {
                            assert(order@[j] == order0[j]);
                            assert(at0[order0[j] as int] == j);
                        }
                    }
                    assert forall|v: int| 0 <= v < n && #[trigger] at@[v] < n implies at@[v] < order@.len()
                        && order@[at@[v] as int] == v by {
                        if v != i {
                            assert(at0[v] < n);
                            assert(order@[at0[v] as int] == order0[at0[v] as int]);
                        }
                    }
                    assert forall|k: int|
                        0 <= k < ends@.len() && at@[(#[trigger] ends@[k]).1 as int] < n implies at@[ends@[k].0 as int]
                        < at@[ends@[k].1 as int] by {
                        if ends@[k].1 != i {
                            assert(at0[ends@[k].1 as int] < n);
                            assert(removed@[ends@[k].0 as int]);
                        } else {
                            assert(at0[ends@[k].0 as int] < n);
                        }
                    }
                }
            },
            Scan::AllRemoved => {
                proof {
                    assert forall|v: int| 0 <= v < n implies #[trigger] at@[v] < n by {
                        assert(removed@[v]);
                    }
                    if order@.len() < n {
                        let o2 = Seq::new(n as nat, |v: int| at@[v] as int);
                        assert forall|a: int, b: int| 0 <= a < o2.len() && 0 <= b < o2.len() && a != b
                            implies o2[a] != o2[b] by {
                            assert(at@[a] < n);
                            assert(at@[b] < n);
                            assert(order@[at@[a] as int] == a);
                            assert(order@[at@[b] as int] == b);
                        }
                        assert forall|k: int| 0 <= k < o2.len() implies 0 <= #[trigger] o2[k] < order@.len() by {
                            assert(at@[k] < n);
                        }
                        lemma_distinct_below(o2, order@.len() as int);
                    }
                }
                return (order, at, true);
            },
            Scan::Stuck => {
                proof {
                    assert(removed@ =~= live_of(at@, n as int));
                    let x = choose|x: int| 0 <= x < n && !#[trigger] removed@[x];
                    assert(at@[x] == n);
                    assert forall|v: int| 0 <= v < n && at@[v] == n implies #[trigger] blocked(ends@, live_of(at@, n as int), v) by {
                        assert(!removed@[v]);
                    }
                }
                return (order, at, false);
            },
        }
    }
}

/// Which nodes have been placed, as read from `at`.
pub(crate) open spec fn live_of(at: Seq<usize>, n: int) -> Seq<bool> {
    Seq::new(at.len(), |v: int| at[v] < n)
}

/// Detects a directed cycle among the edges whose ends are both nodes.
pub fn has_cycle(g: &RelayGraph) -> (r: bool)
    requires
        g.wf(),
    ensures
        r == has_directed_cycle(g),
{
    let ends = g.edge_positions();
    let n = g.nodes.len();
    let (order, at, complete) = removal_order(&ends, n);
    proof {
        if complete {
            let rank = |a: u32| at@[choose|i: int| 0 <= i < n && g.nodes@[i].id == a] as int;
            assert forall|a: u32, b: u32| #[trigger] g.linked(a, b) implies rank(a) < rank(b) by {
                let k = choose|k: int|
                    0 <= k < ends@.len() && g.nodes@[(#[trigger] ends@[k]).0 as int].id == a
                        && g.nodes@[ends@[k].1 as int].id == b;
                let ia = choose|i: int| 0 <= i < n && g.nodes@[i].id == a;
                let ib = choose|i: int| 0 <= i < n && g.nodes@[i].id == b;
                assert(ia == ends@[k].0);
                assert(ib == ends@[k].1);
                assert(at@[ends@[k].1 as int] < n);
            }
            lemma_ranked_has_no_cycle(g, rank);
        } else {
            let live = live_of(at@, n as int);
            let v = choose|v: int| 0 <= v < n && #[trigger] at@[v] == n;
            assert(!live[v]);
            assert forall|i: int| 0 <= i < live.len() && !live[i] implies #[trigger] blocked(ends@, live, i) by {
                assert(at@[i] == n);
            }
            lemma_stuck_has_cycle(g, ends@, live);
        }
    }
    !complete
}

pub(crate) proof fn lemma_stuck_has_cycle(g: &RelayGraph, ends: Seq<(usize, usize)>, removed: Seq<bool>)
    requires
        removed.len() == g.nodes@.len(),
        forall|k: int|
            #![trigger ends[k]]
            0 <= k < ends.len() ==> ends[k].0 < removed.len() && ends[k].1 < removed.len()
                && g.linked(g.nodes@[ends[k].0 as int].id, g.nodes@[ends[k].1 as int].id),
        exists|i: int| 0 <= i < removed.len() && !#[trigger] removed[i],
        forall|i: int|
            0 <= i < removed.len() && !removed[i] ==> #[trigger] blocked(ends, removed, i),
    ensures
        has_directed_cycle(g),
{
    let n = removed.len() as int;
    let x = choose|i: int| 0 <= i < removed.len() && !#[trigger] removed[i];
    let w = back_walk(ends, removed, x, (n + 1) as nat);
    lemma_back_walk(ends, removed, x, (n + 1) as nat);
    if w.no_duplicates() {
        lemma_distinct_below(w, n);
    }
    let (a, b) = choose|a: int, b: int| 0 <= a < w.len() && 0 <= b < w.len() && a != b && w[a] == w[b];
    let lo = if a < b { a } else { b };
    let hi = if a < b { b } else { a };
    lemma_segment_is_cycle(g, ends, removed, w, lo, hi);
}

proof fn lemma_segment_is_cycle(
    g: &RelayGraph,
    ends: Seq<(usize, usize)>,
    removed: Seq<bool>,
    w: Seq<int>,
    lo: int,
    hi: int,
)
    requires
        removed.len() == g.nodes@.len(),
        forall|k: int|
            #![trigger ends[k]]
            0 <= k < ends.len() ==> ends[k].0 < removed.len() && ends[k].1 < removed.len()
                && g.linked(g.nodes@[ends[k].0 as int].id, g.nodes@[ends[k].1 as int].id),
        forall|i: int|
            0 <= i < removed.len() && !removed[i] ==> #[trigger] blocked(ends, removed, i),
        0 <= lo < hi < w.len(),
        w[lo] == w[hi],
        forall|j: int| 0 <= j < w.len() ==> 0 <= #[trigger] w[j] < removed.len() && !removed[w[j]],
        forall|j: int| 0 <= j < w.len() - 1 ==> w[j + 1] == #[trigger] live_pred(ends, removed, w[j]),
    ensures
        has_directed_cycle(g),
{
    let c = Seq::new((hi - lo) as nat, |j: int| w[hi - j]);
    let p = c.map_values(|i: int| g.nodes@[i].id);
    assert forall|j: int, m: int| 0 <= j && m == j + 1 && m < p.len() implies g.linked(#[trigger] p[j], #[trigger] p[m]) by {
        let q = hi - j - 1;
        assert(w[q + 1] == live_pred(ends, removed, w[q]));
        lemma_live_pred(ends, removed, w[q]);
        let k = choose|k: int|
            0 <= k < ends.len() && (#[trigger] ends[k]).1 == w[q] && ends[k].0 == live_pred(ends, removed, w[q]);
        assert(ends[k].0 == w[q + 1]);
    }
    assert(w[lo + 1] == live_pred(ends, removed, w[lo]));
    lemma_live_pred(ends, removed, w[lo]);
    let k = choose|k: int|
        0 <= k < ends.len() && (#[trigger] ends[k]).1 == w[lo] && ends[k].0 == live_pred(ends, removed, w[lo]);
    assert(ends[k].0 == w[lo + 1]);
    assert(p.last() == g.nodes@[w[lo + 1]].id);
    assert(p[0] == g.nodes@[w[hi]].id);
    assert(is_cycle(g, p));
}

} // verus!
