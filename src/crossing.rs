//! Crossing reduction by the barycenter heuristic.
//!
//! A node's sort key is the average position of its neighbours, kept as an
//! exact fraction (sum, count); a node without neighbours keeps its own
//! position. Ties keep the previous order.

use crate::cycle::ends_below;
use vstd::prelude::*;

verus! {

/// Sum of the positions of the neighbours of `v` over the first `k` edges,
/// each edge counted from both of its ends.
pub open spec fn bary_sum(ends: Seq<(usize, usize)>, pos: Seq<usize>, v: int, k: int) -> int
    decreases k,
{
    if k <= 0 {
        0
    } else {
        bary_sum(ends, pos, v, k - 1) + (if ends[k - 1].0 == v { pos[ends[k - 1].1 as int] as int } else { 0 }) + (
        if ends[k - 1].1 == v { pos[ends[k - 1].0 as int] as int } else { 0 })
    }
}

/// Number of neighbour positions summed by `bary_sum`.
pub open spec fn bary_count(ends: Seq<(usize, usize)>, v: int, k: int) -> int
    decreases k,
{
    if k <= 0 {
        0
    } else {
        bary_count(ends, v, k - 1) + (if ends[k - 1].0 == v { 1int } else { 0 }) + (if ends[k - 1].1 == v {
            1int
        } else {
            0
        })
    }
}

/// The barycenter of `v` as a fraction (numerator, denominator); a node
/// without neighbours keeps its own position.
pub open spec fn sort_key(ends: Seq<(usize, usize)>, pos: Seq<usize>, v: int) -> (int, int) {
    if bary_count(ends, v, ends.len() as int) == 0 {
        (pos[v] as int, 1)
    } else {
        (bary_sum(ends, pos, v, ends.len() as int), bary_count(ends, v, ends.len() as int))
    }
}

/// Fraction `a` is smaller than fraction `b` (positive denominators).
pub open spec fn frac_lt(a: (int, int), b: (int, int)) -> bool {
    a.0 * b.1 < b.0 * a.1
}

/// Key `x` of `keys` as a pair of integers.
pub open spec fn key_at(keys: Seq<(u128, u128)>, x: int) -> (int, int) {
    (keys[x].0 as int, keys[x].1 as int)
}

/// Entry `x` comes before entry `y`: a smaller key, or an equal key and an
/// earlier place.
pub open spec fn before(keys: Seq<(u128, u128)>, x: int, y: int) -> bool {
    frac_lt(key_at(keys, x), key_at(keys, y)) || (!frac_lt(key_at(keys, y), key_at(keys, x)) && x < y)
}

proof fn lemma_frac_trans(a0: int, a1: int, b0: int, b1: int, c0: int, c1: int)
    requires
        a1 > 0,
        b1 > 0,
        c1 > 0,
        a0 * b1 <= b0 * a1,
        b0 * c1 <= c0 * b1,
    ensures
        a0 * c1 <= c0 * a1,
        (a0 * b1 < b0 * a1 || b0 * c1 < c0 * b1) ==> a0 * c1 < c0 * a1,
{
    assert(a0 * b1 * c1 <= b0 * a1 * c1) by (nonlinear_arith)
        requires
            a0 * b1 <= b0 * a1,
            c1 > 0,
    ;
    assert(b0 * c1 * a1 <= c0 * b1 * a1) by (nonlinear_arith)
        requires
            b0 * c1 <= c0 * b1,
            a1 > 0,
    ;
    assert(a0 * c1 <= c0 * a1) by (nonlinear_arith)
        requires
            a0 * b1 * c1 <= b0 * a1 * c1,
            b0 * c1 * a1 <= c0 * b1 * a1,
            b1 > 0,
    ;
    if a0 * b1 < b0 * a1 {
        assert(a0 * b1 * c1 < b0 * a1 * c1) by (nonlinear_arith)
            requires
                a0 * b1 < b0 * a1,
                c1 > 0,
        ;
        assert(a0 * c1 < c0 * a1) by (nonlinear_arith)
            requires
                a0 * b1 * c1 < b0 * a1 * c1,
                b0 * c1 * a1 <= c0 * b1 * a1,
                b1 > 0,
        ;
    }
    if b0 * c1 < c0 * b1 {
        assert(b0 * c1 * a1 < c0 * b1 * a1) by (nonlinear_arith)
            requires
                b0 * c1 < c0 * b1,
                a1 > 0,
        ;
        assert(a0 * c1 < c0 * a1) by (nonlinear_arith)
            requires
                a0 * b1 * c1 <= b0 * a1 * c1,
                b0 * c1 * a1 < c0 * b1 * a1,
                b1 > 0,
        ;
    }
}

/// Positive denominators throughout.
pub open spec fn keys_ok(keys: Seq<(u128, u128)>) -> bool {
    forall|x: int|
        0 <= x < keys.len() ==> (#[trigger] keys[x]).1 > 0 && keys[x].0 <= 0x4_0000_0000_0000_0000 && keys[x].1
            <= 0x2_0000_0000
}

proof fn lemma_before_trans(keys: Seq<(u128, u128)>, x: int, y: int, z: int)
    requires
        keys_ok(keys),
        0 <= x < keys.len(),
        0 <= y < keys.len(),
        0 <= z < keys.len(),
        before(keys, x, y),
        before(keys, y, z),
    ensures
        before(keys, x, z),
{
    let a = key_at(keys, x);
    let b = key_at(keys, y);
    let c = key_at(keys, z);
    assert(keys[x].1 > 0 && keys[y].1 > 0 && keys[z].1 > 0);
    lemma_frac_trans(a.0, a.1, b.0, b.1, c.0, c.1);
    if !frac_lt(c, a) {
    } else {
        lemma_frac_trans(c.0, c.1, a.0, a.1, b.0, b.1);
    }
}

/// `r` lists every entry `0 .. keys.len()` once, in `before` order.
pub open spec fn is_stable_order(keys: Seq<(u128, u128)>, r: Seq<usize>) -> bool {
    &&& r.len() == keys.len()
    &&& forall|i: int| 0 <= i < r.len() ==> #[trigger] r[i] < keys.len()
    &&& forall|x: usize| x < keys.len() ==> #[trigger] r.contains(x)
    &&& forall|i: int, j: int| 0 <= i < j < r.len() ==> before(keys, #[trigger] r[i] as int, #[trigger] r[j] as int)
}

/// The entries sorted by key, equal keys in entry order.
pub open spec fn stable_order(keys: Seq<(u128, u128)>) -> Seq<usize> {
    choose|r: Seq<usize>| is_stable_order(keys, r)
}

proof fn lemma_first_difference(r1: Seq<usize>, r2: Seq<usize>, k: int) -> (i: int)
    requires
        r1.len() == r2.len(),
        0 <= k <= r1.len(),
        forall|q: int| 0 <= q < k ==> r1[q] == r2[q],
        exists|j: int| k <= j < r1.len() && r1[j] != r2[j],
    ensures
        k <= i < r1.len(),
        r1[i] != r2[i],
        forall|q: int| 0 <= q < i ==> r1[q] == r2[q],
    decreases r1.len() - k,
{
    if r1[k] != r2[k] {
        k
    } else {
        lemma_first_difference(r1, r2, k + 1)
    }
}

/// There is one stable order only.
proof fn lemma_stable_order_unique(keys: Seq<(u128, u128)>, r1: Seq<usize>, r2: Seq<usize>)
    requires
        is_stable_order(keys, r1),
        is_stable_order(keys, r2),
    ensures
        r1 == r2,
{
    if !(r1 =~= r2) {
        let i = lemma_first_difference(r1, r2, 0);
        let a = r1[i];
        let b = r2[i];
        assert(b < keys.len());
        assert(a < keys.len());
        assert(r1.contains(b));
        assert(r2.contains(a));
        let j = choose|j: int| 0 <= j < r1.len() && r1[j] == b;
        let j2 = choose|j: int| 0 <= j < r2.len() && r2[j] == a;
        if j < i {
            assert(r2[j] == b);
            assert(before(keys, r2[j] as int, r2[i] as int));
        } else if j2 < i {
            assert(r1[j2] == a);
            assert(before(keys, r1[j2] as int, r1[i] as int));
        } else {
            assert(before(keys, r1[i] as int, r1[j] as int));
            assert(before(keys, r2[i] as int, r2[j2] as int));
        }
    }
}

/// `a` before `b` in `keys` order, computed.
fn before_exec(keys: &Vec<(u128, u128)>, x: usize, y: usize) -> (r: bool)
    requires
        keys_ok(keys@),
        x < keys@.len(),
        y < keys@.len(),
    ensures
        r == before(keys@, x as int, y as int),
{
    let (a0, a1) = keys[x];
    let (b0, b1) = keys[y];
    assert(keys@[x as int].1 > 0 && keys@[y as int].1 > 0);
    assert(a0 as int * b1 as int <= 0x4_0000_0000_0000_0000 * 0x2_0000_0000) by (nonlinear_arith)
        requires
            a0 <= 0x4_0000_0000_0000_0000,
            b1 <= 0x2_0000_0000,
    ;
    assert(b0 as int * a1 as int <= 0x4_0000_0000_0000_0000 * 0x2_0000_0000) by (nonlinear_arith)
        requires
            b0 <= 0x4_0000_0000_0000_0000,
            a1 <= 0x2_0000_0000,
    ;
    let l = a0 * b1;
    let r = b0 * a1;
    l < r || (!(r < l) && x < y)
}

/// The entries `0 .. keys.len()` in `before` order: the stable sort of the
/// entries by their keys.
pub(crate) fn sort_by_key(keys: &Vec<(u128, u128)>) -> (r: Vec<usize>)
    requires
        keys_ok(keys@),
    ensures
        r@.len() == keys@.len(),
        forall|i: int| 0 <= i < r@.len() ==> #[trigger] r@[i] < keys@.len(),
        forall|x: usize| x < keys@.len() ==> #[trigger] r@.contains(x),
        forall|i: int, j: int| 0 <= i < j < r@.len() ==> before(keys@, #[trigger] r@[i] as int, #[trigger] r@[j] as int),
        forall|i: int, j: int| 0 <= i < r@.len() && 0 <= j < r@.len() && i != j ==> #[trigger] r@[i] != #[trigger] r@[j],
        r@ == stable_order(keys@),
{
    let mut out: Vec<usize> = Vec::new();
    let mut x: usize = 0;
    while x < keys.len()
        invariant
            keys_ok(keys@),
            x <= keys@.len(),
            out@.len() == x,
            forall|i: int| 0 <= i < out@.len() ==> #[trigger] out@[i] < x,
            forall|y: usize| y < x ==> #[trigger] out@.contains(y),
            forall|i: int, j: int|
                0 <= i < j < out@.len() ==> before(keys@, #[trigger] out@[i] as int, #[trigger] out@[j] as int),
        decreases keys@.len() - x,
    {
        let mut p: usize = 0;
        while p < out.len() && !before_exec(keys, x, out[p])
            invariant
                keys_ok(keys@),
                x < keys@.len(),
                p <= out@.len(),
                forall|i: int| 0 <= i < out@.len() ==> #[trigger] out@[i] < x,
                forall|q: int| 0 <= q < p ==> before(keys@, #[trigger] out@[q] as int, x as int),
            decreases out@.len() - p,
        {
            assert(out@[p as int] != x);
            p = p + 1;
        }
        let ghost o = out@;
        proof {
            if p < o.len() {
                assert forall|q: int| p <= q < o.len() implies before(keys@, x as int, #[trigger] o[q] as int) by {
                    if q > p {
                        assert(before(keys@, o[p as int] as int, o[q] as int));
                        lemma_before_trans(keys@, x as int, o[p as int] as int, o[q] as int);
                    }
                }
            }
        }
        out.insert(p, x);
        proof {
            assert(out@ == o.insert(p as int, x));
            assert forall|i: int, j: int| 0 <= i < j < out@.len() implies before(
                keys@,
                #[trigger] out@[i] as int,
                #[trigger] out@[j] as int,
            ) by {
                if j < p {
                    assert(out@[i] == o[i] && out@[j] == o[j]);
                } else if j == p {
                    assert(out@[i] == o[i]);
                } else if i < p {
                    assert(out@[i] == o[i] && out@[j] == o[j - 1]);
                    assert(before(keys@, o[i] as int, x as int));
                    lemma_before_trans(keys@, o[i] as int, x as int, o[j - 1] as int);
                } else if i == p {
                    assert(out@[j] == o[j - 1]);
                } else {
                    assert(out@[i] == o[i - 1] && out@[j] == o[j - 1]);
                }
            }
            assert forall|y: usize| y < x + 1 implies #[trigger] out@.contains(y) by {
                if y < x {
                    assert(o.contains(y));
                    let i = choose|i: int| 0 <= i < o.len() && o[i] == y;
                    if i < p {
                        assert(out@[i] == y);
                    } else {
                        assert(out@[i + 1] == y);
                    }
                } else {
                    assert(out@[p as int] == y);
                }
                assert(out@.contains(y));
            }
        }
        x = x + 1;
    }
    assert forall|i: int, j: int| 0 <= i < out@.len() && 0 <= j < out@.len() && i != j implies #[trigger] out@[i]
        != #[trigger] out@[j] by {
        if i < j {
            assert(before(keys@, out@[i] as int, out@[j] as int));
        } else {
            assert(before(keys@, out@[j] as int, out@[i] as int));
        }
    }
    proof {
        assert(is_stable_order(keys@, out@));
        lemma_stable_order_unique(keys@, out@, stable_order(keys@));
    }
    out
}

proof fn lemma_bary_bounds(ends: Seq<(usize, usize)>, pos: Seq<usize>, v: int, k: int)
    requires
        0 <= k <= ends.len(),
        ends_below(ends, pos.len() as int),
        forall|u: int| 0 <= u < pos.len() ==> #[trigger] pos[u] <= 0x1_0000_0000,
    ensures
        0 <= bary_sum(ends, pos, v, k) <= k * 0x2_0000_0000,
        0 <= bary_count(ends, v, k) <= 2 * k,
    decreases k,
{
    if k > 0 {
        lemma_bary_bounds(ends, pos, v, k - 1);
        assert(ends[k - 1].0 < pos.len());
    }
}

/// The barycenter key of node `v` under positions `pos`.
pub(crate) fn key_of(v: usize, ends: &Vec<(usize, usize)>, pos: &Vec<usize>) -> (r: (u128, u128))
    requires
        v < pos@.len(),
        ends_below(ends@, pos@.len() as int),
        ends@.len() <= u32::MAX,
        forall|u: int| 0 <= u < pos@.len() ==> #[trigger] pos@[u] <= 0x1_0000_0000,
    ensures
        r.0 as int == sort_key(ends@, pos@, v as int).0,
        r.1 as int == sort_key(ends@, pos@, v as int).1,
        r.1 > 0,
        r.0 <= 0x4_0000_0000_0000_0000,
        r.1 <= 0x2_0000_0000,
{
    let mut sum: u128 = 0;
    let mut count: u128 = 0;
    let mut k: usize = 0;
    while k < ends.len()
        invariant
            v < pos@.len(),
            ends_below(ends@, pos@.len() as int),
            ends@.len() <= u32::MAX,
            forall|u: int| 0 <= u < pos@.len() ==> #[trigger] pos@[u] <= 0x1_0000_0000,
            k <= ends@.len(),
            sum == bary_sum(ends@, pos@, v as int, k as int),
            count == bary_count(ends@, v as int, k as int),
        decreases ends@.len() - k,
    {
        proof {
            lemma_bary_bounds(ends@, pos@, v as int, k as int);
        }
        let (s, t) = ends[k];
        assert(s < pos@.len() && t < pos@.len());
        if s == v {
            sum = sum + pos[t] as u128;
            count = count + 1;
        }
        if t == v {
            sum = sum + pos[s] as u128;
            count = count + 1;
        }
        k = k + 1;
    }
    proof {
        lemma_bary_bounds(ends@, pos@, v as int, k as int);
    }
    if count == 0 {
        (pos[v] as u128, 1)
    } else {
        (sum, count)
    }
}

} // verus!
