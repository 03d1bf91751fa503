//! Layered (Sugiyama-style) layout: longest-path layers, barycenter
//! crossing reduction and coordinate assignment, plus the selector that
//! picks between the layered and the force-directed engine.

use crate::cycle::{blocked, ends_below, has_cycle, has_directed_cycle, is_removal_order, live_of, removal_order};
use crate::types::{GraphNode, RelayGraph, NODE_COLLAPSED_H, NODE_COLLAPSED_W};
use vstd::prelude::*;

verus! {

/// Layer of each node position, computed along a removal order: a placed
/// node sits one above its highest predecessor, or in layer 0 without one;
/// a node never placed sits in layer 0.
#[verifier::rlimit(40)]
fn assign_layers(ends: &Vec<(usize, usize)>, order: &Vec<usize>, at: &Vec<usize>, n: usize) -> (layer: Vec<usize>)
    requires
        ends_below(ends@, n as int),
        is_removal_order(ends@, n as int, order@, at@),
    ensures
        layer@.len() == n,
        forall|v: int| 0 <= v < n ==> #[trigger] layer@[v] <= at@[v],
        forall|v: int| 0 <= v < n && at@[v] == n ==> #[trigger] layer@[v] == 0,
        forall|k: int|
            0 <= k < ends@.len() && at@[(#[trigger] ends@[k]).1 as int] < n ==> layer@[ends@[k].0 as int]
                < layer@[ends@[k].1 as int],
        forall|v: int|
            0 <= v < n && at@[v] < n ==> #[trigger] layer@[v] == 0 || exists|k: int|
                0 <= k < ends@.len() && (#[trigger] ends@[k]).1 == v && layer@[ends@[k].0 as int] + 1 == layer@[v],
{
    let mut layer: Vec<usize> = Vec::new();
    while layer.len() < n
        invariant
            layer@.len() <= n,
            forall|v: int| 0 <= v < layer@.len() ==> #[trigger] layer@[v] == 0,
        decreases n - layer@.len(),
    {
        layer.push(0);
    }
    let mut j: usize = 0;
    while j < order.len()
        invariant
            ends_below(ends@, n as int),
            is_removal_order(ends@, n as int, order@, at@),
            layer@.len() == n,
            j <= order@.len(),
            forall|v: int| 0 <= v < n && at@[v] >= j ==> #[trigger] layer@[v] == 0,
            forall|v: int| 0 <= v < n ==> #[trigger] layer@[v] <= at@[v],
            forall|k: int|
                0 <= k < ends@.len() && at@[(#[trigger] ends@[k]).1 as int] < j ==> layer@[ends@[k].0 as int]
                    < layer@[ends@[k].1 as int],
            forall|v: int|
                0 <= v < n && at@[v] < j ==> #[trigger] layer@[v] == 0 || exists|k: int|
                    0 <= k < ends@.len() && (#[trigger] ends@[k]).1 == v && layer@[ends@[k].0 as int] + 1
                        == layer@[v],
        decreases order@.len() - j,
    {
        let v = order[j];
        assert(at@[v as int] == j);
        let mut best: usize = 0;
        let mut k: usize = 0;
        while k < ends.len()
            invariant
                ends_below(ends@, n as int),
                is_removal_order(ends@, n as int, order@, at@),
                layer@.len() == n,
                v < n,
                at@[v as int] == j,
                j < order@.len(),
                k <= ends@.len(),
                forall|u: int| 0 <= u < n ==> #[trigger] layer@[u] <= at@[u],
                best <= j,
                forall|q: int|
                    0 <= q < k && (#[trigger] ends@[q]).1 == v ==> layer@[ends@[q].0 as int] + 1 <= best,
                best == 0 || exists|q: int|
                    0 <= q < k && (#[trigger] ends@[q]).1 == v && layer@[ends@[q].0 as int] + 1 == best,
            decreases ends@.len() - k,
        {
            let (s, t) = ends[k];
            if t == v {
                assert(at@[s as int] < at@[t as int]);
                if layer[s] + 1 > best {
                    best = layer[s] + 1;
                }
            }
            k = k + 1;
        }
        let ghost layer0 = layer@;
        layer.set(v, best);
        proof {
            assert forall|q: int|
                0 <= q < ends@.len() && at@[(#[trigger] ends@[q]).1 as int] < j + 1 implies layer@[ends@[q].0 as int]
                < layer@[ends@[q].1 as int] by {
                let s = ends@[q].0 as int;
                let t = ends@[q].1 as int;
                assert(at@[s] < at@[t]);
                assert(s != v);
                if t != v {
                    assert(layer0[t] == layer@[t]);
                }
            }
            assert forall|u: int|
                0 <= u < n && at@[u] < j + 1 implies #[trigger] layer@[u] == 0 || exists|q: int|
                    0 <= q < ends@.len() && (#[trigger] ends@[q]).1 == u && layer@[ends@[q].0 as int] + 1
                        == layer@[u] by {
                if u != v {
                    assert(at@[u] < j);
                    if layer0[u] != 0 {
                        let q = choose|q: int|
                            0 <= q < ends@.len() && (#[trigger] ends@[q]).1 == u && layer0[ends@[q].0 as int] + 1
                                == layer0[u];
                        assert(at@[ends@[q].0 as int] < at@[u]);
                        assert(ends@[q].0 != v);
                    }
                } else if best != 0 {
                    let q = choose|q: int|
                        0 <= q < k && (#[trigger] ends@[q]).1 == v && layer0[ends@[q].0 as int] + 1 == best;
                    assert(at@[ends@[q].0 as int] < at@[v as int]);
                    assert(ends@[q].0 != v);
                }
            }
        }
        j = j + 1;
    }
    layer
}

/// `layers` lists the node positions of each layer: every node appears
/// exactly once, in the list of its own layer.
pub open spec fn partitions(layers: Seq<Vec<usize>>, layer: Seq<usize>, n: int) -> bool {
    &&& layer.len() == n
    &&& forall|l: int, i: int|
        0 <= l < layers.len() && 0 <= i < layers[l]@.len() ==> (#[trigger] layers[l]@[i]) < n
            && layer[layers[l]@[i] as int] == l
    &&& forall|l: int, i: int, j: int|
        0 <= l < layers.len() && 0 <= i < layers[l]@.len() && 0 <= j < layers[l]@.len() && i != j
            ==> #[trigger] layers[l]@[i] != #[trigger] layers[l]@[j]
    &&& forall|v: int|
        0 <= v < n ==> #[trigger] layer[v] < layers.len() && exists|i: int|
            0 <= i < layers[layer[v] as int]@.len() && layers[layer[v] as int]@[i] == v
}

/// The node positions of each layer, in increasing position order.
fn group_layers(layer: &Vec<usize>) -> (r: Vec<Vec<usize>>)
    requires
        forall|v: int| 0 <= v < layer@.len() ==> #[trigger] layer@[v] < layer@.len(),
    ensures
        partitions(r@, layer@, layer@.len() as int),
        forall|l: int, i: int, j: int|
            0 <= l < r@.len() && 0 <= i < j < r@[l]@.len() ==> #[trigger] r@[l]@[i] < #[trigger] r@[l]@[j],
        layer@.len() > 0 ==> exists|v: int| 0 <= v < layer@.len() && layer@[v] + 1 == r@.len(),
        layer@.len() == 0 ==> r@.len() == 0,
        r@.len() <= layer@.len(),
        forall|l: int| 0 <= l < r@.len() ==> (#[trigger] r@[l])@.len() == count_in(layer@, l, layer@.len() as int),
{
    let n = layer.len();
    let mut r: Vec<Vec<usize>> = Vec::new();
    if n == 0 {
        return r;
    }
    let mut top: usize = 0;
    let mut v: usize = 0;
    while v < n
        invariant
            n == layer@.len(),
            v <= n,
            n > 0,
            forall|u: int| 0 <= u < v ==> #[trigger] layer@[u] <= top,
            v == 0 ==> top == 0,
            v > 0 ==> exists|u: int| 0 <= u < v && layer@[u] == top,
        decreases n - v,
    {
        if layer[v] >= top {
            top = layer[v];
        }
        v = v + 1;
    }
    assert(top < usize::MAX) by {
        let u = choose|u: int| 0 <= u < n && layer@[u] == top;
        assert(layer@[u] < n);
    }
    let mut l: usize = 0;
    while l <= top
        invariant
            n == layer@.len(),
            forall|u: int| 0 <= u < n ==> #[trigger] layer@[u] <= top,
            exists|u: int| 0 <= u < n && layer@[u] == top,
            top < usize::MAX,
            l <= top + 1,
            r@.len() == l,
            forall|m: int, i: int|
                0 <= m < r@.len() && 0 <= i < r@[m]@.len() ==> (#[trigger] r@[m]@[i]) < n
                    && layer@[r@[m]@[i] as int] == m,
            forall|m: int| 0 <= m < r@.len() ==> (#[trigger] r@[m])@.len() == count_in(layer@, m, n as int),
            forall|m: int, i: int, j: int|
                0 <= m < r@.len() && 0 <= i < j < r@[m]@.len() ==> #[trigger] r@[m]@[i] < #[trigger] r@[m]@[j],
            forall|u: int|
                0 <= u < n && #[trigger] layer@[u] < l ==> exists|i: int|
                    0 <= i < r@[layer@[u] as int]@.len() && r@[layer@[u] as int]@[i] == u,
        decreases top + 1 - l,
    {
        let mut row: Vec<usize> = Vec::new();
        let mut u: usize = 0;
        while u < n
            invariant
                n == layer@.len(),
                u <= n,
                row@.len() == count_in(layer@, l as int, u as int),
                forall|i: int| 0 <= i < row@.len() ==> (#[trigger] row@[i]) < u && layer@[row@[i] as int] == l,
                forall|i: int, j: int| 0 <= i < j < row@.len() ==> #[trigger] row@[i] < #[trigger] row@[j],
                forall|w: int| 0 <= w < u && #[trigger] layer@[w] == l ==> exists|i: int|
                    0 <= i < row@.len() && row@[i] == w,
            decreases n - u,
        {
            if layer[u] == l {
                let ghost row0 = row@;
                row.push(u);
                proof {
                    assert forall|w: int| 0 <= w < u + 1 && #[trigger] layer@[w] == l implies exists|i: int|
                        0 <= i < row@.len() && row@[i] == w by {
                        if w < u {
                            let i = choose|i: int| 0 <= i < row0.len() && row0[i] == w;
                            assert(row@[i] == w);
                        } else {
                            assert(row@[row@.len() - 1] == w);
                        }
                    }
                }
            }
            u = u + 1;
        }
        let ghost r0 = r@;
        r.push(row);
        assert(r@[l as int]@.len() == count_in(layer@, l as int, n as int));
        proof {
            assert forall|w: int|
                0 <= w < n && #[trigger] layer@[w] < l + 1 implies exists|i: int|
                    0 <= i < r@[layer@[w] as int]@.len() && r@[layer@[w] as int]@[i] == w by {
                if layer@[w] < l {
                    assert(r@[layer@[w] as int] == r0[layer@[w] as int]);
                } else {
                    assert(r@[l as int]@ == row@);
                    let i = choose|i: int| 0 <= i < row@.len() && row@[i] == w;
                    assert(r@[layer@[w] as int]@[i] == w);
                }
            }
        }
        l = l + 1;
    }
    proof {
        assert forall|v: int|
            0 <= v < n implies #[trigger] layer@[v] < r@.len() && exists|i: int|
                0 <= i < r@[layer@[v] as int]@.len() && r@[layer@[v] as int]@[i] == v by {
            assert(layer@[v] < l);
        }
        assert forall|m: int, i: int, j: int|
            0 <= m < r@.len() && 0 <= i < r@[m]@.len() && 0 <= j < r@[m]@.len() && i != j
                implies #[trigger] r@[m]@[i] != #[trigger] r@[m]@[j] by {
            if i < j {
                assert(r@[m]@[i] < r@[m]@[j]);
            } else {
                assert(r@[m]@[j] < r@[m]@[i]);
            }
        }
    }
    r
}

/// Sizes and gaps used to place nodes.
#[derive(Debug, Clone, Copy, PartialEq, Eq, Structural)]
pub struct LayoutConfig {
    pub node_w: u16,
    pub node_h: u16,
    pub gap_x: u16,
    pub gap_y: u16,
}

/// Horizontal gap between layers.
pub const LAYOUT_NODE_GAP_X: u16 = 60;

/// Vertical gap between nodes of one layer.
pub const LAYOUT_NODE_GAP_Y: u16 = 40;

impl LayoutConfig {
    /// Collapsed node size with the default gaps.
    pub fn new() -> (r: LayoutConfig)
        ensures
            r.node_w == NODE_COLLAPSED_W,
            r.node_h == NODE_COLLAPSED_H,
            r.gap_x == LAYOUT_NODE_GAP_X,
            r.gap_y == LAYOUT_NODE_GAP_Y,
    {
        LayoutConfig {
            node_w: NODE_COLLAPSED_W,
            node_h: NODE_COLLAPSED_H,
            gap_x: LAYOUT_NODE_GAP_X,
            gap_y: LAYOUT_NODE_GAP_Y,
        }
    }

    /// Distance between the left edges of two adjacent layers.
    pub open spec fn step_x(&self) -> int {
        self.node_w + self.gap_x
    }

    /// Distance between the tops of two adjacent nodes of one layer.
    pub open spec fn step_y(&self) -> int {
        self.node_h + self.gap_y
    }

    /// Horizontal position of layer `l`.
    pub open spec fn layer_x(&self, l: int) -> int {
        l * self.step_x()
    }

    /// Vertical position of the `i`-th of `len` nodes stacked around 0.
    pub open spec fn slot_y(&self, i: int, len: int) -> int {
        i * self.step_y() - (len * self.step_y()) / 2
    }
}

/// `b` is `a` with at most its position changed.
pub open spec fn same_but_position(a: GraphNode, b: GraphNode) -> bool {
    &&& b.id == a.id
    &&& b.file_path == a.file_path
    &&& b.line == a.line
    &&& b.column == a.column
    &&& b.symbol_name == a.symbol_name
    &&& b.node_type == a.node_type
    &&& b.is_error == a.is_error
    &&& b.width == a.width
    &&& b.height == a.height
    &&& b.expanded == a.expanded
}

fn set_position(nodes: &mut Vec<GraphNode>, v: usize, x: i64, y: i64)
    requires
        v < old(nodes)@.len(),
    ensures
        final(nodes)@.len() == old(nodes)@.len(),
        forall|u: int| 0 <= u < old(nodes)@.len() && u != v ==> final(nodes)@[u] == old(nodes)@[u],
        same_but_position(old(nodes)@[v as int], final(nodes)@[v as int]),
        final(nodes)@[v as int].x == x,
        final(nodes)@[v as int].y == y,
{
    nodes[v].x = x;
    nodes[v].y = y;
}

/// Number of positions below `u` whose layer is `l`.
pub open spec fn count_in(layer: Seq<usize>, l: int, u: int) -> int
    decreases u,
{
    if u <= 0 {
        0
    } else {
        count_in(layer, l, u - 1) + if layer[u - 1] == l { 1int } else { 0int }
    }
}

/// Writes the coordinates of every node from its layer and its place in it.
fn assign_coordinates(
    config: &LayoutConfig,
    layers: &Vec<Vec<usize>>,
    Ghost(layer): Ghost<Seq<usize>>,
    g: &mut RelayGraph,
)
    requires
        partitions(layers@, layer, old(g).nodes@.len() as int),
        old(g).nodes@.len() <= u32::MAX,
        layers@.len() <= old(g).nodes@.len(),
    ensures
        final(g).edges@ == old(g).edges@,
        final(g).nodes@.len() == old(g).nodes@.len(),
        forall|v: int|
            0 <= v < old(g).nodes@.len() ==> same_but_position(old(g).nodes@[v], #[trigger] final(g).nodes@[v]),
        forall|l: int, i: int|
            0 <= l < layers@.len() && 0 <= i < layers@[l]@.len() ==> final(g).nodes@[#[trigger] layers@[l]@[i] as int].x
                == config.layer_x(l) && final(g).nodes@[layers@[l]@[i] as int].y == config.slot_y(
                i,
                layers@[l]@.len() as int,
            ),
{
    let ghost n = g.nodes@.len() as int;
    let ghost g0 = g.nodes@;
    let sx: i64 = config.node_w as i64 + config.gap_x as i64;
    let sy: i64 = config.node_h as i64 + config.gap_y as i64;
    let mut l: usize = 0;
    while l < layers.len()
        invariant
            partitions(layers@, layer, n),
            n == g0.len(),
            n <= u32::MAX,
            layers@.len() <= n,
            sx == config.step_x(),
            sy == config.step_y(),
            0 <= sx < 0x20000,
            0 <= sy < 0x20000,
            l <= layers@.len(),
            g.edges@ == old(g).edges@,
            g.nodes@.len() == n,
            g0 == old(g).nodes@,
            forall|v: int| 0 <= v < n ==> same_but_position(g0[v], #[trigger] g.nodes@[v]),
            forall|m: int, i: int|
                0 <= m < l && 0 <= i < layers@[m]@.len() ==> g.nodes@[#[trigger] layers@[m]@[i] as int].x
                    == config.layer_x(m) && g.nodes@[layers@[m]@[i] as int].y == config.slot_y(
                    i,
                    layers@[m]@.len() as int,
                ),
        decreases layers@.len() - l,
    {
        let row = &layers[l];
        let len = row.len();
        assert(len <= n) by {
            if len > n {
                let s = row@.take(n + 1).map_values(|x: usize| x as int);
                assert forall|a: int, b: int| 0 <= a < s.len() && 0 <= b < s.len() && a != b implies s[a] != s[b] by {
                    assert(layers@[l as int]@[a] != layers@[l as int]@[b]);
                }
                assert forall|k: int| 0 <= k < s.len() implies 0 <= #[trigger] s[k] < n by {
                    assert(layers@[l as int]@[k] < n);
                }
                crate::cycle::lemma_distinct_below(s, n);
            }
        }
        assert(0 <= (l as int) * (sx as int) <= 0x1_0000_0000 * 0x20000) by (nonlinear_arith)
            requires
                0 <= l <= 0x1_0000_0000,
                0 <= sx < 0x20000,
        ;
        assert(0 <= (len as int) * (sy as int) <= 0x1_0000_0000 * 0x20000) by (nonlinear_arith)
            requires
                0 <= len <= 0x1_0000_0000,
                0 <= sy < 0x20000,
        ;
        let x: i64 = l as i64 * sx;
        assert(x == config.layer_x(l as int));
        let half: i64 = (len as i64 * sy) / 2;
        let mut i: usize = 0;
        while i < len
            invariant
                partitions(layers@, layer, n),
                n == g0.len(),
                n <= u32::MAX,
                row@ == layers@[l as int]@,
                l < layers@.len(),
                len == row@.len(),
                len <= n,
                0 <= sy < 0x20000,
                sy == config.step_y(),
                x == config.layer_x(l as int),
                half == (len * config.step_y()) / 2,
                0 <= half <= 0x1_0000_0000 * 0x20000,
                i <= len,
                g.edges@ == old(g).edges@,
                g.nodes@.len() == n,
                forall|v: int| 0 <= v < n ==> same_but_position(g0[v], #[trigger] g.nodes@[v]),
                forall|m: int, j: int|
                    0 <= m < l && 0 <= j < layers@[m]@.len() ==> g.nodes@[#[trigger] layers@[m]@[j] as int].x
                        == config.layer_x(m) && g.nodes@[layers@[m]@[j] as int].y == config.slot_y(
                        j,
                        layers@[m]@.len() as int,
                    ),
                forall|j: int|
                    0 <= j < i ==> g.nodes@[#[trigger] row@[j] as int].x == config.layer_x(l as int)
                        && g.nodes@[row@[j] as int].y == config.slot_y(j, len as int),
            decreases len - i,
        {
            let v = row[i];
            assert(0 <= (i as int) * (sy as int) <= 0x1_0000_0000 * 0x20000) by (nonlinear_arith)
                requires
                    0 <= i <= 0x1_0000_0000,
                    0 <= sy < 0x20000,
            ;
            let y: i64 = i as i64 * sy - half;
            let ghost before = g.nodes@;
            set_position(&mut g.nodes, v, x, y);
            proof {
                assert forall|m: int, j: int|
                    0 <= m < l && 0 <= j < layers@[m]@.len() implies g.nodes@[#[trigger] layers@[m]@[j] as int].x
                        == config.layer_x(m) && g.nodes@[layers@[m]@[j] as int].y == config.slot_y(
                        j,
                        layers@[m]@.len() as int,
                    ) by {
                    assert(layer[layers@[m]@[j] as int] == m);
                    assert(layer[v as int] == l);
                }
                assert forall|j: int|
                    0 <= j < i + 1 implies g.nodes@[#[trigger] row@[j] as int].x == config.layer_x(l as int)
                        && g.nodes@[row@[j] as int].y == config.slot_y(j, len as int) by {
                    if j < i {
                        assert(row@[j] != row@[i as int]);
                    }
                }
            }
            i = i + 1;
        }
        l = l + 1;
    }
}

proof fn lemma_count_in_bound(layer: Seq<usize>, l: int, u: int)
    requires
        u >= 0,
    ensures
        0 <= count_in(layer, l, u) <= u,
    decreases u,
{
    if u > 0 {
        lemma_count_in_bound(layer, l, u - 1);
    }
}

/// Place of each node position within its layer.
fn positions(layers: &Vec<Vec<usize>>, Ghost(layer): Ghost<Seq<usize>>, n: usize) -> (pos: Vec<usize>)
    requires
        partitions(layers@, layer, n as int),
        forall|l: int| 0 <= l < layers@.len() ==> (#[trigger] layers@[l])@.len() == count_in(layer, l, n as int),
    ensures
        pos@.len() == n,
        forall|u: int| 0 <= u < n ==> #[trigger] pos@[u] <= n,
        forall|l: int, i: int|
            0 <= l < layers@.len() && 0 <= i < layers@[l]@.len() ==> pos@[#[trigger] layers@[l]@[i] as int] == i,
{
    let mut pos: Vec<usize> = Vec::new();
    while pos.len() < n
        invariant
            pos@.len() <= n,
            forall|u: int| 0 <= u < pos@.len() ==> #[trigger] pos@[u] == 0,
        decreases n - pos@.len(),
    {
        pos.push(0);
    }
    let mut l: usize = 0;
    while l < layers.len()
        invariant
            partitions(layers@, layer, n as int),
            forall|m: int| 0 <= m < layers@.len() ==> (#[trigger] layers@[m])@.len() == count_in(layer, m, n as int),
            l <= layers@.len(),
            pos@.len() == n,
            forall|u: int| 0 <= u < n ==> #[trigger] pos@[u] <= n,
            forall|m: int, i: int|
                0 <= m < l && 0 <= i < layers@[m]@.len() ==> pos@[#[trigger] layers@[m]@[i] as int] == i,
        decreases layers@.len() - l,
    {
        let row = &layers[l];
        proof {
            lemma_count_in_bound(layer, l as int, n as int);
        }
        let mut i: usize = 0;
        while i < row.len()
            invariant
                partitions(layers@, layer, n as int),
                row@ == layers@[l as int]@,
                l < layers@.len(),
                row@.len() <= n,
                i <= row@.len(),
                pos@.len() == n,
                forall|u: int| 0 <= u < n ==> #[trigger] pos@[u] <= n,
                forall|m: int, j: int|
                    0 <= m < l && 0 <= j < layers@[m]@.len() ==> pos@[#[trigger] layers@[m]@[j] as int] == j,
                forall|j: int| 0 <= j < i ==> pos@[#[trigger] row@[j] as int] == j,
            decreases row@.len() - i,
        {
            let v = row[i];
            pos.set(v, i);
            proof {
                assert forall|m: int, j: int|
                    0 <= m < l && 0 <= j < layers@[m]@.len() implies pos@[#[trigger] layers@[m]@[j] as int] == j by {
                    assert(layer[layers@[m]@[j] as int] == m);
                    assert(layer[v as int] == l);
                }
                assert forall|j: int| 0 <= j < i + 1 implies pos@[#[trigger] row@[j] as int] == j by {
                    if j < i {
                        assert(row@[j] != row@[i as int]);
                    }
                }
            }
            i = i + 1;
        }
        l = l + 1;
    }
    pos
}

/// The layer lists as sequences.
pub open spec fn rows_view(layers: Seq<Vec<usize>>) -> Seq<Seq<usize>> {
    layers.map_values(|r: Vec<usize>| r@)
}

/// Place of each node position within its layer list in `rows`.
pub open spec fn places_of(rows: Seq<Seq<usize>>, layer: Seq<usize>, n: int) -> Seq<usize> {
    Seq::new(
        n as nat,
        |v: int| (choose|i: int| 0 <= i < rows[layer[v] as int].len() && rows[layer[v] as int][i] == v) as usize,
    )
}

/// The barycenter keys of the nodes of `row` under places `pos`.
pub open spec fn row_keys(ends: Seq<(usize, usize)>, pos: Seq<usize>, row: Seq<usize>) -> Seq<(u128, u128)> {
    Seq::new(
        row.len(),
        |i: int|
            (
                crate::crossing::sort_key(ends, pos, row[i] as int).0 as u128,
                crate::crossing::sort_key(ends, pos, row[i] as int).1 as u128,
            ),
    )
}

/// `row` in barycenter order under places `pos`, ties in their present
/// order.
pub open spec fn sorted_row(ends: Seq<(usize, usize)>, pos: Seq<usize>, row: Seq<usize>) -> Seq<usize> {
    Seq::new(row.len(), |i: int| row[crate::crossing::stable_order(row_keys(ends, pos, row))[i] as int])
}

/// The first `l` layers of `rows` re-sorted one after the other, each under
/// the places that the layers have at that moment.
pub open spec fn pass_upto(
    rows: Seq<Seq<usize>>,
    ends: Seq<(usize, usize)>,
    layer: Seq<usize>,
    n: int,
    l: int,
) -> Seq<Seq<usize>>
    decreases l,
{
    if l <= 0 {
        rows
    } else {
        let p = pass_upto(rows, ends, layer, n, l - 1);
        p.update(l - 1, sorted_row(ends, places_of(p, layer, n), p[l - 1]))
    }
}

/// `k` full passes of barycenter ordering over `rows`.
pub open spec fn crossing_passes(
    rows: Seq<Seq<usize>>,
    ends: Seq<(usize, usize)>,
    layer: Seq<usize>,
    n: int,
    k: int,
) -> Seq<Seq<usize>>
    decreases k,
{
    if k <= 0 {
        rows
    } else {
        let p = crossing_passes(rows, ends, layer, n, k - 1);
        pass_upto(p, ends, layer, n, p.len() as int)
    }
}

proof fn lemma_pass_upto_len(rows: Seq<Seq<usize>>, ends: Seq<(usize, usize)>, layer: Seq<usize>, n: int, l: int)
    requires
        0 <= l <= rows.len(),
    ensures
        pass_upto(rows, ends, layer, n, l).len() == rows.len(),
    decreases l,
{
    if l > 0 {
        lemma_pass_upto_len(rows, ends, layer, n, l - 1);
    }
}

/// Places read from a partition agree with `places_of`.
proof fn lemma_places(layers: Seq<Vec<usize>>, layer: Seq<usize>, n: int, pos: Seq<usize>)
    requires
        partitions(layers, layer, n),
        pos.len() == n,
        forall|l: int, i: int| 0 <= l < layers.len() && 0 <= i < layers[l]@.len() ==> pos[#[trigger] layers[l]@[i] as int] == i,
    ensures
        pos == places_of(rows_view(layers), layer, n),
{
    let rows = rows_view(layers);
    assert forall|v: int| 0 <= v < n implies #[trigger] pos[v] == places_of(rows, layer, n)[v] by {
        let l = layer[v] as int;
        let i = choose|i: int| 0 <= i < layers[l]@.len() && layers[l]@[i] == v;
        assert(rows[l] == layers[l]@);
        let c = choose|c: int| 0 <= c < rows[l].len() && rows[l][c] == v;
        if c != i {
            assert(layers[l]@[c] == layers[l]@[i]);
        }
        assert(pos[layers[l]@[i] as int] == i);
    }
    assert(pos =~= places_of(rows, layer, n));
}

/// Three passes of barycenter ordering over the layers, left to right. In
/// each pass a layer is sorted by the average place of the neighbours of
/// its nodes, ties kept in their previous order, and the places of its
/// nodes are renewed before the next layer is sorted.
fn minimize_crossings(
    layers: Vec<Vec<usize>>,
    ends: &Vec<(usize, usize)>,
    Ghost(layer): Ghost<Seq<usize>>,
    n: usize,
) -> (r: Vec<Vec<usize>>)
    requires
        partitions(layers@, layer, n as int),
        forall|l: int| 0 <= l < layers@.len() ==> (#[trigger] layers@[l])@.len() == count_in(layer, l, n as int),
        n <= u32::MAX,
        ends@.len() <= u32::MAX,
        ends_below(ends@, n as int),
        layers@.len() <= n,
    ensures
        partitions(r@, layer, n as int),
        r@.len() == layers@.len(),
        forall|l: int| 0 <= l < r@.len() ==> (#[trigger] r@[l])@.len() == count_in(layer, l, n as int),
        r@.len() <= n,
        rows_view(r@) == crossing_passes(rows_view(layers@), ends@, layer, n as int, 3),
{
    let ghost count = layers@.len();
    let ghost initial = rows_view(layers@);
    let mut layers = layers;
    let mut pass: usize = 0;
    while pass < 3
        invariant
            partitions(layers@, layer, n as int),
            forall|l: int| 0 <= l < layers@.len() ==> (#[trigger] layers@[l])@.len() == count_in(layer, l, n as int),
            n <= u32::MAX,
            ends@.len() <= u32::MAX,
            ends_below(ends@, n as int),
            layers@.len() == count,
            pass <= 3,
            rows_view(layers@) == crossing_passes(initial, ends@, layer, n as int, pass as int),
        decreases 3 - pass,
    {
        let ghost start = rows_view(layers@);
        let mut pos = positions(&layers, Ghost(layer), n);
        let mut l: usize = 0;
        proof {
            assert(start.len() == layers@.len());
        }
        while l < layers.len()
            invariant
                partitions(layers@, layer, n as int),
                forall|m: int| 0 <= m < layers@.len() ==> (#[trigger] layers@[m])@.len() == count_in(layer, m, n as int),
                n <= u32::MAX,
                ends@.len() <= u32::MAX,
                ends_below(ends@, n as int),
                layers@.len() == count,
                start.len() == count,
                l <= layers@.len(),
                pos@.len() == n,
                forall|u: int| 0 <= u < n ==> #[trigger] pos@[u] <= n,
                forall|m: int, i: int|
                    0 <= m < layers@.len() && 0 <= i < layers@[m]@.len() ==> pos@[#[trigger] layers@[m]@[i] as int] == i,
                rows_view(layers@) == pass_upto(start, ends@, layer, n as int, l as int),
            decreases layers@.len() - l,
        {
            proof {
                lemma_count_in_bound(layer, l as int, n as int);
                lemma_places(layers@, layer, n as int, pos@);
            }
            let row = &layers[l];
            let mut keys: Vec<(u128, u128)> = Vec::new();
            let mut i: usize = 0;
            while i < row.len()
                invariant
                    partitions(layers@, layer, n as int),
                    row@ == layers@[l as int]@,
                    l < layers@.len(),
                    n <= u32::MAX,
                    ends@.len() <= u32::MAX,
                    ends_below(ends@, n as int),
                    pos@.len() == n,
                    forall|u: int| 0 <= u < n ==> #[trigger] pos@[u] <= n,
                    i <= row@.len(),
                    keys@.len() == i,
                    crate::crossing::keys_ok(keys@),
                    forall|j: int| 0 <= j < i ==> #[trigger] keys@[j] == row_keys(ends@, pos@, row@)[j],
                decreases row@.len() - i,
            {
                let k = crate::crossing::key_of(row[i], ends, &pos);
                keys.push(k);
                i = i + 1;
            }
            assert(keys@ =~= row_keys(ends@, pos@, row@));
            let perm = crate::crossing::sort_by_key(&keys);
            let mut new_row: Vec<usize> = Vec::new();
            let mut i: usize = 0;
            while i < perm.len()
                invariant
                    row@ == layers@[l as int]@,
                    perm@.len() == row@.len(),
                    forall|j: int| 0 <= j < perm@.len() ==> #[trigger] perm@[j] < row@.len(),
                    i <= perm@.len(),
                    new_row@.len() == i,
                    forall|j: int| 0 <= j < i ==> #[trigger] new_row@[j] == row@[perm@[j] as int],
                decreases perm@.len() - i,
            {
                new_row.push(row[perm[i]]);
                i = i + 1;
            }
            assert(new_row@ =~= sorted_row(ends@, pos@, row@));
            let ghost old_layers = layers@;
            let ghost pos0 = pos@;
            assert(layers@[l as int]@.len() <= n);
            layers.set(l, new_row);
            proof {
                lemma_permuted_row(old_layers, layers@, layer, n as int, l as int, perm@);
                assert(rows_view(layers@) =~= rows_view(old_layers).update(
                    l as int,
                    sorted_row(ends@, places_of(rows_view(old_layers), layer, n as int), rows_view(old_layers)[l as int]),
                ));
            }
            let mut i: usize = 0;
            while i < layers[l].len()
                invariant
                    partitions(layers@, layer, n as int),
                    l < layers@.len(),
                    pos@.len() == n,
                    forall|u: int| 0 <= u < n ==> #[trigger] pos@[u] <= n,
                    layers@[l as int]@.len() <= n,
                    i <= layers@[l as int]@.len(),
                    forall|u: int| 0 <= u < n && layer[u] != l ==> #[trigger] pos@[u] == pos0[u],
                    forall|m: int, j: int|
                        0 <= m < old_layers.len() && m != l && 0 <= j < old_layers[m]@.len() ==> pos0[
                            #[trigger] old_layers[m]@[j] as int] == j,
                    forall|m: int| 0 <= m < layers@.len() && m != l ==> #[trigger] layers@[m] == old_layers[m],
                    forall|j: int| 0 <= j < i ==> pos@[#[trigger] layers@[l as int]@[j] as int] == j,
                decreases layers@[l as int]@.len() - i,
            {
                let v = layers[l][i];
                pos.set(v, i);
                proof {
                    assert(layer[v as int] == l);
                    assert forall|j: int| 0 <= j < i + 1 implies pos@[#[trigger] layers@[l as int]@[j] as int] == j by {
                        if j < i {
                            assert(layers@[l as int]@[j] != layers@[l as int]@[i as int]);
                        }
                    }
                }
                i = i + 1;
            }
            proof {
                assert forall|m: int, j: int|
                    0 <= m < layers@.len() && 0 <= j < layers@[m]@.len() implies pos@[#[trigger] layers@[m]@[j] as int] == j by {
                    if m != l {
                        assert(layers@[m] == old_layers[m]);
                        assert(layer[layers@[m]@[j] as int] == m);
                    }
                }
            }
            l = l + 1;
        }
        proof {
            assert(rows_view(layers@) == crossing_passes(initial, ends@, layer, n as int, pass + 1));
        }
        pass = pass + 1;
    }
    layers
}

proof fn lemma_permuted_row(
    before: Seq<Vec<usize>>,
    after: Seq<Vec<usize>>,
    layer: Seq<usize>,
    n: int,
    l: int,
    perm: Seq<usize>,
)
    requires
        partitions(before, layer, n),
        0 <= l < before.len(),
        after.len() == before.len(),
        forall|m: int| 0 <= m < before.len() && m != l ==> #[trigger] after[m] == before[m],
        perm.len() == before[l]@.len(),
        before[l]@.len() <= u32::MAX,
        after[l]@.len() == perm.len(),
        forall|j: int| 0 <= j < perm.len() ==> #[trigger] perm[j] < before[l]@.len(),
        forall|j: int| 0 <= j < perm.len() ==> #[trigger] after[l]@[j] == before[l]@[perm[j] as int],
        forall|x: usize| x < before[l]@.len() ==> #[trigger] perm.contains(x),
        forall|i: int, j: int| 0 <= i < perm.len() && 0 <= j < perm.len() && i != j ==> #[trigger] perm[i] != #[trigger] perm[j],
    ensures
        partitions(after, layer, n),
{
    assert forall|m: int, i: int|
        0 <= m < after.len() && 0 <= i < after[m]@.len() implies (#[trigger] after[m]@[i]) < n
            && layer[after[m]@[i] as int] == m by {
        if m == l {
            assert(after[m]@[i] == before[l]@[perm[i] as int]);
        }
    }
    assert forall|m: int, i: int, j: int|
        0 <= m < after.len() && 0 <= i < after[m]@.len() && 0 <= j < after[m]@.len() && i != j
            implies #[trigger] after[m]@[i] != #[trigger] after[m]@[j] by {
        if m == l {
            assert(after[m]@[i] == before[l]@[perm[i] as int]);
            assert(after[m]@[j] == before[l]@[perm[j] as int]);
            assert(perm[i] != perm[j]);
        }
    }
    assert forall|v: int|
        0 <= v < n implies #[trigger] layer[v] < after.len() && exists|i: int|
            0 <= i < after[layer[v] as int]@.len() && after[layer[v] as int]@[i] == v by {
        let m = layer[v] as int;
        let i = choose|i: int| 0 <= i < before[m]@.len() && before[m]@[i] == v;
        if m == l {
            assert(perm.contains(i as usize));
            let j = choose|j: int| 0 <= j < perm.len() && perm[j] == i as usize;
            assert(perm[j] as int == i);
            assert(after[m]@[j] == before[l]@[perm[j] as int]);
            assert(after[m]@[j] == v);
        } else {
            assert(after[m]@[i] == v);
        }
    }
}

/// `layer` gives each node position its longest-path layer: every edge
/// climbs to a higher layer, and a node above layer 0 sits exactly one
/// above some predecessor.
pub open spec fn is_longest_path_layering(g: &RelayGraph, layer: Seq<usize>) -> bool {
    &&& layer.len() == g.nodes@.len()
    &&& forall|i: int, j: int|
        0 <= i < layer.len() && 0 <= j < layer.len() && #[trigger] g.linked(g.nodes@[i].id, g.nodes@[j].id)
            ==> layer[i] < layer[j]
    &&& forall|j: int|
        0 <= j < layer.len() ==> #[trigger] layer[j] == 0 || exists|i: int|
            0 <= i < layer.len() && #[trigger] g.linked(g.nodes@[i].id, g.nodes@[j].id) && layer[i] + 1 == layer[j]
}

/// For any graph: an edge into a node above layer 0 climbs to it from a
/// lower layer, and a node above layer 0 sits exactly one above some
/// predecessor. Nodes that no propagation reaches (those on or behind a
/// cycle) stay in layer 0.
pub open spec fn is_layering(g: &RelayGraph, layer: Seq<usize>) -> bool {
    &&& layer.len() == g.nodes@.len()
    &&& forall|i: int, j: int|
        0 <= i < layer.len() && 0 <= j < layer.len() && #[trigger] g.linked(g.nodes@[i].id, g.nodes@[j].id)
            ==> layer[j] == 0 || layer[i] < layer[j]
    &&& forall|j: int|
        0 <= j < layer.len() ==> #[trigger] layer[j] == 0 || exists|i: int|
            0 <= i < layer.len() && #[trigger] g.linked(g.nodes@[i].id, g.nodes@[j].id) && layer[i] + 1 == layer[j]
}

/// Every node of `g` stands at the horizontal position of its layer and in
/// one of the vertical slots of that layer.
pub open spec fn placed_by_layers(g: &RelayGraph, config: LayoutConfig, layer: Seq<usize>) -> bool {
    &&& layer.len() == g.nodes@.len()
    &&& forall|v: int|
        0 <= v < layer.len() ==> #[trigger] layer[v] < layer.len() && g.nodes@[v].x == config.layer_x(layer[v] as int)
            && exists|i: int|
            0 <= i < count_in(layer, layer[v] as int, layer.len() as int) && g.nodes@[v].y == config.slot_y(
                i,
                count_in(layer, layer[v] as int, layer.len() as int),
            )
}

/// `rows` lists, for each layer from 0 to the highest, the node positions
/// of that layer in increasing order.
pub open spec fn is_grouping(rows: Seq<Seq<usize>>, layer: Seq<usize>) -> bool {
    &&& layer.len() > 0 ==> exists|v: int| 0 <= v < layer.len() && layer[v] + 1 == rows.len()
    &&& layer.len() == 0 ==> rows.len() == 0
    &&& forall|l: int, i: int|
        0 <= l < rows.len() && 0 <= i < rows[l].len() ==> (#[trigger] rows[l][i]) < layer.len()
            && layer[rows[l][i] as int] == l
    &&& forall|l: int, i: int, j: int|
        0 <= l < rows.len() && 0 <= i < j < rows[l].len() ==> #[trigger] rows[l][i] < #[trigger] rows[l][j]
    &&& forall|v: int|
        0 <= v < layer.len() ==> #[trigger] layer[v] < rows.len() && exists|i: int|
            0 <= i < rows[layer[v] as int].len() && rows[layer[v] as int][i] == v
}

/// Node `rows[l][i]` of `g` stands at the position of layer `l` and of
/// slot `i` of that layer.
pub open spec fn placed_in_rows(g: &RelayGraph, config: LayoutConfig, rows: Seq<Seq<usize>>) -> bool {
    forall|l: int, i: int|
        0 <= l < rows.len() && 0 <= i < rows[l].len() ==> g.nodes@[#[trigger] rows[l][i] as int].x == config.layer_x(l)
            && g.nodes@[rows[l][i] as int].y == config.slot_y(i, rows[l].len() as int)
}

/// What the layered layout of `before` gives `after`: node positions by
/// `layer` (the longest-path layers when `before` is acyclic), grouped in
/// insertion order into `rows`, reordered by three barycenter passes over
/// the edges between nodes, and placed slot by slot.
pub open spec fn layered_result(
    before: &RelayGraph,
    after: &RelayGraph,
    config: LayoutConfig,
    layer: Seq<usize>,
    rows: Seq<Seq<usize>>,
) -> bool {
    &&& placed_by_layers(after, config, layer)
    &&& is_layering(before, layer)
    &&& !has_directed_cycle(before) ==> is_longest_path_layering(before, layer)
    &&& is_grouping(rows, layer)
    &&& placed_in_rows(
        after,
        config,
        crossing_passes(rows, before.resolved_ends(before.edges@.len() as int), layer, layer.len() as int, 3),
    )
}

/// The layout engines and the selector between them.
pub struct GraphLayout {
    pub config: LayoutConfig,
}

/// What `auto_layout` did, or left to the force-directed engine.
#[derive(Debug, Clone, Copy, PartialEq, Eq, Structural)]
pub enum LayoutChoice {
    /// The graph is empty: nothing to place.
    Unchanged,
    /// The graph is acyclic and was laid out in layers.
    Layered,
    /// The graph has a cycle: it is left to the force-directed engine.
    ForceDirected,
}

impl GraphLayout {
    /// A layout engine with the default sizes and gaps.
    pub fn new() -> (r: GraphLayout)
        ensures
            r.config.node_w == NODE_COLLAPSED_W,
            r.config.node_h == NODE_COLLAPSED_H,
            r.config.gap_x == LAYOUT_NODE_GAP_X,
            r.config.gap_y == LAYOUT_NODE_GAP_Y,
    {
        GraphLayout { config: LayoutConfig::new() }
    }

    /// A layout engine with the given sizes and gaps.
    pub fn with_config(config: LayoutConfig) -> (r: GraphLayout)
        ensures
            r.config == config,
    {
        GraphLayout { config }
    }

    /// Layered layout: longest-path layers, crossing reduction, then
    /// coordinates. On an acyclic graph the layers are the longest-path
    /// layers, so every edge points to a strictly higher layer.
    #[verifier::rlimit(40)]
    pub fn layout_sugiyama(&self, g: &mut RelayGraph)
        requires
            old(g).wf(),
            old(g).nodes@.len() <= u32::MAX,
            old(g).edges@.len() <= u32::MAX,
        ensures
            final(g).edges@ == old(g).edges@,
            final(g).nodes@.len() == old(g).nodes@.len(),
            forall|v: int|
                0 <= v < old(g).nodes@.len() ==> same_but_position(old(g).nodes@[v], #[trigger] final(g).nodes@[v]),
            exists|layer: Seq<usize>, rows: Seq<Seq<usize>>| #[trigger]
                layered_result(old(g), final(g), self.config, layer, rows),
    {
        let ghost g0 = *g;
        let n = g.nodes.len();
        let ends = g.edge_positions();
        let (order, at, complete) = removal_order(&ends, n);
        let layer = assign_layers(&ends, &order, &at, n);
        proof {
            assert forall|v: int| 0 <= v < layer@.len() implies #[trigger] layer@[v] < layer@.len() by {
                assert(layer@[v] <= at@[v]);
                if at@[v] == n {
                    assert(layer@[v] == 0);
                }
            }
        }
        let layers = group_layers(&layer);
        let ghost rows0 = rows_view(layers@);
        proof {
            assert forall|l: int, i: int, j: int|
                0 <= l < rows0.len() && 0 <= i < j < rows0[l].len() implies #[trigger] rows0[l][i] < #[trigger] rows0[l][j] by {
                assert(rows0[l] == layers@[l]@);
            }
            assert(rows0.len() == layers@.len());
            assert forall|l: int, i: int|
                0 <= l < rows0.len() && 0 <= i < rows0[l].len() implies (#[trigger] rows0[l][i]) < layer@.len()
                    && layer@[rows0[l][i] as int] == l by {
                assert(rows0[l] == layers@[l]@);
                assert(layers@[l]@[i] < layer@.len());
            }
            assert forall|v: int|
                0 <= v < layer@.len() implies #[trigger] layer@[v] < rows0.len() && exists|i: int|
                    0 <= i < rows0[layer@[v] as int].len() && rows0[layer@[v] as int][i] == v by {
                let l = layer@[v] as int;
                assert(rows0[l] == layers@[l]@);
                let i = choose|i: int| 0 <= i < layers@[l]@.len() && layers@[l]@[i] == v;
                assert(rows0[l][i] == v);
            }
            if layer@.len() > 0 {
                let v = choose|v: int| 0 <= v < layer@.len() && layer@[v] + 1 == layers@.len();
                assert(layer@[v] + 1 == rows0.len());
            }
            assert(is_grouping(rows0, layer@));
        }
        let layers = minimize_crossings(layers, &ends, Ghost(layer@), n);
        assign_coordinates(&self.config, &layers, Ghost(layer@), g);
        proof {
            let rows = rows_view(layers@);
            assert forall|l: int, i: int|
                0 <= l < rows.len() && 0 <= i < rows[l].len() implies g.nodes@[#[trigger] rows[l][i] as int].x
                    == self.config.layer_x(l) && g.nodes@[rows[l][i] as int].y == self.config.slot_y(i, rows[l].len() as int) by {
                assert(rows[l] == layers@[l]@);
                assert(g.nodes@[layers@[l]@[i] as int].x == self.config.layer_x(l));
            }
            assert(placed_in_rows(g, self.config, rows));
        }
        proof {
            assert forall|v: int| 0 <= v < layer@.len() implies #[trigger] layer@[v] < layer@.len()
                && g.nodes@[v].x == self.config.layer_x(layer@[v] as int) && exists|i: int|
                0 <= i < count_in(layer@, layer@[v] as int, layer@.len() as int) && g.nodes@[v].y
                    == self.config.slot_y(i, count_in(layer@, layer@[v] as int, layer@.len() as int)) by {
                let l = layer@[v] as int;
                let i = choose|i: int| 0 <= i < layers@[l]@.len() && layers@[l]@[i] == v;
                assert(g.nodes@[layers@[l]@[i] as int].x == self.config.layer_x(l));
            }
            assert(placed_by_layers(g, self.config, layer@));
            lemma_general_layering(&g0, ends@, at@, layer@);
            if !has_directed_cycle(&g0) {
                lemma_acyclic_layering(&g0, ends@, order@, at@, complete, layer@);
            }
            assert(layered_result(&g0, g, self.config, layer@, rows0));
        }
    }
}

impl GraphLayout {
    /// Chooses the layout by the graph's shape: nothing for an empty graph,
    /// the layered layout for an acyclic one; a graph with a cycle is left
    /// unchanged for the force-directed engine, which the result names.
    pub fn auto_layout(&self, g: &mut RelayGraph) -> (r: LayoutChoice)
        requires
            old(g).wf(),
            old(g).nodes@.len() <= u32::MAX,
            old(g).edges@.len() <= u32::MAX,
        ensures
            old(g).nodes@.len() == 0 ==> r == LayoutChoice::Unchanged,
            old(g).nodes@.len() > 0 && has_directed_cycle(old(g)) ==> r == LayoutChoice::ForceDirected,
            old(g).nodes@.len() > 0 && !has_directed_cycle(old(g)) ==> r == LayoutChoice::Layered,
            r != LayoutChoice::Layered ==> *final(g) == *old(g),
            r == LayoutChoice::Layered ==> final(g).edges@ == old(g).edges@ && final(g).nodes@.len()
                == old(g).nodes@.len() && (forall|v: int|
                0 <= v < old(g).nodes@.len() ==> same_but_position(old(g).nodes@[v], #[trigger] final(g).nodes@[v]))
                && exists|layer: Seq<usize>, rows: Seq<Seq<usize>>| #[trigger]
                layered_result(old(g), final(g), self.config, layer, rows),
    {
        if g.nodes.len() == 0 {
            return LayoutChoice::Unchanged;
        }
        if has_cycle(g) {
            LayoutChoice::ForceDirected
        } else {
            self.layout_sugiyama(g);
            LayoutChoice::Layered
        }
    }
}

/// After the layered layout of an acyclic graph, with a positive layer
/// spacing, every edge points from left to right: its source stands at a
/// strictly smaller horizontal position than its target.
pub proof fn lemma_layered_edges_point_right(
    before: &RelayGraph,
    after: &RelayGraph,
    config: LayoutConfig,
    layer: Seq<usize>,
    rows: Seq<Seq<usize>>,
)
    requires
        layered_result(before, after, config, layer, rows),
        !has_directed_cycle(before),
        config.step_x() > 0,
    ensures
        forall|i: int, j: int|
            0 <= i < layer.len() && 0 <= j < layer.len() && #[trigger] before.linked(
                before.nodes@[i].id,
                before.nodes@[j].id,
            ) ==> after.nodes@[i].x < after.nodes@[j].x,
{
    assert forall|i: int, j: int|
        0 <= i < layer.len() && 0 <= j < layer.len() && #[trigger] before.linked(
            before.nodes@[i].id,
            before.nodes@[j].id,
        ) implies after.nodes@[i].x < after.nodes@[j].x by {
        let li = layer[i] as int;
        let lj = layer[j] as int;
        let sx = config.step_x();
        assert(li < lj);
        assert(li * sx < lj * sx) by (nonlinear_arith)
            requires
                li < lj,
                sx > 0,
        ;
        assert(after.nodes@[i].x == config.layer_x(li));
        assert(after.nodes@[j].x == config.layer_x(lj));
    }
}

proof fn lemma_general_layering(
    g: &RelayGraph,
    ends: Seq<(usize, usize)>,
    at: Seq<usize>,
    layer: Seq<usize>,
)
    requires
        g.wf(),
        ends_below(ends, g.nodes@.len() as int),
        forall|k: int|
            #![trigger ends[k]]
            0 <= k < ends.len() ==> g.linked(g.nodes@[ends[k].0 as int].id, g.nodes@[ends[k].1 as int].id),
        forall|a: u32, b: u32|
            #![trigger g.linked(a, b)]
            g.linked(a, b) ==> exists|k: int|
                0 <= k < ends.len() && g.nodes@[(#[trigger] ends[k]).0 as int].id == a
                    && g.nodes@[ends[k].1 as int].id == b,
        at.len() == g.nodes@.len(),
        forall|v: int| 0 <= v < g.nodes@.len() ==> #[trigger] at[v] <= g.nodes@.len(),
        layer.len() == g.nodes@.len(),
        forall|v: int| 0 <= v < g.nodes@.len() && at[v] == g.nodes@.len() ==> #[trigger] layer[v] == 0,
        forall|k: int|
            0 <= k < ends.len() && at[(#[trigger] ends[k]).1 as int] < g.nodes@.len() ==> layer[ends[k].0 as int]
                < layer[ends[k].1 as int],
        forall|v: int|
            0 <= v < g.nodes@.len() && at[v] < g.nodes@.len() ==> #[trigger] layer[v] == 0 || exists|k: int|
                0 <= k < ends.len() && (#[trigger] ends[k]).1 == v && layer[ends[k].0 as int] + 1 == layer[v],
    ensures
        is_layering(g, layer),
{
    let n = g.nodes@.len() as int;
    assert forall|i: int, j: int|
        0 <= i < n && 0 <= j < n && #[trigger] g.linked(g.nodes@[i].id, g.nodes@[j].id) implies layer[j] == 0
        || layer[i] < layer[j] by {
        let k = choose|k: int|
            0 <= k < ends.len() && g.nodes@[(#[trigger] ends[k]).0 as int].id == g.nodes@[i].id
                && g.nodes@[ends[k].1 as int].id == g.nodes@[j].id;
        assert(ends[k].0 < n && ends[k].1 < n);
        assert(ends[k].0 == i);
        assert(ends[k].1 == j);
        if at[j] == n {
            assert(layer[j] == 0);
        }
    }
    assert forall|j: int| 0 <= j < n implies #[trigger] layer[j] == 0 || exists|i: int|
        0 <= i < n && #[trigger] g.linked(g.nodes@[i].id, g.nodes@[j].id) && layer[i] + 1 == layer[j] by {
        if layer[j] != 0 {
            assert(at[j] <= n);
            if at[j] == n {
                assert(layer[j] == 0);
            }
            let k = choose|k: int|
                0 <= k < ends.len() && (#[trigger] ends[k]).1 == j && layer[ends[k].0 as int] + 1 == layer[j];
            assert(ends[k].0 < n);
            assert(g.linked(g.nodes@[ends[k].0 as int].id, g.nodes@[ends[k].1 as int].id));
        }
    }
}

proof fn lemma_acyclic_layering(
    g: &RelayGraph,
    ends: Seq<(usize, usize)>,
    order: Seq<usize>,
    at: Seq<usize>,
    complete: bool,
    layer: Seq<usize>,
)
    requires
        g.wf(),
        !has_directed_cycle(g),
        ends_below(ends, g.nodes@.len() as int),
        forall|k: int|
            #![trigger ends[k]]
            0 <= k < ends.len() ==> g.linked(g.nodes@[ends[k].0 as int].id, g.nodes@[ends[k].1 as int].id),
        forall|a: u32, b: u32|
            #![trigger g.linked(a, b)]
            g.linked(a, b) ==> exists|k: int|
                0 <= k < ends.len() && g.nodes@[(#[trigger] ends[k]).0 as int].id == a
                    && g.nodes@[ends[k].1 as int].id == b,
        is_removal_order(ends, g.nodes@.len() as int, order, at),
        complete ==> forall|v: int| 0 <= v < g.nodes@.len() ==> #[trigger] at[v] < g.nodes@.len(),
        !complete ==> exists|v: int| 0 <= v < g.nodes@.len() && #[trigger] at[v] == g.nodes@.len(),
        !complete ==> forall|v: int|
            0 <= v < g.nodes@.len() && at[v] == g.nodes@.len() ==> #[trigger] blocked(
                ends,
                live_of(at, g.nodes@.len() as int),
                v,
            ),
        layer.len() == g.nodes@.len(),
        forall|k: int|
            0 <= k < ends.len() && at[(#[trigger] ends[k]).1 as int] < g.nodes@.len() ==> layer[ends[k].0 as int]
                < layer[ends[k].1 as int],
        forall|v: int|
            0 <= v < g.nodes@.len() && at[v] < g.nodes@.len() ==> #[trigger] layer[v] == 0 || exists|k: int|
                0 <= k < ends.len() && (#[trigger] ends[k]).1 == v && layer[ends[k].0 as int] + 1 == layer[v],
    ensures
        is_longest_path_layering(g, layer),
{
    let n = g.nodes@.len() as int;
    if !complete {
        let live = live_of(at, n);
        let v = choose|v: int| 0 <= v < n && #[trigger] at[v] == n;
        assert(!live[v]);
        assert forall|i: int| 0 <= i < live.len() && !live[i] implies #[trigger] blocked(ends, live, i) by {
            assert(at[i] <= n);
        }
        crate::cycle::lemma_stuck_has_cycle(g, ends, live);
    }
    assert forall|i: int, j: int|
        0 <= i < n && 0 <= j < n && #[trigger] g.linked(g.nodes@[i].id, g.nodes@[j].id) implies layer[i] < layer[j] by {
        let k = choose|k: int|
            0 <= k < ends.len() && g.nodes@[(#[trigger] ends[k]).0 as int].id == g.nodes@[i].id
                && g.nodes@[ends[k].1 as int].id == g.nodes@[j].id;
        assert(ends[k].0 == i);
        assert(ends[k].1 == j);
        assert(at[j] < n);
    }
    assert forall|j: int| 0 <= j < n implies #[trigger] layer[j] == 0 || exists|i: int|
        0 <= i < n && #[trigger] g.linked(g.nodes@[i].id, g.nodes@[j].id) && layer[i] + 1 == layer[j] by {
        assert(at[j] < n);
        if layer[j] != 0 {
            let k = choose|k: int|
                0 <= k < ends.len() && (#[trigger] ends[k]).1 == j && layer[ends[k].0 as int] + 1 == layer[j];
            assert(g.linked(g.nodes@[ends[k].0 as int].id, g.nodes@[ends[k].1 as int].id));
        }
    }
}

} // verus!
