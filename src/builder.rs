//! The graph builder: error locations and the symbol references discovered
//! near them become one deduplicated relay graph.

use crate::types::{EdgeType, ErrorInfo, GraphEdge, GraphNode, NodeType, RelayGraph, NODE_COLLAPSED_H, NODE_COLLAPSED_W};
use vstd::prelude::*;

verus! {

/// A symbol found near an error by static analysis.
#[derive(Debug)]
pub struct SymbolRef {
    pub file: String,
    pub line: u32,
    pub column: u32,
    pub name: String,
    pub node_type: NodeType,
    pub edge_type: EdgeType,
}

/// What analysis found for one error: the symbol its position refers to,
/// if any, and the references visible in its enclosing scope.
#[derive(Debug)]
pub struct DiscoveredRefs {
    pub direct: Option<SymbolRef>,
    pub scope: Vec<SymbolRef>,
}

/// `s` begins with `p`.
pub open spec fn starts_with(s: Seq<char>, p: Seq<char>) -> bool {
    p.len() <= s.len() && s.take(p.len() as int) == p
}

/// A discovered reference the graph shows: it has a name and does not lie
/// in a system header under `/usr/`.
pub open spec fn shown(r: &SymbolRef) -> bool {
    r.name@.len() > 0 && !starts_with(r.file@, seq!['/', 'u', 's', 'r', '/'])
}

/// Whether the graph shows discovered reference `r`.
pub fn is_shown(r: &SymbolRef) -> (b: bool)
    ensures
        b == shown(r),
{
    let ghost p = seq!['/', 'u', 's', 'r', '/'];
    if r.name.unicode_len() == 0 {
        return false;
    }
    let f = r.file.as_str();
    if f.unicode_len() < 5 {
        return true;
    }
    let sys = f.get_char(0) == '/' && f.get_char(1) == 'u' && f.get_char(2) == 's' && f.get_char(3) == 'r'
        && f.get_char(4) == '/';
    assert(sys == (r.file@.take(5) =~= p));
    !sys
}

/// Offset above the error ids from which discovered nodes are numbered.
pub const DEFAULT_ID_OFFSET: u32 = 1000;

/// Allocates node ids from one increasing counter.
pub struct GraphBuilder {
    pub next_id: u32,
    pub id_offset: u32,
}

/// Two edges join the same two nodes, in either direction.
pub open spec fn same_pair(a: GraphEdge, b: GraphEdge) -> bool {
    (a.source_id == b.source_id && a.target_id == b.target_id) || (a.source_id == b.target_id && a.target_id
        == b.source_id)
}

/// Some edge joins `a` and `b`, in either direction.
pub open spec fn joined(g: &RelayGraph, a: u32, b: u32) -> bool {
    exists|k: int|
        0 <= k < g.edges@.len() && ((#[trigger] g.edges@[k]).source_id == a && g.edges@[k].target_id == b
            || g.edges@[k].source_id == b && g.edges@[k].target_id == a)
}

/// Some node sits at `file`:`line`.
pub open spec fn has_key(g: &RelayGraph, file: Seq<char>, line: u32) -> bool {
    exists|v: int| 0 <= v < g.nodes@.len() && (#[trigger] g.nodes@[v]).file_path@ == file && g.nodes@[v].line == line
}

/// A reference that can stand in the graph: its file is known, its line
/// is not 0, and it is not the location of the error it came from.
pub open spec fn usable(r: &SymbolRef, origin_file: Seq<char>, origin_line: u32) -> bool {
    &&& r.file@.len() > 0
    &&& r.line != 0
    &&& !(r.file@ == origin_file && r.line == origin_line)
}

/// Reference `r` of the error node `origin` stands in the graph: some node
/// sits at its location and an edge joins it to `origin`.
pub open spec fn served(g: &RelayGraph, origin: u32, r: &SymbolRef) -> bool {
    exists|v: int|
        0 <= v < g.nodes@.len() && (#[trigger] g.nodes@[v]).file_path@ == r.file@ && g.nodes@[v].line == r.line
            && joined(g, origin, g.nodes@[v].id)
}

/// Node `n` was made for reference `r`: it carries the reference's
/// location, column, name and category, is no error node, and has the
/// initial layout state.
pub open spec fn made_from(n: GraphNode, r: &SymbolRef) -> bool {
    &&& n.file_path@ == r.file@
    &&& n.line == r.line
    &&& n.column == r.column
    &&& n.symbol_name@ == r.name@
    &&& n.node_type == r.node_type
    &&& !n.is_error
    &&& n.x == 0 && n.y == 0 && !n.expanded
    &&& n.width == NODE_COLLAPSED_W as i64 && n.height == NODE_COLLAPSED_H as i64
}

/// `r` is the direct reference of error `i` (when `direct`), or one of its
/// scope references (otherwise).
pub open spec fn ref_of(refs: Seq<DiscoveredRefs>, i: int, r: SymbolRef, direct: bool) -> bool {
    &&& 0 <= i < refs.len()
    &&& direct ==> refs[i].direct == Some(r)
    &&& !direct ==> exists|j: int| 0 <= j < refs[i].scope@.len() && refs[i].scope@[j] == r
}

/// Node `n` was made for the usable reference `r` of error `i`.
pub open spec fn node_from(
    n: GraphNode,
    errors: Seq<ErrorInfo>,
    refs: Seq<DiscoveredRefs>,
    i: int,
    r: SymbolRef,
    direct: bool,
) -> bool {
    &&& 0 <= i < errors.len()
    &&& ref_of(refs, i, r, direct)
    &&& usable(&r, errors[i].file_path@, errors[i].line)
    &&& made_from(n, &r)
}

/// Edge `e` was added for the usable reference `r` of error `i`: it leads
/// from that error's node (`start + i`) to the node at `r`'s location, with
/// `r`'s relation, on the error path exactly when `r` is the direct
/// reference.
pub open spec fn edge_from(
    g: &RelayGraph,
    e: GraphEdge,
    errors: Seq<ErrorInfo>,
    refs: Seq<DiscoveredRefs>,
    start: int,
    i: int,
    r: SymbolRef,
    direct: bool,
) -> bool {
    &&& 0 <= i < errors.len()
    &&& ref_of(refs, i, r, direct)
    &&& usable(&r, errors[i].file_path@, errors[i].line)
    &&& e.source_id == start + i
    &&& e.edge_type == r.edge_type
    &&& e.on_error_path == direct
    &&& node_at(g, e.target_id, r.file@, r.line)
}

/// The invariants of a built graph: unique ids below the counter, no
/// dangling edge, no edge from a node to itself, no two edges between the same two nodes, the first
/// `n_err` nodes are the error nodes, and two nodes share a location only
/// when both are error nodes.
pub open spec fn builder_inv(g: &RelayGraph, n_err: int, next_id: u32) -> bool {
    &&& g.wf()
    &&& n_err <= g.nodes@.len()
    &&& forall|v: int| 0 <= v < g.nodes@.len() ==> (#[trigger] g.nodes@[v]).id < next_id
    &&& forall|k: int|
        0 <= k < g.edges@.len() ==> g.has_id((#[trigger] g.edges@[k]).source_id) && g.has_id(g.edges@[k].target_id)
            && g.edges@[k].source_id != g.edges@[k].target_id
    &&& forall|k1: int, k2: int|
        0 <= k1 < g.edges@.len() && 0 <= k2 < g.edges@.len() && k1 != k2 ==> !same_pair(
            #[trigger] g.edges@[k1],
            #[trigger] g.edges@[k2],
        )
    &&& forall|v: int| 0 <= v < g.nodes@.len() ==> ((#[trigger] g.nodes@[v]).is_error <==> v < n_err)
    &&& forall|i: int, j: int|
        0 <= i < g.nodes@.len() && 0 <= j < g.nodes@.len() && i != j && (#[trigger] g.nodes@[i]).file_path@
            == (#[trigger] g.nodes@[j]).file_path@ && g.nodes@[i].line == g.nodes@[j].line ==> g.nodes@[i].is_error
            && g.nodes@[j].is_error
}

/// First node at `file`:`line`.
fn find_by_key(g: &RelayGraph, file: &String, line: u32) -> (r: Option<usize>)
    ensures
        match r {
            Some(v) => v < g.nodes@.len() && g.nodes@[v as int].file_path@ == file@ && g.nodes@[v as int].line == line,
            None => !has_key(g, file@, line),
        },
{
    let mut v: usize = 0;
    while v < g.nodes.len()
        invariant
            v <= g.nodes@.len(),
            forall|u: int| 0 <= u < v ==> !((#[trigger] g.nodes@[u]).file_path@ == file@ && g.nodes@[u].line == line),
        decreases g.nodes@.len() - v,
    {
        if g.nodes[v].line == line && g.nodes[v].file_path == *file {
            return Some(v);
        }
        v = v + 1;
    }
    None
}

/// Whether an edge joins `a` and `b`, in either direction.
fn is_joined(g: &RelayGraph, a: u32, b: u32) -> (r: bool)
    ensures
        r == joined(g, a, b),
{
    let mut k: usize = 0;
    while k < g.edges.len()
        invariant
            k <= g.edges@.len(),
            forall|q: int|
                0 <= q < k ==> !((#[trigger] g.edges@[q]).source_id == a && g.edges@[q].target_id == b
                    || g.edges@[q].source_id == b && g.edges@[q].target_id == a),
        decreases g.edges@.len() - k,
    {
        let e = g.edges[k];
        if (e.source_id == a && e.target_id == b) || (e.source_id == b && e.target_id == a) {
            return true;
        }
        k = k + 1;
    }
    false
}

/// `g2` holds `g1` as a prefix of its nodes and of its edges.
pub open spec fn extends(g1: &RelayGraph, g2: &RelayGraph) -> bool {
    &&& g1.nodes@.len() <= g2.nodes@.len()
    &&& g1.edges@.len() <= g2.edges@.len()
    &&& forall|v: int| 0 <= v < g1.nodes@.len() ==> #[trigger] g2.nodes@[v] == g1.nodes@[v]
    &&& forall|k: int| 0 <= k < g1.edges@.len() ==> #[trigger] g2.edges@[k] == g1.edges@[k]
}

proof fn lemma_served_grows(g1: &RelayGraph, g2: &RelayGraph, origin: u32, r: &SymbolRef)
    requires
        extends(g1, g2),
        served(g1, origin, r),
    ensures
        served(g2, origin, r),
{
    let v = choose|v: int|
        0 <= v < g1.nodes@.len() && (#[trigger] g1.nodes@[v]).file_path@ == r.file@ && g1.nodes@[v].line == r.line
            && joined(g1, origin, g1.nodes@[v].id);
    let k = choose|k: int|
        0 <= k < g1.edges@.len() && ((#[trigger] g1.edges@[k]).source_id == origin && g1.edges@[k].target_id
            == g1.nodes@[v].id || g1.edges@[k].source_id == g1.nodes@[v].id && g1.edges@[k].target_id == origin);
    assert(g2.edges@[k] == g1.edges@[k]);
    assert(g2.nodes@[v] == g1.nodes@[v]);
}

proof fn lemma_has_id_grows(g1: &RelayGraph, g2: &RelayGraph, id: u32)
    requires
        extends(g1, g2),
        g1.has_id(id),
    ensures
        g2.has_id(id),
{
    let v = choose|v: int| 0 <= v < g1.nodes@.len() && #[trigger] g1.nodes@[v].id == id;
    assert(g2.nodes@[v] == g1.nodes@[v]);
}

/// A node of the graph carries `id` and sits at `file`:`line`.
pub open spec fn node_at(g: &RelayGraph, id: u32, file: Seq<char>, line: u32) -> bool {
    exists|v: int|
        0 <= v < g.nodes@.len() && (#[trigger] g.nodes@[v]).id == id && g.nodes@[v].file_path@ == file
            && g.nodes@[v].line == line
}

/// Number of references discovered for one error.
pub open spec fn ref_count(d: &DiscoveredRefs) -> int {
    (if d.direct is Some { 1int } else { 0int }) + d.scope@.len()
}

/// Number of references discovered for all errors.
pub open spec fn total_refs(s: Seq<DiscoveredRefs>) -> int
    decreases s.len(),
{
    if s.len() == 0 {
        0
    } else {
        total_refs(s.drop_last()) + ref_count(&s.last())
    }
}

proof fn lemma_total_refs_prefix(s: Seq<DiscoveredRefs>, i: int)
    requires
        0 <= i < s.len(),
    ensures
        total_refs(s.take(i + 1)) == total_refs(s.take(i)) + ref_count(&s[i]),
        total_refs(s.take(i + 1)) <= total_refs(s),
    decreases s.len(),
{
    assert(s.take(i + 1).drop_last() =~= s.take(i));
    if i + 1 < s.len() {
        lemma_total_refs_prefix(s.drop_last(), i);
        assert(s.drop_last().take(i + 1) =~= s.take(i + 1));
        assert(s.drop_last().take(i) =~= s.take(i));
    } else {
        assert(s.take(i + 1) =~= s);
    }
}

/// Every usable reference discovered for error `e`, whose node carries
/// `origin`, stands in the graph.
pub open spec fn all_served(g: &RelayGraph, origin: u32, e: &ErrorInfo, d: &DiscoveredRefs) -> bool {
    &&& (d.direct is Some && usable(&d.direct->0, e.file_path@, e.line)) ==> served(g, origin, &d.direct->0)
    &&& forall|j: int|
        0 <= j < d.scope@.len() && usable(&d.scope@[j], e.file_path@, e.line) ==> served(
            g,
            origin,
            #[trigger] &d.scope@[j],
        )
}

proof fn lemma_all_served_grows(g1: &RelayGraph, g2: &RelayGraph, origin: u32, e: &ErrorInfo, d: &DiscoveredRefs)
    requires
        extends(g1, g2),
        all_served(g1, origin, e, d),
    ensures
        all_served(g2, origin, e, d),
{
    if d.direct is Some && usable(&d.direct->0, e.file_path@, e.line) {
        lemma_served_grows(g1, g2, origin, &d.direct->0);
    }
    assert forall|j: int|
        0 <= j < d.scope@.len() && usable(&d.scope@[j], e.file_path@, e.line) implies served(
            g2,
            origin,
            #[trigger] &d.scope@[j],
        ) by {
        lemma_served_grows(g1, g2, origin, &d.scope@[j]);
    }
}

/// Node `n` is the error node made for `e` with identifier `id`.
pub open spec fn error_node(n: GraphNode, e: &ErrorInfo, id: u32) -> bool {
    &&& n.id == id
    &&& n.file_path@ == e.file_path@
    &&& n.line == e.line
    &&& n.column == e.column
    &&& n.symbol_name@ == e.message@
    &&& n.node_type == NodeType::ErrorSource
    &&& n.is_error
    &&& n.x == 0 && n.y == 0 && !n.expanded
    &&& n.width == NODE_COLLAPSED_W as i64 && n.height == NODE_COLLAPSED_H as i64
}

impl GraphBuilder {
    /// A builder whose counter starts at 0, with the default offset.
    pub fn new() -> (r: GraphBuilder)
        ensures
            r.next_id == 0,
            r.id_offset == DEFAULT_ID_OFFSET,
    {
        GraphBuilder { next_id: 0, id_offset: DEFAULT_ID_OFFSET }
    }

    /// A builder whose counter starts at 0, with the given offset.
    pub fn with_id_offset(id_offset: u32) -> (r: GraphBuilder)
        ensures
            r.next_id == 0,
            r.id_offset == id_offset,
    {
        GraphBuilder { next_id: 0, id_offset }
    }

    /// Builds the graph of one error batch. Each error gets an error node,
    /// numbered from the counter in order; the counter then jumps by the
    /// offset, and the references discovered for error `i` (`refs[i]`) are
    /// resolved against the graph: the direct one with an edge on the error
    /// path, the others without.
    pub fn build_graph(&mut self, errors: &Vec<ErrorInfo>, refs: &Vec<DiscoveredRefs>) -> (g: RelayGraph)
        requires
            old(self).next_id + errors@.len() + old(self).id_offset + total_refs(refs@) <= u32::MAX,
        ensures
            builder_inv(&g, errors@.len() as int, final(self).next_id),
            final(self).id_offset == old(self).id_offset,
            final(self).next_id <= old(self).next_id + errors@.len() + old(self).id_offset + total_refs(refs@),
            forall|i: int|
                0 <= i < errors@.len() ==> error_node(
                    #[trigger] g.nodes@[i],
                    &errors@[i],
                    (old(self).next_id + i) as u32,
                ),
            forall|i: int|
                0 <= i < errors@.len() && i < refs@.len() ==> all_served(
                    &g,
                    (old(self).next_id + i) as u32,
                    &errors@[i],
                    #[trigger] &refs@[i],
                ),
            final(self).next_id == old(self).next_id + errors@.len() + old(self).id_offset + (g.nodes@.len()
                - errors@.len()),
            provenance(
                &g,
                errors@,
                refs@,
                old(self).next_id as int,
                old(self).next_id + errors@.len() + old(self).id_offset,
                errors@.len() as int,
            ),
            refs@.len() == 0 ==> g.nodes@.len() == errors@.len() && g.edges@.len() == 0 && final(self).next_id
                == old(self).next_id + errors@.len() + old(self).id_offset,
    {
        let ghost start = self.next_id as int;
        proof {
            lemma_total_refs_nonneg(refs@);
        }
        let n_err = errors.len();
        let mut g = RelayGraph { nodes: Vec::new(), edges: Vec::new() };
        let mut i: usize = 0;
        while i < n_err
            invariant
                n_err == errors@.len(),
                i <= n_err,
                self.next_id == start + i,
                start + errors@.len() + self.id_offset + total_refs(refs@) <= u32::MAX,
                total_refs(refs@) >= 0,
                self.id_offset == old(self).id_offset,
                start == old(self).next_id,
                g.edges@.len() == 0,
                g.nodes@.len() == i,
                forall|v: int| 0 <= v < i ==> error_node(#[trigger] g.nodes@[v], &errors@[v], (start + v) as u32),
            decreases n_err - i,
        {
            let e = &errors[i];
            let node = GraphNode {
                id: self.next_id,
                file_path: e.file_path.clone(),
                line: e.line,
                column: e.column,
                symbol_name: e.message.clone(),
                node_type: NodeType::ErrorSource,
                is_error: true,
                x: 0,
                y: 0,
                width: NODE_COLLAPSED_W as i64,
                height: NODE_COLLAPSED_H as i64,
                expanded: false,
            };
            g.nodes.push(node);
            self.next_id = self.next_id + 1;
            i = i + 1;
        }
        proof {
            let gn = g.nodes@;
            assert forall|a: int, b: int| 0 <= a < gn.len() && 0 <= b < gn.len() && a != b implies #[trigger] gn[a].id
                != #[trigger] gn[b].id by {
                assert(error_node(gn[a], &errors@[a], (start + a) as u32));
                assert(error_node(gn[b], &errors@[b], (start + b) as u32));
            }
            assert forall|v: int| 0 <= v < gn.len() implies (#[trigger] gn[v]).id < self.next_id by {
                assert(error_node(gn[v], &errors@[v], (start + v) as u32));
            }
            assert forall|v: int| 0 <= v < gn.len() implies ((#[trigger] gn[v]).is_error <==> v < n_err) by {
                assert(error_node(gn[v], &errors@[v], (start + v) as u32));
            }
            assert forall|a: int, b: int|
                0 <= a < gn.len() && 0 <= b < gn.len() && a != b && (#[trigger] gn[a]).file_path@
                    == (#[trigger] gn[b]).file_path@ && gn[a].line == gn[b].line implies gn[a].is_error
                    && gn[b].is_error by {
                assert(error_node(gn[a], &errors@[a], (start + a) as u32));
                assert(error_node(gn[b], &errors@[b], (start + b) as u32));
            }
            assert(total_refs(refs@.take(0)) == 0) by {
                assert(refs@.take(0).len() == 0);
            }
        }
        let ghost g_err = g;
        self.next_id = self.next_id + self.id_offset;
        let ghost base = self.next_id as int;
        assert(provenance(&g, errors@, refs@, start, base, n_err as int));
        let mut i: usize = 0;
        while i < n_err && i < refs.len()
            invariant
                n_err == errors@.len(),
                i <= n_err,
                i <= refs@.len(),
                base == start + n_err + self.id_offset,
                base + total_refs(refs@) <= u32::MAX,
                total_refs(refs@) >= 0,
                start >= 0,
                self.next_id <= base + total_refs(refs@.take(i as int)),
                self.id_offset == old(self).id_offset,
                builder_inv(&g, n_err as int, self.next_id),
                extends(&g_err, &g),
                g_err.nodes@.len() == n_err,
                refs@.len() == 0 ==> g.nodes@.len() == n_err && g.edges@.len() == 0 && self.next_id == base,
                forall|v: int| 0 <= v < n_err ==> error_node(#[trigger] g_err.nodes@[v], &errors@[v], (start + v) as u32),
                forall|q: int| 0 <= q < i ==> all_served(&g, (start + q) as u32, &errors@[q], #[trigger] &refs@[q]),
                provenance(&g, errors@, refs@, start, base, n_err as int),
                self.next_id == base + (g.nodes@.len() - n_err),
            decreases n_err - i,
        {
            proof {
                lemma_total_refs_prefix(refs@, i as int);
            }
            let e = &errors[i];
            let d = &refs[i];
            let origin: u32 = g.nodes[i].id;
            proof {
                assert(g.nodes@[i as int] == g_err.nodes@[i as int]);
                assert(error_node(g_err.nodes@[i as int], &errors@[i as int], (start + i) as u32));
                assert(origin == start + i);
                assert(node_at(&g, origin, e.file_path@, e.line));
            }
            let ghost g_i = g;
            if let Some(r) = &d.direct {
                let ghost before = g;
                let ghost next_before = self.next_id as int;
                self.add_reference(&mut g, Ghost(n_err as int), &e.file_path, e.line, origin, r, true);
                proof {
                    assert(ref_of(refs@, i as int, *r, true));
                    lemma_step(&before, &g, &g_err, errors@, refs@, *r, true, i as int, n_err as int, start, base,
                        next_before, self.next_id as int);
                    lemma_node_at_grows(&before, &g, origin, e.file_path@, e.line);
                }
            }
            let ghost g_direct = g;
            let mut j: usize = 0;
            while j < d.scope.len()
                invariant
                    n_err == errors@.len(),
                    i < n_err,
                    i < refs@.len(),
                    d == &refs@[i as int],
                    e == &errors@[i as int],
                    j <= d.scope@.len(),
                    origin == start + i,
                    base == start + n_err + self.id_offset,
                    base + total_refs(refs@) <= u32::MAX,
                    total_refs(refs@.take(i + 1)) <= total_refs(refs@),
                    total_refs(refs@.take(i + 1)) == total_refs(refs@.take(i as int)) + ref_count(d),
                    self.next_id <= base + total_refs(refs@.take(i as int)) + (if d.direct is Some { 1int } else { 0int }) + j,
                    self.id_offset == old(self).id_offset,
                    builder_inv(&g, n_err as int, self.next_id),
                    extends(&g_err, &g),
                    extends(&g_i, &g),
                    extends(&g_direct, &g),
                    g_err.nodes@.len() == n_err,
                    node_at(&g, origin, e.file_path@, e.line),
                    forall|v: int| 0 <= v < n_err ==> error_node(#[trigger] g_err.nodes@[v], &errors@[v], (start + v) as u32),
                    (d.direct is Some && usable(&d.direct->0, e.file_path@, e.line)) ==> served(&g_direct, origin, &d.direct->0),
                    forall|q: int| 0 <= q < j && usable(&d.scope@[q], e.file_path@, e.line) ==> served(&g, origin, #[trigger] &d.scope@[q]),
                    provenance(&g, errors@, refs@, start, base, n_err as int),
                    self.next_id == base + (g.nodes@.len() - n_err),
                decreases d.scope@.len() - j,
            {
                let r = &d.scope[j];
                let ghost before = g;
                let ghost next_before = self.next_id as int;
                self.add_reference(&mut g, Ghost(n_err as int), &e.file_path, e.line, origin, r, false);
                proof {
                    assert(refs@[i as int].scope@[j as int] == *r);
                    assert(ref_of(refs@, i as int, *r, false));
                    lemma_step(&before, &g, &g_err, errors@, refs@, *r, false, i as int, n_err as int, start, base,
                        next_before, self.next_id as int);
                    lemma_extends_trans(&g_i, &before, &g);
                    lemma_extends_trans(&g_direct, &before, &g);
                    lemma_node_at_grows(&before, &g, origin, e.file_path@, e.line);
                    assert forall|q: int| 0 <= q < j + 1 && usable(&d.scope@[q], e.file_path@, e.line) implies served(&g, origin, #[trigger] &d.scope@[q]) by {
                        if q < j {
                            lemma_served_grows(&before, &g, origin, &d.scope@[q]);
                        }
                    }
                }
                j = j + 1;
            }
            proof {
                if d.direct is Some && usable(&d.direct->0, e.file_path@, e.line) {
                    lemma_served_grows(&g_direct, &g, origin, &d.direct->0);
                }
                assert(all_served(&g, origin, e, d));
                assert forall|q: int| 0 <= q < i + 1 implies all_served(&g, (start + q) as u32, &errors@[q], #[trigger] &refs@[q]) by {
                    if q < i {
                        lemma_all_served_grows(&g_i, &g, (start + q) as u32, &errors@[q], &refs@[q]);
                    }
                }
            }
            i = i + 1;
        }
        proof {
            assert forall|v: int| 0 <= v < errors@.len() implies error_node(
                #[trigger] g.nodes@[v],
                &errors@[v],
                (start + v) as u32,
            ) by {
                assert(g.nodes@[v] == g_err.nodes@[v]);
            }
            if i < refs@.len() {
                lemma_total_refs_prefix(refs@, i as int);
            } else {
                assert(refs@.take(i as int) =~= refs@);
            }
        }
        g
    }
}

/// In a graph the builder produced, two nodes share a (file, line)
/// location only when both are error nodes: every discovered reference is
/// merged into the node already at its location, error nodes included.
pub proof fn lemma_unique_locations(g: &RelayGraph, n_err: int, next_id: u32)
    requires
        builder_inv(g, n_err, next_id),
    ensures
        forall|i: int, j: int|
            0 <= i < g.nodes@.len() && 0 <= j < g.nodes@.len() && i != j && (#[trigger] g.nodes@[i]).file_path@
                == (#[trigger] g.nodes@[j]).file_path@ && g.nodes@[i].line == g.nodes@[j].line ==> i < n_err && j
                < n_err,
{
    assert forall|i: int, j: int|
        0 <= i < g.nodes@.len() && 0 <= j < g.nodes@.len() && i != j && (#[trigger] g.nodes@[i]).file_path@
            == (#[trigger] g.nodes@[j]).file_path@ && g.nodes@[i].line == g.nodes@[j].line implies i < n_err && j
            < n_err by {
        assert(g.nodes@[i].is_error && g.nodes@[j].is_error);
    }
}

/// In a graph the builder produced, no two edges join the same two nodes,
/// in either direction, and every edge joins two nodes of the graph.
pub proof fn lemma_no_duplicate_edges(g: &RelayGraph, n_err: int, next_id: u32)
    requires
        builder_inv(g, n_err, next_id),
    ensures
        forall|k1: int, k2: int|
            0 <= k1 < g.edges@.len() && 0 <= k2 < g.edges@.len() && k1 != k2 ==> !same_pair(
                #[trigger] g.edges@[k1],
                #[trigger] g.edges@[k2],
            ),
        forall|k: int|
            0 <= k < g.edges@.len() ==> g.has_id((#[trigger] g.edges@[k]).source_id) && g.has_id(g.edges@[k].target_id),
{
}

proof fn lemma_total_refs_nonneg(s: Seq<DiscoveredRefs>)
    ensures
        total_refs(s) >= 0,
    decreases s.len(),
{
    if s.len() > 0 {
        lemma_total_refs_nonneg(s.drop_last());
    }
}

proof fn lemma_node_at_grows(g1: &RelayGraph, g2: &RelayGraph, id: u32, file: Seq<char>, line: u32)
    requires
        extends(g1, g2),
        node_at(g1, id, file, line),
    ensures
        node_at(g2, id, file, line),
{
    let v = choose|v: int|
        0 <= v < g1.nodes@.len() && (#[trigger] g1.nodes@[v]).id == id && g1.nodes@[v].file_path@ == file
            && g1.nodes@[v].line == line;
    assert(g2.nodes@[v] == g1.nodes@[v]);
}

proof fn lemma_extends_trans(g1: &RelayGraph, g2: &RelayGraph, g3: &RelayGraph)
    requires
        extends(g1, g2),
        extends(g2, g3),
    ensures
        extends(g1, g3),
{
    assert forall|v: int| 0 <= v < g1.nodes@.len() implies #[trigger] g3.nodes@[v] == g1.nodes@[v] by {
        assert(g2.nodes@[v] == g1.nodes@[v]);
    }
    assert forall|k: int| 0 <= k < g1.edges@.len() implies #[trigger] g3.edges@[k] == g1.edges@[k] by {
        assert(g2.edges@[k] == g1.edges@[k]);
    }
}

/// Node `n` was made for some usable discovered reference.
pub open spec fn node_sourced(n: GraphNode, errors: Seq<ErrorInfo>, refs: Seq<DiscoveredRefs>) -> bool {
    exists|i: int, r: SymbolRef, d: bool| #[trigger] node_from(n, errors, refs, i, r, d)
}

/// Edge `e` was added for some usable discovered reference.
pub open spec fn edge_sourced(
    g: &RelayGraph,
    e: GraphEdge,
    errors: Seq<ErrorInfo>,
    refs: Seq<DiscoveredRefs>,
    start: int,
) -> bool {
    exists|i: int, r: SymbolRef, d: bool| #[trigger] edge_from(g, e, errors, refs, start, i, r, d)
}

/// The nodes from `n_err` on and all edges of `g` were made for usable
/// references, and the discovered nodes are numbered from `base` on.
pub open spec fn provenance(
    g: &RelayGraph,
    errors: Seq<ErrorInfo>,
    refs: Seq<DiscoveredRefs>,
    start: int,
    base: int,
    n_err: int,
) -> bool {
    &&& forall|v: int|
        n_err <= v < g.nodes@.len() ==> (#[trigger] g.nodes@[v]).id == base + (v - n_err) && node_sourced(
            g.nodes@[v],
            errors,
            refs,
        )
    &&& forall|k: int| 0 <= k < g.edges@.len() ==> edge_sourced(g, #[trigger] g.edges@[k], errors, refs, start)
}

proof fn lemma_step(
    before: &RelayGraph,
    after: &RelayGraph,
    g_err: &RelayGraph,
    errors: Seq<ErrorInfo>,
    refs: Seq<DiscoveredRefs>,
    r: SymbolRef,
    d: bool,
    i: int,
    n_err: int,
    start: int,
    base: int,
    next_before: int,
    next_after: int,
)
    requires
        extends(g_err, before),
        extends(before, after),
        g_err.nodes@.len() == n_err,
        n_err == errors.len(),
        0 <= i < n_err,
        ref_of(refs, i, r, d),
        provenance(before, errors, refs, start, base, n_err),
        next_before == base + (before.nodes@.len() - n_err),
        next_after == next_before + (after.nodes@.len() - before.nodes@.len()),
        after.nodes@.len() <= before.nodes@.len() + 1,
        after.edges@.len() <= before.edges@.len() + 1,
        after.nodes@.len() > before.nodes@.len() ==> usable(&r, errors[i].file_path@, errors[i].line) && made_from(
            after.nodes@[before.nodes@.len() as int],
            &r,
        ) && after.nodes@[before.nodes@.len() as int].id == next_before,
        after.edges@.len() > before.edges@.len() ==> usable(&r, errors[i].file_path@, errors[i].line)
            && after.edges@[before.edges@.len() as int].edge_type == r.edge_type
            && after.edges@[before.edges@.len() as int].on_error_path == d
            && after.edges@[before.edges@.len() as int].source_id == start + i && node_at(
            after,
            after.edges@[before.edges@.len() as int].target_id,
            r.file@,
            r.line,
        ),
    ensures
        extends(g_err, after),
        provenance(after, errors, refs, start, base, n_err),
        next_after == base + (after.nodes@.len() - n_err),
{
    lemma_extends_trans(g_err, before, after);
    assert forall|v: int| n_err <= v < after.nodes@.len() implies (#[trigger] after.nodes@[v]).id == base + (v - n_err)
        && node_sourced(after.nodes@[v], errors, refs) by {
        if v < before.nodes@.len() {
            assert(after.nodes@[v] == before.nodes@[v]);
            assert(before.nodes@[v].id == base + (v - n_err));
            assert(node_sourced(before.nodes@[v], errors, refs));
        } else {
            assert(node_from(after.nodes@[v], errors, refs, i, r, d));
        }
    }
    assert forall|k: int| 0 <= k < after.edges@.len() implies edge_sourced(
        after,
        #[trigger] after.edges@[k],
        errors,
        refs,
        start,
    ) by {
        if k < before.edges@.len() {
            assert(after.edges@[k] == before.edges@[k]);
            assert(edge_sourced(before, before.edges@[k], errors, refs, start));
            let (i2, r2, d2) = choose|i2: int, r2: SymbolRef, d2: bool| #[trigger]
                edge_from(before, before.edges@[k], errors, refs, start, i2, r2, d2);
            lemma_node_at_grows(before, after, before.edges@[k].target_id, r2.file@, r2.line);
            assert(edge_from(after, after.edges@[k], errors, refs, start, i2, r2, d2));
        } else {
            assert(k == before.edges@.len());
            assert(edge_from(after, after.edges@[k], errors, refs, start, i, r, d));
        }
    }
}

impl GraphBuilder {
    /// Resolves reference `r` of the error node `origin_id` at
    /// `origin_file`:`origin_line`: reuses the node at its location or adds
    /// one, then joins it to the error node unless an edge already does.
    fn add_reference(
        &mut self,
        g: &mut RelayGraph,
        Ghost(n_err): Ghost<int>,
        origin_file: &String,
        origin_line: u32,
        origin_id: u32,
        r: &SymbolRef,
        on_error_path: bool,
    )
        requires
            builder_inv(old(g), n_err, old(self).next_id),
            node_at(old(g), origin_id, origin_file@, origin_line),
            old(self).next_id < u32::MAX,
        ensures
            builder_inv(final(g), n_err, final(self).next_id),
            extends(old(g), final(g)),
            final(self).id_offset == old(self).id_offset,
            old(self).next_id <= final(self).next_id <= old(self).next_id + 1,
            usable(r, origin_file@, origin_line) ==> served(final(g), origin_id, r),
            !usable(r, origin_file@, origin_line) ==> *final(g) == *old(g) && final(self).next_id == old(self).next_id,
            forall|v: int|
                old(g).nodes@.len() <= v < final(g).nodes@.len() ==> (#[trigger] final(g).nodes@[v]).file_path@
                    == r.file@ && final(g).nodes@[v].line == r.line,
            forall|k: int|
                old(g).edges@.len() <= k < final(g).edges@.len() ==> (#[trigger] final(g).edges@[k]).source_id
                    == origin_id,
            final(g).nodes@.len() <= old(g).nodes@.len() + 1,
            final(g).edges@.len() <= old(g).edges@.len() + 1,
            final(self).next_id == old(self).next_id + (final(g).nodes@.len() - old(g).nodes@.len()),
            final(g).nodes@.len() > old(g).nodes@.len() ==> usable(r, origin_file@, origin_line) && made_from(
                final(g).nodes@[old(g).nodes@.len() as int],
                r,
            ) && final(g).nodes@[old(g).nodes@.len() as int].id == old(self).next_id,
            final(g).edges@.len() > old(g).edges@.len() ==> usable(r, origin_file@, origin_line) && final(g).edges@[old(
                g,
            ).edges@.len() as int].edge_type == r.edge_type && final(g).edges@[old(g).edges@.len() as int].on_error_path
                == on_error_path && node_at(
                final(g),
                final(g).edges@[old(g).edges@.len() as int].target_id,
                r.file@,
                r.line,
            ),
    {
        if r.line == 0 || r.file.unicode_len() == 0 {
            return;
        }
        if r.line == origin_line && r.file == *origin_file {
            return;
        }
        let ghost g0 = *g;
        let target = match find_by_key(g, &r.file, r.line) {
            Some(v) => g.nodes[v].id,
            None => {
                let id = self.next_id;
                self.next_id = self.next_id + 1;
                let node = GraphNode {
                    id,
                    file_path: r.file.clone(),
                    line: r.line,
                    column: r.column,
                    symbol_name: r.name.clone(),
                    node_type: r.node_type,
                    is_error: false,
                    x: 0,
                    y: 0,
                    width: NODE_COLLAPSED_W as i64,
                    height: NODE_COLLAPSED_H as i64,
                    expanded: false,
                };
                g.nodes.push(node);
                proof {
                    let gn = g.nodes@;
                    assert forall|i: int, j: int|
                        0 <= i < gn.len() && 0 <= j < gn.len() && i != j implies #[trigger] gn[i].id != #[trigger] gn[j].id by {
                        if i < g0.nodes@.len() && j < g0.nodes@.len() {
                            assert(gn[i] == g0.nodes@[i] && gn[j] == g0.nodes@[j]);
                        } else if i < g0.nodes@.len() {
                            assert(gn[i] == g0.nodes@[i]);
                        } else {
                            assert(gn[j] == g0.nodes@[j]);
                        }
                    }
                    assert forall|i: int, j: int|
                        0 <= i < gn.len() && 0 <= j < gn.len() && i != j && (#[trigger] gn[i]).file_path@
                            == (#[trigger] gn[j]).file_path@ && gn[i].line == gn[j].line implies gn[i].is_error
                            && gn[j].is_error by {
                        if i < g0.nodes@.len() && j < g0.nodes@.len() {
                            assert(gn[i] == g0.nodes@[i] && gn[j] == g0.nodes@[j]);
                        } else if i < g0.nodes@.len() {
                            assert(gn[i] == g0.nodes@[i]);
                        } else {
                            assert(gn[j] == g0.nodes@[j]);
                        }
                    }
                    assert forall|k: int|
                        0 <= k < g.edges@.len() implies g.has_id((#[trigger] g.edges@[k]).source_id) && g.has_id(
                            g.edges@[k].target_id,
                        ) by {
                        lemma_has_id_grows(&g0, g, g.edges@[k].source_id);
                        lemma_has_id_grows(&g0, g, g.edges@[k].target_id);
                    }
                    assert(gn[gn.len() - 1].id == id);
                }
                id
            },
        };
        let ghost g1 = *g;
        assert(exists|v: int|
            0 <= v < g1.nodes@.len() && (#[trigger] g1.nodes@[v]).file_path@ == r.file@ && g1.nodes@[v].line == r.line
                && g1.nodes@[v].id == target);
        assert(g.has_id(target));
        assert(target != origin_id) by {
            let v = choose|v: int|
                0 <= v < g1.nodes@.len() && (#[trigger] g1.nodes@[v]).file_path@ == r.file@ && g1.nodes@[v].line
                    == r.line && g1.nodes@[v].id == target;
            let o = choose|o: int|
                0 <= o < g0.nodes@.len() && (#[trigger] g0.nodes@[o]).id == origin_id && g0.nodes@[o].file_path@
                    == origin_file@ && g0.nodes@[o].line == origin_line;
            assert(g1.nodes@[o] == g0.nodes@[o]);
        }
        if !is_joined(g, origin_id, target) {
            g.edges.push(GraphEdge { source_id: origin_id, target_id: target, edge_type: r.edge_type, on_error_path });
            proof {
                let ge = g.edges@;
                let last = ge.len() - 1;
                assert(ge[last].source_id == origin_id && ge[last].target_id == target);
                assert forall|k1: int, k2: int|
                    0 <= k1 < ge.len() && 0 <= k2 < ge.len() && k1 != k2 implies !same_pair(
                        #[trigger] ge[k1],
                        #[trigger] ge[k2],
                    ) by {
                    if k1 < last && k2 < last {
                        assert(ge[k1] == g1.edges@[k1] && ge[k2] == g1.edges@[k2]);
                    } else if k1 < last {
                        assert(ge[k1] == g1.edges@[k1]);
                    } else {
                        assert(ge[k2] == g1.edges@[k2]);
                    }
                }
                let o = choose|o: int|
                    0 <= o < g0.nodes@.len() && (#[trigger] g0.nodes@[o]).id == origin_id && g0.nodes@[o].file_path@
                        == origin_file@ && g0.nodes@[o].line == origin_line;
                assert(g1.nodes@[o] == g0.nodes@[o]);
                assert(g.has_id(origin_id));
                assert(joined(g, origin_id, target));
            }
        }
    }
}

} // verus!
