//! The graph model: nodes and edges related by integer identifiers.

use vstd::prelude::*;

verus! {

/// Category of a node.
#[derive(Debug, Clone, Copy, PartialEq, Eq, Structural)]
pub enum NodeType {
    Function,
    Type,
    Variable,
    Include,
    ErrorSource,
}

/// Category of an edge.
#[derive(Debug, Clone, Copy, PartialEq, Eq, Structural)]
pub enum EdgeType {
    Call,
    Reference,
    Include,
    Inherit,
    ErrorPath,
}

/// One compiler diagnostic.
#[derive(Debug)]
pub struct ErrorInfo {
    pub file_path: String,
    pub line: u32,
    pub column: u32,
    pub error_code: String,
    pub message: String,
}

/// Width of a collapsed node.
pub const NODE_COLLAPSED_W: u16 = 180;

/// Height of a collapsed node.
pub const NODE_COLLAPSED_H: u16 = 100;

/// A node of the relay graph. `x` and `y` are written by the layout engine;
/// `width`, `height` and `expanded` belong to the renderer.
#[derive(Debug)]
pub struct GraphNode {
    pub id: u32,
    pub file_path: String,
    pub line: u32,
    pub column: u32,
    pub symbol_name: String,
    pub node_type: NodeType,
    pub is_error: bool,
    pub x: i64,
    pub y: i64,
    pub width: i64,
    pub height: i64,
    pub expanded: bool,
}

impl GraphNode {
    /// A collapsed node at the origin with no source location.
    pub fn new(id: u32, symbol_name: &str, node_type: NodeType) -> (r: GraphNode)
        ensures
            r.id == id,
            r.symbol_name@ == symbol_name@,
            r.node_type == node_type,
            r.file_path@ == Seq::<char>::empty(),
            r.line == 0,
            r.column == 0,
            !r.is_error,
            r.x == 0,
            r.y == 0,
            r.width == NODE_COLLAPSED_W as i64,
            r.height == NODE_COLLAPSED_H as i64,
            !r.expanded,
    {
        GraphNode {
            id,
            file_path: String::new(),
            line: 0,
            column: 0,
            symbol_name: String::from_str(symbol_name),
            node_type,
            is_error: false,
            x: 0,
            y: 0,
            width: NODE_COLLAPSED_W as i64,
            height: NODE_COLLAPSED_H as i64,
            expanded: false,
        }
    }
}

/// A directed edge between two node identifiers.
#[derive(Debug, Clone, Copy, PartialEq, Eq, Structural)]
pub struct GraphEdge {
    pub source_id: u32,
    pub target_id: u32,
    pub edge_type: EdgeType,
    pub on_error_path: bool,
}

/// Key event data handed to the interactive layer.
#[derive(Debug, Clone, Copy, PartialEq, Eq, Structural)]
pub struct KeyEvent {
    pub keycode: u32,
    pub pressed: bool,
    pub ctrl: bool,
    pub shift: bool,
    pub alt: bool,
}

/// The relay graph: nodes in insertion order and edges.
#[derive(Debug)]
pub struct RelayGraph {
    pub nodes: Vec<GraphNode>,
    pub edges: Vec<GraphEdge>,
}

impl RelayGraph {
    /// Identifiers are unique among the nodes.
    pub open spec fn wf(&self) -> bool {
        forall|i: int, j: int|
            0 <= i < self.nodes@.len() && 0 <= j < self.nodes@.len() && i != j
                ==> #[trigger] self.nodes@[i].id != #[trigger] self.nodes@[j].id
    }

    /// Some node carries identifier `id`.
    pub open spec fn has_id(&self, id: u32) -> bool {
        exists|i: int| 0 <= i < self.nodes@.len() && #[trigger] self.nodes@[i].id == id
    }

    /// Some edge leads from `a` to `b` and both ends are nodes of the graph.
    pub open spec fn linked(&self, a: u32, b: u32) -> bool {
        &&& self.has_id(a)
        &&& self.has_id(b)
        &&& exists|k: int|
            0 <= k < self.edges@.len() && (#[trigger] self.edges@[k]).source_id == a
                && self.edges@[k].target_id == b
    }

    /// Position of the node carrying `id` (the graph being well formed,
    /// there is at most one).
    pub open spec fn index_of(&self, id: u32) -> int {
        choose|i: int| 0 <= i < self.nodes@.len() && #[trigger] self.nodes@[i].id == id
    }

    /// The first `k` edges whose ends are both nodes, as pairs of node
    /// positions, in edge order.
    pub open spec fn resolved_ends(&self, k: int) -> Seq<(usize, usize)>
        decreases k,
    {
        if k <= 0 {
            Seq::empty()
        } else {
            let p = self.resolved_ends(k - 1);
            let e = self.edges@[k - 1];
            if self.has_id(e.source_id) && self.has_id(e.target_id) {
                p.push((self.index_of(e.source_id) as usize, self.index_of(e.target_id) as usize))
            } else {
                p
            }
        }
    }

    /// An empty graph.
    pub fn new() -> (r: RelayGraph)
        ensures
            r.nodes@.len() == 0,
            r.edges@.len() == 0,
    {
        RelayGraph { nodes: Vec::new(), edges: Vec::new() }
    }

    /// Position of the first node with identifier `id`.
    pub fn find_index(&self, id: u32) -> (r: Option<usize>)
        ensures
            match r {
                Some(i) => i < self.nodes@.len() && self.nodes@[i as int].id == id
                    && forall|j: int| 0 <= j < i ==> self.nodes@[j].id != id,
                None => !self.has_id(id),
            },
    {
        let mut i: usize = 0;
        while i < self.nodes.len()
            invariant
                i <= self.nodes@.len(),
                forall|j: int| 0 <= j < i ==> self.nodes@[j].id != id,
            decreases self.nodes@.len() - i,
        {
            if self.nodes[i].id == id {
                return Some(i);
            }
            i = i + 1;
        }
        None
    }

    /// The edges whose ends are both nodes, as pairs of node positions, in
    /// edge order.
    pub fn edge_positions(&self) -> (r: Vec<(usize, usize)>)
        requires
            self.wf(),
        ensures
            r@.len() <= self.edges@.len(),
            r@ == self.resolved_ends(self.edges@.len() as int),
            forall|k: int|
                #![trigger r@[k]]
                0 <= k < r@.len() ==> r@[k].0 < self.nodes@.len() && r@[k].1 < self.nodes@.len()
                    && self.linked(self.nodes@[r@[k].0 as int].id, self.nodes@[r@[k].1 as int].id),
            forall|a: u32, b: u32|
                #![trigger self.linked(a, b)]
                self.linked(a, b) ==> exists|k: int|
                    0 <= k < r@.len() && self.nodes@[(#[trigger] r@[k]).0 as int].id == a
                        && self.nodes@[r@[k].1 as int].id == b,
    {
        let mut r: Vec<(usize, usize)> = Vec::new();
        let mut e: usize = 0;
        while e < self.edges.len()
            invariant
                e <= self.edges@.len(),
                r@.len() <= e,
                self.wf(),
                r@ == self.resolved_ends(e as int),
                forall|k: int|
                    #![trigger r@[k]]
                    0 <= k < r@.len() ==> r@[k].0 < self.nodes@.len() && r@[k].1
                        < self.nodes@.len() && self.linked(
                        self.nodes@[r@[k].0 as int].id,
                        self.nodes@[r@[k].1 as int].id,
                    ),
                forall|k2: int|
                    #![trigger self.edges@[k2]]
                    0 <= k2 < e && self.has_id(self.edges@[k2].source_id) && self.has_id(
                        self.edges@[k2].target_id,
                    ) ==> exists|k: int|
                        0 <= k < r@.len() && self.nodes@[(#[trigger] r@[k]).0 as int].id
                            == self.edges@[k2].source_id && self.nodes@[r@[k].1 as int].id
                            == self.edges@[k2].target_id,
            decreases self.edges@.len() - e,
        {
            let s = self.edges[e].source_id;
            let t = self.edges[e].target_id;
            let ghost r0 = r@;
            let si = self.find_index(s);
            let ti = self.find_index(t);
            if let (Some(i), Some(j)) = (si, ti) {
                proof {
                    let ci = self.index_of(s);
                    let cj = self.index_of(t);
                    assert(self.has_id(s) && self.has_id(t));
                    assert(self.nodes@[ci].id == s && self.nodes@[cj].id == t);
                    assert(ci == i as int && cj == j as int);
                }
                r.push((i, j));
                assert(r@[r@.len() - 1] == (i, j));
                assert(self.linked(s, t)) by {
                    assert(self.edges@[e as int].source_id == s);
                }
            }
            proof {
                assert forall|k2: int|
                    #![trigger self.edges@[k2]]
                    0 <= k2 < e + 1 && self.has_id(self.edges@[k2].source_id) && self.has_id(
                        self.edges@[k2].target_id,
                    ) implies exists|k: int|
                    0 <= k < r@.len() && self.nodes@[(#[trigger] r@[k]).0 as int].id
                        == self.edges@[k2].source_id && self.nodes@[r@[k].1 as int].id
                        == self.edges@[k2].target_id by {
                    if k2 == e {
                        assert(si is Some);
                        assert(ti is Some);
                        assert(r@[r@.len() - 1] == (si->0, ti->0));
                    } else {
                        let k = choose|k: int|
                            0 <= k < r0.len() && self.nodes@[(#[trigger] r0[k]).0 as int].id
                                == self.edges@[k2].source_id && self.nodes@[r0[k].1 as int].id
                                == self.edges@[k2].target_id;
                        assert(r@[k] == r0[k]);
                    }
                }
            }
            e = e + 1;
        }
        proof {
            assert forall|a: u32, b: u32| #![trigger self.linked(a, b)] self.linked(a, b) implies exists|k: int|
                0 <= k < r@.len() && self.nodes@[(#[trigger] r@[k]).0 as int].id == a
                    && self.nodes@[r@[k].1 as int].id == b by {
                let k2 = choose|k2: int|
                    0 <= k2 < self.edges@.len() && (#[trigger] self.edges@[k2]).source_id == a
                        && self.edges@[k2].target_id == b;
                assert(self.edges@[k2].source_id == a);
            }
        }
        r
    }

    /// The node with identifier `id`, if any, for changing in place.
    pub fn find_node_mut(&mut self, id: u32) -> (r: Option<&mut GraphNode>)
        ensures
            match r {
                Some(n) => n.id == id && exists|i: int|
                    0 <= i < old(self).nodes@.len() && old(self).nodes@[i] == *n && final(self).nodes@
                        == old(self).nodes@.update(i, *final(n)) && final(self).edges@ == old(self).edges@,
                None => !old(self).has_id(id) && *final(self) == *old(self),
            },
    {
        match self.find_index(id) {
            Some(i) => Some(&mut self.nodes[i]),
            None => None,
        }
    }

    /// The node with identifier `id`, if any.
    pub fn find_node(&self, id: u32) -> (r: Option<&GraphNode>)
        ensures
            match r {
                Some(n) => n.id == id && exists|i: int|
                    0 <= i < self.nodes@.len() && self.nodes@[i] == *n,
                None => !self.has_id(id),
            },
    {
        match self.find_index(id) {
            Some(i) => Some(&self.nodes[i]),
            None => None,
        }
    }
}

} // verus!
