//! From compiler output to a relay graph: parse the diagnostics, then build
//! the graph of their locations.

use crate::builder::{builder_inv, error_node, total_refs, DiscoveredRefs, GraphBuilder, DEFAULT_ID_OFFSET};
use crate::error_parser::{parsed, pieces, records, views, ErrorParser, ErrorView};
use crate::types::{NodeType, RelayGraph};
use vstd::prelude::*;

verus! {

/// Parses compiler output and builds relay graphs, numbering nodes from
/// one counter across batches.
pub struct Orchestrator {
    pub parser: ErrorParser,
    pub builder: GraphBuilder,
    pub build_dir: String,
}

proof fn lemma_pieces_len(s: Seq<char>)
    ensures
        pieces(s).len() <= s.len() + 1,
    decreases s.len(),
{
    if s.len() > 0 {
        lemma_pieces_len(s.drop_last());
        crate::error_parser::lemma_pieces_nonempty(s.drop_last());
    }
}

proof fn lemma_records_len(lines: Seq<Seq<char>>)
    ensures
        records(lines).len() <= lines.len(),
    decreases lines.len(),
{
    if lines.len() > 0 {
        lemma_records_len(lines.drop_last());
    }
}

/// The node made for diagnostic `e` carries its location and message.
pub open spec fn node_matches(g: &RelayGraph, i: int, e: ErrorView, id: u32) -> bool {
    &&& g.nodes@[i].id == id
    &&& g.nodes@[i].file_path@ == e.0
    &&& g.nodes@[i].line == e.1
    &&& g.nodes@[i].column == e.2
    &&& g.nodes@[i].symbol_name@ == e.4
    &&& g.nodes@[i].node_type == NodeType::ErrorSource
    &&& g.nodes@[i].is_error
}

impl Orchestrator {
    /// An orchestrator with a fresh counter and the current directory as
    /// build directory.
    pub fn new() -> (r: Orchestrator)
        ensures
            r.builder.next_id == 0,
            r.builder.id_offset == DEFAULT_ID_OFFSET,
            r.build_dir@ == seq!['.'],
    {
        let dir = String::from_str(".");
        proof {
            reveal_strlit(".");
        }
        Orchestrator { parser: ErrorParser::new(), builder: GraphBuilder::new(), build_dir: dir }
    }

    /// Sets the directory that holds the compilation database.
    pub fn set_build_dir(&mut self, dir: &str)
        ensures
            final(self).build_dir@ == dir@,
            final(self).builder == old(self).builder,
            final(self).parser == old(self).parser,
    {
        self.build_dir = String::from_str(dir);
    }

    /// The graph of the diagnostics in `error_string`: one error node per
    /// diagnostic, in order, numbered from the counter; no references.
    pub fn build_graph_from_error(&mut self, error_string: &str) -> (g: RelayGraph)
        requires
            old(self).builder.next_id + old(self).builder.id_offset + error_string@.len() + 1 <= u32::MAX,
        ensures
            builder_inv(&g, parsed(error_string@).len() as int, final(self).builder.next_id),
            g.nodes@.len() == parsed(error_string@).len(),
            g.edges@.len() == 0,
            forall|i: int|
                0 <= i < g.nodes@.len() ==> node_matches(
                    &g,
                    i,
                    #[trigger] parsed(error_string@)[i],
                    (old(self).builder.next_id + i) as u32,
                ),
            final(self).builder.next_id == old(self).builder.next_id + parsed(error_string@).len()
                + old(self).builder.id_offset,
    {
        let errors = self.parser.parse(error_string);
        let refs: Vec<DiscoveredRefs> = Vec::new();
        proof {
            lemma_pieces_len(error_string@);
            lemma_records_len(pieces(error_string@));
            assert(views(errors@).len() == errors@.len());
            assert(total_refs(refs@) == 0);
        }
        let ghost start = self.builder.next_id;
        let g = self.builder.build_graph(&errors, &refs);
        proof {
            assert forall|i: int| 0 <= i < g.nodes@.len() implies node_matches(
                &g,
                i,
                #[trigger] parsed(error_string@)[i],
                (start + i) as u32,
            ) by {
                assert(error_node(g.nodes@[i], &errors@[i], (start + i) as u32));
                assert(views(errors@)[i] == parsed(error_string@)[i]);
            }
        }
        g
    }
}

} // verus!
