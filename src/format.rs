//! The text form of a whole graph: node lines, a line `#`, relation lines.
use vstd::prelude::*;
use crate::graph::GraphError;
use crate::node::{Node, ParseError, Relation, node_line, parse_node, parse_relation, relation_line};
use crate::text::{TextValue, lines_of};

verus! {

/// Why a graph could not be read from text.
#[derive(Debug, Clone, Copy, PartialEq, Eq, Structural)]
pub enum UnmarshalError {
    /// A line could not be read.
    Parse(ParseError),
    /// A line was read but the graph refused it.
    Graph(GraphError),
}

/// Each node's line followed by a line break.
pub open spec fn nodes_text<V: TextValue>(ns: Seq<Node<V>>) -> Seq<char>
    decreases ns.len(),
{
    if ns.len() == 0 {
        seq![]
    } else {
        nodes_text(ns.drop_last()) + node_line(ns.last()) + seq!['\n']
    }
}

/// Each relation's line followed by a line break.
pub open spec fn relations_text(rs: Seq<Relation>) -> Seq<char>
    decreases rs.len(),
{
    if rs.len() == 0 {
        seq![]
    } else {
        relations_text(rs.drop_last()) + relation_line(rs.last()) + seq!['\n']
    }
}

/// The text of a graph with these nodes and relations.
pub open spec fn graph_text<V: TextValue>(ns: Seq<Node<V>>, rs: Seq<Relation>) -> Seq<char> {
    nodes_text(ns) + seq!['#', '\n'] + relations_text(rs)
}

/// A node as the text format sees it: its id and the view of its value.
pub open spec fn models<V: TextValue>(ns: Seq<Node<V>>) -> Seq<(u32, V::V)> {
    ns.map_values(|n: Node<V>| (n.id, n.value@))
}

pub open spec fn model_has_id<W>(m: Seq<(u32, W)>, id: u32) -> bool {
    exists|k: int| 0 <= k < m.len() && (#[trigger] m[k]).0 == id
}

/// What has been read so far: the nodes, the relations, and whether lines are still
/// read as nodes (no `#` seen yet).
pub type Loaded<W> = (Seq<(u32, W)>, Seq<Relation>, bool);

/// Reading one line on top of what was read before.
pub open spec fn load_step<V: TextValue>(st: Loaded<V::V>, line: Seq<char>) -> Result<
    Loaded<V::V>,
    UnmarshalError,
> {
    if st.2 && line == seq!['#'] {
        Ok((st.0, st.1, false))
    } else if st.2 {
        match parse_node::<V>(line) {
            Err(e) => Err(UnmarshalError::Parse(e)),
            Ok(n) => if model_has_id(st.0, n.0) {
                Err(UnmarshalError::Graph(GraphError::DuplicateNode(n.0)))
            } else {
                Ok((st.0.push(n), st.1, true))
            },
        }
    } else {
        match parse_relation(line) {
            Err(e) => Err(UnmarshalError::Parse(e)),
            Ok(r) => if !(model_has_id(st.0, r.begin) && model_has_id(st.0, r.end)) {
                Err(UnmarshalError::Graph(GraphError::UnknownEndpoint(r.begin, r.end)))
            } else if st.1.contains(r) {
                Ok(st)
            } else {
                Ok((st.0, st.1.push(r), false))
            },
        }
    }
}

/// Reading lines in order from an empty graph, stopping at the first error.
pub open spec fn load<V: TextValue>(lines: Seq<Seq<char>>) -> Result<Loaded<V::V>, UnmarshalError>
    decreases lines.len(),
{
    if lines.len() == 0 {
        Ok((seq![], seq![], true))
    } else {
        match load::<V>(lines.drop_last()) {
            Err(e) => Err(e),
            Ok(st) => load_step::<V>(st, lines.last()),
        }
    }
}

/// What a text denotes as a graph: its nodes and relations, or the first error.
pub open spec fn load_text<V: TextValue>(s: Seq<char>) -> Result<
    (Seq<(u32, V::V)>, Seq<Relation>),
    UnmarshalError,
> {
    match load::<V>(lines_of(s)) {
        Ok(st) => Ok((st.0, st.1)),
        Err(e) => Err(e),
    }
}

/// Once reading fails, reading further lines fails with the same error.
pub proof fn lemma_load_error_stays<V: TextValue>(lines: Seq<Seq<char>>, k: int)
    requires
        0 <= k <= lines.len(),
        load::<V>(lines.take(k)) is Err,
    ensures
        load::<V>(lines) == load::<V>(lines.take(k)),
    decreases lines.len() - k,
{
    if k < lines.len() {
        assert(lines.take(k + 1).drop_last() =~= lines.take(k));
        lemma_load_error_stays::<V>(lines, k + 1);
    } else {
        assert(lines.take(k) =~= lines);
    }
}

/// Ids among models are ids among the nodes.
pub proof fn lemma_model_ids<V: TextValue>(ns: Seq<Node<V>>, id: u32)
    ensures
        model_has_id(models(ns), id) == crate::graph::has_id(ns, id),
{
    if crate::graph::has_id(ns, id) {
        let k = choose|k: int| 0 <= k < ns.len() && (#[trigger] ns[k]).id == id;
        assert(models(ns)[k].0 == id);
    }
    if model_has_id(models(ns), id) {
        let k = choose|k: int| 0 <= k < models(ns).len() && (#[trigger] models(ns)[k]).0 == id;
        assert(ns[k].id == id);
    }
}

} // verus!
