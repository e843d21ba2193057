//! The depth-first walk that `Graph::pass_from` performs, as a function of the graph's
//! nodes and relations.
use vstd::prelude::*;
use crate::graph::{graph_wf, has_id, successors};
use crate::node::{Node, Relation};

verus! {

/// How many nodes have an id outside `mem`.
pub open spec fn free_count<V>(nodes: Seq<Node<V>>, mem: Seq<u32>) -> nat
    decreases nodes.len(),
{
    if nodes.len() == 0 {
        0
    } else {
        free_count(nodes.drop_last(), mem) + if mem.contains(nodes.last().id) {
            0nat
        } else {
            1nat
        }
    }
}

/// Adding an id to `mem` frees no node, and takes away at least the nodes with that id.
pub proof fn lemma_free_count_push<V>(nodes: Seq<Node<V>>, mem: Seq<u32>, x: u32)
    ensures
        free_count(nodes, mem.push(x)) <= free_count(nodes, mem),
        has_id(nodes, x) && !mem.contains(x) ==> free_count(nodes, mem.push(x)) < free_count(
            nodes,
            mem,
        ),
    decreases nodes.len(),
{
    if nodes.len() > 0 {
        let d = nodes.drop_last();
        lemma_free_count_push(d, mem, x);
        let l = nodes.last();
        if mem.contains(l.id) {
            let k = choose|k: int| 0 <= k < mem.len() && mem[k] == l.id;
            assert(mem.push(x)[k] == l.id);
        }
        if l.id == x {
            assert(mem.push(x)[mem.len() as int] == x);
        }
        if mem.push(x).contains(l.id) && l.id != x {
            let k = choose|k: int| 0 <= k < mem.len() + 1 && mem.push(x)[k] == l.id;
            assert(mem[k] == l.id);
        }
        if has_id(nodes, x) && !mem.contains(x) && l.id != x {
            let k = choose|k: int| 0 <= k < nodes.len() && (#[trigger] nodes[k]).id == x;
            assert(d[k] == nodes[k]);
        }
    }
}

/// The nodes visited from `n` when the ids in `mem` lie on the path above it: nothing
/// where `n` is on that path, else `n` and then the walks from each of its successors,
/// in order, with `n` added to the path.
pub open spec fn walk<V>(nodes: Seq<Node<V>>, rels: Seq<Relation>, n: Node<V>, mem: Seq<u32>) -> Seq<
    Node<V>,
>
    decreases free_count(nodes, mem), 0nat, 0nat,
{
    if mem.contains(n.id) {
        seq![]
    } else if has_id(nodes, n.id) {
        proof {
            lemma_free_count_push(nodes, mem, n.id);
        }
        seq![n] + walk_all(nodes, rels, successors(nodes, rels, n.id), mem.push(n.id))
    } else {
        seq![n]
    }
}

/// The walks from each node of `ns` in turn, all under the same path `mem`.
pub open spec fn walk_all<V>(
    nodes: Seq<Node<V>>,
    rels: Seq<Relation>,
    ns: Seq<Node<V>>,
    mem: Seq<u32>,
) -> Seq<Node<V>>
    decreases free_count(nodes, mem), 1nat, ns.len(),
{
    if ns.len() == 0 {
        seq![]
    } else {
        walk_all(nodes, rels, ns.drop_last(), mem) + walk(nodes, rels, ns.last(), mem)
    }
}

/// In a well-formed graph, an id that names no node has no successors.
pub proof fn lemma_no_successors<V>(nodes: Seq<Node<V>>, rels: Seq<Relation>, id: u32)
    requires
        graph_wf(nodes, rels),
        !has_id(nodes, id),
    ensures
        successors(nodes, rels, id) == Seq::<Node<V>>::empty(),
    decreases rels.len(),
{
    if rels.len() > 0 {
        let d = rels.drop_last();
        assert(graph_wf(nodes, d)) by {
            assert forall|i: int| 0 <= i < d.len() implies has_id(nodes, (#[trigger] d[i]).begin)
                && has_id(nodes, d[i].end) by {
                assert(d[i] == rels[i]);
            }
        }
        lemma_no_successors(nodes, d, id);
        assert(has_id(nodes, rels[rels.len() - 1].begin));
    }
}

} // verus!
