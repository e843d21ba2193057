//! The graph: nodes and relations in insertion order, kept consistent by its mutators.
use vstd::prelude::*;
use crate::node::{Node, Relation};
use crate::format::{
    UnmarshalError, graph_text, lemma_load_error_stays, lemma_model_ids, load, load_text, models,
    nodes_text, relations_text,
};
use crate::text::{TextValue, chars_of, lines_chars, lines_of, push_char, views};
use crate::walk::{free_count, lemma_free_count_push, lemma_no_successors, walk, walk_all};

verus! {

/// Why a mutation of a graph was refused.
#[derive(Debug, Clone, Copy, PartialEq, Eq, Structural)]
pub enum GraphError {
    /// A node with this id is already in the graph.
    DuplicateNode(u32),
    /// A relation `(begin, end)` names a node that is not in the graph.
    UnknownEndpoint(u32, u32),
}

pub open spec fn has_id<V>(nodes: Seq<Node<V>>, id: u32) -> bool {
    exists|k: int| 0 <= k < nodes.len() && (#[trigger] nodes[k]).id == id
}

/// The node of `nodes` with the given id (meaningful where there is one).
pub open spec fn node_of<V>(nodes: Seq<Node<V>>, id: u32) -> Node<V> {
    nodes[choose|k: int| 0 <= k < nodes.len() && (#[trigger] nodes[k]).id == id]
}

pub open spec fn unique_ids<V>(nodes: Seq<Node<V>>) -> bool {
    forall|i: int, j: int|
        0 <= i < nodes.len() && 0 <= j < nodes.len() && i != j ==> (#[trigger] nodes[i]).id
            != (#[trigger] nodes[j]).id
}

/// Node ids are unique, no relation occurs twice, and every relation joins two nodes
/// of the graph.
pub open spec fn graph_wf<V>(nodes: Seq<Node<V>>, rels: Seq<Relation>) -> bool {
    &&& unique_ids(nodes)
    &&& rels.no_duplicates()
    &&& forall|i: int|
        0 <= i < rels.len() ==> has_id(nodes, (#[trigger] rels[i]).begin) && has_id(
            nodes,
            rels[i].end,
        )
}

/// The direct successors of the node `id`: for each relation that starts at `id`, in
/// relation order, the node it leads to.
pub open spec fn successors<V>(nodes: Seq<Node<V>>, rels: Seq<Relation>, id: u32) -> Seq<Node<V>>
    decreases rels.len(),
{
    if rels.len() == 0 {
        seq![]
    } else {
        let prev = successors(nodes, rels.drop_last(), id);
        let r = rels.last();
        if r.begin == id && has_id(nodes, r.end) {
            prev.push(node_of(nodes, r.end))
        } else {
            prev
        }
    }
}

/// The relations after adding `r`: unchanged where `r` is already there, else `r` at the end.
pub open spec fn with_relation(rels: Seq<Relation>, r: Relation) -> Seq<Relation> {
    if rels.contains(r) {
        rels
    } else {
        rels.push(r)
    }
}

/// Adding the same relation twice has the effect of adding it once: it occurs exactly
/// once, every relation before it keeps its place, and it stands where it was first added.
pub proof fn lemma_relation_idempotent(rels: Seq<Relation>, r: Relation)
    requires
        rels.no_duplicates(),
    ensures
        with_relation(with_relation(rels, r), r) == with_relation(rels, r),
        with_relation(rels, r).no_duplicates(),
        with_relation(rels, r).contains(r),
        forall|i: int| 0 <= i < rels.len() ==> #[trigger] with_relation(rels, r)[i] == rels[i],
        !rels.contains(r) ==> with_relation(rels, r)[rels.len() as int] == r,
{
    let once = with_relation(rels, r);
    if !rels.contains(r) {
        assert(once[rels.len() as int] == r);
        assert forall|i: int, j: int|
            0 <= i < once.len() && 0 <= j < once.len() && i != j implies once[i] != once[j] by {
            if i < rels.len() && j < rels.len() {
            } else if i < rels.len() {
                assert(rels.contains(rels[i]));
            } else {
                assert(rels.contains(rels[j]));
            }
        }
    }
    assert(once.contains(r)) by {
        if !rels.contains(r) {
            assert(once[rels.len() as int] == r);
        }
    }
}

/// In a well-formed graph, the successors of `id` are exactly the nodes `m` of the graph
/// for which the relation `(id, m.id)` is present (and, by the definition of
/// `successors`, they come in the order of those relations).
pub proof fn lemma_adjacency<V>(nodes: Seq<Node<V>>, rels: Seq<Relation>, id: u32, m: Node<V>)
    requires
        graph_wf(nodes, rels),
    ensures
        successors(nodes, rels, id).contains(m) <==> (nodes.contains(m) && rels.contains(
            Relation { begin: id, end: m.id },
        )),
    decreases rels.len(),
{
    if rels.len() > 0 {
        let d = rels.drop_last();
        assert(graph_wf(nodes, d)) by {
            assert forall|i: int| 0 <= i < d.len() implies has_id(nodes, (#[trigger] d[i]).begin)
                && has_id(nodes, d[i].end) by {
                assert(d[i] == rels[i]);
            }
            assert forall|i: int, j: int|
                0 <= i < d.len() && 0 <= j < d.len() && i != j implies d[i] != d[j] by {
                assert(d[i] == rels[i] && d[j] == rels[j]);
            }
        }
        lemma_adjacency(nodes, d, id, m);
        let prev = successors(nodes, d, id);
        let l = rels.last();
        let e = Relation { begin: id, end: m.id };
        assert(rels =~= d.push(l));
        assert(rels.contains(e) <==> (d.contains(e) || l == e)) by {
            if rels.contains(e) {
                let k = choose|k: int| 0 <= k < rels.len() && rels[k] == e;
                if k < d.len() {
                    assert(d[k] == e);
                }
            }
            if d.contains(e) {
                let k = choose|k: int| 0 <= k < d.len() && d[k] == e;
                assert(rels[k] == e);
            }
            if l == e {
                assert(rels[rels.len() - 1] == e);
            }
        }
        if l.begin == id && has_id(nodes, l.end) {
            let k = choose|k: int| 0 <= k < nodes.len() && (#[trigger] nodes[k]).id == l.end;
            lemma_node_of(nodes, k);
            let s = prev.push(nodes[k]);
            assert(s.contains(m) <==> (prev.contains(m) || nodes[k] == m)) by {
                if s.contains(m) {
                    let q = choose|q: int| 0 <= q < s.len() && s[q] == m;
                    if q < prev.len() {
                        assert(prev[q] == m);
                    }
                }
                if prev.contains(m) {
                    let q = choose|q: int| 0 <= q < prev.len() && prev[q] == m;
                    assert(s[q] == m);
                }
                if nodes[k] == m {
                    assert(s[prev.len() as int] == m);
                }
            }
            if nodes.contains(m) && m.id == l.end {
                let q = choose|q: int| 0 <= q < nodes.len() && nodes[q] == m;
                assert(nodes[q].id == nodes[k].id);
            }
            assert(nodes.contains(nodes[k]));
        } else {
            if l == e {
                assert(has_id(nodes, rels[rels.len() - 1].end));
            }
        }
    }
}

/// The nodes that a sequence of references points to.
pub open spec fn derefs<V>(s: Seq<&Node<V>>) -> Seq<Node<V>> {
    s.map_values(|n: &Node<V>| *n)
}

/// The node with a given id is the one at any index that holds that id.
pub proof fn lemma_node_of<V>(nodes: Seq<Node<V>>, k: int)
    requires
        unique_ids(nodes),
        0 <= k < nodes.len(),
    ensures
        has_id(nodes, nodes[k].id),
        node_of(nodes, nodes[k].id) == nodes[k],
{
    assert(has_id(nodes, nodes[k].id));
}

/// Filtering keeps a sequence free of duplicates.
pub proof fn lemma_filter_no_duplicates<A>(s: Seq<A>, p: spec_fn(A) -> bool)
    requires
        s.no_duplicates(),
    ensures
        s.filter(p).no_duplicates(),
    decreases s.len(),
{
    reveal(Seq::filter);
    if s.len() > 0 {
        let d = s.drop_last();
        assert(d.no_duplicates());
        lemma_filter_no_duplicates(d, p);
        if p(s.last()) {
            if d.filter(p).contains(s.last()) {
                d.lemma_filter_contains_rev(p, s.last());
                let k = choose|k: int| 0 <= k < d.len() && d[k] == s.last();
                assert(s[k] == s[s.len() - 1]);
            }
        }
    }
}

/// Filtering keeps node ids unique.
pub proof fn lemma_filter_unique_ids<V>(s: Seq<Node<V>>, p: spec_fn(Node<V>) -> bool)
    requires
        unique_ids(s),
    ensures
        unique_ids(s.filter(p)),
    decreases s.len(),
{
    reveal(Seq::filter);
    if s.len() > 0 {
        let d = s.drop_last();
        assert(unique_ids(d)) by {
            assert forall|i: int, j: int|
                0 <= i < d.len() && 0 <= j < d.len() && i != j implies (#[trigger] d[i]).id
                != (#[trigger] d[j]).id by {
                assert(d[i] == s[i] && d[j] == s[j]);
            }
        }
        lemma_filter_unique_ids(d, p);
        if p(s.last()) {
            let f = d.filter(p);
            assert forall|i: int| 0 <= i < f.len() implies (#[trigger] f[i]).id != s.last().id by {
                assert(f.contains(f[i]));
                d.lemma_filter_contains_rev(p, f[i]);
                let k = choose|k: int| 0 <= k < d.len() && d[k] == f[i];
                assert(s[k] == d[k]);
            }
            let g = f.push(s.last());
            assert forall|i: int, j: int|
                0 <= i < g.len() && 0 <= j < g.len() && i != j implies (#[trigger] g[i]).id
                != (#[trigger] g[j]).id by {
                if i < f.len() && j < f.len() {
                    assert(g[i] == f[i] && g[j] == f[j]);
                } else if i < f.len() {
                    assert(g[i] == f[i]);
                } else {
                    assert(g[j] == f[j]);
                }
            }
        }
    }
}

/// Whether `id` occurs in `memory`.
fn contains_id(memory: &Vec<u32>, id: u32) -> (b: bool)
    ensures
        b == memory@.contains(id),
{
    let mut k: usize = 0;
    while k < memory.len()
        invariant
            k <= memory@.len(),
            forall|j: int| 0 <= j < k ==> memory@[j] != id,
        decreases memory@.len() - k,
    {
        if memory[k] == id {
            return true;
        }
        k = k + 1;
    }
    false
}

/// A directed graph whose nodes carry values of type `V`.
#[derive(Debug)]
pub struct Graph<V> {
    nodes: Vec<Node<V>>,
    relations: Vec<Relation>,
}

impl<V> Graph<V> {
    /// The nodes, in insertion order.
    pub closed spec fn nodes_view(&self) -> Seq<Node<V>> {
        self.nodes@
    }

    /// The relations, in insertion order.
    pub closed spec fn relations_view(&self) -> Seq<Relation> {
        self.relations@
    }

    pub open spec fn wf(&self) -> bool {
        graph_wf(self.nodes_view(), self.relations_view())
    }
}

impl<V: TextValue> Graph<V> {
    /// An empty graph.
    pub fn new() -> (r: Self)
        ensures
            r.nodes_view() == Seq::<Node<V>>::empty(),
            r.relations_view() == Seq::<Relation>::empty(),
            r.wf(),
    {
        Graph { nodes: Vec::new(), relations: Vec::new() }
    }

    /// The index of the node with the given id.
    fn find_node(&self, id: u32) -> (r: Option<usize>)
        ensures
            match r {
                Some(k) => k < self.nodes@.len() && self.nodes@[k as int].id == id,
                None => !has_id(self.nodes@, id),
            },
    {
        let mut k: usize = 0;
        while k < self.nodes.len()
            invariant
                k <= self.nodes@.len(),
                forall|j: int| 0 <= j < k ==> (#[trigger] self.nodes@[j]).id != id,
            decreases self.nodes@.len() - k,
        {
            if self.nodes[k].id == id {
                return Some(k);
            }
            k = k + 1;
        }
        None
    }

    /// Whether the relation `(begin, end)` is already present.
    fn has_relation(&self, r: &Relation) -> (b: bool)
        ensures
            b == self.relations@.contains(*r),
    {
        let mut k: usize = 0;
        while k < self.relations.len()
            invariant
                k <= self.relations@.len(),
                forall|j: int| 0 <= j < k ==> (#[trigger] self.relations@[j]) != *r,
            decreases self.relations@.len() - k,
        {
            let e = self.relations[k];
            if e.begin == r.begin && e.end == r.end {
                return true;
            }
            k = k + 1;
        }
        false
    }

    /// Adds a node at the end; refused where a node with its id is already present.
    pub fn add_node_from(self, node: Node<V>) -> (r: Result<Self, GraphError>)
        requires
            self.wf(),
        ensures
            match r {
                Ok(g) => {
                    &&& !has_id(self.nodes_view(), node.id)
                    &&& g.nodes_view() == self.nodes_view().push(node)
                    &&& g.relations_view() == self.relations_view()
                    &&& g.wf()
                },
                Err(e) => has_id(self.nodes_view(), node.id) && e == GraphError::DuplicateNode(
                    node.id,
                ),
            },
    {
        let mut g = self;
        if g.find_node(node.id).is_some() {
            return Err(GraphError::DuplicateNode(node.id));
        }
        let ghost before = g.nodes@;
        g.nodes.push(node);
        proof {
            let after = g.nodes@;
            assert forall|i: int, j: int|
                0 <= i < after.len() && 0 <= j < after.len() && i != j implies (#[trigger] after[i]).id
                != (#[trigger] after[j]).id by {
                if i < before.len() && j < before.len() {
                    assert(after[i] == before[i] && after[j] == before[j]);
                } else if i < before.len() {
                    assert(after[i] == before[i]);
                } else {
                    assert(after[j] == before[j]);
                }
            }
            assert forall|i: int| 0 <= i < g.relations@.len() implies has_id(
                after,
                (#[trigger] g.relations@[i]).begin,
            ) && has_id(after, g.relations@[i].end) by {
                let r = g.relations@[i];
                let a = choose|k: int| 0 <= k < before.len() && (#[trigger] before[k]).id == r.begin;
                let b = choose|k: int| 0 <= k < before.len() && (#[trigger] before[k]).id == r.end;
                assert(after[a] == before[a] && after[b] == before[b]);
            }
        }
        Ok(g)
    }

    /// Adds the node `(id, value)` at the end, as `add_node_from` does.
    pub fn add_node(self, id: u32, value: V) -> (r: Result<Self, GraphError>)
        requires
            self.wf(),
        ensures
            match r {
                Ok(g) => {
                    &&& !has_id(self.nodes_view(), id)
                    &&& g.nodes_view() == self.nodes_view().push(Node { id, value })
                    &&& g.relations_view() == self.relations_view()
                    &&& g.wf()
                },
                Err(e) => has_id(self.nodes_view(), id) && e == GraphError::DuplicateNode(id),
            },
    {
        self.add_node_from(Node::new(id, value))
    }

    /// Adds a relation at the end unless it is already present; refused where either
    /// endpoint is not a node of the graph.
    pub fn add_relation_from(self, relation: Relation) -> (r: Result<Self, GraphError>)
        requires
            self.wf(),
        ensures
            match r {
                Ok(g) => {
                    &&& has_id(self.nodes_view(), relation.begin)
                    &&& has_id(self.nodes_view(), relation.end)
                    &&& g.nodes_view() == self.nodes_view()
                    &&& g.relations_view() == with_relation(self.relations_view(), relation)
                    &&& g.wf()
                },
                Err(e) => {
                    &&& !(has_id(self.nodes_view(), relation.begin) && has_id(
                        self.nodes_view(),
                        relation.end,
                    ))
                    &&& e == GraphError::UnknownEndpoint(relation.begin, relation.end)
                },
            },
    {
        let mut g = self;
        if g.find_node(relation.begin).is_none() || g.find_node(relation.end).is_none() {
            return Err(GraphError::UnknownEndpoint(relation.begin, relation.end));
        }
        if !g.has_relation(&relation) {
            let ghost before = g.relations@;
            g.relations.push(relation);
            proof {
                let after = g.relations@;
                assert forall|i: int, j: int|
                    0 <= i < after.len() && 0 <= j < after.len() && i != j implies after[i]
                    != after[j] by {
                    if i < before.len() && j < before.len() {
                    } else if i < before.len() {
                        assert(before.contains(before[i]));
                    } else {
                        assert(before.contains(before[j]));
                    }
                }
                assert forall|i: int| 0 <= i < after.len() implies has_id(
                    g.nodes@,
                    (#[trigger] after[i]).begin,
                ) && has_id(g.nodes@, after[i].end) by {
                    if i < before.len() {
                        assert(after[i] == before[i]);
                    }
                }
            }
        }
        Ok(g)
    }

    /// Adds the relation `(begin, end)`, as `add_relation_from` does.
    pub fn add_relation(self, begin: u32, end: u32) -> (r: Result<Self, GraphError>)
        requires
            self.wf(),
        ensures
            match r {
                Ok(g) => {
                    &&& has_id(self.nodes_view(), begin)
                    &&& has_id(self.nodes_view(), end)
                    &&& g.nodes_view() == self.nodes_view()
                    &&& g.relations_view() == with_relation(
                        self.relations_view(),
                        Relation { begin, end },
                    )
                    &&& g.wf()
                },
                Err(e) => {
                    &&& !(has_id(self.nodes_view(), begin) && has_id(self.nodes_view(), end))
                    &&& e == GraphError::UnknownEndpoint(begin, end)
                },
            },
    {
        self.add_relation_from(Relation::new(begin, end))
    }

    /// Removes the node with the given id, if any, and every relation that starts or
    /// ends at it.
    pub fn remove_node_by_id(self, node_id: u32) -> (r: Self)
        requires
            self.wf(),
        ensures
            r.nodes_view() == self.nodes_view().filter(|n: Node<V>| n.id != node_id),
            r.relations_view() == self.relations_view().filter(
                |e: Relation| e.begin != node_id && e.end != node_id,
            ),
            r.wf(),
            !has_id(r.nodes_view(), node_id),
            forall|i: int|
                0 <= i < r.relations_view().len() ==> (#[trigger] r.relations_view()[i]).begin
                    != node_id && r.relations_view()[i].end != node_id,
    {
        let mut g = self;
        let ghost old_nodes = g.nodes@;
        let ghost old_rels = g.relations@;
        let ghost keep_node = |n: Node<V>| n.id != node_id;
        let ghost keep_rel = |e: Relation| e.begin != node_id && e.end != node_id;
        let mut kept: Vec<Relation> = Vec::new();
        let mut i: usize = 0;
        while i < g.relations.len()
            invariant
                i <= g.relations@.len(),
                g.relations@ == old_rels,
                keep_rel == (|e: Relation| e.begin != node_id && e.end != node_id),
                kept@ == old_rels.take(i as int).filter(keep_rel),
            decreases g.relations@.len() - i,
        {
            let e = g.relations[i];
            proof {
                assert(old_rels.take(i + 1) =~= old_rels.take(i as int).push(e));
                old_rels.take(i as int).lemma_filter_push(e, keep_rel);
            }
            if e.begin != node_id && e.end != node_id {
                kept.push(e);
            }
            i = i + 1;
        }
        assert(old_rels.take(i as int) =~= old_rels);
        g.relations = kept;
        let mut i: usize = 0;
        let ghost mut j: int = 0;
        while i < g.nodes.len()
            invariant
                0 <= j <= old_nodes.len(),
                keep_node == (|n: Node<V>| n.id != node_id),
                g.relations@ == old_rels.filter(keep_rel),
                i <= g.nodes@.len(),
                g.nodes@.take(i as int) == old_nodes.take(j).filter(keep_node),
                g.nodes@.skip(i as int) == old_nodes.skip(j),
            decreases g.nodes@.len() - i,
        {
            proof {
                assert(g.nodes@.skip(i as int).len() > 0);
                assert(j < old_nodes.len());
                assert(g.nodes@[i as int] == g.nodes@.skip(i as int)[0]);
                assert(old_nodes[j] == old_nodes.skip(j)[0]);
                assert(old_nodes.take(j + 1) =~= old_nodes.take(j).push(old_nodes[j]));
                old_nodes.take(j).lemma_filter_push(old_nodes[j], keep_node);
            }
            let ghost cur = g.nodes@;
            if g.nodes[i].id == node_id {
                g.nodes.remove(i);
                assert(g.nodes@.take(i as int) =~= cur.take(i as int));
                assert forall|t: int| 0 <= t < g.nodes@.len() - i implies g.nodes@.skip(i as int)[t]
                    == old_nodes.skip(j + 1)[t] by {
                    assert(cur.skip(i as int)[t + 1] == old_nodes.skip(j)[t + 1]);
                }
                assert(g.nodes@.skip(i as int) =~= old_nodes.skip(j + 1));
            } else {
                i = i + 1;
                assert(g.nodes@.take(i as int) =~= cur.take(i - 1).push(cur[i - 1]));
                assert forall|t: int| 0 <= t < g.nodes@.len() - i implies g.nodes@.skip(i as int)[t]
                    == old_nodes.skip(j + 1)[t] by {
                    assert(cur.skip(i - 1)[t + 1] == old_nodes.skip(j)[t + 1]);
                }
                assert(g.nodes@.skip(i as int) =~= old_nodes.skip(j + 1));
            }
            proof {
                j = j + 1;
            }
        }
        proof {
            assert(g.nodes@.take(i as int) =~= g.nodes@);
            assert(old_nodes.skip(j).len() == 0);
            assert(old_nodes.take(j) =~= old_nodes);
            lemma_filter_unique_ids(old_nodes, keep_node);
            lemma_filter_no_duplicates(old_rels, keep_rel);
            let nodes = g.nodes@;
            let rels = g.relations@;
            assert forall|k: int| 0 <= k < rels.len() implies has_id(
                nodes,
                (#[trigger] rels[k]).begin,
            ) && has_id(nodes, rels[k].end) by {
                let e = rels[k];
                old_rels.lemma_filter_pred(keep_rel, k);
                assert(rels.contains(e));
                old_rels.lemma_filter_contains_rev(keep_rel, e);
                let m = choose|m: int| 0 <= m < old_rels.len() && old_rels[m] == e;
                assert(has_id(old_nodes, old_rels[m].begin));
                let a = choose|a: int| 0 <= a < old_nodes.len() && (#[trigger] old_nodes[a]).id == e.begin;
                let b = choose|b: int| 0 <= b < old_nodes.len() && (#[trigger] old_nodes[b]).id == e.end;
                old_nodes.lemma_filter_contains(keep_node, a);
                old_nodes.lemma_filter_contains(keep_node, b);
            }
            assert forall|k: int| 0 <= k < nodes.len() implies (#[trigger] nodes[k]).id != node_id by {
                old_nodes.lemma_filter_pred(keep_node, k);
            }
            assert forall|k: int| 0 <= k < rels.len() implies (#[trigger] rels[k]).begin != node_id
                && rels[k].end != node_id by {
                old_rels.lemma_filter_pred(keep_rel, k);
            }
        }
        g
    }

    /// Removes the relation with exactly this `(begin, end)` pair, if present; relations
    /// that share only one endpoint with it stay.
    pub fn remove_relation(self, relation: &Relation) -> (r: Self)
        requires
            self.wf(),
        ensures
            r.nodes_view() == self.nodes_view(),
            r.relations_view() == self.relations_view().filter(|e: Relation| e != *relation),
            r.wf(),
    {
        let mut g = self;
        let ghost old_rels = g.relations@;
        let ghost keep = |e: Relation| e != *relation;
        let mut kept: Vec<Relation> = Vec::new();
        let mut i: usize = 0;
        while i < g.relations.len()
            invariant
                i <= g.relations@.len(),
                g.relations@ == old_rels,
                keep == (|e: Relation| e != *relation),
                kept@ == old_rels.take(i as int).filter(keep),
            decreases g.relations@.len() - i,
        {
            let e = g.relations[i];
            proof {
                assert(old_rels.take(i + 1) =~= old_rels.take(i as int).push(e));
                old_rels.take(i as int).lemma_filter_push(e, keep);
            }
            if !(e.begin == relation.begin && e.end == relation.end) {
                kept.push(e);
            }
            i = i + 1;
        }
        assert(old_rels.take(i as int) =~= old_rels);
        g.relations = kept;
        proof {
            lemma_filter_no_duplicates(old_rels, keep);
            let rels = g.relations@;
            assert forall|k: int| 0 <= k < rels.len() implies has_id(
                g.nodes@,
                (#[trigger] rels[k]).begin,
            ) && has_id(g.nodes@, rels[k].end) by {
                assert(rels.contains(rels[k]));
                old_rels.lemma_filter_contains_rev(keep, rels[k]);
            }
        }
        g
    }

    /// The direct successors of `node`, in the order of the relations that lead to them.
    pub fn get_connected<'a>(&'a self, node: &'a Node<V>) -> (r: Vec<&'a Node<V>>)
        requires
            self.wf(),
        ensures
            derefs(r@) == successors(self.nodes_view(), self.relations_view(), node.id),
    {
        let mut res: Vec<&'a Node<V>> = Vec::new();
        let mut i: usize = 0;
        while i < self.relations.len()
            invariant
                i <= self.relations@.len(),
                graph_wf(self.nodes@, self.relations@),
                derefs(res@) == successors(
                    self.nodes@,
                    self.relations@.take(i as int),
                    node.id,
                ),
            decreases self.relations@.len() - i,
        {
            let e = self.relations[i];
            assert(self.relations@.take(i + 1).drop_last() =~= self.relations@.take(i as int));
            if e.begin == node.id {
                match self.find_node(e.end) {
                    Some(k) => {
                        proof {
                            lemma_node_of(self.nodes@, k as int);
                        }
                        let ghost before = res@;
                        res.push(&self.nodes[k]);
                        assert(derefs(res@) =~= derefs(before).push(self.nodes@[k as int]));
                    },
                    None => {},
                }
            }
            i = i + 1;
        }
        assert(self.relations@.take(i as int) =~= self.relations@);
        res
    }

    /// The nodes that a depth-first walk from `root` visits, in visiting order. A node is
    /// skipped only where it already lies on the path from `root` to it, so a node reached
    /// along two different paths is visited once for each.
    pub fn pass_from<'a>(&'a self, root: &'a Node<V>) -> (r: Vec<&'a Node<V>>)
        requires
            self.wf(),
        ensures
            derefs(r@) == walk(self.nodes_view(), self.relations_view(), *root, seq![]),
    {
        let mut out: Vec<&'a Node<V>> = Vec::new();
        let memory: Vec<u32> = Vec::new();
        self.pass_from_with_memory(root, &mut out, &memory);
        assert(derefs(out@) =~= walk(self.nodes@, self.relations@, *root, memory@));
        out
    }

    /// Appends to `out` the walk from `root` below the path `memory`.
    fn pass_from_with_memory<'a>(
        &'a self,
        root: &'a Node<V>,
        out: &mut Vec<&'a Node<V>>,
        memory: &Vec<u32>,
    )
        requires
            graph_wf(self.nodes@, self.relations@),
        ensures
            derefs(final(out)@) == derefs(old(out)@) + walk(
                self.nodes@,
                self.relations@,
                *root,
                memory@,
            ),
        decreases free_count(self.nodes@, memory@),
    {
        if contains_id(memory, root.id) {
            assert(derefs(out@) =~= derefs(out@) + Seq::<Node<V>>::empty());
            return;
        }
        let ghost start = derefs(out@);
        out.push(root);
        assert(derefs(out@) =~= start + seq![*root]);
        let mut mem: Vec<u32> = memory.clone();
        assert(mem@ =~= memory@);
        mem.push(root.id);
        let nexts = self.get_connected(root);
        let ghost succ = successors(self.nodes@, self.relations@, root.id);
        proof {
            lemma_free_count_push(self.nodes@, memory@, root.id);
            if !has_id(self.nodes@, root.id) {
                lemma_no_successors(self.nodes@, self.relations@, root.id);
            }
        }
        let mut i: usize = 0;
        while i < nexts.len()
            invariant
                graph_wf(self.nodes@, self.relations@),
                i <= nexts@.len(),
                derefs(nexts@) == succ,
                succ == successors(self.nodes@, self.relations@, root.id),
                mem@ == memory@.push(root.id),
                has_id(self.nodes@, root.id) || nexts@.len() == 0,
                has_id(self.nodes@, root.id) ==> free_count(self.nodes@, mem@) < free_count(
                    self.nodes@,
                    memory@,
                ),
                derefs(out@) == start + seq![*root] + walk_all(
                    self.nodes@,
                    self.relations@,
                    succ.take(i as int),
                    mem@,
                ),
            decreases nexts@.len() - i,
        {
            let next = nexts[i];
            self.pass_from_with_memory(next, out, &mem);
            assert(succ.take(i + 1).drop_last() =~= succ.take(i as int));
            assert(succ[i as int] == *next);
            i = i + 1;
        }
        assert(succ.take(i as int) =~= succ);
        assert(derefs(out@) =~= start + walk(self.nodes@, self.relations@, *root, memory@));
    }

    /// The graph as text: each node's line in order, a line `#`, each relation's line in
    /// order; every line ends with a line break.
    pub fn marshal(&self) -> (r: String)
        ensures
            r@ == graph_text(self.nodes_view(), self.relations_view()),
    {
        let mut res = String::new();
        let mut i: usize = 0;
        while i < self.nodes.len()
            invariant
                i <= self.nodes@.len(),
                res@ == nodes_text(self.nodes@.take(i as int)),
            decreases self.nodes@.len() - i,
        {
            let line = self.nodes[i].marshal();
            res.append(line.as_str());
            push_char(&mut res, '\n');
            assert(self.nodes@.take(i + 1).drop_last() =~= self.nodes@.take(i as int));
            i = i + 1;
        }
        assert(self.nodes@.take(i as int) =~= self.nodes@);
        push_char(&mut res, '#');
        push_char(&mut res, '\n');
        let ghost head = res@;
        assert(head =~= nodes_text(self.nodes@) + seq!['#', '\n']);
        let mut i: usize = 0;
        while i < self.relations.len()
            invariant
                i <= self.relations@.len(),
                res@ == head + relations_text(self.relations@.take(i as int)),
            decreases self.relations@.len() - i,
        {
            let line = self.relations[i].marshal();
            res.append(line.as_str());
            push_char(&mut res, '\n');
            assert(self.relations@.take(i + 1).drop_last() =~= self.relations@.take(i as int));
            assert(res@ =~= head + relations_text(self.relations@.take(i + 1)));
            i = i + 1;
        }
        assert(self.relations@.take(i as int) =~= self.relations@);
        res
    }

    /// Reads a graph from text, line by line: lines before the first `#` line are nodes,
    /// every line after it a relation (a later `#` line too, which is then malformed),
    /// each added as `add_node_from` and `add_relation_from` do. Without a `#` line every
    /// line is read as a node.
    pub fn unmarshal(s: &str) -> (r: Result<Self, UnmarshalError>)
        ensures
            r is Ok ==> r->Ok_0.wf() && load_text::<V>(s@) == Ok::<
                (Seq<(u32, V::V)>, Seq<Relation>),
                UnmarshalError,
            >((models(r->Ok_0.nodes_view()), r->Ok_0.relations_view())),
            r is Err ==> load_text::<V>(s@) == Err::<
                (Seq<(u32, V::V)>, Seq<Relation>),
                UnmarshalError,
            >(r->Err_0),
    {
        let lines = lines_chars(&chars_of(s));
        let ghost ls = lines_of(s@);
        let mut res = Self::new();
        let mut in_nodes = true;
        let mut i: usize = 0;
        assert(ls.take(0) =~= Seq::<Seq<char>>::empty());
        assert(models(res.nodes@) =~= Seq::<(u32, V::V)>::empty());
        while i < lines.len()
            invariant
                i <= lines@.len(),
                views(lines@) == ls,
                ls == lines_of(s@),
                res.wf(),
                load::<V>(ls.take(i as int)) == Ok::<_, UnmarshalError>(
                    (models(res.nodes@), res.relations@, in_nodes),
                ),
            decreases lines@.len() - i,
        {
            let line = &lines[i];
            assert(line@ == ls[i as int]);
            assert(ls.take(i + 1).drop_last() =~= ls.take(i as int));
            assert(ls.take(i + 1).last() == ls[i as int]);
            let ghost before = models(res.nodes@);
            if in_nodes && line.len() == 1 && line[0] == '#' {
                assert(line@ =~= seq!['#']);
                in_nodes = false;
            } else {
                if in_nodes {
                    assert(line@ != seq!['#']) by {
                        if line@.len() == 1 {
                            assert(line@[0] != seq!['#'][0]);
                        }
                    }
                    match Node::<V>::unmarshal_chars(line) {
                        Err(e) => {
                            proof {
                                lemma_load_error_stays::<V>(ls, i + 1);
                            }
                            return Err(UnmarshalError::Parse(e));
                        },
                        Ok(n) => {
                            let ghost nm = (n.id, n.value@);
                            proof {
                                lemma_model_ids(res.nodes@, n.id);
                            }
                            match res.add_node_from(n) {
                                Err(e) => {
                                    proof {
                                        lemma_load_error_stays::<V>(ls, i + 1);
                                    }
                                    return Err(UnmarshalError::Graph(e));
                                },
                                Ok(g) => {
                                    res = g;
                                    assert(models(res.nodes@) =~= before.push(nm));
                                },
                            }
                        },
                    }
                } else {
                    match Relation::unmarshal_chars(line) {
                        Err(e) => {
                            proof {
                                lemma_load_error_stays::<V>(ls, i + 1);
                            }
                            return Err(UnmarshalError::Parse(e));
                        },
                        Ok(rel) => {
                            proof {
                                lemma_model_ids(res.nodes@, rel.begin);
                                lemma_model_ids(res.nodes@, rel.end);
                            }
                            match res.add_relation_from(rel) {
                                Err(e) => {
                                    proof {
                                        lemma_load_error_stays::<V>(ls, i + 1);
                                    }
                                    return Err(UnmarshalError::Graph(e));
                                },
                                Ok(g) => {
                                    res = g;
                                },
                            }
                        },
                    }
                }
            }
            i = i + 1;
        }
        assert(ls.take(i as int) =~= ls);
        Ok(res)
    }

    /// All nodes, in insertion order.
    pub fn get_all_nodes(&self) -> (r: Vec<&Node<V>>)
        ensures
            derefs(r@) == self.nodes_view(),
    {
        let mut res: Vec<&Node<V>> = Vec::new();
        let mut i: usize = 0;
        while i < self.nodes.len()
            invariant
                i <= self.nodes@.len(),
                derefs(res@) == self.nodes@.take(i as int),
            decreases self.nodes@.len() - i,
        {
            let ghost before = res@;
            res.push(&self.nodes[i]);
            assert(derefs(res@) =~= derefs(before).push(self.nodes@[i as int]));
            assert(self.nodes@.take(i + 1) =~= self.nodes@.take(i as int).push(self.nodes@[i as int]));
            i = i + 1;
        }
        assert(self.nodes@.take(i as int) =~= self.nodes@);
        res
    }
}

} // verus!
