//! Reading back the text of a graph gives the same graph.
use vstd::prelude::*;
use crate::format::{
    Loaded, graph_text, lemma_model_ids, load, load_text, model_has_id, models, nodes_text,
    relations_text,
};
use crate::graph::{graph_wf, unique_ids};
use crate::node::{Node, Relation, node_line, parse_node, parse_relation, relation_line};
use crate::text::{
    TextValue, cut, decimal, is_token, lemma_decimal, lemma_parse_decimal, lines_of, split_on,
    strip_cr,
};

verus! {

/// Lines, each followed by a line break.
pub open spec fn joined_lines(ls: Seq<Seq<char>>) -> Seq<char>
    decreases ls.len(),
{
    if ls.len() == 0 {
        seq![]
    } else {
        joined_lines(ls.drop_last()) + ls.last() + seq!['\n']
    }
}

pub open spec fn free_of(s: Seq<char>, c: char) -> bool {
    forall|i: int| 0 <= i < s.len() ==> s[i] != c
}

pub open spec fn node_lines<V: TextValue>(ns: Seq<Node<V>>) -> Seq<Seq<char>> {
    ns.map_values(|n: Node<V>| node_line(n))
}

pub open spec fn relation_lines(rs: Seq<Relation>) -> Seq<Seq<char>> {
    rs.map_values(|r: Relation| relation_line(r))
}

/// Every value of the nodes has a token as its text.
pub open spec fn token_values<V: TextValue>(ns: Seq<Node<V>>) -> bool {
    forall|i: int| 0 <= i < ns.len() ==> is_token(V::text_of((#[trigger] ns[i]).value@))
}

proof fn lemma_cut_free(p: Seq<char>, l: Seq<char>, sep: char)
    requires
        free_of(l, sep),
    ensures
        cut(p + l, sep) == (cut(p, sep).0, cut(p, sep).1 + l),
    decreases l.len(),
{
    if l.len() == 0 {
        assert(p + l =~= p);
        assert(cut(p, sep).1 + l =~= cut(p, sep).1);
    } else {
        let d = l.drop_last();
        lemma_cut_free(p, d, sep);
        assert((p + l).drop_last() =~= p + d);
        assert((p + l).last() == l.last());
        assert((cut(p, sep).1 + d).push(l.last()) =~= cut(p, sep).1 + l);
    }
}

proof fn lemma_cut_line(p: Seq<char>, l: Seq<char>, sep: char)
    requires
        free_of(l, sep),
    ensures
        cut(p + l + seq![sep], sep) == (cut(p, sep).0.push(cut(p, sep).1 + l), Seq::<char>::empty()),
{
    lemma_cut_free(p, l, sep);
    let t = p + l + seq![sep];
    assert(t.drop_last() =~= p + l);
}

proof fn lemma_cut_joined(p: Seq<char>, ls: Seq<Seq<char>>)
    requires
        cut(p, '\n').1 == Seq::<char>::empty(),
        forall|i: int| 0 <= i < ls.len() ==> free_of(#[trigger] ls[i], '\n'),
    ensures
        cut(p + joined_lines(ls), '\n') == (cut(p, '\n').0 + ls, Seq::<char>::empty()),
    decreases ls.len(),
{
    if ls.len() == 0 {
        assert(p + joined_lines(ls) =~= p);
        assert(cut(p, '\n').0 + ls =~= cut(p, '\n').0);
    } else {
        let d = ls.drop_last();
        assert forall|i: int| 0 <= i < d.len() implies free_of(#[trigger] d[i], '\n') by {
            assert(d[i] == ls[i]);
        }
        lemma_cut_joined(p, d);
        assert(free_of(ls[ls.len() - 1], '\n'));
        lemma_cut_line(p + joined_lines(d), ls.last(), '\n');
        assert(p + joined_lines(ls) =~= (p + joined_lines(d)) + ls.last() + seq!['\n']);
        assert((cut(p, '\n').0 + d).push(Seq::<char>::empty() + ls.last()) =~= cut(p, '\n').0
            + ls);
    }
}

proof fn lemma_joined_add(a: Seq<Seq<char>>, b: Seq<Seq<char>>)
    ensures
        joined_lines(a + b) == joined_lines(a) + joined_lines(b),
    decreases b.len(),
{
    if b.len() == 0 {
        assert(a + b =~= a);
        assert(joined_lines(a) + joined_lines(b) =~= joined_lines(a));
    } else {
        lemma_joined_add(a, b.drop_last());
        assert((a + b).drop_last() =~= a + b.drop_last());
        assert((a + b).last() == b.last());
        assert(joined_lines(a + b) =~= joined_lines(a) + joined_lines(b));
    }
}

proof fn lemma_nodes_text<V: TextValue>(ns: Seq<Node<V>>)
    ensures
        nodes_text(ns) == joined_lines(node_lines(ns)),
    decreases ns.len(),
{
    if ns.len() > 0 {
        lemma_nodes_text(ns.drop_last());
        assert(node_lines(ns).drop_last() =~= node_lines(ns.drop_last()));
    } else {
        assert(node_lines(ns) =~= Seq::<Seq<char>>::empty());
    }
}

proof fn lemma_relations_text(rs: Seq<Relation>)
    ensures
        relations_text(rs) == joined_lines(relation_lines(rs)),
    decreases rs.len(),
{
    if rs.len() > 0 {
        lemma_relations_text(rs.drop_last());
        assert(relation_lines(rs).drop_last() =~= relation_lines(rs.drop_last()));
    } else {
        assert(relation_lines(rs) =~= Seq::<Seq<char>>::empty());
    }
}

/// Two tokens joined by one space split back into those two tokens.
proof fn lemma_split_pair(a: Seq<char>, b: Seq<char>)
    requires
        free_of(a, ' '),
        free_of(b, ' '),
    ensures
        split_on(a + seq![' '] + b, ' ') == seq![a, b],
{
    lemma_cut_free(Seq::<char>::empty(), a, ' ');
    assert(Seq::<char>::empty() + a =~= a);
    lemma_cut_line(Seq::<char>::empty(), a, ' ');
    lemma_cut_free(a + seq![' '], b, ' ');
    assert(Seq::<char>::empty() + b =~= b);
    assert(seq![Seq::<char>::empty() + a] =~= seq![a]);
    assert(seq![a].push(b) =~= seq![a, b]);
}

/// Two tokens joined by one space: a line that reads back as the pair, and that is one
/// line, without a carriage return at its end.
proof fn lemma_pair_line(a: Seq<char>, b: Seq<char>)
    requires
        is_token(a),
        is_token(b),
        a.len() > 0,
    ensures
        split_on(a + seq![' '] + b, ' ') == seq![a, b],
        free_of(a + seq![' '] + b, '\n'),
        strip_cr(a + seq![' '] + b) == a + seq![' '] + b,
        a + seq![' '] + b != seq!['#'],
{
    let l = a + seq![' '] + b;
    assert(free_of(a, ' ') && free_of(b, ' '));
    lemma_split_pair(a, b);
    assert forall|i: int| 0 <= i < l.len() implies l[i] != '\n' by {
        if i < a.len() {
            assert(l[i] == a[i]);
        } else if i > a.len() {
            assert(l[i] == b[i - a.len() - 1]);
        }
    }
    if b.len() > 0 {
        assert(l.last() == b[b.len() - 1]);
    } else {
        assert(l.last() == ' ');
    }
    assert(l.len() >= 2);
}

proof fn lemma_node_line<V: TextValue>(n: Node<V>)
    requires
        is_token(V::text_of(n.value@)),
    ensures
        parse_node::<V>(node_line(n)) == Ok::<(u32, V::V), crate::node::ParseError>(
            (n.id, n.value@),
        ),
        free_of(node_line(n), '\n'),
        strip_cr(node_line(n)) == node_line(n),
        node_line(n) != seq!['#'],
{
    lemma_decimal(n.id as nat);
    lemma_parse_decimal(n.id);
    V::lemma_text_round_trip(n.value@);
    lemma_pair_line(decimal(n.id as nat), V::text_of(n.value@));
}

proof fn lemma_relation_line(r: Relation)
    ensures
        parse_relation(relation_line(r)) == Ok::<Relation, crate::node::ParseError>(r),
        free_of(relation_line(r), '\n'),
        strip_cr(relation_line(r)) == relation_line(r),
        relation_line(r) != seq!['#'],
{
    lemma_decimal(r.begin as nat);
    lemma_decimal(r.end as nat);
    lemma_parse_decimal(r.begin);
    lemma_parse_decimal(r.end);
    lemma_pair_line(decimal(r.begin as nat), decimal(r.end as nat));
}

/// The lines of a graph's text: one per node, the line `#`, one per relation.
proof fn lemma_graph_lines<V: TextValue>(ns: Seq<Node<V>>, rs: Seq<Relation>)
    requires
        token_values(ns),
    ensures
        lines_of(graph_text(ns, rs)) == node_lines(ns) + seq![seq!['#']] + relation_lines(rs),
{
    let hash: Seq<Seq<char>> = seq![seq!['#']];
    let all = node_lines(ns) + hash + relation_lines(rs);
    lemma_nodes_text(ns);
    lemma_relations_text(rs);
    lemma_joined_add(node_lines(ns), hash);
    lemma_joined_add(node_lines(ns) + hash, relation_lines(rs));
    assert(hash.drop_last() =~= Seq::<Seq<char>>::empty());
    assert(hash.last() == seq!['#']);
    assert(joined_lines(hash.drop_last()) == Seq::<char>::empty());
    assert(joined_lines(hash) =~= seq!['#', '\n']);
    assert(graph_text(ns, rs) =~= joined_lines(all));
    assert forall|i: int| 0 <= i < all.len() implies free_of(#[trigger] all[i], '\n') && strip_cr(
        all[i],
    ) == all[i] by {
        let k = node_lines(ns).len();
        if i < k {
            assert(is_token(V::text_of(ns[i].value@)));
            lemma_node_line(ns[i]);
        } else if i == k {
            assert(all[i] == seq!['#']);
        } else {
            lemma_relation_line(rs[i - k - 1]);
        }
    }
    lemma_cut_joined(Seq::<char>::empty(), all);
    assert(Seq::<char>::empty() + joined_lines(all) =~= joined_lines(all));
    assert(Seq::<Seq<char>>::empty() + all =~= all);
    assert(all.map_values(|l: Seq<char>| strip_cr(l)) =~= all);
}

proof fn lemma_load_nodes<V: TextValue>(ns: Seq<Node<V>>, k: int)
    requires
        unique_ids(ns),
        token_values(ns),
        0 <= k <= ns.len(),
    ensures
        load::<V>(node_lines(ns).take(k)) == Ok::<Loaded<V::V>, crate::format::UnmarshalError>(
            (models(ns.take(k)), Seq::<Relation>::empty(), true),
        ),
    decreases k,
{
    if k == 0 {
        assert(node_lines(ns).take(0) =~= Seq::<Seq<char>>::empty());
        assert(models(ns.take(0)) =~= Seq::<(u32, V::V)>::empty());
    } else {
        lemma_load_nodes(ns, k - 1);
        let lines = node_lines(ns).take(k);
        assert(lines.drop_last() =~= node_lines(ns).take(k - 1));
        assert(lines.last() == node_line(ns[k - 1]));
        assert(is_token(V::text_of(ns[k - 1].value@)));
        lemma_node_line(ns[k - 1]);
        let before = models(ns.take(k - 1));
        assert(!model_has_id(before, ns[k - 1].id)) by {
            if model_has_id(before, ns[k - 1].id) {
                let q = choose|q: int| 0 <= q < before.len() && (#[trigger] before[q]).0 == ns[k
                    - 1].id;
                assert(before[q].0 == ns[q].id);
            }
        }
        assert(models(ns.take(k)) =~= before.push((ns[k - 1].id, ns[k - 1].value@)));
    }
}

proof fn lemma_load_relations<V: TextValue>(ns: Seq<Node<V>>, rs: Seq<Relation>, k: int)
    requires
        graph_wf(ns, rs),
        token_values(ns),
        0 <= k <= rs.len(),
    ensures
        load::<V>(node_lines(ns) + seq![seq!['#']] + relation_lines(rs).take(k)) == Ok::<
            Loaded<V::V>,
            crate::format::UnmarshalError,
        >((models(ns), rs.take(k), false)),
    decreases k,
{
    let head = node_lines(ns) + seq![seq!['#']];
    let lines = head + relation_lines(rs).take(k);
    if k == 0 {
        lemma_load_nodes(ns, ns.len() as int);
        assert(lines =~= head);
        assert(head.drop_last() =~= node_lines(ns).take(ns.len() as int));
        assert(ns.take(ns.len() as int) =~= ns);
        assert(rs.take(0) =~= Seq::<Relation>::empty());
    } else {
        lemma_load_relations(ns, rs, k - 1);
        let r = rs[k - 1];
        assert(lines.drop_last() =~= head + relation_lines(rs).take(k - 1));
        assert(lines.last() == relation_line(r));
        lemma_relation_line(r);
        lemma_model_ids(ns, r.begin);
        lemma_model_ids(ns, r.end);
        assert(!rs.take(k - 1).contains(r)) by {
            if rs.take(k - 1).contains(r) {
                let q = choose|q: int| 0 <= q < k - 1 && #[trigger] rs.take(k - 1)[q] == r;
                assert(rs[q] == rs[k - 1]);
            }
        }
        assert(rs.take(k) =~= rs.take(k - 1).push(r));
    }
}

/// Reading back the text of a well-formed graph whose values all have a token as their
/// text gives the same nodes (ids, values, order) and the same relations (order kept).
pub proof fn lemma_round_trip<V: TextValue>(ns: Seq<Node<V>>, rs: Seq<Relation>)
    requires
        graph_wf(ns, rs),
        token_values(ns),
    ensures
        load_text::<V>(graph_text(ns, rs)) == Ok::<
            (Seq<(u32, V::V)>, Seq<Relation>),
            crate::format::UnmarshalError,
        >((models(ns), rs)),
{
    lemma_graph_lines(ns, rs);
    lemma_load_relations(ns, rs, rs.len() as int);
    assert(relation_lines(rs).take(rs.len() as int) =~= relation_lines(rs));
    assert(rs.take(rs.len() as int) =~= rs);
}

} // verus!
