//! Reading the text of a graph gives the graph back.
use vstd::prelude::*;
use crate::codec::ValueCodec;
use crate::decimal::{decimal, all_digits, is_digit, lemma_decimal_digits, lemma_parse_decimal};
use crate::graph::{
    GraphError,
    GraphModel, Node, Edge, node_line, edge_line, node_lines, edge_lines, separator, node_of_line,
    edge_of_line, read_lines, parse_graph, has_id,
};
use crate::text::{
    joined, plain_line, plain_token, lemma_joined_append, lemma_lines_of_joined,
    lemma_split_joined,
};

verus! {

/// The value's token reads back as the value, and holds no space or line break.
pub open spec fn value_reads_back<T: ValueCodec>(v: T) -> bool {
    T::from_token(v.token()) == Some(v) && plain_token(v.token())
}

/// An unsigned 32-bit value reads back from its decimal token.
pub proof fn lemma_u32_reads_back(v: u32)
    ensures
        value_reads_back(v),
{
    lemma_parse_decimal(v);
    lemma_decimal_digits(v as nat);
    lemma_digits_plain(decimal(v as nat));
}

/// The lines of a graph's text, in order.
pub open spec fn text_lines<T: ValueCodec>(g: GraphModel<T>) -> Seq<Seq<char>> {
    g.nodes.map_values(|n: Node<T>| node_line(n)) + seq![separator()] + g.edges.map_values(
        |e: Edge| edge_line(e),
    )
}

proof fn lemma_digits_plain(s: Seq<char>)
    requires
        all_digits(s),
    ensures
        plain_token(s),
{
    assert forall|i: int| 0 <= i < s.len() implies #[trigger] s[i] != ' ' && s[i] != '\n' && s[i]
        != '\r' by {
        assert(is_digit(s[i]));
    }
}

proof fn lemma_node_line<T: ValueCodec>(n: Node<T>)
    requires
        value_reads_back(n.val),
    ensures
        plain_line(node_line(n)),
        node_line(n) != separator(),
        node_of_line::<T>(node_line(n)) == Ok::<Node<T>, GraphError>(n),
{
    let d = decimal(n.id as nat);
    lemma_decimal_digits(n.id as nat);
    lemma_parse_decimal(n.id);
    lemma_digits_plain(d);
    lemma_split_joined(d, n.val.token());
    let l = node_line(n);
    assert forall|i: int| 0 <= i < l.len() implies #[trigger] l[i] != '\n' && l[i] != '\r' by {
        if i < d.len() {
            assert(l[i] == d[i]);
        } else if i > d.len() {
            assert(l[i] == n.val.token()[i - d.len() - 1]);
        }
    }
    assert(l.len() != separator().len());
}

proof fn lemma_edge_line(e: Edge)
    ensures
        plain_line(edge_line(e)),
        edge_line(e) != separator(),
        edge_of_line(edge_line(e)) == Ok::<Edge, GraphError>(e),
{
    let a = decimal(e.begin as nat);
    let b = decimal(e.end as nat);
    lemma_decimal_digits(e.begin as nat);
    lemma_decimal_digits(e.end as nat);
    lemma_parse_decimal(e.begin);
    lemma_parse_decimal(e.end);
    lemma_digits_plain(a);
    lemma_digits_plain(b);
    lemma_split_joined(a, b);
    let l = edge_line(e);
    assert forall|i: int| 0 <= i < l.len() implies #[trigger] l[i] != '\n' && l[i] != '\r' by {
        if i < a.len() {
            assert(l[i] == a[i]);
        } else if i > a.len() {
            assert(l[i] == b[i - a.len() - 1]);
        }
    }
    assert(l.len() != separator().len());
}

proof fn lemma_node_lines_joined<T: ValueCodec>(nodes: Seq<Node<T>>)
    ensures
        node_lines(nodes) == joined(nodes.map_values(|n: Node<T>| node_line(n))),
    decreases nodes.len(),
{
    if nodes.len() > 0 {
        lemma_node_lines_joined(nodes.drop_last());
        assert(nodes.map_values(|n: Node<T>| node_line(n)).drop_last() =~= nodes.drop_last().map_values(
            |n: Node<T>| node_line(n),
        ));
    } else {
        assert(nodes.map_values(|n: Node<T>| node_line(n)) =~= Seq::<Seq<char>>::empty());
    }
}

proof fn lemma_edge_lines_joined(edges: Seq<Edge>)
    ensures
        edge_lines(edges) == joined(edges.map_values(|e: Edge| edge_line(e))),
    decreases edges.len(),
{
    if edges.len() > 0 {
        lemma_edge_lines_joined(edges.drop_last());
        assert(edges.map_values(|e: Edge| edge_line(e)).drop_last() =~= edges.drop_last().map_values(
            |e: Edge| edge_line(e),
        ));
    } else {
        assert(edges.map_values(|e: Edge| edge_line(e)) =~= Seq::<Seq<char>>::empty());
    }
}

proof fn lemma_read_node_prefix<T: ValueCodec>(g: GraphModel<T>, k: int)
    requires
        g.wf(),
        forall|i: int| 0 <= i < g.nodes.len() ==> value_reads_back(#[trigger] g.nodes[i].val),
        0 <= k <= g.nodes.len(),
    ensures
        read_lines::<T>(text_lines(g).take(k)) == Ok::<(GraphModel<T>, bool), GraphError>(
            (GraphModel { nodes: g.nodes.take(k), edges: seq![] }, false),
        ),
    decreases k,
{
    let ls = text_lines(g);
    if k == 0 {
        assert(g.nodes.take(0) =~= Seq::<Node<T>>::empty());
        assert(ls.take(0).len() == 0);
    } else {
        lemma_read_node_prefix(g, k - 1);
        assert(ls.take(k).drop_last() =~= ls.take(k - 1));
        let n = g.nodes[k - 1];
        assert(ls.take(k).last() == node_line(n));
        lemma_node_line(n);
        assert(!has_id(g.nodes.take(k - 1), n.id)) by {
            if has_id(g.nodes.take(k - 1), n.id) {
                let pre = g.nodes.take(k - 1);
                let i = choose|i: int| 0 <= i < pre.len() && pre[i].id == n.id;
                assert(g.nodes[i].id == n.id);
            }
        }
        assert(g.nodes.take(k - 1).push(n) =~= g.nodes.take(k));
    }
}

proof fn lemma_read_edge_prefix<T: ValueCodec>(g: GraphModel<T>, m: int)
    requires
        g.wf(),
        forall|i: int| 0 <= i < g.nodes.len() ==> value_reads_back(#[trigger] g.nodes[i].val),
        0 <= m <= g.edges.len(),
    ensures
        read_lines::<T>(text_lines(g).take(g.nodes.len() + 1 + m)) == Ok::<
            (GraphModel<T>, bool),
            GraphError,
        >((GraphModel { nodes: g.nodes, edges: g.edges.take(m) }, true)),
    decreases m,
{
    let ls = text_lines(g);
    let n = g.nodes.len() as int;
    if m == 0 {
        lemma_read_node_prefix(g, n);
        assert(ls.take(n + 1).drop_last() =~= ls.take(n));
        assert(ls.take(n + 1).last() == separator());
        assert(g.nodes.take(n) =~= g.nodes);
        assert(g.edges.take(0) =~= Seq::<Edge>::empty());
    } else {
        lemma_read_edge_prefix(g, m - 1);
        assert(ls.take(n + 1 + m).drop_last() =~= ls.take(n + 1 + m - 1));
        let e = g.edges[m - 1];
        assert(ls.take(n + 1 + m).last() == edge_line(e));
        lemma_edge_line(e);
        assert(has_id(g.nodes, g.edges[m - 1].begin) && has_id(g.nodes, g.edges[m - 1].end));
        assert(!g.edges.take(m - 1).contains(e)) by {
            if g.edges.take(m - 1).contains(e) {
                let pre = g.edges.take(m - 1);
                let i = choose|i: int| 0 <= i < pre.len() && pre[i] == e;
                assert(g.edges[i] == g.edges[m - 1]);
            }
        }
        assert(g.edges.take(m - 1).push(e) =~= g.edges.take(m));
    }
}

/// Reading the text of a well-formed graph whose values read back from their
/// tokens gives that graph; so such a text, read and written again, is
/// unchanged, line for line and in the same order.
pub proof fn lemma_text_round_trip<T: ValueCodec>(g: GraphModel<T>, s: Seq<char>)
    requires
        g.wf(),
        forall|i: int| 0 <= i < g.nodes.len() ==> value_reads_back(#[trigger] g.nodes[i].val),
        s == g.text(),
    ensures
        parse_graph::<T>(s) == Ok::<GraphModel<T>, GraphError>(g),
        parse_graph::<T>(s)->Ok_0.text() == s,
{
    let nl = g.nodes.map_values(|n: Node<T>| node_line(n));
    let el = g.edges.map_values(|e: Edge| edge_line(e));
    let ls = text_lines(g);
    lemma_node_lines_joined(g.nodes);
    lemma_edge_lines_joined(g.edges);
    lemma_joined_append(nl, seq![separator()]);
    lemma_joined_append(nl + seq![separator()], el);
    assert(seq![separator()].drop_last() =~= Seq::<Seq<char>>::empty());
    assert(joined(seq![separator()].drop_last()) =~= Seq::<char>::empty());
    assert(seq![separator()].last() == separator());
    assert(joined(seq![separator()]) =~= separator() + seq!['\n']);
    assert(joined(ls) =~= g.text());
    assert forall|i: int| 0 <= i < ls.len() implies plain_line(#[trigger] ls[i]) by {
        if i < nl.len() {
            lemma_node_line(g.nodes[i]);
        } else if i > nl.len() {
            lemma_edge_line(g.edges[i - nl.len() - 1]);
        } else {
            assert(ls[i] == separator());
        }
    }
    lemma_lines_of_joined(ls);
    lemma_read_edge_prefix(g, g.edges.len() as int);
    assert(ls.take(g.nodes.len() + 1 + g.edges.len() as int) =~= ls);
    assert(g.edges.take(g.edges.len() as int) =~= g.edges);
}

} // verus!
