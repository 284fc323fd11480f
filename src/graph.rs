//! Nodes, edges and the graph that owns them.
use vstd::prelude::*;
use crate::codec::ValueCodec;
use crate::decimal::{decimal, parse_u32, format_u32, parse_u32_chars};
use crate::text::{chars_of, split_pair, split_at_space, lines, views, split_lines};

verus! {

/// The ways in which reading or changing a graph can fail.
#[derive(Debug, Clone, Copy, PartialEq, Eq, Structural)]
pub enum GraphError {
    /// A line does not split into exactly two tokens at a single space.
    MalformedLine,
    /// An identifier token is not an unsigned 32-bit integer.
    InvalidIdentifier,
    /// A value token does not decode as the value type.
    InvalidValue,
    /// A node with this identifier is already present.
    DuplicateIdentifier,
    /// An edge names an identifier that no node has.
    DanglingEdgeEndpoint,
}

/// A value with an identifier.
#[derive(Debug)]
pub struct Node<T> {
    pub id: u32,
    pub val: T,
}

/// A directed arc from the node `begin` to the node `end`.
#[derive(Debug, Clone, Copy, PartialEq, Eq, Structural)]
pub struct Edge {
    pub begin: u32,
    pub end: u32,
}

/// The line that encodes a node: its identifier, a space, its value's token.
pub open spec fn node_line<T: ValueCodec>(n: Node<T>) -> Seq<char> {
    decimal(n.id as nat) + seq![' '] + n.val.token()
}

/// The line that encodes an edge: its two identifiers, separated by a space.
pub open spec fn edge_line(e: Edge) -> Seq<char> {
    decimal(e.begin as nat) + seq![' '] + decimal(e.end as nat)
}

/// What reading a node line gives.
pub open spec fn node_of_line<T: ValueCodec>(s: Seq<char>) -> Result<Node<T>, GraphError> {
    match split_pair(s) {
        None => Err(GraphError::MalformedLine),
        Some((a, b)) => match parse_u32(a) {
            None => Err(GraphError::InvalidIdentifier),
            Some(id) => match T::from_token(b) {
                None => Err(GraphError::InvalidValue),
                Some(val) => Ok(Node { id, val }),
            },
        },
    }
}

/// What reading an edge line gives.
pub open spec fn edge_of_line(s: Seq<char>) -> Result<Edge, GraphError> {
    match split_pair(s) {
        None => Err(GraphError::MalformedLine),
        Some((a, b)) => match (parse_u32(a), parse_u32(b)) {
            (Some(begin), Some(end)) => Ok(Edge { begin, end }),
            _ => Err(GraphError::InvalidIdentifier),
        },
    }
}

impl<T: ValueCodec> Node<T> {
    pub fn new(id: u32, val: T) -> (r: Self)
        ensures
            r.id == id,
            r.val == val,
    {
        Node { id, val }
    }

    /// The line that encodes this node.
    pub fn ser(&self) -> (r: String)
        ensures
            r@ == node_line(*self),
    {
        let mut s = format_u32(self.id);
        proof {
            reveal_strlit(" ");
        }
        s.append(" ");
        let v = self.val.encode();
        s.append(v.as_str());
        s
    }

    /// Reads a node from its line.
    pub fn des(s: &str) -> (r: Result<Self, GraphError>)
        ensures
            r == node_of_line::<T>(s@),
    {
        match split_at_space(s) {
            None => Err(GraphError::MalformedLine),
            Some((a, b)) => match parse_u32_chars(&chars_of(a)) {
                None => Err(GraphError::InvalidIdentifier),
                Some(id) => match T::decode(b) {
                    None => Err(GraphError::InvalidValue),
                    Some(val) => Ok(Node { id, val }),
                },
            },
        }
    }
}

impl Edge {
    pub fn new(begin: u32, end: u32) -> (r: Self)
        ensures
            r.begin == begin,
            r.end == end,
    {
        Edge { begin, end }
    }

    /// The line that encodes this edge.
    pub fn ser(&self) -> (r: String)
        ensures
            r@ == edge_line(*self),
    {
        let mut s = format_u32(self.begin);
        proof {
            reveal_strlit(" ");
        }
        s.append(" ");
        let e = format_u32(self.end);
        s.append(e.as_str());
        s
    }

    /// Reads an edge from its line.
    pub fn des(s: &str) -> (r: Result<Self, GraphError>)
        ensures
            r == edge_of_line(s@),
    {
        match split_at_space(s) {
            None => Err(GraphError::MalformedLine),
            Some((a, b)) => {
                let begin = parse_u32_chars(&chars_of(a));
                let end = parse_u32_chars(&chars_of(b));
                match (begin, end) {
                    (Some(begin), Some(end)) => Ok(Edge { begin, end }),
                    _ => Err(GraphError::InvalidIdentifier),
                }
            },
        }
    }
}


/// Some node in `nodes` has identifier `id`.
pub open spec fn has_id<T>(nodes: Seq<Node<T>>, id: u32) -> bool {
    exists|i: int| 0 <= i < nodes.len() && nodes[i].id == id
}

/// The first node in `nodes` with identifier `id`.
pub open spec fn find_node<T>(nodes: Seq<Node<T>>, id: u32) -> Option<Node<T>>
    decreases nodes.len(),
{
    if nodes.len() == 0 {
        None
    } else if nodes[0].id == id {
        Some(nodes[0])
    } else {
        find_node(nodes.drop_first(), id)
    }
}

/// The nodes at the ends of the edges that leave `u`, in edge order; an edge
/// whose end no node has contributes nothing.
pub open spec fn connected<T>(nodes: Seq<Node<T>>, edges: Seq<Edge>, u: u32) -> Seq<Node<T>>
    decreases edges.len(),
{
    if edges.len() == 0 {
        seq![]
    } else {
        let rest = connected(nodes, edges.drop_last(), u);
        let e = edges.last();
        if e.begin == u && find_node(nodes, e.end) is Some {
            rest.push(find_node(nodes, e.end)->Some_0)
        } else {
            rest
        }
    }
}

/// The node that `find_node` gives is one of `nodes`, with identifier `id`;
/// it gives one whenever some node has that identifier.
pub proof fn lemma_find_node<T>(nodes: Seq<Node<T>>, id: u32)
    ensures
        find_node(nodes, id) is Some <==> has_id(nodes, id),
        find_node(nodes, id) is Some ==> nodes.contains(find_node(nodes, id)->Some_0) && find_node(
            nodes,
            id,
        )->Some_0.id == id,
    decreases nodes.len(),
{
    if nodes.len() > 0 {
        let t = nodes.drop_first();
        lemma_find_node(t, id);
        if has_id(t, id) {
            let i = choose|i: int| 0 <= i < t.len() && t[i].id == id;
            assert(nodes[i + 1].id == id);
        }
        if has_id(nodes, id) && nodes[0].id != id {
            let i = choose|i: int| 0 <= i < nodes.len() && nodes[i].id == id;
            assert(t[i - 1].id == id);
        }
        if find_node(t, id) is Some && nodes[0].id != id {
            let i = choose|i: int| 0 <= i < t.len() && t[i] == find_node(t, id)->Some_0;
            assert(nodes[i + 1] == t[i]);
        }
        if nodes[0].id == id {
            assert(nodes.contains(nodes[0]));
        }
    }
}

/// Every node in `connected(nodes, edges, u)` is one of `nodes`.
pub proof fn lemma_connected_in_nodes<T>(nodes: Seq<Node<T>>, edges: Seq<Edge>, u: u32)
    ensures
        forall|i: int|
            0 <= i < connected(nodes, edges, u).len() ==> nodes.contains(
                #[trigger] connected(nodes, edges, u)[i],
            ),
    decreases edges.len(),
{
    if edges.len() > 0 {
        let rest = connected(nodes, edges.drop_last(), u);
        lemma_connected_in_nodes(nodes, edges.drop_last(), u);
        lemma_find_node(nodes, edges.last().end);
        let c = connected(nodes, edges, u);
        assert forall|i: int| 0 <= i < c.len() implies nodes.contains(#[trigger] c[i]) by {
            if i < rest.len() {
                assert(c[i] == rest[i]);
            }
        }
    }
}

/// The nodes that a sequence of node references points at.
pub open spec fn derefs<T>(v: Seq<&Node<T>>) -> Seq<Node<T>> {
    v.map_values(|n: &Node<T>| *n)
}

/// Holds of a node whose identifier is not `id`.
pub open spec fn id_differs<T>(id: u32) -> spec_fn(Node<T>) -> bool {
    |n: Node<T>| n.id != id
}

/// Holds of an edge that does not touch `id`.
pub open spec fn avoids(id: u32) -> spec_fn(Edge) -> bool {
    |e: Edge| e.begin != id && e.end != id
}

/// Holds of an edge other than the one from `begin` to `end`.
pub open spec fn differs_from(begin: u32, end: u32) -> spec_fn(Edge) -> bool {
    |e: Edge| !(e.begin == begin && e.end == end)
}

/// Filtering keeps exactly the elements that satisfy the predicate.
pub proof fn lemma_filter_members<A>(s: Seq<A>, p: spec_fn(A) -> bool)
    ensures
        forall|i: int|
            0 <= i < s.filter(p).len() ==> s.contains(#[trigger] s.filter(p)[i]) && p(
                s.filter(p)[i],
            ),
        forall|i: int| 0 <= i < s.len() && p(s[i]) ==> s.filter(p).contains(#[trigger] s[i]),
    decreases s.len(),
{
    reveal(Seq::filter);
    if s.len() > 0 {
        let t = s.drop_last();
        lemma_filter_members(t, p);
        let f = s.filter(p);
        assert forall|i: int| 0 <= i < f.len() implies s.contains(#[trigger] f[i]) && p(f[i]) by {
            if i < t.filter(p).len() {
                assert(f[i] == t.filter(p)[i]);
                let k = choose|k: int| 0 <= k < t.len() && t[k] == f[i];
                assert(s[k] == f[i]);
            } else {
                assert(f[i] == s.last());
                assert(s[s.len() - 1] == f[i]);
            }
        }
        assert forall|i: int| 0 <= i < s.len() && p(s[i]) implies f.contains(#[trigger] s[i]) by {
            if i < t.len() {
                assert(t[i] == s[i]);
                assert(t.filter(p).contains(t[i]));
                let k = choose|k: int| 0 <= k < t.filter(p).len() && t.filter(p)[k] == t[i];
                assert(f[k] == s[i]);
            } else {
                assert(f[f.len() - 1] == s[i]);
            }
        }
    }
}

/// Filtering a sequence without repeats gives one without repeats.
pub proof fn lemma_filter_no_duplicates<A>(s: Seq<A>, p: spec_fn(A) -> bool)
    requires
        s.no_duplicates(),
    ensures
        s.filter(p).no_duplicates(),
    decreases s.len(),
{
    reveal(Seq::filter);
    if s.len() > 0 {
        let t = s.drop_last();
        assert(t.no_duplicates());
        lemma_filter_no_duplicates(t, p);
        lemma_filter_members(t, p);
        let f = s.filter(p);
        if p(s.last()) {
            assert forall|i: int, j: int| 0 <= i < f.len() && 0 <= j < f.len() && i != j implies f[i]
                != f[j] by {
                if i < f.len() - 1 && j < f.len() - 1 {
                    assert(f[i] == t.filter(p)[i] && f[j] == t.filter(p)[j]);
                } else if i < f.len() - 1 {
                    assert(t.contains(t.filter(p)[i]));
                } else if j < f.len() - 1 {
                    assert(t.contains(t.filter(p)[j]));
                }
            }
        }
    }
}

/// Filtering nodes whose identifiers are unique keeps them unique.
pub proof fn lemma_filter_unique_ids<T>(s: Seq<Node<T>>, p: spec_fn(Node<T>) -> bool)
    requires
        forall|i: int, j: int| 0 <= i < s.len() && 0 <= j < s.len() && i != j ==> s[i].id != s[j].id,
    ensures
        ({
            let f = s.filter(p);
            forall|i: int, j: int| 0 <= i < f.len() && 0 <= j < f.len() && i != j ==> f[i].id != f[j].id
        }),
    decreases s.len(),
{
    reveal(Seq::filter);
    if s.len() > 0 {
        let t = s.drop_last();
        lemma_filter_unique_ids(t, p);
        lemma_filter_members(t, p);
        let f = s.filter(p);
        if p(s.last()) {
            assert forall|i: int, j: int| 0 <= i < f.len() && 0 <= j < f.len() && i != j implies f[i].id
                != f[j].id by {
                if i < f.len() - 1 && j < f.len() - 1 {
                    assert(f[i] == t.filter(p)[i] && f[j] == t.filter(p)[j]);
                } else if i < f.len() - 1 {
                    assert(t.contains(t.filter(p)[i]));
                } else if j < f.len() - 1 {
                    assert(t.contains(t.filter(p)[j]));
                }
            }
        }
    }
}

/// Filtering a prefix one element longer adds that element when it is kept.
proof fn lemma_filter_take_step<A>(s: Seq<A>, p: spec_fn(A) -> bool, j: int)
    requires
        0 <= j < s.len(),
    ensures
        s.take(j + 1).filter(p) == if p(s[j]) {
            s.take(j).filter(p).push(s[j])
        } else {
            s.take(j).filter(p)
        },
{
    reveal(Seq::filter);
    assert(s.take(j + 1).drop_last() =~= s.take(j));
}

/// What a graph holds: its nodes and its edges, each in insertion order.
pub ghost struct GraphModel<T> {
    pub nodes: Seq<Node<T>>,
    pub edges: Seq<Edge>,
}

impl<T> GraphModel<T> {
    pub open spec fn empty() -> GraphModel<T> {
        GraphModel { nodes: seq![], edges: seq![] }
    }

    /// Identifiers are unique, every edge joins two present nodes, and no
    /// edge is there twice.
    pub open spec fn wf(self) -> bool {
        &&& forall|i: int, j: int|
            0 <= i < self.nodes.len() && 0 <= j < self.nodes.len() && i != j
                ==> self.nodes[i].id != self.nodes[j].id
        &&& forall|k: int|
            0 <= k < self.edges.len() ==> has_id(self.nodes, #[trigger] self.edges[k].begin)
                && has_id(self.nodes, self.edges[k].end)
        &&& self.edges.no_duplicates()
    }

    pub open spec fn has_node(self, id: u32) -> bool {
        has_id(self.nodes, id)
    }

    pub open spec fn has_edge(self, begin: u32, end: u32) -> bool {
        self.edges.contains(Edge { begin, end })
    }

    /// The graph after adding a node, or why it cannot be added.
    pub open spec fn with_node(self, n: Node<T>) -> Result<GraphModel<T>, GraphError> {
        if self.has_node(n.id) {
            Err(GraphError::DuplicateIdentifier)
        } else {
            Ok(GraphModel { nodes: self.nodes.push(n), edges: self.edges })
        }
    }

    /// The graph after adding an edge, or why it cannot be added.
    pub open spec fn with_edge(self, e: Edge) -> Result<GraphModel<T>, GraphError> {
        if !self.has_node(e.begin) || !self.has_node(e.end) {
            Err(GraphError::DanglingEdgeEndpoint)
        } else if self.edges.contains(e) {
            Ok(self)
        } else {
            Ok(GraphModel { nodes: self.nodes, edges: self.edges.push(e) })
        }
    }

    /// The graph without the node `id` and without every edge that touches it.
    pub open spec fn without_node(self, id: u32) -> GraphModel<T> {
        GraphModel {
            nodes: self.nodes.filter(id_differs(id)),
            edges: self.edges.filter(avoids(id)),
        }
    }

    /// The graph without the edge from `begin` to `end`.
    pub open spec fn without_edge(self, begin: u32, end: u32) -> GraphModel<T> {
        GraphModel {
            nodes: self.nodes,
            edges: self.edges.filter(differs_from(begin, end)),
        }
    }

    /// The nodes reached from `u` by one edge, in edge order.
    pub open spec fn successors(self, u: u32) -> Seq<Node<T>> {
        connected(self.nodes, self.edges, u)
    }
}

/// The node lines of a graph's text, each ended by a newline.
pub open spec fn node_lines<T: ValueCodec>(nodes: Seq<Node<T>>) -> Seq<char>
    decreases nodes.len(),
{
    if nodes.len() == 0 {
        seq![]
    } else {
        node_lines(nodes.drop_last()) + node_line(nodes.last()) + seq!['\n']
    }
}

/// The edge lines of a graph's text, each ended by a newline.
pub open spec fn edge_lines(edges: Seq<Edge>) -> Seq<char>
    decreases edges.len(),
{
    if edges.len() == 0 {
        seq![]
    } else {
        edge_lines(edges.drop_last()) + edge_line(edges.last()) + seq!['\n']
    }
}

/// The separator line between node lines and edge lines.
pub open spec fn separator() -> Seq<char> {
    seq!['#']
}

impl<T: ValueCodec> GraphModel<T> {
    /// The text of a graph: its node lines, the separator line, its edge lines.
    pub open spec fn text(self) -> Seq<char> {
        node_lines(self.nodes) + separator() + seq!['\n'] + edge_lines(self.edges)
    }
}

/// One line read into a graph under construction; `in_edges` tells whether
/// the separator has been seen. The first separator line switches to edges;
/// after it every line, another `#` too, is read as an edge.
pub open spec fn read_line<T: ValueCodec>(g: GraphModel<T>, in_edges: bool, l: Seq<char>) -> Result<
    (GraphModel<T>, bool),
    GraphError,
> {
    if !in_edges && l == separator() {
        Ok((g, true))
    } else if !in_edges {
        match node_of_line::<T>(l) {
            Err(e) => Err(e),
            Ok(n) => match g.with_node(n) {
                Err(e) => Err(e),
                Ok(h) => Ok((h, false)),
            },
        }
    } else {
        match edge_of_line(l) {
            Err(e) => Err(e),
            Ok(edge) => match g.with_edge(edge) {
                Err(e) => Err(e),
                Ok(h) => Ok((h, true)),
            },
        }
    }
}

/// The lines read in order into the empty graph; the first failure stops it.
pub open spec fn read_lines<T: ValueCodec>(ls: Seq<Seq<char>>) -> Result<(GraphModel<T>, bool), GraphError>
    decreases ls.len(),
{
    if ls.len() == 0 {
        Ok((GraphModel::empty(), false))
    } else {
        match read_lines::<T>(ls.drop_last()) {
            Err(e) => Err(e),
            Ok((g, in_edges)) => read_line(g, in_edges, ls.last()),
        }
    }
}

/// The graph that a text describes, or the first failure in reading it.
pub open spec fn parse_graph<T: ValueCodec>(s: Seq<char>) -> Result<GraphModel<T>, GraphError> {
    match read_lines::<T>(lines(s)) {
        Ok((g, _)) => Ok(g),
        Err(e) => Err(e),
    }
}

/// Once reading fails, the lines after do not change the failure.
proof fn lemma_read_lines_err<T: ValueCodec>(ls: Seq<Seq<char>>, k: int)
    requires
        0 <= k <= ls.len(),
        read_lines::<T>(ls.take(k)) is Err,
    ensures
        read_lines::<T>(ls) == read_lines::<T>(ls.take(k)),
    decreases ls.len() - k,
{
    if k < ls.len() {
        assert(ls.take(k + 1).drop_last() =~= ls.take(k));
        lemma_read_lines_err::<T>(ls, k + 1);
    } else {
        assert(ls.take(k) =~= ls);
    }
}

/// A node is among those `connected` gives exactly when some edge from `u`
/// ends at an identifier whose first node it is.
proof fn lemma_connected_members<T>(nodes: Seq<Node<T>>, edges: Seq<Edge>, u: u32, x: Node<T>)
    ensures
        connected(nodes, edges, u).contains(x) <==> exists|k: int|
            0 <= k < edges.len() && edges[k].begin == u && find_node(nodes, #[trigger] edges[k].end)
                == Some(x),
    decreases edges.len(),
{
    if edges.len() > 0 {
        let t = edges.drop_last();
        lemma_connected_members(nodes, t, u, x);
        let rest = connected(nodes, t, u);
        let c = connected(nodes, edges, u);
        if c.contains(x) {
            let i = choose|i: int| 0 <= i < c.len() && c[i] == x;
            if i < rest.len() {
                assert(rest[i] == x);
                let k = choose|k: int|
                    0 <= k < t.len() && t[k].begin == u && find_node(nodes, #[trigger] t[k].end)
                        == Some(x);
                assert(edges[k] == t[k]);
            } else {
                assert(edges[edges.len() - 1] == edges.last());
            }
        }
        if exists|k: int|
            0 <= k < edges.len() && edges[k].begin == u && find_node(nodes, #[trigger] edges[k].end)
                == Some(x) {
            let k = choose|k: int|
                0 <= k < edges.len() && edges[k].begin == u && find_node(nodes, #[trigger] edges[k].end)
                    == Some(x);
            if k < t.len() {
                assert(t[k] == edges[k]);
                assert(rest.contains(x));
                let i = choose|i: int| 0 <= i < rest.len() && rest[i] == x;
                assert(c[i] == x);
            } else {
                assert(c[c.len() - 1] == x);
            }
        }
    }
}

/// The successors of `u` are exactly the nodes `x` of the graph with an edge
/// from `u` to `x`: one edge away, nothing further.
pub proof fn lemma_successors_exact<T>(g: GraphModel<T>, u: u32, x: Node<T>)
    requires
        g.wf(),
    ensures
        g.successors(u).contains(x) <==> g.nodes.contains(x) && g.has_edge(u, x.id),
{
    lemma_connected_members(g.nodes, g.edges, u, x);
    if g.successors(u).contains(x) {
        let k = choose|k: int|
            0 <= k < g.edges.len() && g.edges[k].begin == u && find_node(
                g.nodes,
                #[trigger] g.edges[k].end,
            ) == Some(x);
        lemma_find_node(g.nodes, g.edges[k].end);
        assert(g.edges[k] == Edge { begin: u, end: x.id });
    }
    if g.nodes.contains(x) && g.has_edge(u, x.id) {
        let k = choose|k: int| 0 <= k < g.edges.len() && g.edges[k] == Edge { begin: u, end: x.id };
        lemma_find_node(g.nodes, x.id);
        let y = find_node(g.nodes, x.id)->Some_0;
        let a = choose|a: int| 0 <= a < g.nodes.len() && g.nodes[a] == x;
        let b = choose|b: int| 0 <= b < g.nodes.len() && g.nodes[b] == y;
        assert(a == b);
        assert(g.edges[k].end == x.id);
    }
}

/// After a node is removed, no node has its identifier, no edge touches it,
/// and the graph is still well formed: no edge is left dangling.
pub proof fn lemma_without_node<T>(g: GraphModel<T>, id: u32)
    requires
        g.wf(),
    ensures
        !g.without_node(id).has_node(id),
        forall|k: int|
            0 <= k < g.without_node(id).edges.len() ==> (#[trigger] g.without_node(id).edges[k]).begin
                != id && g.without_node(id).edges[k].end != id,
        g.without_node(id).wf(),
{
    let h = g.without_node(id);
    lemma_filter_unique_ids(g.nodes, id_differs::<T>(id));
    lemma_filter_no_duplicates(g.edges, avoids(id));
    lemma_filter_members(g.edges, avoids(id));
    lemma_filter_members(g.nodes, id_differs::<T>(id));
    assert forall|k: int| 0 <= k < h.edges.len() implies has_id(
        h.nodes,
        #[trigger] h.edges[k].begin,
    ) && has_id(h.nodes, h.edges[k].end) by {
        let e = h.edges[k];
        assert(avoids(id)(e));
        let m = choose|m: int| 0 <= m < g.edges.len() && g.edges[m] == e;
        assert(has_id(g.nodes, g.edges[m].begin) && has_id(g.nodes, g.edges[m].end));
        let a = choose|a: int| 0 <= a < g.nodes.len() && g.nodes[a].id == e.begin;
        let b = choose|b: int| 0 <= b < g.nodes.len() && g.nodes[b].id == e.end;
        assert(h.nodes.contains(g.nodes[a]));
        assert(h.nodes.contains(g.nodes[b]));
    }
    assert forall|k: int| 0 <= k < h.edges.len() implies (#[trigger] h.edges[k]).begin != id
        && h.edges[k].end != id by {
        assert(avoids(id)(h.edges[k]));
    }
    if h.has_node(id) {
        let i = choose|i: int| 0 <= i < h.nodes.len() && h.nodes[i].id == id;
        assert(id_differs::<T>(id)(h.nodes[i]));
    }
}

/// Adding an edge a second time changes nothing: the graph holds it once.
pub proof fn lemma_add_edge_twice<T>(g: GraphModel<T>, begin: u32, end: u32)
    requires
        g.wf(),
        g.has_node(begin),
        g.has_node(end),
    ensures
        ({
            let e = Edge { begin, end };
            let h = g.with_edge(e)->Ok_0;
            &&& g.with_edge(e) is Ok
            &&& h.with_edge(e) == Ok::<GraphModel<T>, GraphError>(h)
            &&& exists|i: int|
                0 <= i < h.edges.len() && h.edges[i] == e && forall|k: int|
                    0 <= k < h.edges.len() && #[trigger] h.edges[k] == e ==> k == i
        }),
{
    let e = Edge { begin, end };
    let h = g.with_edge(e)->Ok_0;
    if !g.edges.contains(e) {
        assert(h.edges.last() == e);
        assert(h.edges.contains(e));
    }
    assert(h.edges.contains(e));
    assert(h.wf()) by {
        if !g.edges.contains(e) {
            assert forall|i: int, j: int|
                0 <= i < h.edges.len() && 0 <= j < h.edges.len() && i != j implies h.edges[i]
                != h.edges[j] by {
                if i < g.edges.len() && j < g.edges.len() {
                } else if i < g.edges.len() {
                    assert(g.edges.contains(g.edges[i]));
                } else if j < g.edges.len() {
                    assert(g.edges.contains(g.edges[j]));
                }
            }
            assert forall|k: int| 0 <= k < h.edges.len() implies has_id(
                h.nodes,
                #[trigger] h.edges[k].begin,
            ) && has_id(h.nodes, h.edges[k].end) by {
                if k < g.edges.len() {
                    assert(h.edges[k] == g.edges[k]);
                }
            }
        }
    }
    let i = choose|i: int| 0 <= i < h.edges.len() && h.edges[i] == e;
    assert forall|k: int| 0 <= k < h.edges.len() && #[trigger] h.edges[k] == e implies k == i by {
        if k != i {
            assert(h.edges[k] != h.edges[i]);
        }
    }
}

/// A directed graph: nodes with unique identifiers, and edges between them.
#[derive(Debug)]
pub struct Graph<T> {
    nodes: Vec<Node<T>>,
    edges: Vec<Edge>,
}

impl<T> View for Graph<T> {
    type V = GraphModel<T>;

    closed spec fn view(&self) -> GraphModel<T> {
        GraphModel { nodes: self.nodes@, edges: self.edges@ }
    }
}

impl<T: ValueCodec> Graph<T> {
    /// The empty graph.
    pub fn new() -> (r: Self)
        ensures
            r@ == GraphModel::<T>::empty(),
            r@.wf(),
    {
        Graph { nodes: Vec::new(), edges: Vec::new() }
    }

    fn position_of(&self, id: u32) -> (r: Option<usize>)
        ensures
            match r {
                Some(i) => i < self@.nodes.len() && self@.nodes[i as int].id == id
                    && find_node(self@.nodes, id) == Some(self@.nodes[i as int]),
                None => !self@.has_node(id) && find_node(self@.nodes, id) is None,
            },
    {
        let mut i: usize = 0;
        assert(self.nodes@.skip(0) =~= self.nodes@);
        while i < self.nodes.len()
            invariant
                i <= self.nodes@.len(),
                forall|j: int| 0 <= j < i ==> self.nodes@[j].id != id,
                find_node(self.nodes@, id) == find_node(self.nodes@.skip(i as int), id),
            decreases self.nodes@.len() - i,
        {
            let ghost rest = self.nodes@.skip(i as int);
            assert(rest.drop_first() =~= self.nodes@.skip(i + 1));
            if self.nodes[i].id == id {
                return Some(i);
            }
            i = i + 1;
        }
        None
    }

    fn contains_edge(&self, e: Edge) -> (r: bool)
        ensures
            r == self@.edges.contains(e),
    {
        let mut i: usize = 0;
        while i < self.edges.len()
            invariant
                i <= self.edges@.len(),
                forall|j: int| 0 <= j < i ==> self.edges@[j] != e,
            decreases self.edges@.len() - i,
        {
            if self.edges[i].begin == e.begin && self.edges[i].end == e.end {
                return true;
            }
            i = i + 1;
        }
        false
    }

    /// Adds a node; fails, changing nothing, when its identifier is taken.
    pub fn add_node_from(&mut self, node: Node<T>) -> (r: Result<(), GraphError>)
        requires
            old(self)@.wf(),
        ensures
            final(self)@.wf(),
            match old(self)@.with_node(node) {
                Ok(g) => r is Ok && final(self)@ == g,
                Err(e) => r == Err::<(), GraphError>(e) && final(self)@ == old(self)@,
            },
    {
        if self.position_of(node.id).is_some() {
            return Err(GraphError::DuplicateIdentifier);
        }
        let ghost old_nodes = self.nodes@;
        self.nodes.push(node);
        assert forall|x: u32| has_id(old_nodes, x) implies has_id(self.nodes@, x) by {
            let i = choose|i: int| 0 <= i < old_nodes.len() && old_nodes[i].id == x;
            assert(self.nodes@[i].id == x);
        }
        Ok(())
    }

    /// Adds the node `id` holding `val`; fails, changing nothing, when `id`
    /// is taken.
    pub fn add_node(&mut self, id: u32, val: T) -> (r: Result<(), GraphError>)
        requires
            old(self)@.wf(),
        ensures
            final(self)@.wf(),
            match old(self)@.with_node(Node { id, val }) {
                Ok(g) => r is Ok && final(self)@ == g,
                Err(e) => r == Err::<(), GraphError>(e) && final(self)@ == old(self)@,
            },
    {
        self.add_node_from(Node::new(id, val))
    }

    /// Adds an edge unless it is there already; fails, changing nothing, when
    /// an end is not a node of the graph.
    pub fn add_edge_from(&mut self, edge: Edge) -> (r: Result<(), GraphError>)
        requires
            old(self)@.wf(),
        ensures
            final(self)@.wf(),
            match old(self)@.with_edge(edge) {
                Ok(g) => r is Ok && final(self)@ == g,
                Err(e) => r == Err::<(), GraphError>(e) && final(self)@ == old(self)@,
            },
    {
        let pb = self.position_of(edge.begin);
        let pe = self.position_of(edge.end);
        if pb.is_none() || pe.is_none() {
            return Err(GraphError::DanglingEdgeEndpoint);
        }
        assert(self@.has_node(edge.begin) && self@.has_node(edge.end)) by {
            let b = pb.unwrap() as int;
            let e = pe.unwrap() as int;
            assert(self.nodes@[b].id == edge.begin);
            assert(self.nodes@[e].id == edge.end);
        }
        if !self.contains_edge(edge) {
            let ghost old_edges = self.edges@;
            self.edges.push(edge);
            assert forall|i: int, j: int|
                0 <= i < self.edges@.len() && 0 <= j < self.edges@.len() && i != j implies
                self.edges@[i] != self.edges@[j] by {
                if i < old_edges.len() && j < old_edges.len() {
                    assert(old_edges[i] != old_edges[j]);
                } else if i < old_edges.len() {
                    assert(old_edges.contains(old_edges[i]));
                } else if j < old_edges.len() {
                    assert(old_edges.contains(old_edges[j]));
                }
            }
        }
        Ok(())
    }

    /// The nodes reached from `node` by one edge, in the order of the edges.
    pub fn get_connected<'a>(&'a self, node: &'a Node<T>) -> (r: Vec<&'a Node<T>>)
        ensures
            derefs(r@) == self@.successors(node.id),
    {
        let mut res: Vec<&'a Node<T>> = Vec::new();
        let mut k: usize = 0;
        assert(derefs(res@) =~= Seq::<Node<T>>::empty());
        assert(self.edges@.take(0) =~= Seq::<Edge>::empty());
        while k < self.edges.len()
            invariant
                k <= self.edges@.len(),
                derefs(res@) == connected(self.nodes@, self.edges@.take(k as int), node.id),
            decreases self.edges@.len() - k,
        {
            let e = self.edges[k];
            assert(self.edges@.take(k + 1).drop_last() =~= self.edges@.take(k as int));
            assert(self.edges@.take(k + 1).last() == e);
            if e.begin == node.id {
                match self.position_of(e.end) {
                    Some(p) => {
                        let ghost old_res = res@;
                        res.push(&self.nodes[p]);
                        assert(derefs(res@) =~= derefs(old_res).push(self.nodes@[p as int]));
                    },
                    None => {},
                }
            }
            k = k + 1;
        }
        assert(self.edges@.take(k as int) =~= self.edges@);
        res
    }

    /// The nodes, in insertion order.
    pub fn get_all_nodes(&self) -> (r: Vec<&Node<T>>)
        ensures
            derefs(r@) == self@.nodes,
    {
        let mut res: Vec<&Node<T>> = Vec::new();
        let mut k: usize = 0;
        assert(derefs(res@) =~= self.nodes@.take(0));
        while k < self.nodes.len()
            invariant
                k <= self.nodes@.len(),
                derefs(res@) =~= self.nodes@.take(k as int),
            decreases self.nodes@.len() - k,
        {
            let ghost old_res = res@;
            res.push(&self.nodes[k]);
            assert(derefs(res@) =~= derefs(old_res).push(self.nodes@[k as int]));
            assert(self.nodes@.take(k + 1) =~= self.nodes@.take(k as int).push(self.nodes@[k as int]));
            k = k + 1;
        }
        assert(self.nodes@.take(k as int) =~= self.nodes@);
        res
    }

    /// The text of the graph: a line per node, the separator line `#`, then a
    /// line per edge, each in insertion order and ended by a newline.
    pub fn ser(&self) -> (r: String)
        ensures
            r@ == self@.text(),
    {
        let mut res = String::new();
        let mut k: usize = 0;
        assert(self.nodes@.take(0) =~= Seq::<Node<T>>::empty());
        while k < self.nodes.len()
            invariant
                k <= self.nodes@.len(),
                res@ == node_lines(self.nodes@.take(k as int)),
            decreases self.nodes@.len() - k,
        {
            assert(self.nodes@.take(k + 1).drop_last() =~= self.nodes@.take(k as int));
            let line = self.nodes[k].ser();
            res.append(line.as_str());
            proof {
                reveal_strlit("\n");
            }
            res.append("\n");
            k = k + 1;
        }
        assert(self.nodes@.take(k as int) =~= self.nodes@);
        proof {
            reveal_strlit("#\n");
        }
        res.append("#\n");
        let ghost head = res@;
        assert(head =~= node_lines(self.nodes@) + separator() + seq!['\n']);
        let mut k: usize = 0;
        assert(self.edges@.take(0) =~= Seq::<Edge>::empty());
        assert(head + edge_lines(self.edges@.take(0)) =~= head);
        while k < self.edges.len()
            invariant
                k <= self.edges@.len(),
                res@ == head + edge_lines(self.edges@.take(k as int)),
            decreases self.edges@.len() - k,
        {
            assert(self.edges@.take(k + 1).drop_last() =~= self.edges@.take(k as int));
            let line = self.edges[k].ser();
            res.append(line.as_str());
            proof {
                reveal_strlit("\n");
            }
            res.append("\n");
            assert(res@ =~= head + edge_lines(self.edges@.take(k + 1)));
            k = k + 1;
        }
        assert(self.edges@.take(k as int) =~= self.edges@);
        res
    }

    /// Reads a graph from its text. Lines before the first separator line are
    /// nodes, lines after it edges; without a separator every line is a node.
    pub fn des(s: &str) -> (r: Result<Self, GraphError>)
        ensures
            match parse_graph::<T>(s@) {
                Ok(g) => r is Ok && r->Ok_0@ == g && g.wf(),
                Err(e) => r is Err && r->Err_0 == e,
            },
    {
        let ls = split_lines(s);
        let ghost all = lines(s@);
        let mut res: Graph<T> = Graph::new();
        let mut in_edges = false;
        let mut k: usize = 0;
        assert(all.take(0) =~= Seq::<Seq<char>>::empty());
        while k < ls.len()
            invariant
                views(ls@) == all,
                all == lines(s@),
                k <= ls@.len(),
                read_lines::<T>(all.take(k as int)) == Ok::<(GraphModel<T>, bool), GraphError>((res@, in_edges)),
                res@.wf(),
            decreases ls@.len() - k,
        {
            let line = ls[k];
            assert(views(ls@)[k as int] == ls@[k as int]@);
            assert(all.take(k + 1).drop_last() =~= all.take(k as int));
            assert(all.take(k + 1).last() == line@);
            proof {
                reveal_strlit("#");
            }
            let is_sep = line.unicode_len() == 1 && line.get_char(0) == '#';
            assert(is_sep == (line@ == separator())) by {
                if line@.len() == 1 && line@[0] == '#' {
                    assert(line@ =~= separator());
                }
            }
            if is_sep && !in_edges {
                in_edges = true;
            } else if !in_edges {
                match Node::<T>::des(line) {
                    Err(e) => {
                        proof {
                            lemma_read_lines_err::<T>(all, k + 1);
                        }
                        return Err(e);
                    },
                    Ok(n) => {
                        match res.add_node_from(n) {
                            Err(e) => {
                                proof {
                                    lemma_read_lines_err::<T>(all, k + 1);
                                }
                                return Err(e);
                            },
                            Ok(()) => {},
                        }
                    },
                }
            } else {
                match Edge::des(line) {
                    Err(e) => {
                        proof {
                            lemma_read_lines_err::<T>(all, k + 1);
                        }
                        return Err(e);
                    },
                    Ok(edge) => {
                        match res.add_edge_from(edge) {
                            Err(e) => {
                                proof {
                                    lemma_read_lines_err::<T>(all, k + 1);
                                }
                                return Err(e);
                            },
                            Ok(()) => {},
                        }
                    },
                }
            }
            k = k + 1;
        }
        assert(all.take(k as int) =~= all);
        Ok(res)
    }

    /// Removes every edge that `keep` rejects, keeping the others in order.
    fn retain_edges(&mut self, Ghost(keep): Ghost<spec_fn(Edge) -> bool>, begin: u32, end: u32, both: bool)
        requires
            both ==> keep == differs_from(begin, end),
            !both ==> keep == avoids(begin),
        ensures
            final(self)@.nodes == old(self)@.nodes,
            final(self)@.edges == old(self)@.edges.filter(keep),
    {
        let ghost old_edges = self.edges@;
        let mut i: usize = 0;
        let ghost mut j: int = 0;
        assert(old_edges.take(0).filter(keep) =~= Seq::<Edge>::empty()) by {
            reveal(Seq::filter);
        }
        while i < self.edges.len()
            invariant
                0 <= j <= old_edges.len(),
                i <= self.edges@.len(),
                self.edges@.take(i as int) == old_edges.take(j).filter(keep),
                self.edges@.skip(i as int) == old_edges.skip(j),
                self.edges@.len() - i == old_edges.len() - j,
                self.nodes@ == old(self).nodes@,
                both ==> keep == differs_from(begin, end),
                !both ==> keep == avoids(begin),
            decreases self.edges@.len() - i,
        {
            let e = self.edges[i];
            let ghost before = self.edges@;
            assert(old_edges[j] == before.skip(i as int)[0]);
            assert(before.skip(i as int).drop_first() =~= before.skip(i + 1));
            assert(old_edges.skip(j).drop_first() =~= old_edges.skip(j + 1));
            proof {
                lemma_filter_take_step(old_edges, keep, j);
            }
            let kept = if both {
                !(e.begin == begin && e.end == end)
            } else {
                e.begin != begin && e.end != begin
            };
            if kept {
                assert(self.edges@.take(i + 1) =~= before.take(i as int).push(e));
                assert(self.edges@.skip(i + 1) =~= before.skip(i + 1));
                i = i + 1;
            } else {
                self.edges.remove(i);
                assert(self.edges@.take(i as int) =~= before.take(i as int));
                assert(self.edges@.skip(i as int) =~= before.skip(i + 1));
            }
            proof {
                j = j + 1;
            }
        }
        assert(old_edges.skip(j).len() == 0);
        assert(j == old_edges.len());
        assert(old_edges.take(j) =~= old_edges);
        assert(self.edges@.take(i as int) =~= self.edges@);
    }

    /// Removes the node `id` and every edge that touches it; changes nothing
    /// when there is no such node.
    pub fn remove_node_by_id(&mut self, node_id: u32)
        requires
            old(self)@.wf(),
        ensures
            final(self)@.wf(),
            final(self)@ == old(self)@.without_node(node_id),
    {
        self.retain_edges(Ghost(avoids(node_id)), node_id, node_id, false);
        let ghost old_nodes = self.nodes@;
        let ghost keep = id_differs::<T>(node_id);
        let mut i: usize = 0;
        let ghost mut j: int = 0;
        assert(old_nodes.take(0).filter(keep) =~= Seq::<Node<T>>::empty()) by {
            reveal(Seq::filter);
        }
        while i < self.nodes.len()
            invariant
                0 <= j <= old_nodes.len(),
                i <= self.nodes@.len(),
                self.nodes@.take(i as int) == old_nodes.take(j).filter(keep),
                self.nodes@.skip(i as int) == old_nodes.skip(j),
                self.nodes@.len() - i == old_nodes.len() - j,
                self.edges@ == old(self)@.edges.filter(avoids(node_id)),
                keep == id_differs::<T>(node_id),
            decreases self.nodes@.len() - i,
        {
            let ghost before = self.nodes@;
            assert(old_nodes[j] == before.skip(i as int)[0]);
            assert(before.skip(i as int).drop_first() =~= before.skip(i + 1));
            assert(old_nodes.skip(j).drop_first() =~= old_nodes.skip(j + 1));
            proof {
                lemma_filter_take_step(old_nodes, keep, j);
            }
            if self.nodes[i].id != node_id {
                assert(self.nodes@.take(i + 1) =~= before.take(i as int).push(before[i as int]));
                assert(self.nodes@.skip(i + 1) =~= before.skip(i + 1));
                i = i + 1;
            } else {
                self.nodes.remove(i);
                assert(self.nodes@.take(i as int) =~= before.take(i as int));
                assert(self.nodes@.skip(i as int) =~= before.skip(i + 1));
            }
            proof {
                j = j + 1;
            }
        }
        assert(old_nodes.skip(j).len() == 0);
        assert(j == old_nodes.len());
        assert(old_nodes.take(j) =~= old_nodes);
        assert(self.nodes@.take(i as int) =~= self.nodes@);
        proof {
            lemma_without_node(old(self)@, node_id);
        }
    }

    /// Removes the edge from `edge.begin` to `edge.end`, if it is there.
    pub fn remove_edge(&mut self, edge: &Edge)
        requires
            old(self)@.wf(),
        ensures
            final(self)@.wf(),
            final(self)@ == old(self)@.without_edge(edge.begin, edge.end),
    {
        self.retain_edges(Ghost(differs_from(edge.begin, edge.end)), edge.begin, edge.end, true);
        proof {
            let g = old(self)@;
            lemma_filter_no_duplicates(g.edges, differs_from(edge.begin, edge.end));
            lemma_filter_members(g.edges, differs_from(edge.begin, edge.end));
            assert forall|k: int| 0 <= k < self.edges@.len() implies has_id(
                self.nodes@,
                #[trigger] self.edges@[k].begin,
            ) && has_id(self.nodes@, self.edges@[k].end) by {
                let e = self.edges@[k];
                let m = choose|m: int| 0 <= m < g.edges.len() && g.edges[m] == e;
                assert(has_id(g.nodes, g.edges[m].begin));
            }
        }
    }

    /// Adds the edge from `begin` to `end` unless it is there already; fails,
    /// changing nothing, when an end is not a node of the graph.
    pub fn add_edge(&mut self, begin: u32, end: u32) -> (r: Result<(), GraphError>)
        requires
            old(self)@.wf(),
        ensures
            final(self)@.wf(),
            match old(self)@.with_edge(Edge { begin, end }) {
                Ok(g) => r is Ok && final(self)@ == g,
                Err(e) => r == Err::<(), GraphError>(e) && final(self)@ == old(self)@,
            },
    {
        self.add_edge_from(Edge::new(begin, end))
    }
}

} // verus!
