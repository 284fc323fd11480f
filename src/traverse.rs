//! Depth-first, pre-order traversal that visits each reachable node once.
use vstd::prelude::*;
use vstd::set_lib::lemma_len_subset;
use crate::codec::ValueCodec;
use crate::graph::{Graph, GraphModel, Node, derefs, has_id, lemma_connected_in_nodes};

verus! {

/// The identifiers of a sequence of nodes.
pub open spec fn ids_of<T>(v: Seq<Node<T>>) -> Seq<u32> {
    v.map_values(|n: Node<T>| n.id)
}

/// The identifiers of the nodes that a sequence of references points at.
pub open spec fn ref_ids<T>(v: Seq<&Node<T>>) -> Seq<u32> {
    ids_of(derefs(v))
}

/// The identifiers of the successors of `u`, in edge order.
pub open spec fn succ_ids<T>(g: GraphModel<T>, u: u32) -> Seq<u32> {
    ids_of(g.successors(u))
}

/// Some successor of `p[j]` is not in `p`.
pub open spec fn open_at<T>(g: GraphModel<T>, p: Seq<u32>, j: int) -> bool {
    exists|i: int|
        0 <= i < succ_ids(g, p[j]).len() && !p.contains(#[trigger] succ_ids(g, p[j])[i])
}

/// `x` is the first element of `list` that is not in `seen`.
pub open spec fn first_fresh(list: Seq<u32>, seen: Seq<u32>, x: u32) -> bool {
    exists|i: int|
        0 <= i < list.len() && list[i] == x && !seen.contains(x) && forall|m: int|
            0 <= m < i ==> seen.contains(#[trigger] list[m])
}

/// After visiting `p`, depth-first pre-order visits `x` next: the first
/// unvisited successor of the latest visited node that still has one.
pub open spec fn next_in_preorder<T>(g: GraphModel<T>, p: Seq<u32>, x: u32) -> bool {
    exists|j: int|
        0 <= j < p.len() && open_at(g, p, j) && (forall|j2: int|
            j < j2 < p.len() ==> !open_at(g, p, j2)) && first_fresh(succ_ids(g, p[j]), p, x)
}

/// Every successor of a node of `s` is in `s`.
pub open spec fn closed_under_successors<T>(g: GraphModel<T>, s: Seq<u32>) -> bool {
    forall|j: int, i: int|
        0 <= j < s.len() && 0 <= i < succ_ids(g, s[j]).len() ==> s.contains(
            #[trigger] succ_ids(g, s[j])[i],
        )
}

/// `s` is the depth-first pre-order visit of `g` from `root`, successors
/// taken in edge order, each node visited once.
pub open spec fn is_dfs_preorder<T>(g: GraphModel<T>, root: u32, s: Seq<u32>) -> bool {
    &&& s.len() > 0
    &&& s[0] == root
    &&& s.no_duplicates()
    &&& forall|k: int| 1 <= k < s.len() ==> next_in_preorder(g, s.take(k), #[trigger] s[k])
    &&& closed_under_successors(g, s)
}

/// `w` follows edges: each identifier after the first is a successor of the one before.
pub open spec fn is_walk<T>(g: GraphModel<T>, w: Seq<u32>) -> bool {
    &&& w.len() >= 1
    &&& forall|i: int| 0 <= i < w.len() - 1 ==> succ_ids(g, #[trigger] w[i]).contains(w[i + 1])
}

/// Some walk leads from `from` to `x`.
pub open spec fn reachable<T>(g: GraphModel<T>, from: u32, x: u32) -> bool {
    exists|w: Seq<u32>| is_walk(g, w) && w[0] == from && w.last() == x
}

/// Every identifier of a pre-order visit is reached from its first.
proof fn lemma_visited_reachable<T>(g: GraphModel<T>, root: u32, s: Seq<u32>, k: int)
    requires
        is_dfs_preorder(g, root, s),
        0 <= k < s.len(),
    ensures
        reachable(g, root, s[k]),
    decreases k,
{
    if k == 0 {
        let w = seq![root];
        assert(is_walk(g, w));
        assert(w[0] == root && w.last() == s[k]);
    } else {
        let p = s.take(k);
        assert(next_in_preorder(g, p, s[k]));
        let j = choose|j: int|
            0 <= j < p.len() && open_at(g, p, j) && (forall|j2: int|
                j < j2 < p.len() ==> !open_at(g, p, j2)) && first_fresh(succ_ids(g, p[j]), p, s[k]);
        lemma_visited_reachable(g, root, s, j);
        let w = choose|w: Seq<u32>| is_walk(g, w) && w[0] == root && w.last() == s[j];
        let list = succ_ids(g, p[j]);
        let i = choose|i: int|
            0 <= i < list.len() && list[i] == s[k] && !p.contains(s[k]) && forall|m: int|
                0 <= m < i ==> p.contains(#[trigger] list[m]);
        assert(p[j] == s[j]);
        let w2 = w.push(s[k]);
        assert forall|i2: int| 0 <= i2 < w2.len() - 1 implies succ_ids(g, #[trigger] w2[i2]).contains(
            w2[i2 + 1],
        ) by {
            if i2 < w.len() - 1 {
                assert(w2[i2] == w[i2] && w2[i2 + 1] == w[i2 + 1]);
            } else {
                assert(w2[i2] == s[j]);
                assert(list[i] == s[k]);
            }
        }
        assert(is_walk(g, w2));
        assert(w2[0] == root && w2.last() == s[k]);
    }
}

/// A set closed under successors that holds the start of a walk holds all of it.
proof fn lemma_walk_stays<T>(g: GraphModel<T>, s: Seq<u32>, w: Seq<u32>, i: int)
    requires
        closed_under_successors(g, s),
        is_walk(g, w),
        s.contains(w[0]),
        0 <= i < w.len(),
    ensures
        s.contains(w[i]),
    decreases i,
{
    if i > 0 {
        lemma_walk_stays(g, s, w, i - 1);
        assert(succ_ids(g, w[i - 1]).contains(w[i]));
        let j = choose|j: int| 0 <= j < s.len() && s[j] == w[i - 1];
        let m = choose|m: int| 0 <= m < succ_ids(g, s[j]).len() && succ_ids(g, s[j])[m] == w[i];
        assert(s.contains(succ_ids(g, s[j])[m]));
    }
}

/// A depth-first pre-order visit from `root` holds each node reachable from
/// `root` exactly once, and nothing else.
pub proof fn lemma_preorder_visits_reachable<T>(g: GraphModel<T>, root: u32, s: Seq<u32>)
    requires
        is_dfs_preorder(g, root, s),
    ensures
        s.no_duplicates(),
        forall|x: u32| s.contains(x) <==> #[trigger] reachable(g, root, x),
{
    assert forall|x: u32| s.contains(x) <==> #[trigger] reachable(g, root, x) by {
        if s.contains(x) {
            let k = choose|k: int| 0 <= k < s.len() && s[k] == x;
            lemma_visited_reachable(g, root, s, k);
        }
        if reachable(g, root, x) {
            let w = choose|w: Seq<u32>| is_walk(g, w) && w[0] == root && w.last() == x;
            assert(s[0] == root);
            lemma_walk_stays(g, s, w, w.len() - 1);
        }
    }
}

/// After a given prefix, depth-first pre-order has at most one next node.
proof fn lemma_next_unique<T>(g: GraphModel<T>, p: Seq<u32>, x: u32, y: u32)
    requires
        next_in_preorder(g, p, x),
        next_in_preorder(g, p, y),
    ensures
        x == y,
{
    let jx = choose|j: int|
        0 <= j < p.len() && open_at(g, p, j) && (forall|j2: int| j < j2 < p.len() ==> !open_at(g, p, j2))
            && first_fresh(succ_ids(g, p[j]), p, x);
    let jy = choose|j: int|
        0 <= j < p.len() && open_at(g, p, j) && (forall|j2: int| j < j2 < p.len() ==> !open_at(g, p, j2))
            && first_fresh(succ_ids(g, p[j]), p, y);
    assert(jx == jy) by {
        if jx < jy {
            assert(!open_at(g, p, jy));
        } else if jy < jx {
            assert(!open_at(g, p, jx));
        }
    }
    let list = succ_ids(g, p[jx]);
    let ix = choose|i: int|
        0 <= i < list.len() && list[i] == x && !p.contains(x) && forall|m: int|
            0 <= m < i ==> p.contains(#[trigger] list[m]);
    let iy = choose|i: int|
        0 <= i < list.len() && list[i] == y && !p.contains(y) && forall|m: int|
            0 <= m < i ==> p.contains(#[trigger] list[m]);
    assert(ix == iy) by {
        if ix < iy {
            assert(p.contains(list[ix]));
        } else if iy < ix {
            assert(p.contains(list[iy]));
        }
    }
}

/// A depth-first pre-order visit from `root` is unique: two sequences that
/// both are one are equal.
pub proof fn lemma_preorder_unique<T>(g: GraphModel<T>, root: u32, s: Seq<u32>, t: Seq<u32>)
    requires
        is_dfs_preorder(g, root, s),
        is_dfs_preorder(g, root, t),
    ensures
        s == t,
{
    assert forall|k: int| 0 <= k < s.len() && k < t.len() implies s[k] == t[k] by {
        lemma_preorder_prefix(g, root, s, t, k);
        assert(s.take(k + 1)[k] == s[k]);
        assert(t.take(k + 1)[k] == t[k]);
    }
    lemma_no_next_after_closed(g, root, s, t);
    lemma_no_next_after_closed(g, root, t, s);
    assert(s =~= t);
}

proof fn lemma_preorder_prefix<T>(g: GraphModel<T>, root: u32, s: Seq<u32>, t: Seq<u32>, k: int)
    requires
        is_dfs_preorder(g, root, s),
        is_dfs_preorder(g, root, t),
        0 <= k < s.len(),
        k < t.len(),
    ensures
        s.take(k + 1) == t.take(k + 1),
    decreases k,
{
    if k == 0 {
        assert(s.take(1) =~= t.take(1));
    } else {
        lemma_preorder_prefix(g, root, s, t, k - 1);
        assert(s.take(k) =~= s.take(k + 1).take(k));
        assert(t.take(k) =~= t.take(k + 1).take(k));
        assert(next_in_preorder(g, s.take(k), s[k]));
        assert(next_in_preorder(g, t.take(k), t[k]));
        lemma_next_unique(g, s.take(k), s[k], t[k]);
        assert(s.take(k + 1) =~= s.take(k).push(s[k]));
        assert(t.take(k + 1) =~= t.take(k).push(t[k]));
    }
}

/// A visit closed under successors has no next node: no visit that starts
/// with it is longer.
proof fn lemma_no_next_after_closed<T>(g: GraphModel<T>, root: u32, s: Seq<u32>, t: Seq<u32>)
    requires
        is_dfs_preorder(g, root, s),
        is_dfs_preorder(g, root, t),
        forall|k: int| 0 <= k < s.len() && k < t.len() ==> s[k] == t[k],
    ensures
        s.len() >= t.len(),
{
    if s.len() < t.len() {
        let k = s.len() as int;
        assert(t.take(k) =~= s);
        assert(next_in_preorder(g, t.take(k), t[k]));
        let j = choose|j: int|
            0 <= j < s.len() && open_at(g, s, j) && (forall|j2: int|
                j < j2 < s.len() ==> !open_at(g, s, j2)) && first_fresh(succ_ids(g, s[j]), s, t[k]);
        let i = choose|i: int|
            0 <= i < succ_ids(g, s[j]).len() && !s.contains(#[trigger] succ_ids(g, s[j])[i]);
        assert(s.contains(succ_ids(g, s[j])[i]));
    }
}

/// Every successor of `s[k]` is in `s`.
pub open spec fn is_done<T>(g: GraphModel<T>, s: Seq<u32>, k: int) -> bool {
    forall|i: int| 0 <= i < succ_ids(g, s[k]).len() ==> s.contains(#[trigger] succ_ids(g, s[k])[i])
}

/// Distinct identifiers of nodes of a well-formed graph are no more than its nodes.
proof fn lemma_distinct_ids_bound<T>(g: GraphModel<T>, s: Seq<u32>)
    requires
        s.no_duplicates(),
        forall|i: int| 0 <= i < s.len() ==> has_id(g.nodes, #[trigger] s[i]),
    ensures
        s.len() <= g.nodes.len(),
{
    let ids = ids_of(g.nodes);
    s.unique_seq_to_set();
    ids.lemma_cardinality_of_set();
    assert forall|x: u32| s.to_set().contains(x) implies ids.to_set().contains(x) by {
        let i = choose|i: int| 0 <= i < s.len() && s[i] == x;
        assert(has_id(g.nodes, s[i]));
        let m = choose|m: int| 0 <= m < g.nodes.len() && g.nodes[m].id == x;
        assert(ids[m] == x);
    }
    lemma_len_subset(s.to_set(), ids.to_set());
}

/// Whether one of the visited nodes has identifier `id`.
fn visited<T>(out: &Vec<&Node<T>>, id: u32) -> (r: bool)
    ensures
        r == ref_ids(out@).contains(id),
{
    let mut i: usize = 0;
    while i < out.len()
        invariant
            i <= out@.len(),
            forall|j: int| 0 <= j < i ==> ref_ids(out@)[j] != id,
        decreases out@.len() - i,
    {
        if out[i].id == id {
            assert(ref_ids(out@)[i as int] == id);
            return true;
        }
        i = i + 1;
    }
    false
}

/// The first position from `from` on whose node is not yet visited, or the
/// length of `list` if there is none.
fn first_unvisited<T>(list: &Vec<&Node<T>>, from: usize, out: &Vec<&Node<T>>) -> (r: usize)
    requires
        from <= list@.len(),
    ensures
        from <= r <= list@.len(),
        forall|i: int| from <= i < r ==> ref_ids(out@).contains(#[trigger] ref_ids(list@)[i]),
        r < list@.len() ==> !ref_ids(out@).contains(ref_ids(list@)[r as int]),
{
    let mut p = from;
    while p < list.len()
        invariant
            from <= p <= list@.len(),
            forall|i: int| from <= i < p ==> ref_ids(out@).contains(#[trigger] ref_ids(list@)[i]),
        decreases list@.len() - p,
    {
        if !visited(out, list[p].id) {
            return p;
        }
        p = p + 1;
    }
    p
}

impl<T: ValueCodec> Graph<T> {
    /// The nodes that a depth-first, pre-order walk from `root` visits, in
    /// visiting order. Each node reachable from `root` comes once; successors
    /// are taken in edge order; `root` itself comes first even when it is not
    /// a node of the graph.
    pub fn traverse_from<'a>(&'a self, root: &'a Node<T>) -> (r: Vec<&'a Node<T>>)
        requires
            self@.wf(),
        ensures
            is_dfs_preorder(self@, root.id, ref_ids(r@)),
            derefs(r@)[0] == *root,
            forall|k: int| 1 <= k < r@.len() ==> self@.nodes.contains(#[trigger] derefs(r@)[k]),
    {
        let ghost g = self@;
        let mut out: Vec<&'a Node<T>> = Vec::new();
        out.push(root);
        let mut succs: Vec<Vec<&'a Node<T>>> = Vec::new();
        let mut pos: Vec<usize> = Vec::new();
        succs.push(self.get_connected(root));
        pos.push(0);
        let ghost mut at: Seq<int> = seq![0];
        assert(ref_ids(out@) =~= seq![root.id]);
        assert(derefs(out@)[0] == *root);
        assert(at[0] == 0);
        while succs.len() > 0
            invariant
                g == self@,
                g.wf(),
                out@.len() >= 1,
                out@.len() <= g.nodes.len() + 1,
                derefs(out@)[0] == *root,
                forall|k: int| 1 <= k < out@.len() ==> g.nodes.contains(#[trigger] derefs(out@)[k]),
                ref_ids(out@).no_duplicates(),
                succs@.len() == pos@.len(),
                succs@.len() == at.len(),
                forall|f: int| 0 <= f < at.len() ==> 0 <= #[trigger] at[f] < out@.len(),
                forall|f1: int, f2: int| 0 <= f1 < f2 < at.len() ==> at[f1] < at[f2],
                forall|f: int|
                    0 <= f < at.len() ==> derefs(#[trigger] succs@[f]@) == g.successors(
                        ref_ids(out@)[at[f]],
                    ),
                forall|f: int| 0 <= f < at.len() ==> #[trigger] pos@[f] <= succs@[f]@.len(),
                forall|f: int, i: int|
                    0 <= f < at.len() && 0 <= i < pos@[f] ==> ref_ids(out@).contains(
                        #[trigger] ref_ids(succs@[f]@)[i],
                    ),
                forall|k: int|
                    0 <= k < out@.len() && (forall|f: int| 0 <= f < at.len() ==> at[f] != k)
                        ==> #[trigger] is_done(g, ref_ids(out@), k),
                forall|k: int|
                    1 <= k < out@.len() ==> next_in_preorder(
                        g,
                        ref_ids(out@).take(k),
                        #[trigger] ref_ids(out@)[k],
                    ),
            decreases g.nodes.len() + 1 - out@.len(), succs@.len(),
        {
            let t = succs.len() - 1;
            let p = first_unvisited(&succs[t], pos[t], &out);
            let ghost old_ids = ref_ids(out@);
            let ghost old_out = out@;
            let ghost old_succs = succs@;
            let ghost old_pos = pos@;
            let ghost old_at = at;
            let ghost j = at[t as int];
            let ghost list = succ_ids(g, old_ids[j]);
            assert(ref_ids(succs@[t as int]@) == list);
            if p < succs[t].len() {
                let v = succs[t][p];
                out.push(v);
                pos.set(t, p + 1);
                let nx = self.get_connected(v);
                succs.push(nx);
                pos.push(0);
                proof {
                    at = at.push(old_ids.len() as int);
                    self.lemma_push_step(
                        old_out, out@, old_succs, succs@, old_pos, pos@, old_at, at, *root,
                        t as int, p as int,
                    );
                }
            } else {
                succs.pop();
                pos.pop();
                proof {
                    at = at.drop_last();
                    assert forall|i: int| 0 <= i < list.len() implies old_ids.contains(
                        #[trigger] list[i],
                    ) by {
                        assert(ref_ids(old_succs[t as int]@)[i] == list[i]);
                    }
                    assert(is_done(g, old_ids, j));
                    assert forall|k: int|
                        0 <= k < out@.len() && (forall|f: int| 0 <= f < at.len() ==> at[f] != k)
                            implies #[trigger] is_done(g, ref_ids(out@), k) by {
                        if k != j {
                            assert forall|f: int| 0 <= f < old_at.len() implies old_at[f] != k by {
                                if f < at.len() {
                                    assert(at[f] == old_at[f]);
                                }
                            }
                        }
                    }
                    assert forall|f: int| 0 <= f < at.len() implies derefs(
                        #[trigger] succs@[f]@,
                    ) == g.successors(ref_ids(out@)[at[f]]) by {
                        assert(succs@[f] == old_succs[f]);
                    }
                    assert forall|f: int, i: int|
                        0 <= f < at.len() && 0 <= i < pos@[f] implies ref_ids(out@).contains(
                            #[trigger] ref_ids(succs@[f]@)[i],
                        ) by {
                        assert(succs@[f] == old_succs[f]);
                        assert(pos@[f] == old_pos[f]);
                    }
                    assert forall|f: int| 0 <= f < at.len() implies #[trigger] pos@[f]
                        <= succs@[f]@.len() by {
                        assert(succs@[f] == old_succs[f]);
                        assert(pos@[f] == old_pos[f]);
                    }
                }
            }
        }
        proof {
            let ids = ref_ids(out@);
            assert forall|j: int, i: int|
                0 <= j < ids.len() && 0 <= i < succ_ids(g, ids[j]).len() implies ids.contains(
                    #[trigger] succ_ids(g, ids[j])[i],
                ) by {
                assert(is_done(g, ids, j));
            }
        }
        out
    }

    /// The facts that carry the walk over one visit of a new node.
    proof fn lemma_push_step<'a>(
        &self,
        old_out: Seq<&'a Node<T>>,
        out: Seq<&'a Node<T>>,
        old_succs: Seq<Vec<&'a Node<T>>>,
        succs: Seq<Vec<&'a Node<T>>>,
        old_pos: Seq<usize>,
        pos: Seq<usize>,
        old_at: Seq<int>,
        at: Seq<int>,
        root: Node<T>,
        t: int,
        p: int,
    )
        requires
            self@.wf(),
            old_out.len() >= 1,
            old_out.len() <= self@.nodes.len() + 1,
            derefs(old_out)[0] == root,
            forall|k: int|
                1 <= k < old_out.len() ==> self@.nodes.contains(#[trigger] derefs(old_out)[k]),
            ref_ids(old_out).no_duplicates(),
            old_succs.len() == old_pos.len(),
            old_succs.len() == old_at.len(),
            old_at.len() >= 1,
            forall|f: int| 0 <= f < old_at.len() ==> 0 <= #[trigger] old_at[f] < old_out.len(),
            forall|f1: int, f2: int| 0 <= f1 < f2 < old_at.len() ==> old_at[f1] < old_at[f2],
            forall|f: int|
                0 <= f < old_at.len() ==> derefs(#[trigger] old_succs[f]@) == self@.successors(
                    ref_ids(old_out)[old_at[f]],
                ),
            forall|f: int| 0 <= f < old_at.len() ==> #[trigger] old_pos[f] <= old_succs[f]@.len(),
            forall|f: int, i: int|
                0 <= f < old_at.len() && 0 <= i < old_pos[f] ==> ref_ids(old_out).contains(
                    #[trigger] ref_ids(old_succs[f]@)[i],
                ),
            forall|k: int|
                0 <= k < old_out.len() && (forall|f: int| 0 <= f < old_at.len() ==> old_at[f] != k)
                    ==> #[trigger] is_done(self@, ref_ids(old_out), k),
            forall|k: int|
                1 <= k < old_out.len() ==> next_in_preorder(
                    self@,
                    ref_ids(old_out).take(k),
                    #[trigger] ref_ids(old_out)[k],
                ),
            t == old_at.len() - 1,
            old_pos[t] <= p < old_succs[t]@.len(),
            forall|i: int| old_pos[t] <= i < p ==> ref_ids(old_out).contains(#[trigger] ref_ids(old_succs[t]@)[i]),
            !ref_ids(old_out).contains(ref_ids(old_succs[t]@)[p]),
            out == old_out.push(old_succs[t]@[p]),
            derefs(succs.last()@) == self@.successors(old_succs[t]@[p].id),
            succs == old_succs.push(succs.last()),
            pos == old_pos.update(t, (p + 1) as usize).push(0),
            at == old_at.push(old_out.len() as int),
        ensures
            out.len() <= self@.nodes.len() + 1,
            derefs(out)[0] == root,
            forall|k: int| 1 <= k < out.len() ==> self@.nodes.contains(#[trigger] derefs(out)[k]),
            ref_ids(out).no_duplicates(),
            succs.len() == pos.len(),
            succs.len() == at.len(),
            forall|f: int| 0 <= f < at.len() ==> 0 <= #[trigger] at[f] < out.len(),
            forall|f1: int, f2: int| 0 <= f1 < f2 < at.len() ==> at[f1] < at[f2],
            forall|f: int|
                0 <= f < at.len() ==> derefs(#[trigger] succs[f]@) == self@.successors(
                    ref_ids(out)[at[f]],
                ),
            forall|f: int| 0 <= f < at.len() ==> #[trigger] pos[f] <= succs[f]@.len(),
            forall|f: int, i: int|
                0 <= f < at.len() && 0 <= i < pos[f] ==> ref_ids(out).contains(
                    #[trigger] ref_ids(succs[f]@)[i],
                ),
            forall|k: int|
                0 <= k < out.len() && (forall|f: int| 0 <= f < at.len() ==> at[f] != k)
                    ==> #[trigger] is_done(self@, ref_ids(out), k),
            forall|k: int|
                1 <= k < out.len() ==> next_in_preorder(
                    self@,
                    ref_ids(out).take(k),
                    #[trigger] ref_ids(out)[k],
                ),
    {
        let g = self@;
        let old_ids = ref_ids(old_out);
        let ids = ref_ids(out);
        let n = old_ids.len() as int;
        let j = old_at[t];
        let list = succ_ids(g, old_ids[j]);
        let v = old_succs[t]@[p];
        assert(ref_ids(old_succs[t]@) == list);
        assert(list[p] == v.id);
        assert(ids =~= old_ids.push(v.id));
        assert(derefs(out) =~= derefs(old_out).push(*v));
        assert(ids.take(n) =~= old_ids);
        lemma_connected_in_nodes(g.nodes, g.edges, old_ids[j]);
        assert(derefs(old_succs[t]@)[p] == *v);
        assert(g.nodes.contains(*v));
        assert forall|k: int| 1 <= k < out.len() implies g.nodes.contains(#[trigger] derefs(out)[k]) by {
            if k < n {
                assert(derefs(out)[k] == derefs(old_out)[k]);
            }
        }
        assert(ids.no_duplicates());
        // the visited nodes but the root are distinct nodes of the graph
        let rest = ids.drop_first();
        assert forall|i: int| 0 <= i < rest.len() implies has_id(g.nodes, #[trigger] rest[i]) by {
            assert(rest[i] == ids[i + 1]);
            assert(g.nodes.contains(derefs(out)[i + 1]));
            let m = choose|m: int| 0 <= m < g.nodes.len() && g.nodes[m] == derefs(out)[i + 1];
            assert(g.nodes[m].id == rest[i]);
        }
        lemma_distinct_ids_bound(g, rest);
        // frames
        assert forall|f: int| 0 <= f < at.len() implies derefs(#[trigger] succs[f]@)
            == g.successors(ids[at[f]]) by {
            if f < old_at.len() {
                assert(succs[f] == old_succs[f]);
                assert(ids[at[f]] == old_ids[old_at[f]]);
            }
        }
        assert forall|f: int| 0 <= f < at.len() implies #[trigger] pos[f] <= succs[f]@.len() by {
            if f < old_at.len() {
                assert(succs[f] == old_succs[f]);
            }
        }
        assert forall|f: int, i: int| 0 <= f < at.len() && 0 <= i < pos[f] implies ids.contains(
            #[trigger] ref_ids(succs[f]@)[i],
        ) by {
            assert(succs[f] == old_succs[f]);
            let x = ref_ids(succs[f]@)[i];
            if f == t && i == p {
                assert(ids[n] == x);
            } else {
                if f == t && i >= old_pos[t] {
                    assert(old_ids.contains(ref_ids(old_succs[t]@)[i]));
                } else {
                    assert(old_ids.contains(ref_ids(old_succs[f]@)[i]));
                }
                let m = choose|m: int| 0 <= m < old_ids.len() && old_ids[m] == x;
                assert(ids[m] == x);
            }
        }
        assert forall|k: int|
            0 <= k < out.len() && (forall|f: int| 0 <= f < at.len() ==> at[f] != k) implies #[trigger] is_done(
            g,
            ids,
            k,
        ) by {
            assert(k != n);
            assert forall|f: int| 0 <= f < old_at.len() implies old_at[f] != k by {
                assert(at[f] == old_at[f]);
            }
            assert(is_done(g, old_ids, k));
            assert forall|i: int| 0 <= i < succ_ids(g, ids[k]).len() implies ids.contains(
                #[trigger] succ_ids(g, ids[k])[i],
            ) by {
                assert(ids[k] == old_ids[k]);
                assert(old_ids.contains(succ_ids(g, old_ids[k])[i]));
                let m = choose|m: int| 0 <= m < old_ids.len() && old_ids[m] == succ_ids(g, old_ids[k])[i];
                assert(ids[m] == old_ids[m]);
            }
        }
        // the order: v is the next node of the walk
        assert(open_at(g, old_ids, j)) by {
            assert(!old_ids.contains(list[p]));
        }
        assert forall|j2: int| j < j2 < n implies !open_at(g, old_ids, j2) by {
            assert forall|f: int| 0 <= f < old_at.len() implies old_at[f] != j2 by {
                if f < t {
                    assert(old_at[f] < old_at[t]);
                }
            }
            assert(is_done(g, old_ids, j2));
        }
        assert forall|m: int| 0 <= m < p implies old_ids.contains(#[trigger] list[m]) by {
            if m < old_pos[t] {
                assert(old_ids.contains(ref_ids(old_succs[t]@)[m]));
            } else {
                assert(old_ids.contains(ref_ids(old_succs[t]@)[m]));
            }
        }
        assert(first_fresh(list, old_ids, v.id));
        assert(next_in_preorder(g, old_ids, v.id));
        assert forall|k: int| 1 <= k < out.len() implies next_in_preorder(
            g,
            ids.take(k),
            #[trigger] ids[k],
        ) by {
            if k < n {
                assert(ids.take(k) =~= old_ids.take(k));
                assert(ids[k] == old_ids[k]);
            }
        }
    }
}

} // verus!
