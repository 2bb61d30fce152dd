//! Dependency graphs over node indices: paths, cycles and dependency orders,
//! and the depth-first search that plans a resolution.

use vstd::prelude::*;

verus! {

/// The adjacency lists held by `edges`: entry `i` lists the nodes that node
/// `i` needs.
pub open spec fn adjacency(edges: &Vec<Vec<usize>>) -> Seq<Seq<usize>> {
    Seq::new(edges@.len(), |i: int| edges@[i]@)
}

/// Every edge of `g` ends at a node of `g`.
pub open spec fn closed_graph(g: Seq<Seq<usize>>) -> bool {
    forall|i: int, j: int|
        0 <= i < g.len() && 0 <= j < g[i].len() ==> (#[trigger] g[i][j]) < g.len()
}

/// Node `a` lists node `b` among the nodes it needs.
pub open spec fn is_edge(g: Seq<Seq<usize>>, a: usize, b: usize) -> bool {
    a < g.len() && g[a as int].contains(b)
}

/// `p` is a non-empty walk along the edges of `g`.
pub open spec fn is_path(g: Seq<Seq<usize>>, p: Seq<usize>) -> bool {
    &&& p.len() > 0
    &&& forall|k: int| 0 <= k < p.len() ==> (#[trigger] p[k]) < g.len()
    &&& forall|k: int| 0 <= k < p.len() - 1 ==> is_edge(g, #[trigger] p[k], p[k + 1])
}

/// Node `b` is `a` itself or one of the nodes that `a` needs, directly or
/// through other nodes.
pub open spec fn reachable(g: Seq<Seq<usize>>, a: usize, b: usize) -> bool {
    exists|p: Seq<usize>| #[trigger] is_path(g, p) && p[0] == a && p.last() == b
}

/// `p` is a walk of at least one edge that ends where it starts.
pub open spec fn is_cycle(g: Seq<Seq<usize>>, p: Seq<usize>) -> bool {
    is_path(g, p) && p.len() >= 2 && p[0] == p.last()
}

/// Some cycle of `g` can be reached from `root`.
pub open spec fn cyclic_from(g: Seq<Seq<usize>>, root: usize) -> bool {
    exists|p: Seq<usize>| #[trigger] is_cycle(g, p) && reachable(g, root, p[0])
}

/// No node occurs twice in `s`.
pub open spec fn distinct(s: Seq<usize>) -> bool {
    forall|i: int, j: int| 0 <= i < j < s.len() ==> s[i] != s[j]
}

/// Node `x` stands in `order` before position `k`.
pub open spec fn listed_before(order: Seq<usize>, x: usize, k: int) -> bool {
    exists|e: int| 0 <= e < k && e < order.len() && order[e] == x
}

/// Every node that `order[k]` needs stands before position `k`.
pub open spec fn needs_come_first(g: Seq<Seq<usize>>, order: Seq<usize>) -> bool {
    forall|k: int, j: int|
        0 <= k < order.len() && 0 <= j < g[order[k] as int].len() ==> listed_before(
            order,
            #[trigger] g[order[k] as int][j],
            k,
        )
}

/// `order` lists exactly the nodes reachable from `root`, each once, and
/// every node after all the nodes it needs.
pub open spec fn is_dependency_order(g: Seq<Seq<usize>>, root: usize, order: Seq<usize>) -> bool {
    &&& forall|k: int| 0 <= k < order.len() ==> (#[trigger] order[k]) < g.len()
    &&& distinct(order)
    &&& forall|x: usize| reachable(g, root, x) <==> order.contains(x)
    &&& needs_come_first(g, order)
}

/// A single node is a path.
pub proof fn lemma_reachable_self(g: Seq<Seq<usize>>, a: usize)
    requires
        a < g.len(),
    ensures
        reachable(g, a, a),
{
    let p: Seq<usize> = seq![a];
    assert(is_path(g, p));
    assert(p[0] == a && p.last() == a);
}

/// A path followed by one more edge is a path.
pub proof fn lemma_path_push(g: Seq<Seq<usize>>, p: Seq<usize>, b: usize)
    requires
        is_path(g, p),
        is_edge(g, p.last(), b),
        b < g.len(),
    ensures
        is_path(g, p.push(b)),
        p.push(b)[0] == p[0],
        p.push(b).last() == b,
{
    let q: Seq<usize> = p.push(b);
    assert forall|k: int| 0 <= k < q.len() - 1 implies is_edge(g, #[trigger] q[k], q[k + 1]) by {
        if k < p.len() - 1 {
            assert(q[k] == p[k]);
            assert(q[k + 1] == p[k + 1]);
        }
    }
}

/// Any stretch of a path is a path.
pub proof fn lemma_path_stretch(g: Seq<Seq<usize>>, p: Seq<usize>, from: int, to: int)
    requires
        is_path(g, p),
        0 <= from < to <= p.len(),
    ensures
        is_path(g, p.subrange(from, to)),
        p.subrange(from, to)[0] == p[from],
        p.subrange(from, to).last() == p[to - 1],
{
    let q: Seq<usize> = p.subrange(from, to);
    assert forall|k: int| 0 <= k < q.len() implies (#[trigger] q[k]) < g.len() by {
        assert(q[k] == p[from + k]);
    }
    assert forall|k: int| 0 <= k < q.len() - 1 implies is_edge(g, #[trigger] q[k], q[k + 1]) by {
        assert(q[k] == p[from + k]);
        assert(q[k + 1] == p[from + k + 1]);
    }
}

/// Every node of a path can be reached from the path's first node.
pub proof fn lemma_path_nodes_reachable(g: Seq<Seq<usize>>, p: Seq<usize>, k: int)
    requires
        is_path(g, p),
        0 <= k < p.len(),
    ensures
        reachable(g, p[0], p[k]),
{
    lemma_path_stretch(g, p, 0, k + 1);
    let q: Seq<usize> = p.subrange(0, k + 1);
    assert(is_path(g, q) && q[0] == p[0] && q.last() == p[k]);
}

/// A list that holds its first node's needs, and the needs of every node it
/// holds, holds every node of a path that starts in it.
pub proof fn lemma_order_holds_path(g: Seq<Seq<usize>>, order: Seq<usize>, p: Seq<usize>, k: int)
    requires
        needs_come_first(g, order),
        is_path(g, p),
        order.contains(p[0]),
        0 <= k < p.len(),
    ensures
        order.contains(p[k]),
    decreases k,
{
    if k > 0 {
        lemma_order_holds_path(g, order, p, k - 1);
        let a: usize = p[k - 1];
        let at: int = choose|i: int| 0 <= i < order.len() && order[i] == a;
        assert(is_edge(g, p[k - 1], p[k - 1 + 1]));
        let j: int = choose|j: int| 0 <= j < g[a as int].len() && g[a as int][j] == p[k];
        assert(listed_before(order, g[order[at] as int][j], at));
        let e: int = choose|e: int| 0 <= e < at && e < order.len() && order[e] == p[k];
        assert(order[e] == p[k]);
    }
}

/// Along a path, positions in a dependency order fall by at least one per
/// edge.
pub proof fn lemma_order_descends(
    g: Seq<Seq<usize>>,
    order: Seq<usize>,
    p: Seq<usize>,
    start: int,
    k: int,
)
    requires
        needs_come_first(g, order),
        is_path(g, p),
        0 <= start < order.len(),
        order[start] == p[0],
        0 <= k < p.len(),
    ensures
        exists|e: int| 0 <= e <= start - k && order[e] == p[k],
    decreases k,
{
    if k > 0 {
        lemma_order_descends(g, order, p, start, k - 1);
        let a: usize = p[k - 1];
        let at: int = choose|e: int| 0 <= e <= start - (k - 1) && order[e] == a;
        assert(is_edge(g, p[k - 1], p[k - 1 + 1]));
        let j: int = choose|j: int| 0 <= j < g[a as int].len() && g[a as int][j] == p[k];
        assert(listed_before(order, g[order[at] as int][j], at));
        let e: int = choose|e: int| 0 <= e < at && e < order.len() && order[e] == p[k];
        assert(0 <= e <= start - k && order[e] == p[k]);
    }
}

/// Where a dependency order exists, no cycle can be reached.
pub proof fn lemma_dependency_order_excludes_cycles(
    g: Seq<Seq<usize>>,
    root: usize,
    order: Seq<usize>,
)
    requires
        is_dependency_order(g, root, order),
    ensures
        !cyclic_from(g, root),
{
    if cyclic_from(g, root) {
        let p: Seq<usize> = choose|p: Seq<usize>| #[trigger]
            is_cycle(g, p) && reachable(g, root, p[0]);
        assert(order.contains(p[0]));
        let start: int = choose|i: int| 0 <= i < order.len() && order[i] == p[0];
        lemma_order_descends(g, order, p, start, p.len() - 1);
        let e: int = choose|e: int| 0 <= e <= start - (p.len() - 1) && order[e] == p[p.len() - 1];
        assert(order[e] == order[start]);
        assert(e < start);
    }
}

} // verus!
