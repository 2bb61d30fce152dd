//! Depth-first discovery of what a node needs, with cycle detection.

use vstd::prelude::*;
use crate::graph::{
    adjacency, closed_graph, cyclic_from, distinct, is_cycle, is_dependency_order, is_edge,
    is_path, lemma_dependency_order_excludes_cycles, lemma_order_holds_path,
    lemma_path_nodes_reachable, lemma_path_push, lemma_path_stretch, listed_before,
    needs_come_first, reachable,
};

verus! {

/// How far the search has come with a node.
#[derive(Clone, Copy, PartialEq, Eq, Structural)]
enum Mark {
    /// The search has not met the node.
    Unseen,
    /// The node is on the path that the search is walking.
    Open,
    /// The node and all it needs are listed.
    Done,
}

/// The marks of all nodes, the finished nodes in the order in which they
/// were finished, and the path from the root to the node being visited.
struct Search {
    mark: Vec<Mark>,
    order: Vec<usize>,
    path: Vec<usize>,
}

impl Search {
    #[verifier::opaque]
    spec fn inv(&self, g: Seq<Seq<usize>>, root: usize) -> bool {
        &&& self.mark.len() == g.len()
        &&& forall|k: int|
            0 <= k < self.order.len() ==> (#[trigger] self.order[k]) < g.len()
                && self.mark[self.order[k] as int] == Mark::Done
        &&& forall|i: int|
            0 <= i < g.len() && (#[trigger] self.mark[i]) == Mark::Done ==> self.order@.contains(
                i as usize,
            )
        &&& distinct(self.order@)
        &&& needs_come_first(g, self.order@)
        &&& forall|k: int|
            0 <= k < self.order.len() ==> reachable(g, root, #[trigger] self.order[k])
        &&& forall|k: int|
            0 <= k < self.path.len() ==> (#[trigger] self.path[k]) < g.len()
                && self.mark[self.path[k] as int] == Mark::Open
        &&& forall|i: int|
            0 <= i < g.len() && (#[trigger] self.mark[i]) == Mark::Open ==> self.path@.contains(
                i as usize,
            )
        &&& distinct(self.path@)
        &&& self.path.len() > 0 ==> is_path(g, self.path@) && self.path[0] == root
    }
}

/// Opening an unseen node at the end of the path keeps the search sound.
proof fn lemma_enter(g: Seq<Seq<usize>>, root: usize, before: Search, after: Search, node: usize)
    requires
        before.inv(g, root),
        node < g.len(),
        before.mark[node as int] == Mark::Unseen,
        before.path.len() == 0 ==> node == root,
        before.path.len() > 0 ==> is_edge(g, before.path@.last(), node),
        after.mark@ == before.mark@.update(node as int, Mark::Open),
        after.path@ == before.path@.push(node),
        after.order@ == before.order@,
    ensures
        after.inv(g, root),
{
    reveal(Search::inv);
    if before.path.len() > 0 {
        lemma_path_push(g, before.path@, node);
    } else {
        assert(is_path(g, after.path@));
    }
    assert forall|i: int|
        0 <= i < g.len() && (#[trigger] after.mark[i]) == Mark::Open implies after.path@.contains(
        i as usize,
    ) by {
        if i == node {
            assert(after.path@[before.path.len() as int] == node);
        } else {
            assert(before.mark[i] == Mark::Open);
            let k: int = choose|k: int| 0 <= k < before.path.len() && before.path[k] == i as usize;
            assert(after.path@[k] == i as usize);
        }
    }
    assert forall|k: int| 0 <= k < after.path.len() implies (#[trigger] after.path[k]) < g.len()
        && after.mark[after.path[k] as int] == Mark::Open by {
        if k < before.path.len() {
            assert(after.path[k] == before.path[k]);
        }
    }
    assert(distinct(after.path@)) by {
        assert forall|a: int, b: int| 0 <= a < b < after.path.len() implies after.path[a]
            != after.path[b] by {
            assert(after.path[a] == before.path[a]);
            if b < before.path.len() {
                assert(after.path[b] == before.path[b]);
            }
        }
    }
    assert forall|k: int| 0 <= k < after.order.len() implies (#[trigger] after.order[k]) < g.len()
        && after.mark[after.order[k] as int] == Mark::Done by {
        assert(after.order[k] == before.order[k]);
    }
    assert forall|i: int|
        0 <= i < g.len() && (#[trigger] after.mark[i]) == Mark::Done implies after.order@.contains(
        i as usize,
    ) by {
        assert(before.mark[i] == Mark::Done);
    }
}

/// Finishing the node at the end of the path, once every node it needs is
/// finished, keeps the search sound.
proof fn lemma_leave(g: Seq<Seq<usize>>, root: usize, before: Search, after: Search, node: usize)
    requires
        closed_graph(g),
        before.inv(g, root),
        node < g.len(),
        before.path.len() > 0,
        before.path@.last() == node,
        forall|e: int|
            0 <= e < g[node as int].len() ==> before.mark[(#[trigger] g[node as int][e]) as int]
                == Mark::Done,
        after.mark@ == before.mark@.update(node as int, Mark::Done),
        after.path@ == before.path@.drop_last(),
        after.order@ == before.order@.push(node),
    ensures
        after.inv(g, root),
{
    reveal(Search::inv);
    let last: int = before.path.len() - 1;
    assert(before.path[last] == node);
    assert(before.mark[node as int] == Mark::Open);
    lemma_path_nodes_reachable(g, before.path@, last);
    assert forall|k: int| 0 <= k < after.order.len() implies (#[trigger] after.order[k]) < g.len()
        && after.mark[after.order[k] as int] == Mark::Done && reachable(
        g,
        root,
        after.order[k],
    ) by {
        if k < before.order.len() {
            assert(after.order[k] == before.order[k]);
        }
    }
    assert(distinct(after.order@)) by {
        assert forall|a: int, b: int| 0 <= a < b < after.order.len() implies after.order[a]
            != after.order[b] by {
            assert(after.order[a] == before.order[a]);
            if b < before.order.len() {
                assert(after.order[b] == before.order[b]);
            }
        }
    }
    assert forall|k: int, e: int|
        0 <= k < after.order.len() && 0 <= e < g[after.order[k] as int].len() implies listed_before(
        after.order@,
        #[trigger] g[after.order@[k] as int][e],
        k,
    ) by {
        if k < before.order.len() {
            assert(after.order[k] == before.order[k]);
            assert(listed_before(before.order@, g[before.order@[k] as int][e], k));
            let need: usize = g[before.order[k] as int][e];
            let f: int = choose|f: int|
                0 <= f < k && f < before.order.len() && before.order[f] == need;
            assert(after.order[f] == before.order[f]);
        } else {
            let need: usize = g[node as int][e];
            assert(need < g.len());
            assert(before.mark[need as int] == Mark::Done);
            assert(before.order@.contains(need as int as usize));
            let f: int = choose|f: int| 0 <= f < before.order.len() && before.order[f] == need;
            assert(after.order[f] == need);
        }
    }
    assert forall|i: int|
        0 <= i < g.len() && (#[trigger] after.mark[i]) == Mark::Done implies after.order@.contains(
        i as usize,
    ) by {
        if i == node {
            assert(after.order@[before.order.len() as int] == node);
        } else {
            assert(before.mark[i] == Mark::Done);
            let f: int = choose|f: int|
                0 <= f < before.order.len() && before.order[f] == i as usize;
            assert(after.order@[f] == i as usize);
        }
    }
    assert forall|k: int| 0 <= k < after.path.len() implies (#[trigger] after.path[k]) < g.len()
        && after.mark[after.path[k] as int] == Mark::Open by {
        assert(after.path[k] == before.path[k]);
        assert(before.path[k] != before.path[last]);
    }
    assert forall|i: int|
        0 <= i < g.len() && (#[trigger] after.mark[i]) == Mark::Open implies after.path@.contains(
        i as usize,
    ) by {
        assert(before.mark[i] == Mark::Open);
        let f: int = choose|f: int| 0 <= f < before.path.len() && before.path[f] == i as usize;
        assert(f != last);
        assert(after.path@[f] == i as usize);
    }
    assert(distinct(after.path@)) by {
        assert forall|a: int, b: int| 0 <= a < b < after.path.len() implies after.path[a]
            != after.path[b] by {
            assert(after.path[a] == before.path[a]);
            assert(after.path[b] == before.path[b]);
        }
    }
    if after.path.len() > 0 {
        lemma_path_stretch(g, before.path@, 0, last);
        assert(after.path@ =~= before.path@.subrange(0, last));
    }
}

/// A back edge from the end of `path` to a node on it closes a cycle that
/// the start of `path` reaches.
proof fn lemma_back_edge(g: Seq<Seq<usize>>, path: Seq<usize>, at: int, node: usize)
    requires
        is_path(g, path),
        0 <= at < path.len(),
        path[at] == node,
        is_edge(g, path.last(), node),
    ensures
        is_cycle(g, path.subrange(at, path.len() as int).push(node)),
        reachable(g, path[0], node),
{
    lemma_path_stretch(g, path, at, path.len() as int);
    lemma_path_push(g, path.subrange(at, path.len() as int), node);
    lemma_path_nodes_reachable(g, path, at);
}

/// The part of `path` from the first occurrence of `node` on, followed by
/// `node` again.
fn close_cycle(path: &Vec<usize>, node: usize) -> (cycle: Vec<usize>)
    requires
        path@.contains(node),
    ensures
        exists|at: int|
            0 <= at < path.len() && path[at] == node && cycle@ == path@.subrange(
                at,
                path.len() as int,
            ).push(node),
{
    let mut at: usize = 0;
    while path[at] != node
        invariant
            at < path.len(),
            exists|i: int| at <= i < path.len() && path[i] == node,
        decreases path.len() - at,
    {
        at += 1;
    }
    let mut cycle: Vec<usize> = Vec::new();
    let mut k: usize = at;
    while k < path.len()
        invariant
            at <= k <= path.len(),
            cycle@ == path@.subrange(at as int, k as int),
        decreases path.len() - k,
    {
        cycle.push(path[k]);
        proof {
            assert(path@.subrange(at as int, k as int).push(path[k as int]) =~= path@.subrange(
                at as int,
                k + 1,
            ));
        }
        k += 1;
    }
    cycle.push(node);
    cycle
}

/// Visits `node` and, before it is finished, every unseen node it needs.
fn visit(
    edges: &Vec<Vec<usize>>,
    node: usize,
    search: &mut Search,
    Ghost(root): Ghost<usize>,
    Ghost(unseen): Ghost<Set<int>>,
) -> (r: Result<(), Vec<usize>>)
    requires
        closed_graph(adjacency(edges)),
        node < edges.len(),
        old(search).mark.len() == edges.len(),
        old(search).inv(adjacency(edges), root),
        old(search).mark[node as int] == Mark::Unseen,
        old(search).path.len() == 0 ==> node == root,
        old(search).path.len() > 0 ==> is_edge(
            adjacency(edges),
            old(search).path@.last(),
            node,
        ),
        unseen.finite(),
        forall|i: int|
            unseen.contains(i) <==> (0 <= i < edges.len() && old(search).mark[i] == Mark::Unseen),
    ensures
        r is Ok ==> {
            &&& final(search).mark.len() == edges.len()
            &&& final(search).inv(adjacency(edges), root)
            &&& final(search).path@ == old(search).path@
            &&& final(search).mark[node as int] == Mark::Done
            &&& forall|i: int|
                0 <= i < edges.len() && old(search).mark[i] != Mark::Unseen ==> final(search).mark[i]
                    == old(search).mark[i]
        },
        r matches Err(cycle) ==> is_cycle(adjacency(edges), cycle@) && reachable(
            adjacency(edges),
            root,
            cycle@[0],
        ),
    decreases unseen.len(),
{
    let ghost g: Seq<Seq<usize>> = adjacency(edges);
    search.mark.set(node, Mark::Open);
    search.path.push(node);
    let ghost rest: Set<int> = unseen.remove(node as int);
    proof {
        lemma_enter(g, root, *old(search), *search, node);
    }
    let mut j: usize = 0;
    while j < edges[node].len()
        invariant
            closed_graph(g),
            g == adjacency(edges),
            node < edges.len(),
            j <= edges[node as int].len(),
            search.mark.len() == edges.len(),
            search.inv(g, root),
            search.path@ == old(search).path@.push(node),
            forall|i: int|
                0 <= i < edges.len() && old(search).mark[i] != Mark::Unseen ==> search.mark[i] == old(
                    search,
                ).mark[i],
            forall|e: int|
                0 <= e < j ==> search.mark[(#[trigger] edges[node as int][e]) as int] == Mark::Done,
            rest.finite(),
            rest.len() < unseen.len(),
            forall|i: int|
                0 <= i < edges.len() && search.mark[i] == Mark::Unseen ==> rest.contains(i),
        decreases edges[node as int].len() - j,
    {
        let next: usize = edges[node][j];
        assert(g[node as int][j as int] == next);
        assert(is_edge(g, node, next));
        match search.mark[next] {
            Mark::Done => {},
            Mark::Open => {
                proof {
                    reveal(Search::inv);
                }
                let cycle: Vec<usize> = close_cycle(&search.path, next);
                proof {
                    let at: int = choose|at: int|
                        0 <= at < search.path.len() && search.path[at] == next && cycle@
                            == search.path@.subrange(at, search.path.len() as int).push(next);
                    lemma_back_edge(g, search.path@, at, next);
                }
                return Err(cycle);
            },
            Mark::Unseen => {
            let ghost remaining: Set<int> = Set::new(
                |i: int| 0 <= i < edges.len() && search.mark[i] == Mark::Unseen,
            );
            let ghost entry: Seq<Mark> = search.mark@;
            proof {
                assert(remaining.subset_of(rest));
                vstd::set_lib::lemma_len_subset(remaining, rest);
            }
            match visit(edges, next, search, Ghost(root), Ghost(remaining)) {
                Ok(()) => {
                    assert forall|e: int| 0 <= e < j + 1 implies search.mark[(
                    #[trigger] edges[node as int][e]) as int] == Mark::Done by {
                        if e < j {
                            assert(entry[edges[node as int][e] as int] == Mark::Done);
                        }
                    }
                },
                Err(cycle) => {
                    return Err(cycle);
                },
            }
            },
        }
        j += 1;
    }
    let ghost walked: Search = *search;
    search.path.pop();
    search.mark.set(node, Mark::Done);
    search.order.push(node);
    proof {
        assert(search.path@ =~= old(search).path@);
        assert(walked.path@.drop_last() =~= old(search).path@);
        assert forall|e: int| 0 <= e < g[node as int].len() implies walked.mark[(
        #[trigger] g[node as int][e]) as int] == Mark::Done by {
            assert(g[node as int][e] == edges[node as int][e]);
        }
        lemma_leave(g, root, walked, *search, node);
    }
    Ok(())
}

/// Lists every node that `root` reaches, each once and after all the nodes
/// it needs, or returns a cycle that `root` reaches: a path whose last node
/// is its first.
pub fn dependency_order(edges: &Vec<Vec<usize>>, root: usize) -> (r: Result<
    Vec<usize>,
    Vec<usize>,
>)
    requires
        closed_graph(adjacency(edges)),
        root < edges.len(),
    ensures
        r is Ok <==> !cyclic_from(adjacency(edges), root),
        r matches Ok(order) ==> is_dependency_order(adjacency(edges), root, order@),
        r matches Err(cycle) ==> is_cycle(adjacency(edges), cycle@) && reachable(
            adjacency(edges),
            root,
            cycle@[0],
        ),
{
    let ghost g: Seq<Seq<usize>> = adjacency(edges);
    let mut mark: Vec<Mark> = Vec::new();
    let mut i: usize = 0;
    while i < edges.len()
        invariant
            i <= edges.len(),
            mark.len() == i,
            forall|k: int| 0 <= k < i ==> mark[k] == Mark::Unseen,
        decreases edges.len() - i,
    {
        mark.push(Mark::Unseen);
        i += 1;
    }
    let mut search = Search { mark: mark, order: Vec::new(), path: Vec::new() };
    let ghost unseen: Set<int> = Set::new(|i: int| 0 <= i < edges.len());
    proof {
        reveal(Search::inv);
        assert(search.inv(g, root));
        assert(unseen =~= vstd::set_lib::set_int_range(0, edges.len() as int));
        vstd::set_lib::lemma_int_range(0, edges.len() as int);
    }
    match visit(edges, root, &mut search, Ghost(root), Ghost(unseen)) {
        Ok(()) => {
            proof {
                reveal(Search::inv);
                let order: Seq<usize> = search.order@;
                assert(order.contains(root));
                assert forall|x: usize| reachable(g, root, x) implies order.contains(x) by {
                    let p: Seq<usize> = choose|p: Seq<usize>| #[trigger]
                        is_path(g, p) && p[0] == root && p.last() == x;
                    lemma_order_holds_path(g, order, p, p.len() - 1);
                }
                assert forall|x: usize| order.contains(x) implies reachable(g, root, x) by {
                    let k: int = choose|k: int| 0 <= k < order.len() && order[k] == x;
                    assert(reachable(g, root, order[k]));
                }
                assert(is_dependency_order(g, root, order));
                lemma_dependency_order_excludes_cycles(g, root, order);
            }
            Ok(search.order)
        },
        Err(cycle) => {
            assert(is_cycle(g, cycle@) && reachable(g, root, cycle@[0]));
            Err(cycle)
        },
    }
}

} // verus!
