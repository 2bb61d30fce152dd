//! What holds of every request to a row, whatever the metrics compute.

use vstd::prelude::*;
use crate::graph::{
    cyclic_from, is_dependency_order, is_path, lemma_order_descends, lemma_reachable_self,
    reachable,
};
use crate::metric::{Identity, Metric};
use crate::registry::{lemma_node_of, lemma_node_of_known, node_of, Registry};
use crate::resolution::{
    completed, computed_from, get_outcome, invocations, lemma_invocation_at,
    lemma_invocations_differ, lemma_name_is_new, names_before, stopped, walk_outcome, Invocation,
    ResolutionError, RowView,
};

verus! {

/// A value that `get` hands out is the value of the column that the row
/// holds under the requested name, and that column has the type that the
/// metric declares.
pub proof fn law_result_has_declared_type<M: Metric>(
    registry: Registry<M>,
    pre: RowView<M::Value>,
    name: Seq<char>,
    value: M::Value,
    post: RowView<M::Value>,
)
    requires
        registry.wf(),
        get_outcome(
            registry,
            pre,
            name,
            Ok::<M::Value, ResolutionError<M::Failure>>(value),
            post,
        ),
    ensures
        registry.names().contains(name),
        post.columns.contains_key(name),
        post.columns[name].value == value,
        post.columns[name].data_type == registry.types()[node_of(registry.names(), name) as int],
{
    let names = registry.names();
    let g = registry.graph();
    let root = node_of(names, name);
    registry.lemma_graph_closed();
    lemma_node_of_known(names, name);
    if !pre.columns.contains_key(name) {
        let order: Seq<usize> = choose|order: Seq<usize>| #[trigger]
            is_dependency_order(g, root, order) && completed(registry, pre, order, post);
        lemma_reachable_self(g, root);
        assert(order.contains(root));
        let e: int = choose|e: int| 0 <= e < order.len() && order[e] == root;
        assert(names_before(names, order, order.len() as int).contains(names[order[e] as int]));
        assert(post.columns.dom().contains(name));
        assert(!pre.columns.contains_key(names[order[e] as int]));
    }
}

/// A value that `get` hands out for a metric that the row did not hold is
/// one that the metric may come to on the columns of the metrics it needs,
/// as the row holds them after the request.
pub proof fn law_result_is_computed<M: Metric>(
    registry: Registry<M>,
    pre: RowView<M::Value>,
    name: Seq<char>,
    value: M::Value,
    post: RowView<M::Value>,
)
    requires
        registry.wf(),
        !pre.columns.contains_key(name),
        get_outcome(
            registry,
            pre,
            name,
            Ok::<M::Value, ResolutionError<M::Failure>>(value),
            post,
        ),
    ensures
        computed_from(
            registry.metrics()[node_of(registry.names(), name) as int],
            registry.needs()[node_of(registry.names(), name) as int],
            post.columns,
            Ok(value),
        ),
{
    let names = registry.names();
    let g = registry.graph();
    let root = node_of(names, name);
    registry.lemma_graph_closed();
    lemma_node_of_known(names, name);
    let order: Seq<usize> = choose|order: Seq<usize>| #[trigger]
        is_dependency_order(g, root, order) && completed(registry, pre, order, post);
    lemma_reachable_self(g, root);
    assert(order.contains(root));
    let e: int = choose|e: int| 0 <= e < order.len() && order[e] == root;
    assert(!pre.columns.contains_key(names[order[e] as int]));
}

/// Once a request for a metric has succeeded, a second request for it on
/// the same row returns the same value, runs no computation and leaves the
/// row as it is.
pub proof fn law_second_request_is_free<M: Metric>(
    registry: Registry<M>,
    pre: RowView<M::Value>,
    name: Seq<char>,
    value: M::Value,
    mid: RowView<M::Value>,
    again: Result<M::Value, ResolutionError<M::Failure>>,
    post: RowView<M::Value>,
)
    requires
        registry.wf(),
        get_outcome(
            registry,
            pre,
            name,
            Ok::<M::Value, ResolutionError<M::Failure>>(value),
            mid,
        ),
        get_outcome(registry, mid, name, again, post),
    ensures
        again == Ok::<M::Value, ResolutionError<M::Failure>>(value),
        post == mid,
        post.history == mid.history,
{
    law_result_has_declared_type(registry, pre, name, value, mid);
}

/// A request only adds to the row: the columns it found keep their
/// entries, and the computations it found stay at the head of the history.
pub proof fn law_request_only_adds<M: Metric>(
    registry: Registry<M>,
    pre: RowView<M::Value>,
    name: Seq<char>,
    r: Result<M::Value, ResolutionError<M::Failure>>,
    post: RowView<M::Value>,
)
    requires
        registry.wf(),
        get_outcome(registry, pre, name, r, post),
    ensures
        forall|n: Seq<char>| #[trigger]
            pre.columns.contains_key(n) ==> post.columns.contains_key(n) && post.columns[n]
                == pre.columns[n],
        pre.history.len() <= post.history.len(),
        post.history.subrange(0, pre.history.len() as int) == pre.history,
{
    let names = registry.names();
    let g = registry.graph();
    let root = node_of(names, name);
    assert(pre.history.subrange(0, pre.history.len() as int) =~= pre.history);
    if names.contains(name) && !pre.columns.contains_key(name) && !cyclic_from(g, root) {
        let order: Seq<usize> = choose|order: Seq<usize>| #[trigger]
            is_dependency_order(g, root, order) && match r {
                Ok(value) => completed(registry, pre, order, post) && post.columns[name].value
                    == value,
                Err(e) => walk_outcome(registry, pre, order, Err(e), post),
            };
        assert(post.history.subrange(0, pre.history.len() as int) =~= pre.history);
        assert forall|n: Seq<char>| #[trigger]
            pre.columns.contains_key(n) implies post.columns.contains_key(n) by {
            assert(pre.columns.dom().contains(n));
            assert(post.columns.dom().contains(n));
        }
    }
}

/// When a request runs the computation of a metric, the row holds every
/// metric that this metric needs, directly or through other metrics, and
/// all that it held before the request. The metric itself is one that the
/// requested metric reaches, and the row does not hold it yet.
pub proof fn law_needs_are_resolved_first<M: Metric>(
    registry: Registry<M>,
    pre: RowView<M::Value>,
    name: Seq<char>,
    r: Result<M::Value, ResolutionError<M::Failure>>,
    post: RowView<M::Value>,
    i: int,
)
    requires
        registry.wf(),
        get_outcome(registry, pre, name, r, post),
        pre.history.len() <= i < post.history.len(),
    ensures
        registry.names().contains(post.history[i].metric),
        registry.names().contains(name),
        reachable(
            registry.graph(),
            node_of(registry.names(), name),
            node_of(registry.names(), post.history[i].metric),
        ),
        !post.history[i].resolved.contains(post.history[i].metric),
        pre.columns.dom().subset_of(post.history[i].resolved),
        forall|need: usize|
            need != node_of(registry.names(), post.history[i].metric) && #[trigger] reachable(
                registry.graph(),
                node_of(registry.names(), post.history[i].metric),
                need,
            ) ==> post.history[i].resolved.contains(registry.names()[need as int]),
{
    let names = registry.names();
    let g = registry.graph();
    let root = node_of(names, name);
    registry.lemma_graph_closed();
    lemma_node_of_known(names, name);
    let order: Seq<usize> = choose|order: Seq<usize>| #[trigger]
        is_dependency_order(g, root, order) && match r {
            Ok(value) => completed(registry, pre, order, post) && post.columns[name].value
                == value,
            Err(e) => walk_outcome(registry, pre, order, Err(e), post),
        };
    let upto: int = match r {
        Ok(_) => order.len() as int,
        Err(ResolutionError::ComputeError(_, cause)) => (choose|k: int| #[trigger]
            stopped(registry, pre, order, k, cause, post)) + 1,
        Err(_) => 0,
    };
    let cached = pre.columns.dom();
    let run = invocations(names, order, cached, upto);
    assert(post.history == pre.history + run);
    let at: int = i - pre.history.len();
    assert(post.history[i] == run[at]);
    lemma_invocation_at(names, order, cached, upto, at);
    let e: int = choose|e: int|
        0 <= e < upto && !cached.contains(names[order[e] as int]) && #[trigger] invocations(
            names,
            order,
            cached,
            e + 1,
        ).last() == run[at] && run[at] == (Invocation {
            metric: names[order[e] as int],
            resolved: cached.union(names_before(names, order, e)),
        });
    let node: usize = order[e];
    lemma_node_of(names, node);
    assert(order.contains(node));
    lemma_name_is_new(registry, order, e);
    assert forall|need: usize|
        need != node && #[trigger] reachable(g, node, need) implies run[at].resolved.contains(
        names[need as int],
    ) by {
        let p: Seq<usize> = choose|p: Seq<usize>| #[trigger]
            is_path(g, p) && p[0] == node && p.last() == need;
        lemma_order_descends(g, order, p, e, p.len() - 1);
        let f: int = choose|f: int| 0 <= f <= e - (p.len() - 1) && order[f] == p[p.len() - 1];
        assert(p.len() >= 2);
        assert(names_before(names, order, e).contains(names[order[f] as int]));
    }
}

/// One request computes no metric twice.
pub proof fn law_no_metric_runs_twice<M: Metric>(
    registry: Registry<M>,
    pre: RowView<M::Value>,
    name: Seq<char>,
    r: Result<M::Value, ResolutionError<M::Failure>>,
    post: RowView<M::Value>,
    i: int,
    j: int,
)
    requires
        registry.wf(),
        get_outcome(registry, pre, name, r, post),
        pre.history.len() <= i < j < post.history.len(),
    ensures
        post.history[i].metric != post.history[j].metric,
{
    let names = registry.names();
    let g = registry.graph();
    let root = node_of(names, name);
    registry.lemma_graph_closed();
    lemma_node_of_known(names, name);
    let order: Seq<usize> = choose|order: Seq<usize>| #[trigger]
        is_dependency_order(g, root, order) && match r {
            Ok(value) => completed(registry, pre, order, post) && post.columns[name].value
                == value,
            Err(e) => walk_outcome(registry, pre, order, Err(e), post),
        };
    let upto: int = match r {
        Ok(_) => order.len() as int,
        Err(ResolutionError::ComputeError(_, cause)) => (choose|k: int| #[trigger]
            stopped(registry, pre, order, k, cause, post)) + 1,
        Err(_) => 0,
    };
    let run = invocations(names, order, pre.columns.dom(), upto);
    assert(post.history == pre.history + run);
    assert(post.history[i] == run[i - pre.history.len()]);
    assert(post.history[j] == run[j - pre.history.len()]);
    lemma_invocations_differ(
        registry,
        order,
        pre.columns.dom(),
        upto,
        i - pre.history.len(),
        j - pre.history.len(),
    );
}

/// A request for a metric that the row lacks and that reaches a dependency
/// cycle fails with `CyclicDependency`, runs no computation and leaves the
/// row as it is.
pub proof fn law_cycle_is_refused<M: Metric>(
    registry: Registry<M>,
    pre: RowView<M::Value>,
    name: Seq<char>,
    r: Result<M::Value, ResolutionError<M::Failure>>,
    post: RowView<M::Value>,
)
    requires
        registry.wf(),
        registry.names().contains(name),
        !pre.columns.contains_key(name),
        cyclic_from(registry.graph(), node_of(registry.names(), name)),
        get_outcome(registry, pre, name, r, post),
    ensures
        r matches Err(ResolutionError::CyclicDependency(_)),
        post == pre,
        post.history == pre.history,
{
}

/// A failed computation is that of the requested metric or of one it
/// needs; its metric is the last that was run and has no column after the
/// request.
pub proof fn law_failure_names_a_needed_metric<M: Metric>(
    registry: Registry<M>,
    pre: RowView<M::Value>,
    name: Seq<char>,
    failed: Identity,
    cause: M::Failure,
    post: RowView<M::Value>,
)
    requires
        registry.wf(),
        get_outcome(
            registry,
            pre,
            name,
            Err::<M::Value, ResolutionError<M::Failure>>(
                ResolutionError::ComputeError(failed, cause),
            ),
            post,
        ),
    ensures
        registry.names().contains(name),
        registry.names().contains(failed@),
        reachable(
            registry.graph(),
            node_of(registry.names(), name),
            node_of(registry.names(), failed@),
        ),
        !post.columns.contains_key(failed@),
        !post.columns.contains_key(name),
        post.history.len() > pre.history.len(),
        post.history.last().metric == failed@,
{
    let names = registry.names();
    let g = registry.graph();
    let root = node_of(names, name);
    registry.lemma_graph_closed();
    lemma_node_of_known(names, name);
    let order: Seq<usize> = choose|order: Seq<usize>| #[trigger]
        is_dependency_order(g, root, order) && exists|k: int| #[trigger]
            stopped(registry, pre, order, k, cause, post) && failed@ == names[order[k] as int];
    let k: int = choose|k: int| #[trigger]
        stopped(registry, pre, order, k, cause, post) && failed@ == names[order[k] as int];
    let node: usize = order[k];
    lemma_node_of(names, node);
    assert(order.contains(node));
    lemma_name_is_new(registry, order, k);
    lemma_reachable_self(g, root);
    assert(order.contains(root));
    let at: int = choose|e: int| 0 <= e < order.len() && order[e] == root;
    lemma_node_of(names, root);
    if at < k {
        let p: Seq<usize> = choose|p: Seq<usize>| #[trigger]
            is_path(g, p) && p[0] == root && p.last() == node;
        lemma_order_descends(g, order, p, at, p.len() - 1);
        let f: int = choose|f: int| 0 <= f <= at - (p.len() - 1) && order[f] == p[p.len() - 1];
        assert(order[f] == order[k]);
        assert(f == k);
    }
    if at > k {
        assert(!names_before(names, order, k).contains(name)) by {
            if names_before(names, order, k).contains(name) {
                let e: int = choose|e: int|
                    0 <= e < k && e < order.len() && names[order[e] as int] == name;
                lemma_node_of(names, order[e]);
                assert(order[e] == root);
            }
        }
    }
    assert(!post.columns.dom().contains(name));
    assert(!post.columns.dom().contains(failed@));
}

/// Where a request for `a` failed in the computation of `b`, a later
/// request for a metric `c` that does not reach `b` neither runs `b` nor
/// fails by it, and finds every column that the failed request found or
/// made.
pub proof fn law_failure_is_isolated<M: Metric>(
    registry: Registry<M>,
    pre: RowView<M::Value>,
    a: Seq<char>,
    b: Identity,
    cause: M::Failure,
    mid: RowView<M::Value>,
    c: Seq<char>,
    r: Result<M::Value, ResolutionError<M::Failure>>,
    post: RowView<M::Value>,
)
    requires
        registry.wf(),
        get_outcome(
            registry,
            pre,
            a,
            Err::<M::Value, ResolutionError<M::Failure>>(ResolutionError::ComputeError(b, cause)),
            mid,
        ),
        registry.names().contains(c),
        !reachable(
            registry.graph(),
            node_of(registry.names(), c),
            node_of(registry.names(), b@),
        ),
        get_outcome(registry, mid, c, r, post),
    ensures
        !(r matches Err(ResolutionError::ComputeError(metric, _)) && metric@ == b@),
        forall|i: int| mid.history.len() <= i < post.history.len() ==> post.history[i].metric != b@,
        forall|n: Seq<char>| #[trigger]
            pre.columns.contains_key(n) ==> post.columns.contains_key(n) && post.columns[n]
                == pre.columns[n],
        forall|n: Seq<char>| #[trigger]
            mid.columns.contains_key(n) ==> post.columns.contains_key(n) && post.columns[n]
                == mid.columns[n],
{
    law_request_only_adds(
        registry,
        pre,
        a,
        Err::<M::Value, ResolutionError<M::Failure>>(ResolutionError::ComputeError(b, cause)),
        mid,
    );
    law_request_only_adds(registry, mid, c, r, post);
    assert forall|n: Seq<char>| #[trigger]
        pre.columns.contains_key(n) implies post.columns.contains_key(n) && post.columns[n]
        == pre.columns[n] by {
        assert(mid.columns.contains_key(n));
    }
    assert forall|i: int| mid.history.len() <= i < post.history.len() implies post.history[i].metric
        != b@ by {
        law_needs_are_resolved_first(registry, mid, c, r, post, i);
    }
    match r {
        Err(ResolutionError::ComputeError(metric, reason)) => {
            law_failure_names_a_needed_metric(registry, mid, c, metric, reason, post);
        },
        _ => {},
    }
}

} // verus!
