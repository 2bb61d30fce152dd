//! What resolving a metric on a row comes to: which columns appear, which
//! computations run, in what order and on what, and how it can fail.

use vstd::prelude::*;
use crate::graph::{
    cyclic_from, distinct, is_cycle, is_dependency_order, listed_before, needs_come_first,
    reachable,
};
use crate::metric::{Column, Identity, Metric};
use crate::registry::{node_of, Registry};
use crate::store::Entry;

verus! {

/// Why a metric could not be resolved.
#[derive(Debug, PartialEq, Eq)]
pub enum ResolutionError<F> {
    /// No registered metric carries this name.
    UnknownMetric(Identity),
    /// The metric reaches a dependency cycle. The path names the cycle: its
    /// last name is its first.
    CyclicDependency(Vec<Identity>),
    /// The computation of this metric failed, for this reason.
    ComputeError(Identity, F),
    /// The column under this name was stored with another type than the
    /// metric declares.
    TypeMismatch(Identity),
}

/// One call of a metric's `compute`: the metric, and the names that the row
/// held when the call was made.
pub struct Invocation {
    pub metric: Seq<char>,
    pub resolved: Set<Seq<char>>,
}

/// A row: its columns, and every computation that was run for it, oldest
/// first.
pub struct RowView<V> {
    pub columns: Map<Seq<char>, Entry<V>>,
    pub history: Seq<Invocation>,
}

/// The views of `path`'s names.
pub open spec fn identities(path: Seq<Identity>) -> Seq<Seq<char>> {
    Seq::new(path.len(), |k: int| path[k]@)
}

/// The names of `nodes`.
pub open spec fn names_along(names: Seq<Seq<char>>, nodes: Seq<usize>) -> Seq<Seq<char>> {
    Seq::new(nodes.len(), |k: int| names[nodes[k] as int])
}

/// The names of the first `k` nodes of `order`.
pub open spec fn names_before(names: Seq<Seq<char>>, order: Seq<usize>, k: int) -> Set<
    Seq<char>,
> {
    Set::new(
        |name: Seq<char>|
            exists|e: int| 0 <= e < k && e < order.len() && names[order[e] as int] == name,
    )
}

/// The computations that a walk over the first `k` nodes of `order` runs on
/// a row that held `cached` when the walk began: one for each node that was
/// not cached, in the order of the walk, each with all that precedes it
/// resolved.
pub open spec fn invocations(
    names: Seq<Seq<char>>,
    order: Seq<usize>,
    cached: Set<Seq<char>>,
    k: int,
) -> Seq<Invocation>
    decreases k,
{
    if k <= 0 {
        Seq::empty()
    } else {
        let earlier = invocations(names, order, cached, k - 1);
        let name = names[order[k - 1] as int];
        if cached.contains(name) {
            earlier
        } else {
            earlier.push(
                Invocation {
                    metric: name,
                    resolved: cached.union(names_before(names, order, k - 1)),
                },
            )
        }
    }
}

/// `inputs` are the columns that `columns` holds under the names `wanted`,
/// in the order of `wanted`.
pub open spec fn handed<V>(
    wanted: Seq<Seq<char>>,
    columns: Map<Seq<char>, Entry<V>>,
    inputs: Seq<Column<V>>,
) -> bool {
    &&& inputs.len() == wanted.len()
    &&& forall|j: int|
        0 <= j < wanted.len() ==> (#[trigger] inputs[j]).name@ == wanted[j]
            && columns.contains_key(wanted[j]) && columns[wanted[j]] == (Entry {
            data_type: inputs[j].data_type,
            value: inputs[j].value,
        })
}

/// `outcome` is one that `metric` may come to on the columns that `columns`
/// holds under the names `wanted`.
pub open spec fn computed_from<M: Metric>(
    metric: M,
    wanted: Seq<Seq<char>>,
    columns: Map<Seq<char>, Entry<M::Value>>,
    outcome: Result<M::Value, M::Failure>,
) -> bool {
    exists|inputs: Seq<Column<M::Value>>| #[trigger]
        handed(wanted, columns, inputs) && metric.computes(inputs, outcome)
}

/// `columns` is what `cached` becomes once the first `k` nodes of `order`
/// are resolved: what was cached is untouched, and each node that was not
/// has a column of its declared type, whose value its metric computed from
/// the columns of the metrics it needs.
pub open spec fn filled<M: Metric>(
    registry: Registry<M>,
    cached: Map<Seq<char>, Entry<M::Value>>,
    order: Seq<usize>,
    k: int,
    columns: Map<Seq<char>, Entry<M::Value>>,
) -> bool {
    let names = registry.names();
    &&& columns.dom() == cached.dom().union(names_before(names, order, k))
    &&& forall|name: Seq<char>| #[trigger]
        cached.contains_key(name) ==> columns[name] == cached[name]
    &&& forall|e: int|
        0 <= e < k && e < order.len() && !cached.contains_key(
            #[trigger] names[order[e] as int],
        ) ==> {
            &&& columns[names[order[e] as int]].data_type == registry.types()[order[e] as int]
            &&& computed_from(
                registry.metrics()[order[e] as int],
                registry.needs()[order[e] as int],
                columns,
                Ok(columns[names[order[e] as int]].value),
            )
        }
}

/// `post` is `pre` after a walk that resolved all of `order`.
pub open spec fn completed<M: Metric>(
    registry: Registry<M>,
    pre: RowView<M::Value>,
    order: Seq<usize>,
    post: RowView<M::Value>,
) -> bool {
    &&& filled(registry, pre.columns, order, order.len() as int, post.columns)
    &&& post.history == pre.history + invocations(
        registry.names(),
        order,
        pre.columns.dom(),
        order.len() as int,
    )
}

/// `post` is `pre` after a walk over `order` that stopped at position `k`,
/// where a computation failed with `cause`: the nodes before `k` are
/// resolved, the node at `k` was not cached and its computation is the last
/// that ran.
pub open spec fn stopped<M: Metric>(
    registry: Registry<M>,
    pre: RowView<M::Value>,
    order: Seq<usize>,
    k: int,
    cause: M::Failure,
    post: RowView<M::Value>,
) -> bool {
    &&& 0 <= k < order.len()
    &&& !pre.columns.contains_key(registry.names()[order[k] as int])
    &&& filled(registry, pre.columns, order, k, post.columns)
    &&& computed_from(
        registry.metrics()[order[k] as int],
        registry.needs()[order[k] as int],
        post.columns,
        Err(cause),
    )
    &&& post.history == pre.history + invocations(
        registry.names(),
        order,
        pre.columns.dom(),
        k + 1,
    )
}

/// What a walk over `order` comes to: it resolves every node, or stops at
/// the first computation that fails and reports that metric with the cause
/// of the failure.
pub open spec fn walk_outcome<M: Metric>(
    registry: Registry<M>,
    pre: RowView<M::Value>,
    order: Seq<usize>,
    r: Result<(), ResolutionError<M::Failure>>,
    post: RowView<M::Value>,
) -> bool {
    match r {
        Ok(()) => completed(registry, pre, order, post),
        Err(ResolutionError::ComputeError(metric, cause)) => exists|k: int|
            #[trigger] stopped(registry, pre, order, k, cause, post) && metric@
                == registry.names()[order[k] as int],
        Err(_) => false,
    }
}

/// What asking a row for the metric `name` comes to.
///
/// An unknown name is refused. A cached column is handed out if its type
/// is the declared one, and refused if not. For a name that is not cached,
/// a reachable cycle is reported, and else the metric's dependency order is
/// walked. Only the walk changes the row.
pub open spec fn get_outcome<M: Metric>(
    registry: Registry<M>,
    pre: RowView<M::Value>,
    name: Seq<char>,
    r: Result<M::Value, ResolutionError<M::Failure>>,
    post: RowView<M::Value>,
) -> bool {
    let names = registry.names();
    let g = registry.graph();
    let root = node_of(names, name);
    if !names.contains(name) {
        &&& post == pre
        &&& r matches Err(ResolutionError::UnknownMetric(n))
        &&& n@ == name
    } else if pre.columns.contains_key(name) {
        &&& post == pre
        &&& if pre.columns[name].data_type == registry.types()[root as int] {
            r == Ok::<M::Value, ResolutionError<M::Failure>>(pre.columns[name].value)
        } else {
            r matches Err(ResolutionError::TypeMismatch(n)) && n@ == name
        }
    } else if cyclic_from(g, root) {
        &&& post == pre
        &&& r matches Err(ResolutionError::CyclicDependency(path))
        &&& exists|cycle: Seq<usize>|
            #[trigger] is_cycle(g, cycle) && reachable(g, root, cycle[0]) && identities(path@)
                == names_along(names, cycle)
    } else {
        exists|order: Seq<usize>|
            #[trigger] is_dependency_order(g, root, order) && match r {
                Ok(value) => completed(registry, pre, order, post) && post.columns[name].value
                    == value,
                Err(e) => walk_outcome(registry, pre, order, Err(e), post),
            }
    }
}

/// Taking one more node of `order` adds that node's name.
pub proof fn lemma_names_before_step(names: Seq<Seq<char>>, order: Seq<usize>, k: int)
    requires
        0 <= k < order.len(),
    ensures
        names_before(names, order, k + 1) == names_before(names, order, k).insert(
            names[order[k] as int],
        ),
{
    let wider = names_before(names, order, k + 1);
    let grown = names_before(names, order, k).insert(names[order[k] as int]);
    assert forall|name: Seq<char>| wider.contains(name) <==> grown.contains(name) by {
        if wider.contains(name) {
            let e: int = choose|e: int|
                0 <= e < k + 1 && e < order.len() && names[order[e] as int] == name;
            if e < k {
                assert(names_before(names, order, k).contains(name));
            }
        }
        if names_before(names, order, k).contains(name) {
            let e: int = choose|e: int|
                0 <= e < k && e < order.len() && names[order[e] as int] == name;
            assert(0 <= e < k + 1 && e < order.len() && names[order[e] as int] == name);
        }
        if name == names[order[k] as int] {
            assert(0 <= k < k + 1 && k < order.len() && names[order[k] as int] == name);
        }
    }
    assert(wider =~= grown);
}

/// The name of a node of `order` is not among the names of the nodes
/// before it.
pub proof fn lemma_name_is_new<M: Metric>(registry: Registry<M>, order: Seq<usize>, k: int)
    requires
        registry.wf(),
        distinct(order),
        forall|e: int| 0 <= e < order.len() ==> (#[trigger] order[e]) < registry.names().len(),
        0 <= k < order.len(),
    ensures
        !names_before(registry.names(), order, k).contains(registry.names()[order[k] as int]),
{
    let names = registry.names();
    if names_before(names, order, k).contains(names[order[k] as int]) {
        let e: int = choose|e: int|
            0 <= e < k && e < order.len() && names[order[e] as int] == names[order[k] as int];
        assert(order[e] != order[k]);
        let a: int = order[e] as int;
        let b: int = order[k] as int;
        if a < b {
            assert(names[a] != names[b]);
        } else {
            assert(names[b] != names[a]);
        }
    }
}

/// Columns that were handed out of a row are handed out of any row that
/// holds the same entries and more.
pub proof fn lemma_handed_from_more<V>(
    wanted: Seq<Seq<char>>,
    columns: Map<Seq<char>, Entry<V>>,
    more: Map<Seq<char>, Entry<V>>,
    inputs: Seq<Column<V>>,
)
    requires
        handed(wanted, columns, inputs),
        forall|name: Seq<char>| #[trigger]
            columns.contains_key(name) ==> more.contains_key(name) && more[name] == columns[name],
    ensures
        handed(wanted, more, inputs),
{
    assert forall|j: int| 0 <= j < wanted.len() implies (#[trigger] inputs[j]).name@ == wanted[j]
        && more.contains_key(wanted[j]) && more[wanted[j]] == (Entry {
        data_type: inputs[j].data_type,
        value: inputs[j].value,
    }) by {
        assert(inputs[j].name@ == wanted[j]);
        assert(columns.contains_key(wanted[j]));
    }
}

/// A node of the walk whose name the row holds was cached before the walk:
/// the walk passes it by.
pub proof fn lemma_step_cached<M: Metric>(
    registry: Registry<M>,
    cached: Map<Seq<char>, Entry<M::Value>>,
    order: Seq<usize>,
    k: int,
    columns: Map<Seq<char>, Entry<M::Value>>,
)
    requires
        registry.wf(),
        distinct(order),
        forall|e: int| 0 <= e < order.len() ==> (#[trigger] order[e]) < registry.names().len(),
        0 <= k < order.len(),
        filled(registry, cached, order, k, columns),
        columns.contains_key(registry.names()[order[k] as int]),
    ensures
        cached.contains_key(registry.names()[order[k] as int]),
        filled(registry, cached, order, k + 1, columns),
        invocations(registry.names(), order, cached.dom(), k + 1) == invocations(
            registry.names(),
            order,
            cached.dom(),
            k,
        ),
{
    let names = registry.names();
    let name = names[order[k] as int];
    lemma_name_is_new(registry, order, k);
    lemma_names_before_step(names, order, k);
    assert(columns.dom().contains(name));
    assert(cached.dom().contains(name));
    assert(cached.dom().union(names_before(names, order, k + 1)) =~= cached.dom().union(
        names_before(names, order, k),
    ));
}

/// A node of the walk whose name the row lacks is computed: its column is
/// added with its declared type, and its computation saw all that the row
/// held.
pub proof fn lemma_step_computed<M: Metric>(
    registry: Registry<M>,
    cached: Map<Seq<char>, Entry<M::Value>>,
    order: Seq<usize>,
    k: int,
    columns: Map<Seq<char>, Entry<M::Value>>,
    value: M::Value,
)
    requires
        registry.wf(),
        distinct(order),
        forall|e: int| 0 <= e < order.len() ==> (#[trigger] order[e]) < registry.names().len(),
        0 <= k < order.len(),
        filled(registry, cached, order, k, columns),
        !columns.contains_key(registry.names()[order[k] as int]),
    ensures
        !cached.contains_key(registry.names()[order[k] as int]),
        invocations(registry.names(), order, cached.dom(), k + 1) == invocations(
            registry.names(),
            order,
            cached.dom(),
            k,
        ).push(Invocation { metric: registry.names()[order[k] as int], resolved: columns.dom() }),
        computed_from(
            registry.metrics()[order[k] as int],
            registry.needs()[order[k] as int],
            columns,
            Ok(value),
        ) ==> filled(
            registry,
            cached,
            order,
            k + 1,
            columns.insert(
                registry.names()[order[k] as int],
                Entry { data_type: registry.types()[order[k] as int], value: value },
            ),
        ),
{
    let names = registry.names();
    let name = names[order[k] as int];
    let grown = columns.insert(
        name,
        Entry { data_type: registry.types()[order[k] as int], value: value },
    );
    lemma_names_before_step(names, order, k);
    assert(!columns.dom().contains(name));
    assert(!cached.dom().contains(name));
    if computed_from(
        registry.metrics()[order[k] as int],
        registry.needs()[order[k] as int],
        columns,
        Ok(value),
    ) {
        assert(grown.dom() =~= cached.dom().union(names_before(names, order, k + 1)));
        assert forall|n: Seq<char>| #[trigger] cached.contains_key(n) implies grown[n]
            == cached[n] by {
            assert(cached.dom().contains(n));
        }
        assert forall|e: int|
            0 <= e < k + 1 && e < order.len() && !cached.contains_key(
                #[trigger] names[order[e] as int],
            ) implies {
            &&& grown[names[order[e] as int]].data_type == registry.types()[order[e] as int]
            &&& computed_from(
                registry.metrics()[order[e] as int],
                registry.needs()[order[e] as int],
                grown,
                Ok(grown[names[order[e] as int]].value),
            )
        } by {
            let metric = registry.metrics()[order[e] as int];
            let wanted = registry.needs()[order[e] as int];
            if e < k {
                assert(names_before(names, order, k).contains(names[order[e] as int]));
                assert(columns.dom().contains(names[order[e] as int]));
                let produced = columns[names[order[e] as int]].value;
                let inputs: Seq<Column<M::Value>> = choose|inputs: Seq<Column<M::Value>>|
                    #[trigger] handed(wanted, columns, inputs) && metric.computes(
                        inputs,
                        Ok(produced),
                    );
                lemma_handed_from_more(wanted, columns, grown, inputs);
            } else {
                let inputs: Seq<Column<M::Value>> = choose|inputs: Seq<Column<M::Value>>|
                    #[trigger] handed(wanted, columns, inputs) && metric.computes(
                        inputs,
                        Ok(value),
                    );
                lemma_handed_from_more(wanted, columns, grown, inputs);
            }
        }
    }
}

/// When the walk comes to a node, the row holds all that the node needs.
pub proof fn lemma_needs_resolved<M: Metric>(
    registry: Registry<M>,
    cached: Map<Seq<char>, Entry<M::Value>>,
    order: Seq<usize>,
    k: int,
    columns: Map<Seq<char>, Entry<M::Value>>,
)
    requires
        registry.wf(),
        needs_come_first(registry.graph(), order),
        0 <= k < order.len(),
        order[k] < registry.graph().len(),
        filled(registry, cached, order, k, columns),
    ensures
        forall|j: int|
            0 <= j < registry.needs()[order[k] as int].len() ==> columns.contains_key(
                #[trigger] registry.needs()[order[k] as int][j],
            ),
{
    let names = registry.names();
    let needs = registry.needs();
    let g = registry.graph();
    let node: int = order[k] as int;
    assert forall|j: int| 0 <= j < needs[node].len() implies columns.contains_key(
        #[trigger] needs[node][j],
    ) by {
        assert(g[node].len() == needs[node].len());
        let need: usize = g[node][j];
        assert(names[need as int] == needs[node][j]);
        assert(listed_before(order, g[order[k] as int][j], k));
        let e: int = choose|e: int| 0 <= e < k && e < order.len() && order[e] == need;
        assert(names_before(names, order, k).contains(names[order[e] as int]));
        assert(columns.dom().contains(needs[node][j]));
    }
}

/// Each computation of a walk is that of a node which was not cached, and
/// saw what was cached and every node before its own.
pub proof fn lemma_invocation_at(
    names: Seq<Seq<char>>,
    order: Seq<usize>,
    cached: Set<Seq<char>>,
    k: int,
    i: int,
)
    requires
        0 <= k <= order.len(),
        0 <= i < invocations(names, order, cached, k).len(),
    ensures
        exists|e: int|
            0 <= e < k && !cached.contains(names[order[e] as int]) && #[trigger] invocations(
                names,
                order,
                cached,
                e + 1,
            ).last() == invocations(names, order, cached, k)[i] && invocations(
                names,
                order,
                cached,
                k,
            )[i] == (Invocation {
                metric: names[order[e] as int],
                resolved: cached.union(names_before(names, order, e)),
            }),
    decreases k,
{
    let earlier = invocations(names, order, cached, k - 1);
    if i < earlier.len() {
        lemma_invocation_at(names, order, cached, k - 1, i);
        let e: int = choose|e: int|
            0 <= e < k - 1 && !cached.contains(names[order[e] as int]) && #[trigger] invocations(
                names,
                order,
                cached,
                e + 1,
            ).last() == earlier[i] && earlier[i] == (Invocation {
                metric: names[order[e] as int],
                resolved: cached.union(names_before(names, order, e)),
            });
        assert(invocations(names, order, cached, k)[i] == earlier[i]);
        assert(0 <= e < k);
    } else {
        assert(!cached.contains(names[order[k - 1] as int]));
        assert(invocations(names, order, cached, (k - 1) + 1).last() == invocations(
            names,
            order,
            cached,
            k,
        )[i]);
    }
}

/// No two computations of a walk are of the same metric.
pub proof fn lemma_invocations_differ<M: Metric>(
    registry: Registry<M>,
    order: Seq<usize>,
    cached: Set<Seq<char>>,
    k: int,
    i: int,
    j: int,
)
    requires
        registry.wf(),
        distinct(order),
        forall|e: int| 0 <= e < order.len() ==> (#[trigger] order[e]) < registry.names().len(),
        0 <= k <= order.len(),
        0 <= i < j < invocations(registry.names(), order, cached, k).len(),
    ensures
        invocations(registry.names(), order, cached, k)[i].metric != invocations(
            registry.names(),
            order,
            cached,
            k,
        )[j].metric,
    decreases k,
{
    let names = registry.names();
    let earlier = invocations(names, order, cached, k - 1);
    if j < earlier.len() {
        lemma_invocations_differ(registry, order, cached, k - 1, i, j);
    } else {
        lemma_invocation_at(names, order, cached, k - 1, i);
        let e: int = choose|e: int|
            0 <= e < k - 1 && !cached.contains(names[order[e] as int]) && #[trigger] invocations(
                names,
                order,
                cached,
                e + 1,
            ).last() == earlier[i] && earlier[i] == (Invocation {
                metric: names[order[e] as int],
                resolved: cached.union(names_before(names, order, e)),
            });
        lemma_name_is_new(registry, order, k - 1);
        assert(names_before(names, order, k - 1).contains(names[order[e] as int]));
    }
}

} // verus!
