//! A row: the columns computed so far for one record, and the operation
//! that hands out a metric, computed or cached.

use vstd::prelude::*;
use crate::graph::{distinct, lemma_reachable_self, needs_come_first};
use crate::metric::{column_names, pointed, Column, DataType, Identity, Metric};
use crate::registry::{lemma_node_of, Registry};
use crate::resolution::{
    computed_from, filled, get_outcome, handed, identities, invocations, lemma_needs_resolved,
    lemma_step_cached, lemma_step_computed, names_along, names_before, stopped, walk_outcome,
    Invocation, ResolutionError, RowView,
};
use crate::search::dependency_order;
use crate::store::{ColumnStore, Entry};

verus! {

/// The columns of one record. A row also remembers, for proofs only, each
/// computation that was run for it.
pub struct Row<V> {
    store: ColumnStore<V>,
    history: Ghost<Seq<Invocation>>,
}

/// What `get` returns, with the value itself in place of a reference to it.
pub open spec fn owned<V, F>(r: Result<&V, ResolutionError<F>>) -> Result<V, ResolutionError<F>> {
    match r {
        Ok(value) => Ok(*value),
        Err(e) => Err(e),
    }
}

/// The names of the nodes of `nodes`.
fn name_path<M>(registry: &Registry<M>, nodes: &Vec<usize>) -> (path: Vec<Identity>)
    requires
        forall|k: int| 0 <= k < nodes.len() ==> (#[trigger] nodes[k]) < registry.names().len(),
    ensures
        identities(path@) == names_along(registry.names(), nodes@),
{
    let mut path: Vec<Identity> = Vec::new();
    let mut k: usize = 0;
    while k < nodes.len()
        invariant
            k <= nodes.len(),
            path.len() == k,
            forall|e: int| 0 <= e < nodes.len() ==> (#[trigger] nodes[e]) < registry.names().len(),
            forall|e: int|
                0 <= e < k ==> (#[trigger] path[e])@ == registry.names()[nodes[e] as int],
        decreases nodes.len() - k,
    {
        path.push(registry.name(nodes[k]).clone());
        k += 1;
    }
    assert(identities(path@) =~= names_along(registry.names(), nodes@));
    path
}

impl<V> Row<V> {
    /// The row's columns and the computations run for it.
    pub closed spec fn view(&self) -> RowView<V> {
        RowView { columns: self.store@, history: self.history@ }
    }

    /// No name has two columns.
    pub closed spec fn wf(&self) -> bool {
        self.store.wf()
    }

    /// A row with no column, for which nothing was computed.
    pub fn new() -> (row: Self)
        ensures
            row.wf(),
            row@.columns == Map::<Seq<char>, Entry<V>>::empty(),
            row@.history == Seq::<Invocation>::empty(),
    {
        Row { store: ColumnStore::new(), history: Ghost(Seq::empty()) }
    }

    /// The row's column store.
    pub fn columns(&self) -> (store: &ColumnStore<V>)
        requires
            self.wf(),
        ensures
            store.wf(),
            store@ == self@.columns,
    {
        &self.store
    }

    /// Whether the row holds a column named `name`.
    pub fn contains(&self, name: &Identity) -> (found: bool)
        requires
            self.wf(),
        ensures
            found == self@.columns.contains_key(name@),
    {
        self.store.contains(name)
    }

    /// The cached value of the metric `name` of type `data_type`, if the row
    /// holds one. Nothing is computed.
    ///
    /// The caller vouches that the column, if there is one, was stored with
    /// that type.
    pub fn get_data(&self, name: &Identity, data_type: DataType) -> (found: Option<&V>)
        requires
            self.wf(),
            self@.columns.contains_key(name@) ==> self@.columns[name@].data_type == data_type,
        ensures
            found is Some <==> self@.columns.contains_key(name@),
            found matches Some(value) ==> self@.columns[name@].value == *value,
    {
        self.store.get_typed(name, data_type)
    }

    /// Takes note that the metric `name`, which the row lacks, was computed
    /// with `outcome`: a value becomes the metric's column, of type
    /// `data_type`; a failure becomes the error that reports the metric.
    pub fn record<F>(
        &mut self,
        name: Identity,
        data_type: DataType,
        outcome: Result<V, F>,
    ) -> (r: Result<(), ResolutionError<F>>)
        requires
            old(self).wf(),
            !old(self)@.columns.contains_key(name@),
        ensures
            final(self).wf(),
            final(self)@.history == old(self)@.history.push(
                Invocation { metric: name@, resolved: old(self)@.columns.dom() },
            ),
            match outcome {
                Ok(value) => r is Ok && final(self)@.columns == old(self)@.columns.insert(
                    name@,
                    Entry { data_type: data_type, value: value },
                ),
                Err(cause) => {
                    &&& final(self)@.columns == old(self)@.columns
                    &&& r matches Err(ResolutionError::ComputeError(metric, reason))
                    &&& metric@ == name@
                    &&& reason == cause
                },
            },
    {
        proof {
            self.history@ = self.history@.push(
                Invocation { metric: name@, resolved: self.store@.dom() },
            );
        }
        match outcome {
            Ok(value) => {
                self.store.insert(name, data_type, value);
                Ok(())
            },
            Err(cause) => Err(ResolutionError::ComputeError(name, cause)),
        }
    }

    /// Walks `order`: computes each metric that the row lacks from the
    /// columns of the metrics it needs, and stops at the first failure.
    pub fn execute<M: Metric<Value = V>>(
        &mut self,
        registry: &Registry<M>,
        order: &Vec<usize>,
    ) -> (r: Result<(), ResolutionError<M::Failure>>)
        requires
            old(self).wf(),
            registry.wf(),
            forall|k: int| 0 <= k < order.len() ==> (#[trigger] order[k]) < registry.graph().len(),
            distinct(order@),
            needs_come_first(registry.graph(), order@),
        ensures
            final(self).wf(),
            walk_outcome(*registry, old(self)@, order@, r, final(self)@),
    {
        let ghost names: Seq<Seq<char>> = registry.names();
        let ghost pre: RowView<V> = self@;
        proof {
            registry.lemma_graph_closed();
            assert(self@.columns.dom() =~= pre.columns.dom().union(names_before(names, order@, 0)));
            assert(self@.history =~= pre.history + invocations(
                names,
                order@,
                pre.columns.dom(),
                0,
            ));
        }
        let mut k: usize = 0;
        while k < order.len()
            invariant
                self.wf(),
                registry.wf(),
                names == registry.names(),
                pre == old(self)@,
                k <= order.len(),
                forall|e: int|
                    0 <= e < order.len() ==> (#[trigger] order[e]) < registry.graph().len(),
                distinct(order@),
                needs_come_first(registry.graph(), order@),
                filled(*registry, pre.columns, order@, k as int, self@.columns),
                self@.history == pre.history + invocations(
                    names,
                    order@,
                    pre.columns.dom(),
                    k as int,
                ),
            decreases order.len() - k,
        {
            let node: usize = order[k];
            let name: &Identity = registry.name(node);
            let ghost entry: RowView<V> = self@;
            if self.store.contains(name) {
                proof {
                    registry.lemma_graph_closed();
                    lemma_step_cached(*registry, pre.columns, order@, k as int, entry.columns);
                }
            } else {
                proof {
                    registry.lemma_graph_closed();
                    lemma_needs_resolved(*registry, pre.columns, order@, k as int, entry.columns);
                }
                let wanted: &Vec<Identity> = registry.dependencies(node);
                let inputs: Vec<&Column<V>> = self.store.gather(wanted);
                proof {
                    assert(column_names(pointed(inputs@)) =~= registry.needs()[node as int]);
                }
                let outcome = registry.metric(node).compute(&inputs);
                let ghost produced: V = outcome->Ok_0;
                proof {
                    assert(handed(registry.needs()[node as int], entry.columns, pointed(inputs@)));
                    assert(computed_from(
                        registry.metrics()[node as int],
                        registry.needs()[node as int],
                        entry.columns,
                        outcome,
                    ));
                    lemma_step_computed(
                        *registry,
                        pre.columns,
                        order@,
                        k as int,
                        entry.columns,
                        produced,
                    );
                    let run = invocations(names, order@, pre.columns.dom(), k as int);
                    let call = Invocation { metric: name@, resolved: entry.columns.dom() };
                    assert((pre.history + run).push(call) =~= pre.history + run.push(call));
                }
                match self.record(name.clone(), registry.data_type(node), outcome) {
                    Ok(()) => {},
                    Err(e) => {
                        assert(stopped(
                            *registry,
                            pre,
                            order@,
                            k as int,
                            outcome->Err_0,
                            self@,
                        ));
                        return Err(e);
                    },
                }
            }
            k += 1;
        }
        Ok(())
    }

    /// The value of the metric `name`, computed or cached.
    ///
    /// A cached value is handed out as it is. Else the metrics that `name`
    /// needs are discovered, a dependency cycle among them is refused
    /// before anything is computed, and the metrics are computed in
    /// dependency order, each unless the row holds it already, up to the
    /// first failure.
    pub fn get<M: Metric<Value = V>>(
        &mut self,
        registry: &Registry<M>,
        name: &Identity,
    ) -> (r: Result<&V, ResolutionError<M::Failure>>)
        requires
            old(self).wf(),
            registry.wf(),
        ensures
            final(self).wf(),
            get_outcome(*registry, old(self)@, name@, owned(r), final(self)@),
    {
        let ghost names: Seq<Seq<char>> = registry.names();
        let root: usize = match registry.index_of(name) {
            Some(node) => node,
            None => {
                return Err(ResolutionError::UnknownMetric(name.clone()));
            },
        };
        proof {
            lemma_node_of(names, root);
            registry.lemma_graph_closed();
        }
        let declared: DataType = registry.data_type(root);
        if self.store.contains(name) {
            let column = self.store.fetch(name);
            if column.data_type == declared {
                return Ok(&column.value);
            } else {
                return Err(ResolutionError::TypeMismatch(name.clone()));
            }
        }
        let order: Vec<usize> = match dependency_order(registry.edges(), root) {
            Ok(order) => order,
            Err(cycle) => {
                return Err(ResolutionError::CyclicDependency(name_path(registry, &cycle)));
            },
        };
        match self.execute(registry, &order) {
            Ok(()) => {},
            Err(e) => {
                return Err(e);
            },
        }
        proof {
            lemma_reachable_self(registry.graph(), root);
            assert(order@.contains(root));
            let e: int = choose|e: int| 0 <= e < order.len() && order[e] == root;
            assert(names_before(names, order@, order.len() as int).contains(
                names[order[e] as int],
            ));
            assert(self@.columns.dom().contains(name@));
        }
        Ok(&self.store.fetch(name).value)
    }
}

} // verus!
