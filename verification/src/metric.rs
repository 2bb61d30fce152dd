//! What a metric is to a row: a name, a data type, the metrics it needs and
//! a rule that computes its value from theirs.

use vstd::prelude::*;

verus! {

/// The stable name of a metric: the key of its column and its node in the
/// dependency graph.
pub type Identity = String;

/// The tag of the concrete type of a metric's value. A column keeps the tag
/// it was stored with, and a typed read compares tags before it hands the
/// value out.
#[derive(Clone, Copy, Debug, PartialEq, Eq, Hash, Structural)]
pub struct DataType {
    pub tag: u32,
}

/// One computed metric: its name, the tag of its type and its value.
#[derive(Debug)]
pub struct Column<V> {
    pub name: Identity,
    pub data_type: DataType,
    pub value: V,
}

/// What a metric says of itself before anything is computed.
#[derive(Debug)]
pub struct Declaration {
    pub name: Identity,
    pub data_type: DataType,
    pub dependencies: Vec<Identity>,
}

/// The columns that `resolved` refers to.
pub open spec fn pointed<V>(resolved: Seq<&Column<V>>) -> Seq<Column<V>> {
    Seq::new(resolved.len(), |j: int| *resolved[j])
}

/// The names of `columns`, in their order.
pub open spec fn column_names<V>(columns: Seq<Column<V>>) -> Seq<Seq<char>> {
    Seq::new(columns.len(), |j: int| columns[j].name@)
}

/// The views of `names`, in their order.
pub open spec fn name_views(names: Seq<Identity>) -> Seq<Seq<char>> {
    Seq::new(names.len(), |j: int| names[j]@)
}

/// A computable quantity.
///
/// `name`, `data_type` and `dependencies` are read once, when the metric
/// enters a registry. `compute` is called with the columns of the metrics
/// named by `dependencies`, in that order, and never starts a resolution of
/// its own.
///
/// A metric may promise more of its methods by overriding the relations
/// `is_name`, `is_data_type`, `are_dependencies` and `computes`, and then
/// has to prove the methods against them. As they stand they promise
/// nothing.
pub trait Metric {
    /// The values that metrics of this family produce.
    type Value;

    /// Why a computation failed.
    type Failure;

    /// What the metric promises of `compute`: whether `outcome` is one that
    /// `compute` may come to on `resolved`. A metric that promises nothing
    /// leaves this as it is; one that overrides it has to prove its
    /// `compute` against it.
    open spec fn computes(
        &self,
        resolved: Seq<Column<Self::Value>>,
        outcome: Result<Self::Value, Self::Failure>,
    ) -> bool {
        true
    }

    /// What the metric promises of `name`: whether it may give this name.
    /// It promises nothing unless this is overridden.
    open spec fn is_name(&self, name: Seq<char>) -> bool {
        true
    }

    /// What the metric promises of `data_type`, in the same way.
    open spec fn is_data_type(&self, data_type: DataType) -> bool {
        true
    }

    /// What the metric promises of `dependencies`, in the same way.
    open spec fn are_dependencies(&self, dependencies: Seq<Seq<char>>) -> bool {
        true
    }

    fn name(&self) -> (name: Identity)
        ensures
            self.is_name(name@),
    ;

    fn data_type(&self) -> (data_type: DataType)
        ensures
            self.is_data_type(data_type),
    ;

    fn dependencies(&self) -> (dependencies: Vec<Identity>)
        ensures
            self.are_dependencies(name_views(dependencies@)),
    ;

    /// Computes the metric from the columns of the metrics it needs:
    /// `resolved` carries the names of a dependency list that the metric
    /// may declare, in the order of that list.
    fn compute(&self, resolved: &Vec<&Column<Self::Value>>) -> (outcome: Result<
        Self::Value,
        Self::Failure,
    >)
        requires
            self.are_dependencies(column_names(pointed(resolved@))),
        ensures
            self.computes(pointed(resolved@), outcome),
    ;
}

/// `declaration` is one that `metric` may make of itself.
pub open spec fn declared_by<M: Metric>(metric: M, declaration: Declaration) -> bool {
    &&& metric.is_name(declaration.name@)
    &&& metric.is_data_type(declaration.data_type)
    &&& metric.are_dependencies(name_views(declaration.dependencies@))
}

/// Each of `declarations` is one that the metric at its position may make
/// of itself.
pub open spec fn declared_each<M: Metric>(
    metrics: Seq<M>,
    declarations: Seq<Declaration>,
) -> bool {
    &&& metrics.len() == declarations.len()
    &&& forall|i: int|
        0 <= i < metrics.len() ==> declared_by(#[trigger] metrics[i], declarations[i])
}

/// The names that `declarations` declare, in their order.
pub open spec fn declared_names(declarations: Seq<Declaration>) -> Seq<Seq<char>> {
    Seq::new(declarations.len(), |i: int| declarations[i].name@)
}

/// The data types that `declarations` declare, in their order.
pub open spec fn declared_types(declarations: Seq<Declaration>) -> Seq<DataType> {
    Seq::new(declarations.len(), |i: int| declarations[i].data_type)
}

/// For each of `declarations`, the names it needs, in their order.
pub open spec fn declared_needs(declarations: Seq<Declaration>) -> Seq<Seq<Seq<char>>> {
    Seq::new(declarations.len(), |i: int| name_views(declarations[i].dependencies@))
}

} // verus!
