//! The metrics that a row can be asked for, with their declarations linked
//! into a dependency graph.

use vstd::prelude::*;
use crate::graph::{adjacency, closed_graph};
use crate::metric::{
    declared_by, declared_each, declared_names, declared_needs, declared_types, DataType,
    Declaration, Identity, Metric,
};

verus! {

/// Why a set of metrics cannot form a registry.
#[derive(Debug, PartialEq, Eq)]
pub enum RegistryError {
    /// Two metrics declare this name.
    DuplicateName(Identity),
    /// `metric` needs `dependency`, which no metric declares.
    UnknownDependency { metric: Identity, dependency: Identity },
}

/// No name occurs twice.
pub open spec fn names_distinct(names: Seq<Seq<char>>) -> bool {
    forall|i: int, j: int| 0 <= i < j < names.len() ==> names[i] != names[j]
}

/// Position `j` holds a name that stands before it too, and is the first
/// position that does.
pub open spec fn first_repeat(names: Seq<Seq<char>>, j: int) -> bool {
    &&& 0 <= j < names.len()
    &&& exists|i: int| 0 <= i < j && names[i] == names[j]
    &&& forall|a: int, b: int| 0 <= a < b < j ==> names[a] != names[b]
}

/// Every needed name is declared.
pub open spec fn all_known(names: Seq<Seq<char>>, needs: Seq<Seq<Seq<char>>>) -> bool {
    forall|i: int, j: int|
        0 <= i < needs.len() && 0 <= j < needs[i].len() ==> names.contains(#[trigger] needs[i][j])
}

/// The `j`-th need of declaration `i` is not declared, and is the first
/// such need in the order of the declarations and of their needs.
pub open spec fn first_unknown(
    names: Seq<Seq<char>>,
    needs: Seq<Seq<Seq<char>>>,
    i: int,
    j: int,
) -> bool {
    &&& 0 <= i < needs.len()
    &&& 0 <= j < needs[i].len()
    &&& !names.contains(needs[i][j])
    &&& forall|a: int, b: int|
        0 <= a < i && 0 <= b < needs[a].len() ==> names.contains(#[trigger] needs[a][b])
    &&& forall|b: int| 0 <= b < j ==> names.contains(#[trigger] needs[i][b])
}

/// `g` has one node per declaration and one edge per need, which ends at
/// the node that declares the needed name.
pub open spec fn links(
    names: Seq<Seq<char>>,
    needs: Seq<Seq<Seq<char>>>,
    g: Seq<Seq<usize>>,
) -> bool {
    &&& g.len() == needs.len()
    &&& forall|i: int| 0 <= i < g.len() ==> (#[trigger] g[i]).len() == needs[i].len()
    &&& forall|i: int, j: int|
        0 <= i < g.len() && 0 <= j < g[i].len() ==> (#[trigger] g[i][j]) < names.len()
            && names[g[i][j] as int] == needs[i][j]
}

/// The node that declares `name`.
pub open spec fn node_of(names: Seq<Seq<char>>, name: Seq<char>) -> usize {
    choose|i: usize| i < names.len() && names[i as int] == name
}

/// A declared name has a node, and the node carries the name.
pub proof fn lemma_node_of_known(names: Seq<Seq<char>>, name: Seq<char>)
    requires
        names.contains(name),
        names.len() <= usize::MAX,
    ensures
        node_of(names, name) < names.len(),
        names[node_of(names, name) as int] == name,
{
    let i: int = choose|i: int| 0 <= i < names.len() && names[i] == name;
    let at: usize = i as usize;
    assert(at < names.len() && names[at as int] == name);
}

/// Among distinct names, a name stands at one position only.
pub proof fn lemma_node_of(names: Seq<Seq<char>>, i: usize)
    requires
        names_distinct(names),
        i < names.len(),
    ensures
        node_of(names, names[i as int]) == i,
{
    let k: usize = node_of(names, names[i as int]);
    assert(k < names.len() && names[k as int] == names[i as int]);
    if k < i {
        assert(names[k as int] != names[i as int]);
    }
    if i < k {
        assert(names[i as int] != names[k as int]);
    }
}

/// The first declaration named `name`.
fn find(declarations: &Vec<Declaration>, name: &Identity) -> (at: Option<usize>)
    ensures
        at is Some <==> declared_names(declarations@).contains(name@),
        at matches Some(i) ==> i < declarations.len() && declarations[i as int].name@ == name@,
{
    let ghost names: Seq<Seq<char>> = declared_names(declarations@);
    let mut i: usize = 0;
    while i < declarations.len()
        invariant
            i <= declarations.len(),
            names == declared_names(declarations@),
            forall|k: int| 0 <= k < i ==> names[k] != name@,
        decreases declarations.len() - i,
    {
        if declarations[i].name == *name {
            assert(names[i as int] == name@);
            return Some(i);
        }
        i += 1;
    }
    None
}

/// Checks that no name is declared twice.
fn check_distinct(declarations: &Vec<Declaration>) -> (r: Result<(), RegistryError>)
    ensures
        r is Ok <==> names_distinct(declared_names(declarations@)),
        r matches Err(e) ==> e matches RegistryError::DuplicateName(name) && exists|j: int|
            first_repeat(declared_names(declarations@), j) && name@ == declared_names(
                declarations@,
            )[j],
{
    let ghost names: Seq<Seq<char>> = declared_names(declarations@);
    let mut j: usize = 0;
    while j < declarations.len()
        invariant
            j <= declarations.len(),
            names == declared_names(declarations@),
            forall|a: int, b: int| 0 <= a < b < j ==> names[a] != names[b],
        decreases declarations.len() - j,
    {
        let mut i: usize = 0;
        while i < j
            invariant
                i <= j < declarations.len(),
                names == declared_names(declarations@),
                forall|a: int, b: int| 0 <= a < b < j ==> names[a] != names[b],
                forall|a: int| 0 <= a < i ==> names[a] != names[j as int],
            decreases j - i,
        {
            if declarations[i].name == declarations[j].name {
                let name: Identity = declarations[j].name.clone();
                proof {
                    assert(names[i as int] == names[j as int]);
                    assert(first_repeat(names, j as int));
                    assert(!names_distinct(names));
                }
                return Err(RegistryError::DuplicateName(name));
            }
            i += 1;
        }
        j += 1;
    }
    Ok(())
}

/// What linking `declarations` must come to: the graph where all names are
/// distinct and all needs declared; else the first name that is declared
/// twice, if there is one; else the first need that no declaration answers.
pub open spec fn linked(
    declarations: Seq<Declaration>,
    outcome: Result<Seq<Seq<usize>>, RegistryError>,
) -> bool {
    let names = declared_names(declarations);
    let needs = declared_needs(declarations);
    &&& outcome is Ok <==> names_distinct(names) && all_known(names, needs)
    &&& outcome matches Ok(g) ==> links(names, needs, g)
    &&& outcome matches Err(RegistryError::DuplicateName(name)) ==> exists|j: int|
        first_repeat(names, j) && name@ == names[j]
    &&& outcome matches Err(RegistryError::UnknownDependency { metric, dependency })
        ==> names_distinct(names) && exists|i: int, j: int|
        first_unknown(names, needs, i, j) && metric@ == names[i] && dependency@ == needs[i][j]
}

/// The outcome of linking, with the graph as adjacency lists.
pub open spec fn link_outcome(r: Result<Vec<Vec<usize>>, RegistryError>) -> Result<
    Seq<Seq<usize>>,
    RegistryError,
> {
    match r {
        Ok(edges) => Ok(adjacency(&edges)),
        Err(e) => Err(e),
    }
}

/// Turns the names that each declaration needs into the nodes that declare
/// them.
///
/// Fails with the first name that is declared twice, if there is one, and
/// else with the first need that no declaration answers.
pub fn link(declarations: &Vec<Declaration>) -> (r: Result<Vec<Vec<usize>>, RegistryError>)
    ensures
        linked(declarations@, link_outcome(r)),
{
    let ghost names: Seq<Seq<char>> = declared_names(declarations@);
    let ghost needs: Seq<Seq<Seq<char>>> = declared_needs(declarations@);
    match check_distinct(declarations) {
        Ok(()) => {},
        Err(e) => {
            return Err(e);
        },
    }
    let mut edges: Vec<Vec<usize>> = Vec::new();
    let mut i: usize = 0;
    while i < declarations.len()
        invariant
            i <= declarations.len(),
            names == declared_names(declarations@),
            needs == declared_needs(declarations@),
            names_distinct(names),
            edges.len() == i,
            forall|a: int, b: int|
                0 <= a < i && 0 <= b < needs[a].len() ==> names.contains(#[trigger] needs[a][b]),
            forall|a: int| 0 <= a < i ==> (#[trigger] edges[a]).len() == needs[a].len(),
            forall|a: int, b: int|
                0 <= a < i && 0 <= b < edges[a].len() ==> (#[trigger] edges[a][b]) < names.len()
                    && names[edges[a][b] as int] == needs[a][b],
        decreases declarations.len() - i,
    {
        let wanted: &Vec<Identity> = &declarations[i].dependencies;
        let mut row: Vec<usize> = Vec::new();
        let mut j: usize = 0;
        while j < wanted.len()
            invariant
                i < declarations.len(),
                j <= wanted.len(),
                wanted == &declarations[i as int].dependencies,
                names == declared_names(declarations@),
                needs == declared_needs(declarations@),
                names_distinct(names),
                row.len() == j,
                forall|a: int, b: int|
                    0 <= a < i && 0 <= b < needs[a].len() ==> names.contains(
                        #[trigger] needs[a][b],
                    ),
                forall|b: int|
                    0 <= b < j ==> (#[trigger] row[b]) < names.len() && names[row[b] as int]
                        == needs[i as int][b],
            decreases wanted.len() - j,
        {
            assert(needs[i as int][j as int] == wanted[j as int]@);
            match find(declarations, &wanted[j]) {
                Some(node) => {
                    assert(names[node as int] == needs[i as int][j as int]);
                    row.push(node);
                },
                None => {
                    let metric: Identity = declarations[i].name.clone();
                    let dependency: Identity = wanted[j].clone();
                    proof {
                        assert forall|b: int| 0 <= b < j implies names.contains(
                            #[trigger] needs[i as int][b],
                        ) by {
                            assert(names[row[b] as int] == needs[i as int][b]);
                        }
                        assert(first_unknown(names, needs, i as int, j as int));
                        assert(!all_known(names, needs));
                        assert(metric@ == names[i as int]);
                    }
                    return Err(RegistryError::UnknownDependency { metric, dependency });
                },
            }
            j += 1;
        }
        proof {
            assert forall|b: int| 0 <= b < needs[i as int].len() implies names.contains(
                #[trigger] needs[i as int][b],
            ) by {
                assert(names[row[b] as int] == needs[i as int][b]);
            }
        }
        edges.push(row);
        i += 1;
    }
    proof {
        let g: Seq<Seq<usize>> = adjacency(&edges);
        assert forall|a: int, b: int| 0 <= a < g.len() && 0 <= b < g[a].len() implies (
        #[trigger] g[a][b]) < names.len() && names[g[a][b] as int] == needs[a][b] by {
            assert(g[a][b] == edges[a][b]);
        }
        assert forall|a: int, b: int|
            0 <= a < needs.len() && 0 <= b < needs[a].len() implies names.contains(
            #[trigger] needs[a][b],
        ) by {
            assert(names[edges[a][b] as int] == needs[a][b]);
        }
    }
    Ok(edges)
}

/// Metrics with their declarations, linked into a dependency graph whose
/// nodes are the positions of the metrics.
pub struct Registry<M> {
    metrics: Vec<M>,
    declarations: Vec<Declaration>,
    edges: Vec<Vec<usize>>,
}

impl<M> Registry<M> {
    /// The registered metrics, in the order of registration.
    pub closed spec fn metrics(&self) -> Seq<M> {
        self.metrics@
    }

    /// What each metric declared when it was registered.
    pub closed spec fn declarations(&self) -> Seq<Declaration> {
        self.declarations@
    }

    /// The dependency graph: node `i` is metric `i`.
    pub closed spec fn graph(&self) -> Seq<Seq<usize>> {
        adjacency(&self.edges)
    }

    /// The name of each metric.
    pub open spec fn names(&self) -> Seq<Seq<char>> {
        declared_names(self.declarations())
    }

    /// The data type of each metric.
    pub open spec fn types(&self) -> Seq<DataType> {
        declared_types(self.declarations())
    }

    /// The names that each metric needs.
    pub open spec fn needs(&self) -> Seq<Seq<Seq<char>>> {
        declared_needs(self.declarations())
    }

    /// The number of metrics.
    pub fn len(&self) -> (n: usize)
        ensures
            n == self.declarations().len(),
    {
        self.declarations.len()
    }

    /// The node of the metric named `name`.
    pub fn index_of(&self, name: &Identity) -> (node: Option<usize>)
        ensures
            node is Some <==> self.names().contains(name@),
            node matches Some(i) ==> i < self.names().len() && self.names()[i as int] == name@,
    {
        find(&self.declarations, name)
    }

    /// The name of the metric at `node`.
    pub fn name(&self, node: usize) -> (name: &Identity)
        requires
            node < self.declarations().len(),
        ensures
            name@ == self.names()[node as int],
    {
        &self.declarations[node].name
    }

    /// The data type of the metric at `node`.
    pub fn data_type(&self, node: usize) -> (data_type: DataType)
        requires
            node < self.declarations().len(),
        ensures
            data_type == self.types()[node as int],
    {
        self.declarations[node].data_type
    }

    /// The names that the metric at `node` needs, as it declared them.
    pub fn dependencies(&self, node: usize) -> (dependencies: &Vec<Identity>)
        requires
            node < self.declarations().len(),
        ensures
            dependencies@.len() == self.needs()[node as int].len(),
            forall|j: int|
                0 <= j < dependencies@.len() ==> (#[trigger] dependencies@[j])@
                    == self.needs()[node as int][j],
    {
        &self.declarations[node].dependencies
    }

    /// The metric at `node`.
    pub fn metric(&self, node: usize) -> (metric: &M)
        requires
            node < self.metrics().len(),
        ensures
            *metric == self.metrics()[node as int],
    {
        &self.metrics[node]
    }

    /// The dependency graph as adjacency lists.
    pub fn edges(&self) -> (edges: &Vec<Vec<usize>>)
        ensures
            adjacency(edges) == self.graph(),
    {
        &self.edges
    }
}

/// Asks `metric` for its name, its data type and the names it needs.
fn declare<M: Metric>(metric: &M) -> (declaration: Declaration)
    ensures
        declared_by(*metric, declaration),
{
    Declaration {
        name: metric.name(),
        data_type: metric.data_type(),
        dependencies: metric.dependencies(),
    }
}

impl<M: Metric> Registry<M> {
    /// Each metric has a declaration that it made of itself, no two share a
    /// name, and the graph links every need to the metric that declares it.
    pub open spec fn wf(&self) -> bool {
        &&& declared_each(self.metrics(), self.declarations())
        &&& names_distinct(self.names())
        &&& links(self.names(), self.needs(), self.graph())
    }

    /// The graph of a well-formed registry has one node per metric and no
    /// edge that leaves it.
    pub proof fn lemma_graph_closed(&self)
        requires
            self.wf(),
        ensures
            self.graph().len() == self.names().len(),
            self.names().len() <= usize::MAX,
            closed_graph(self.graph()),
    {
        assert(self.declarations@.len() == self.declarations.len());
    }

    /// Registers `metrics`: asks each for its declaration and links them.
    ///
    /// Whatever the metrics declare, the outcome is what linking their
    /// declarations comes to.
    pub fn new(metrics: Vec<M>) -> (r: Result<Self, RegistryError>)
        ensures
            r matches Ok(registry) ==> registry.wf() && registry.metrics() == metrics@ && linked(
                registry.declarations(),
                Ok(registry.graph()),
            ),
            r matches Err(e) ==> exists|declarations: Seq<Declaration>|
                declared_each(metrics@, declarations) && #[trigger] linked(declarations, Err(e)),
    {
        let mut declarations: Vec<Declaration> = Vec::new();
        let mut i: usize = 0;
        while i < metrics.len()
            invariant
                i <= metrics.len(),
                declarations.len() == i,
                forall|k: int| 0 <= k < i ==> declared_by(#[trigger] metrics[k], declarations[k]),
            decreases metrics.len() - i,
        {
            declarations.push(declare(&metrics[i]));
            i += 1;
        }
        match link(&declarations) {
            Ok(edges) => Ok(Registry { metrics, declarations, edges }),
            Err(e) => Err(e),
        }
    }
}

} // verus!
