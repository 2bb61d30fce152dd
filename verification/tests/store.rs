use kodiak::{dependency_order, link, Column, ColumnStore, DataType, Declaration};
use kodiak::RegistryError;

const WORD: DataType = DataType { tag: 7 };
const FLAG: DataType = DataType { tag: 8 };

fn id(name: &str) -> String {
    name.to_string()
}

fn declaration(name: &str, needs: &[&str]) -> Declaration {
    Declaration {
        name: id(name),
        data_type: WORD,
        dependencies: needs.iter().map(|n| id(n)).collect(),
    }
}

#[test]
fn empty_store_holds_nothing() {
    let store: ColumnStore<String> = ColumnStore::new();
    assert!(!store.contains(&id("a")));
    assert!(store.column(&id("a")).is_none());
    assert_eq!(store.get_typed(&id("a"), WORD), None);
    assert!(store.gather(&Vec::new()).is_empty());
}

#[test]
fn insert_then_read_back() {
    let mut store: ColumnStore<String> = ColumnStore::new();
    store.insert(id("a"), WORD, id("alpha"));
    store.insert(id("b"), FLAG, id("beta"));
    assert!(store.contains(&id("a")));
    assert!(store.contains(&id("b")));
    assert!(!store.contains(&id("c")));
    assert_eq!(store.get_typed(&id("a"), WORD), Some(&id("alpha")));
    assert_eq!(store.get_typed(&id("b"), FLAG), Some(&id("beta")));
    let column = store.column(&id("b")).unwrap();
    assert_eq!(column.name, "b");
    assert_eq!(column.data_type, FLAG);
    assert_eq!(column.value, "beta");
    assert_eq!(store.fetch(&id("a")).value, "alpha");
}

#[test]
fn insert_keeps_earlier_columns() {
    let mut store: ColumnStore<u8> = ColumnStore::new();
    store.insert(id("first"), WORD, 1);
    store.insert(id("second"), WORD, 2);
    store.insert(id("third"), WORD, 3);
    assert_eq!(store.get_typed(&id("first"), WORD), Some(&1));
    assert_eq!(store.get_typed(&id("second"), WORD), Some(&2));
    assert_eq!(store.get_typed(&id("third"), WORD), Some(&3));
}

#[test]
fn gather_follows_the_order_of_the_names() {
    let mut store: ColumnStore<u8> = ColumnStore::new();
    store.insert(id("x"), WORD, 10);
    store.insert(id("y"), WORD, 20);
    store.insert(id("z"), FLAG, 30);
    let columns: Vec<&Column<u8>> = store.gather(&vec![id("z"), id("x")]);
    assert_eq!(columns.len(), 2);
    assert_eq!(columns[0].name, "z");
    assert_eq!(columns[0].value, 30);
    assert_eq!(columns[0].data_type, FLAG);
    assert_eq!(columns[1].name, "x");
    assert_eq!(columns[1].value, 10);
}

#[test]
fn link_resolves_names_to_nodes() {
    let declarations = vec![
        declaration("average", &["count", "sum"]),
        declaration("count", &[]),
        declaration("sum", &[]),
        declaration("spread", &["average", "sum", "average"]),
    ];
    assert_eq!(link(&declarations), Ok(vec![vec![1, 2], vec![], vec![], vec![0, 2, 0]]));
}

#[test]
fn link_of_nothing_is_empty() {
    assert_eq!(link(&Vec::new()), Ok(Vec::new()));
}

#[test]
fn link_reports_the_first_repeated_name() {
    let declarations = vec![
        declaration("a", &[]),
        declaration("b", &[]),
        declaration("c", &[]),
        declaration("b", &[]),
        declaration("a", &[]),
    ];
    assert_eq!(link(&declarations), Err(RegistryError::DuplicateName(id("b"))));
}

#[test]
fn link_reports_a_repeated_name_before_an_unknown_need() {
    let declarations =
        vec![declaration("a", &["missing"]), declaration("b", &[]), declaration("a", &[])];
    assert_eq!(link(&declarations), Err(RegistryError::DuplicateName(id("a"))));
}

#[test]
fn link_reports_the_first_unknown_need() {
    let declarations = vec![
        declaration("a", &["b"]),
        declaration("b", &["a", "lost", "gone"]),
        declaration("c", &["nowhere"]),
    ];
    assert_eq!(
        link(&declarations),
        Err(RegistryError::UnknownDependency { metric: id("b"), dependency: id("lost") })
    );
}

#[test]
fn order_of_a_single_node() {
    assert_eq!(dependency_order(&vec![vec![]], 0), Ok(vec![0]));
}

#[test]
fn order_lists_needs_before_dependents() {
    let edges = vec![vec![1, 2], vec![3], vec![3], vec![], vec![0]];
    assert_eq!(dependency_order(&edges, 0), Ok(vec![3, 1, 2, 0]));
    assert_eq!(dependency_order(&edges, 2), Ok(vec![3, 2]));
    assert_eq!(dependency_order(&edges, 4), Ok(vec![3, 1, 2, 0, 4]));
}

#[test]
fn order_tolerates_a_repeated_edge() {
    let edges = vec![vec![1, 1], vec![]];
    assert_eq!(dependency_order(&edges, 0), Ok(vec![1, 0]));
}

#[test]
fn order_reports_a_self_loop() {
    assert_eq!(dependency_order(&vec![vec![0]], 0), Err(vec![0, 0]));
}

#[test]
fn order_reports_the_cycle_not_the_way_to_it() {
    let edges = vec![vec![1], vec![2], vec![3], vec![1]];
    assert_eq!(dependency_order(&edges, 0), Err(vec![1, 2, 3, 1]));
    assert_eq!(dependency_order(&edges, 2), Err(vec![2, 3, 1, 2]));
}

#[test]
fn order_ignores_a_cycle_out_of_reach() {
    let edges = vec![vec![1], vec![], vec![3], vec![2]];
    assert_eq!(dependency_order(&edges, 0), Ok(vec![1, 0]));
}

#[test]
fn order_of_a_long_chain() {
    let n: usize = 2000;
    let mut edges: Vec<Vec<usize>> = (0..n - 1).map(|i| vec![i + 1]).collect();
    edges.push(Vec::new());
    let expected: Vec<usize> = (0..n).rev().collect();
    assert_eq!(dependency_order(&edges, 0), Ok(expected));
    edges[n - 1].push(n / 2);
    let cycle = dependency_order(&edges, 0).unwrap_err();
    assert_eq!(cycle.len(), n - n / 2 + 1);
    assert_eq!(cycle.first(), Some(&(n / 2)));
    assert_eq!(cycle.last(), Some(&(n / 2)));
}
