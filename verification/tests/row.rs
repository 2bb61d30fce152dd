use std::cell::RefCell;
use std::rc::Rc;

use kodiak::{Column, DataType, Metric, Registry, RegistryError, ResolutionError, Row};

const INTEGER: DataType = DataType { tag: 1 };
const RATIO: DataType = DataType { tag: 2 };

type Log = Rc<RefCell<Vec<String>>>;

#[derive(Clone, Copy)]
enum Rule {
    Constant(i64),
    Sum,
    Quotient,
    Fail,
    FailOnce,
}

struct Demo {
    name: &'static str,
    data_type: DataType,
    needs: Vec<&'static str>,
    rule: Rule,
    log: Log,
    failed: RefCell<bool>,
}

impl Demo {
    fn new(name: &'static str, needs: &[&'static str], rule: Rule, log: &Log) -> Demo {
        Demo {
            name,
            data_type: INTEGER,
            needs: needs.to_vec(),
            rule,
            log: log.clone(),
            failed: RefCell::new(false),
        }
    }

    fn typed(mut self, data_type: DataType) -> Demo {
        self.data_type = data_type;
        self
    }
}

impl Metric for Demo {
    type Value = i64;
    type Failure = String;

    fn name(&self) -> String {
        self.name.to_string()
    }

    fn data_type(&self) -> DataType {
        self.data_type
    }

    fn dependencies(&self) -> Vec<String> {
        self.needs.iter().map(|n| n.to_string()).collect()
    }

    fn compute(&self, resolved: &Vec<&Column<i64>>) -> Result<i64, String> {
        let seen: Vec<&str> = resolved.iter().map(|c| c.name.as_str()).collect();
        assert_eq!(seen, self.needs);
        self.log.borrow_mut().push(self.name.to_string());
        match self.rule {
            Rule::Constant(v) => Ok(v),
            Rule::Sum => Ok(resolved.iter().map(|c| c.value).sum()),
            Rule::Quotient => Ok(resolved[1].value / resolved[0].value),
            Rule::Fail => Err(format!("{} is unavailable", self.name)),
            Rule::FailOnce => {
                if self.failed.replace(true) {
                    Ok(1)
                } else {
                    Err(format!("{} timed out", self.name))
                }
            }
        }
    }
}

fn log() -> Log {
    Rc::new(RefCell::new(Vec::new()))
}

fn calls(log: &Log) -> Vec<String> {
    log.borrow().clone()
}

fn id(name: &str) -> String {
    name.to_string()
}

fn averages(log: &Log) -> Registry<Demo> {
    Registry::new(vec![
        Demo::new("average", &["count", "sum"], Rule::Quotient, log).typed(RATIO),
        Demo::new("count", &[], Rule::Constant(4), log),
        Demo::new("sum", &[], Rule::Constant(20), log),
    ])
    .unwrap()
}

#[test]
fn new_row_holds_nothing() {
    let row: Row<i64> = Row::new();
    assert!(!row.contains(&id("count")));
    assert_eq!(row.get_data(&id("count"), INTEGER), None);
}

#[test]
fn average_resolves_its_dependencies_first() {
    let log = log();
    let registry = averages(&log);
    let mut row: Row<i64> = Row::new();
    assert_eq!(row.get(&registry, &id("average")), Ok(&5));
    assert_eq!(calls(&log), vec!["count", "sum", "average"]);
    assert!(row.contains(&id("count")));
    assert!(row.contains(&id("sum")));
    assert!(row.contains(&id("average")));
}

#[test]
fn cached_dependency_is_not_recomputed() {
    let log = log();
    let registry = averages(&log);
    let mut row: Row<i64> = Row::new();
    assert_eq!(row.get(&registry, &id("average")), Ok(&5));
    assert_eq!(row.get(&registry, &id("count")), Ok(&4));
    assert_eq!(calls(&log), vec!["count", "sum", "average"]);
}

#[test]
fn second_request_returns_the_first_value_without_a_call() {
    let log = log();
    let registry = averages(&log);
    let mut row: Row<i64> = Row::new();
    let first = *row.get(&registry, &id("sum")).unwrap();
    let second = *row.get(&registry, &id("sum")).unwrap();
    assert_eq!(first, 20);
    assert_eq!(second, first);
    assert_eq!(calls(&log), vec!["sum"]);
}

#[test]
fn cached_columns_are_used_by_later_requests() {
    let log = log();
    let registry = averages(&log);
    let mut row: Row<i64> = Row::new();
    assert_eq!(row.get(&registry, &id("count")), Ok(&4));
    assert_eq!(row.get(&registry, &id("average")), Ok(&5));
    assert_eq!(calls(&log), vec!["count", "sum", "average"]);
}

#[test]
fn get_data_reads_the_cache_only() {
    let log = log();
    let registry = averages(&log);
    let mut row: Row<i64> = Row::new();
    assert_eq!(row.get_data(&id("average"), RATIO), None);
    assert!(calls(&log).is_empty());
    row.get(&registry, &id("average")).unwrap();
    assert_eq!(row.get_data(&id("average"), RATIO), Some(&5));
    assert_eq!(row.get_data(&id("sum"), INTEGER), Some(&20));
    assert_eq!(calls(&log).len(), 3);
}

#[test]
fn computed_columns_carry_their_declared_type() {
    let log = log();
    let registry = averages(&log);
    let mut row: Row<i64> = Row::new();
    row.get(&registry, &id("average")).unwrap();
    let store = row.columns();
    assert_eq!(store.column(&id("average")).unwrap().data_type, RATIO);
    assert_eq!(store.column(&id("count")).unwrap().data_type, INTEGER);
    assert_eq!(store.column(&id("sum")).unwrap().data_type, INTEGER);
}

#[test]
fn cycle_is_refused_before_any_computation() {
    let log = log();
    let registry = Registry::new(vec![
        Demo::new("a", &["b"], Rule::Sum, &log),
        Demo::new("b", &["a"], Rule::Sum, &log),
    ])
    .unwrap();
    let mut row: Row<i64> = Row::new();
    assert_eq!(
        row.get(&registry, &id("a")),
        Err(ResolutionError::CyclicDependency(vec![id("a"), id("b"), id("a")]))
    );
    assert!(calls(&log).is_empty());
    assert!(!row.contains(&id("a")));
    assert!(!row.contains(&id("b")));
}

#[test]
fn cycle_behind_resolvable_dependencies_computes_nothing() {
    let log = log();
    let registry = Registry::new(vec![
        Demo::new("top", &["leaf", "loop"], Rule::Sum, &log),
        Demo::new("leaf", &[], Rule::Constant(1), &log),
        Demo::new("loop", &["loop"], Rule::Sum, &log),
    ])
    .unwrap();
    let mut row: Row<i64> = Row::new();
    assert_eq!(
        row.get(&registry, &id("top")),
        Err(ResolutionError::CyclicDependency(vec![id("loop"), id("loop")]))
    );
    assert!(calls(&log).is_empty());
    assert!(!row.contains(&id("leaf")));
    assert_eq!(row.get(&registry, &id("leaf")), Ok(&1));
}

#[test]
fn failing_dependency_fails_the_dependent() {
    let log = log();
    let registry = Registry::new(vec![
        Demo::new("x", &["y"], Rule::Sum, &log),
        Demo::new("y", &[], Rule::Fail, &log),
    ])
    .unwrap();
    let mut row: Row<i64> = Row::new();
    assert_eq!(
        row.get(&registry, &id("x")),
        Err(ResolutionError::ComputeError(id("y"), id("y is unavailable")))
    );
    assert!(!row.contains(&id("x")));
    assert!(!row.contains(&id("y")));
    assert_eq!(calls(&log), vec!["y"]);
}

#[test]
fn failure_leaves_unrelated_metrics_resolvable() {
    let log = log();
    let registry = Registry::new(vec![
        Demo::new("a", &["b"], Rule::Sum, &log),
        Demo::new("b", &[], Rule::Fail, &log),
        Demo::new("c", &[], Rule::Constant(9), &log),
    ])
    .unwrap();
    let mut row: Row<i64> = Row::new();
    assert_eq!(
        row.get(&registry, &id("a")),
        Err(ResolutionError::ComputeError(id("b"), id("b is unavailable")))
    );
    assert_eq!(row.get(&registry, &id("c")), Ok(&9));
    assert_eq!(calls(&log), vec!["b", "c"]);
    assert!(!row.contains(&id("a")));
}

#[test]
fn failure_keeps_what_was_computed_and_retry_resumes() {
    let log = log();
    let registry = Registry::new(vec![
        Demo::new("total", &["steady", "flaky"], Rule::Sum, &log),
        Demo::new("steady", &[], Rule::Constant(41), &log),
        Demo::new("flaky", &[], Rule::FailOnce, &log),
    ])
    .unwrap();
    let mut row: Row<i64> = Row::new();
    assert_eq!(
        row.get(&registry, &id("total")),
        Err(ResolutionError::ComputeError(id("flaky"), id("flaky timed out")))
    );
    assert!(row.contains(&id("steady")));
    assert!(!row.contains(&id("flaky")));
    assert!(!row.contains(&id("total")));
    assert_eq!(row.get(&registry, &id("total")), Ok(&42));
    assert_eq!(calls(&log), vec!["steady", "flaky", "flaky", "total"]);
}

#[test]
fn shared_dependency_is_computed_once() {
    let log = log();
    let registry = Registry::new(vec![
        Demo::new("top", &["left", "right"], Rule::Sum, &log),
        Demo::new("left", &["base"], Rule::Sum, &log),
        Demo::new("right", &["base"], Rule::Sum, &log),
        Demo::new("base", &[], Rule::Constant(3), &log),
    ])
    .unwrap();
    let mut row: Row<i64> = Row::new();
    assert_eq!(row.get(&registry, &id("top")), Ok(&6));
    assert_eq!(calls(&log), vec!["base", "left", "right", "top"]);
}

#[test]
fn unknown_metric_is_refused() {
    let log = log();
    let registry = averages(&log);
    let mut row: Row<i64> = Row::new();
    assert_eq!(
        row.get(&registry, &id("median")),
        Err(ResolutionError::UnknownMetric(id("median")))
    );
    assert!(calls(&log).is_empty());
}

#[test]
fn column_of_another_type_is_a_mismatch() {
    let log = log();
    let registry = averages(&log);
    let mut row: Row<i64> = Row::new();
    let noted: Result<(), ResolutionError<String>> = row.record(id("average"), INTEGER, Ok(7));
    assert_eq!(noted, Ok(()));
    assert_eq!(
        row.get(&registry, &id("average")),
        Err(ResolutionError::TypeMismatch(id("average")))
    );
    assert!(calls(&log).is_empty());
    assert_eq!(row.columns().column(&id("average")).unwrap().value, 7);
}

#[test]
fn record_stores_a_value_and_reports_a_failure() {
    let mut row: Row<i64> = Row::new();
    let stored: Result<(), ResolutionError<String>> = row.record(id("count"), INTEGER, Ok(4));
    assert_eq!(stored, Ok(()));
    assert_eq!(row.get_data(&id("count"), INTEGER), Some(&4));
    let failed = row.record(id("sum"), INTEGER, Err(id("no route")));
    assert_eq!(failed, Err(ResolutionError::ComputeError(id("sum"), id("no route"))));
    assert!(!row.contains(&id("sum")));
}

#[test]
fn execute_walks_the_given_order() {
    let log = log();
    let registry = averages(&log);
    let mut row: Row<i64> = Row::new();
    assert_eq!(row.execute(&registry, &vec![2, 1]), Ok(()));
    assert_eq!(calls(&log), vec!["sum", "count"]);
    assert_eq!(row.execute(&registry, &vec![1, 2, 0]), Ok(()));
    assert_eq!(calls(&log), vec!["sum", "count", "average"]);
    assert_eq!(row.get_data(&id("average"), RATIO), Some(&5));
}

#[test]
fn registry_refuses_a_repeated_name() {
    let log = log();
    let r = Registry::new(vec![
        Demo::new("count", &[], Rule::Constant(1), &log),
        Demo::new("sum", &[], Rule::Constant(2), &log),
        Demo::new("count", &[], Rule::Constant(3), &log),
    ]);
    assert_eq!(r.err(), Some(RegistryError::DuplicateName(id("count"))));
}

#[test]
fn registry_refuses_an_undeclared_dependency() {
    let log = log();
    let r = Registry::new(vec![
        Demo::new("count", &[], Rule::Constant(1), &log),
        Demo::new("average", &["count", "sum"], Rule::Quotient, &log),
    ]);
    assert_eq!(
        r.err(),
        Some(RegistryError::UnknownDependency { metric: id("average"), dependency: id("sum") })
    );
}

#[test]
fn registry_gives_each_metric_its_node() {
    let log = log();
    let registry = averages(&log);
    assert_eq!(registry.len(), 3);
    assert_eq!(registry.index_of(&id("average")), Some(0));
    assert_eq!(registry.index_of(&id("sum")), Some(2));
    assert_eq!(registry.index_of(&id("median")), None);
    assert_eq!(registry.name(1), "count");
    assert_eq!(registry.data_type(0), RATIO);
    assert_eq!(registry.dependencies(0), &vec![id("count"), id("sum")]);
    assert_eq!(registry.edges(), &vec![vec![1, 2], vec![], vec![]]);
    assert_eq!(registry.metric(2).name, "sum");
}

#[test]
fn chain_is_computed_from_its_far_end() {
    let log = log();
    let registry = Registry::new(vec![
        Demo::new("d", &["c"], Rule::Sum, &log),
        Demo::new("b", &["a"], Rule::Sum, &log),
        Demo::new("c", &["b"], Rule::Sum, &log),
        Demo::new("a", &[], Rule::Constant(11), &log),
    ])
    .unwrap();
    let mut row: Row<i64> = Row::new();
    assert_eq!(row.get(&registry, &id("b")), Ok(&11));
    assert_eq!(calls(&log), vec!["a", "b"]);
    assert_eq!(row.get(&registry, &id("d")), Ok(&11));
    assert_eq!(calls(&log), vec!["a", "b", "c", "d"]);
}

#[test]
fn rows_do_not_share_their_columns() {
    let log = log();
    let registry = averages(&log);
    let mut first: Row<i64> = Row::new();
    let mut second: Row<i64> = Row::new();
    assert_eq!(first.get(&registry, &id("count")), Ok(&4));
    assert!(!second.contains(&id("count")));
    assert_eq!(second.get(&registry, &id("count")), Ok(&4));
    assert_eq!(calls(&log), vec!["count", "count"]);
}
