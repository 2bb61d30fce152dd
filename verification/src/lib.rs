//! A memoizing store of derived metrics.
//!
//! A [`Row`] caches the value of every metric that was computed for one
//! record. Asking a row for a metric that it lacks discovers what the
//! metric needs, refuses a dependency cycle before anything is computed,
//! and computes the missing metrics in dependency order, each once.
//!
//! - [`metric`]: what a metric declares and computes.
//! - [`store`]: the columns of a row, each written once.
//! - [`registry`]: the metrics that can be asked for, linked into a graph.
//! - [`graph`] and [`search`]: paths, cycles and dependency orders.
//! - [`resolution`]: what a request comes to, as a relation between the row
//!   before and after it.
//! - [`row`]: the row and its operations.
//! - [`laws`]: what holds of every request.

pub mod graph;
pub mod laws;
pub mod metric;
pub mod registry;
pub mod resolution;
pub mod row;
pub mod search;
pub mod store;

pub use metric::{Column, DataType, Declaration, Identity, Metric};
pub use registry::{link, Registry, RegistryError};
pub use resolution::ResolutionError;
pub use row::Row;
pub use search::dependency_order;
pub use store::ColumnStore;
