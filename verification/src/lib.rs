//! An in-memory directed graph store with pluggable vertex payloads, and a
//! visitor abstraction that runs a cycle-tolerant topological sort over it.
//!
//! * [`comparable`]: the three-way comparison that payload types supply.
//! * [`model`]: the mathematical model of a store.
//! * [`order`]: orders of vertices, and what makes one topological.
//! * [`search`]: the depth-first order as a mathematical function.
//! * [`graph`]: the store itself, [`graph::Graph`], behind [`graph::IGraph`].
//! * [`visitor`]: [`visitor::IGraphVisitor`] and [`visitor::TopoSortVisitor`].
//! * [`laws`]: facts that relate several operations of the store.
//! * [`util`]: a small integer helper.

pub mod comparable;
pub mod graph;
pub mod laws;
pub mod model;
pub mod order;
pub mod search;
pub mod util;
pub mod visitor;

pub use comparable::Comparable;
pub use graph::Graph;
pub use graph::IGraph;
pub use graph::NOT_FOUND;
pub use model::GraphModel;
pub use util::add_one;
pub use visitor::IGraphVisitor;
pub use visitor::TopoSortVisitor;
