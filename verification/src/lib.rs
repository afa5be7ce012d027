//! A minimal reverse-mode automatic-differentiation engine over scalar
//! computation graphs. Nodes live in an append-only arena ([`Session`]) and
//! reference only earlier nodes, so ascending identifier order is always a
//! topological order. A [`Graph`] is the sorted ancestor closure of a chosen
//! output set; it evaluates forward with memoization and constructs, by
//! reverse accumulation of the chain rule, a second graph whose evaluation
//! yields every partial derivative at once ([`DerivMap`]).
//!
//! Scalar values travel as opaque IEEE-754 single-precision bit patterns
//! ([`Val`]); all arithmetic on them is delegated to an evaluator callback
//! supplied by the caller, so the engine itself is independent of the
//! floating-point unit while its graph logic is fully specified.

pub mod graph;
pub mod laws;
pub mod node;
pub mod operation;
pub mod session;

pub use graph::DerivMap;
pub use graph::Graph;
pub use node::Node;
pub use operation::Idx;
pub use operation::Operation;
pub use operation::ScalarOp;
pub use operation::Val;
pub use session::Session;
