//! GeoRBF: geological radial-basis-function modelling core.
//!
//! This crate holds the integer, index and identity logic of the library:
//! stable error categories, row/column layouts, problem-size accounting and
//! structural preflight over a problem's declared inputs, exact dyadic
//! arithmetic, graph analysis and contradictory cycles used by conflict
//! proofs, the union-find forest of hard value equalities, batch-query
//! capacity planning, and typed fit diagnostics.
pub mod conflicts;
pub mod diagnostics;
pub mod dyadic;
pub mod error;
pub mod faer_backend;
pub mod fit;
pub mod functional;
pub mod geometry;
pub mod graph;
pub mod greedy;
pub mod inventory;
pub mod kernel;
pub mod layout;
pub mod model;
pub mod parameters;
pub mod preflight;
pub mod relaxation;
pub mod text;
pub mod value_forest;
pub mod witness;

pub use error::Error;
pub use functional::{DofLabel, GroupId, SemanticRolePath, SourceId};
pub use geometry::ConstraintError;
pub use parameters::{Axis, InternalParameters, ModelType, SolverType};
