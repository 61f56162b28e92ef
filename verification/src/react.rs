//! The reactive computation graph.
//!
//! A [`Reactor`] owns input cells and compute cells. Setting an input
//! runs one batch: everything downstream of the input is marked stale,
//! then resolved depth-first, each cell recomputing once all of its
//! dependencies are resolved. Callbacks of a cell fire once per batch,
//! and only if the cell's value changed.

pub mod ids;
pub mod laws;
pub mod lemmas;
pub mod model;
pub mod reactor;

pub use ids::{CallbackId, CellId, ComputeCellId, InputCellId, RemoveCallbackError};
pub use reactor::{BoxedReactor, Reactor};
