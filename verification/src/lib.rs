//! A small systems toolkit whose centrepiece is a reactive computation
//! graph: input cells, derived cells kept consistent with them, and
//! callbacks that fire exactly when a derived value changes.
//!
//! Beside it stand a few independent utilities: an in-memory file
//! system, ring buffers, a slug maker, a number puzzle, and the decision
//! logic of a barrier, a job scheduler and a small shell.

pub mod barrier;
pub mod pool;
pub mod puzzle;
pub mod react;
pub mod record;
pub mod ring;
pub mod shell;
pub mod slug;
pub mod text;
pub mod vfs;

pub use react::{
    BoxedReactor, CallbackId, CellId, ComputeCellId, InputCellId, Reactor, RemoveCallbackError,
};
