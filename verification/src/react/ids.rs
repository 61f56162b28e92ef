//! Identifiers handed out by a reactor.

use vstd::prelude::*;

verus! {

/// Names an input cell. The number inside is the cell's slot in the
/// reactor that created it; slots are shared by input and compute cells
/// and never reused.
#[derive(Clone, Copy, Debug, PartialEq, Eq, Hash, Structural)]
pub struct InputCellId(pub(crate) usize);

/// Names a compute cell. Not interchangeable with [`InputCellId`].
#[derive(Clone, Copy, Debug, PartialEq, Eq, Hash, Structural)]
pub struct ComputeCellId(pub(crate) usize);

/// Names a callback registered on a compute cell.
#[derive(Clone, Copy, Debug, PartialEq, Eq, Hash, Structural)]
pub struct CallbackId(pub(crate) usize);

/// Names a cell of either kind.
#[derive(Clone, Copy, Debug, PartialEq, Eq, Hash, Structural)]
pub enum CellId {
    Input(InputCellId),
    Compute(ComputeCellId),
}

/// Why a callback could not be removed.
#[derive(Debug, PartialEq, Eq, Structural)]
pub enum RemoveCallbackError {
    NonexistentCell,
    NonexistentCallback,
}

impl InputCellId {
    /// The slot this id refers to.
    pub closed spec fn slot(self) -> usize {
        self.0
    }

    pub(crate) fn at(n: usize) -> (id: Self)
        ensures
            id.slot() == n,
    {
        InputCellId(n)
    }

    pub(crate) fn index(self) -> (n: usize)
        ensures
            n == self.slot(),
    {
        self.0
    }
}

impl ComputeCellId {
    /// The slot this id refers to.
    pub closed spec fn slot(self) -> usize {
        self.0
    }

    pub(crate) fn at(n: usize) -> (id: Self)
        ensures
            id.slot() == n,
    {
        ComputeCellId(n)
    }

    pub(crate) fn index(self) -> (n: usize)
        ensures
            n == self.slot(),
    {
        self.0
    }
}

impl CallbackId {
    /// The position of the callback in the reactor's registry.
    pub closed spec fn slot(self) -> usize {
        self.0
    }

    pub(crate) fn at(n: usize) -> (id: Self)
        ensures
            id.slot() == n,
    {
        CallbackId(n)
    }

    pub(crate) fn index(self) -> (n: usize)
        ensures
            n == self.slot(),
    {
        self.0
    }
}

impl CellId {
    /// The slot this id refers to, whatever its kind.
    pub open spec fn slot(self) -> usize {
        match self {
            CellId::Input(i) => i.slot(),
            CellId::Compute(c) => c.slot(),
        }
    }

    /// Whether the id claims to name an input cell.
    pub open spec fn is_input(self) -> bool {
        self is Input
    }

    pub(crate) fn index(self) -> (n: usize)
        ensures
            n == self.slot(),
    {
        match self {
            CellId::Input(i) => i.index(),
            CellId::Compute(c) => c.index(),
        }
    }
}

} // verus!
