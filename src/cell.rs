//! The state of one cell and Conway's rule for its next state.
use vstd::prelude::*;

verus! {

/// Whether a [`Life`] is alive or dead.
#[derive(Clone, Copy, Debug, PartialEq, Eq, Structural, PartialOrd, Ord, Hash)]
pub enum LifeState {
    /// Alive
    Alive,
    /// Dead
    Dead,
}

/// One square of the lattice: its position in pixels and its state.
#[derive(Clone, Copy, Debug, PartialEq, Eq, Structural)]
pub struct Life {
    /// X position of the square
    pub x: i32,
    /// Y position of the square
    pub y: i32,
    /// Life state of the square
    pub state: LifeState,
}

/// Conway's rule: the state a cell takes in the next generation, from its current
/// state and the number of its neighbours that are alive.
pub open spec fn next_state(current: LifeState, alive_neighbors: nat) -> LifeState {
    match current {
        LifeState::Alive => if alive_neighbors == 2 || alive_neighbors == 3 {
            LifeState::Alive
        } else {
            LifeState::Dead
        },
        LifeState::Dead => if alive_neighbors == 3 {
            LifeState::Alive
        } else {
            LifeState::Dead
        },
    }
}

impl LifeState {
    /// The other state.
    pub open spec fn toggled_spec(self) -> LifeState {
        match self {
            LifeState::Alive => LifeState::Dead,
            LifeState::Dead => LifeState::Alive,
        }
    }

    /// The state that follows `self` when `alive_neighbors` neighbours are alive.
    pub fn next(self, alive_neighbors: usize) -> (r: LifeState)
        ensures
            r == next_state(self, alive_neighbors as nat),
    {
        match self {
            LifeState::Alive => if alive_neighbors == 2 || alive_neighbors == 3 {
                LifeState::Alive
            } else {
                LifeState::Dead
            },
            LifeState::Dead => if alive_neighbors == 3 {
                LifeState::Alive
            } else {
                LifeState::Dead
            },
        }
    }

    /// The other state: what a click on a cell makes of it.
    pub fn toggled(self) -> (r: LifeState)
        ensures
            r == self.toggled_spec(),
    {
        match self {
            LifeState::Alive => LifeState::Dead,
            LifeState::Dead => LifeState::Alive,
        }
    }
}

} // verus!
