//! Error kinds of the core. Lookup on an unregistered identity is a caller
//! error (`NotFound`); handing the update algorithm a state outside its
//! documented domain is a programming error (`InvalidState`). Persistence
//! failures belong to whatever durable store wraps this core, not here.

use vstd::prelude::*;

verus! {

/// Failure of a store lookup.
#[derive(Clone, Copy, Debug, PartialEq, Eq, Structural)]
pub enum StoreError {
    /// The identity has never been registered.
    NotFound,
}

/// Failure of the checked entry to the update algorithm.
#[derive(Clone, Copy, Debug, PartialEq, Eq, Structural)]
pub enum ScheduleError {
    /// The given memory state or timestamp is outside the documented domain.
    InvalidState,
}

} // verus!
