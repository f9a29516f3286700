//! State synchronisation for rollback netcode: a store of entities and
//! globals, snapshots of it with a canonical byte layout, and the dispatch of
//! the requests that a rollback session makes of a simulation.

pub mod event;
pub mod input;
pub mod laws;
pub mod order;
pub mod snapshot;
pub mod stage;
pub mod table;
pub mod wire;
pub mod world;

pub use crate::event::{Confirmed, NetworkEventWriter, RbrbFrame, Unconfirmed};
pub use crate::input::{Confirmation, PlayerId, PlayerInputs};
pub use crate::snapshot::{Change, LoadError, Snapshotter};
pub use crate::stage::{Action, RbrbStage, Request, StageError};
pub use crate::world::{Entity, RollbackId, Tick, World};

use std::time::Duration;
use vstd::prelude::*;

verus! {

/// The time that one tick covers.
pub struct RbrbTime {
    pub delta: Duration,
}

} // verus!
