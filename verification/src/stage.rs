//! The dispatch of the requests that a rollback session makes: what each
//! does to the world, and what is left for the caller to run.

use vstd::prelude::*;
use crate::input::{Confirmation, PlayerInputs};
use crate::snapshot::{
    accounts_for, changes_view, dec_snapshot, enc_snapshot, is_first_unaccounted, load_changes,
    loads, saved, snapshot_of, Change, LoadError, Snapshotter,
};
use crate::world::{raw_inputs, Tick, TickView, World, WorldView};
use crate::RbrbTime;
use std::time::Duration;

verus! {

/// What a session asks for.
pub enum Request {
    /// The input of the local player for the tick to come.
    CaptureLocalInput,
    /// One tick of the simulation, run with these inputs.
    Advance { inputs: PlayerInputs<Vec<u8>>, amount: Duration, confirmed: Confirmation },
    /// The bytes of a snapshot of the world.
    SaveTo,
    /// The world as these bytes of a snapshot have it.
    LoadFrom(Vec<u8>),
    /// A request of a kind that the stage does not know, with a description
    /// of it.
    Other(String),
}

/// What is left for the caller to do after a request was handled.
#[derive(Debug, PartialEq, Eq)]
pub enum Action {
    /// Run the local input system, and hand its bytes to the session.
    CaptureLocalInput,
    /// Parse the inputs if `parse` says so, run the schedule once, and then
    /// call [`RbrbStage::complete_advance`].
    RunTick { parse: bool },
    /// Nothing: the snapshot was appended to the buffer.
    Saved,
    /// Nothing but to mirror these changes, which were made to the world.
    Loaded(Vec<Change>),
}

/// Why a request was not handled.
#[derive(Debug, PartialEq, Eq)]
pub enum StageError {
    /// The local input was asked for, and no input system is installed.
    NoInputSystem,
    /// The request is of a kind that the stage does not know.
    Unhandled(String),
    /// The snapshot could not be loaded.
    Load(LoadError),
}

/// The state of the dispatch: which systems the caller has installed, and
/// the kinds that snapshots hold.
pub struct RbrbStage {
    /// Whether a system that captures the local input is installed.
    pub get_inputs: bool,
    /// Whether a system that parses the players' inputs is installed.
    pub parse_inputs: bool,
    /// The kinds that snapshots hold.
    pub snapshotter: Snapshotter,
}

impl RbrbStage {
    /// A stage without input systems or registered kinds.
    pub fn new() -> (stage: Self)
        ensures
            !stage.get_inputs,
            !stage.parse_inputs,
            stage.snapshotter.wf(),
            stage.snapshotter.components().len() == 0,
            stage.snapshotter.resources().len() == 0,
    {
        RbrbStage { get_inputs: false, parse_inputs: false, snapshotter: Snapshotter::new() }
    }

    /// Handles one request.
    ///
    /// - The local input: nothing changes; the caller is to capture it,
    ///   unless no input system is installed, which is an error.
    /// - A tick: the inputs, the time and the confirmation are put into the
    ///   world, and the caller is to run the tick.
    /// - Saving: the bytes of the world's snapshot are appended to `buffer`.
    /// - Loading: the snapshot is loaded into the world, or the world is
    ///   left as it is where that fails.
    /// - Any other request is an error, and nothing changes.
    pub fn handle_request(&mut self, request: Request, world: &mut World, buffer: &mut Vec<u8>) -> (result:
        Result<Action, StageError>)
        requires
            old(self).snapshotter.wf(),
            old(world).wf(),
        ensures
            *final(self) == *old(self),
            final(world).wf(),
            handled(*old(self), request, old(world)@, old(buffer)@, final(world)@, final(buffer)@, result),
    {
        match request {
            Request::CaptureLocalInput => {
                if self.get_inputs {
                    Ok(Action::CaptureLocalInput)
                } else {
                    Err(StageError::NoInputSystem)
                }
            },
            Request::Advance { inputs, amount, confirmed } => {
                world.insert_tick(Tick { inputs, time: RbrbTime { delta: amount }, confirmed });
                Ok(Action::RunTick { parse: self.parse_inputs })
            },
            Request::SaveTo => {
                self.snapshotter.save_to(buffer, world);
                Ok(Action::Saved)
            },
            Request::LoadFrom(slice) => {
                match self.snapshotter.load_from(slice.as_slice(), world) {
                    Ok(changes) => Ok(Action::Loaded(changes)),
                    Err(e) => Err(StageError::Load(e)),
                }
            },
            Request::Other(kind) => Err(StageError::Unhandled(kind)),
        }
    }

    /// Ends the tick that an [`Action::RunTick`] began: what was put into
    /// the world for it is taken out.
    pub fn complete_advance(&mut self, world: &mut World)
        ensures
            *final(self) == *old(self),
            final(world)@ == (WorldView { tick: None, ..old(world)@ }),
    {
        world.remove_tick();
    }
}

/// What handling `request` does: `w` and `b` are the world and the buffer
/// before, `w2` and `b2` after, and `result` is what is returned.
pub open spec fn handled(
    stage: RbrbStage,
    request: Request,
    w: WorldView,
    b: Seq<u8>,
    w2: WorldView,
    b2: Seq<u8>,
    result: Result<Action, StageError>,
) -> bool {
    let components = stage.snapshotter.components();
    let resources = stage.snapshotter.resources();
    match request {
        Request::CaptureLocalInput => {
            &&& w2 == w
            &&& b2 == b
            &&& if stage.get_inputs {
                result == Ok::<Action, StageError>(Action::CaptureLocalInput)
            } else {
                result == Err::<Action, StageError>(StageError::NoInputSystem)
            }
        },
        Request::Advance { inputs, amount, confirmed } => {
            &&& w2 == (WorldView {
                tick: Some(
                    TickView { inputs: raw_inputs(inputs.entries()), delta: amount, confirmed },
                ),
                ..w
            })
            &&& b2 == b
            &&& result == Ok::<Action, StageError>(Action::RunTick { parse: stage.parse_inputs })
        },
        Request::SaveTo => {
            &&& w2 == w
            &&& saved(snapshot_of(w, components, resources), w, components, resources)
            &&& b2 == b + enc_snapshot(snapshot_of(w, components, resources))
            &&& dec_snapshot(b2.skip(b.len() as int)) == Some(
                snapshot_of(w, components, resources),
            )
            &&& result == Ok::<Action, StageError>(Action::Saved)
        },
        Request::LoadFrom(bytes) => {
            &&& b2 == b
            &&& match dec_snapshot(bytes@) {
                None => {
                    &&& w2 == w
                    &&& result == Err::<Action, StageError>(StageError::Load(LoadError::Malformed))
                },
                Some(s) => if accounts_for(s.entities, w) {
                    &&& loads(w, s, components, resources, w2)
                    &&& result matches Ok(Action::Loaded(changes))
                    &&& changes_view(changes@) == load_changes(w, s, components, resources)
                } else {
                    &&& w2 == w
                    &&& result matches Err(StageError::Load(LoadError::MissingRollbackData(id)))
                    &&& exists|e: int| #[trigger]
                        is_first_unaccounted(s.entities, w, e) && w.entities[e].id == Some(id@)
                },
            }
        },
        Request::Other(kind) => {
            &&& w2 == w
            &&& b2 == b
            &&& result matches Err(StageError::Unhandled(k))
            &&& k@ == kind@
        },
    }
}

} // verus!
