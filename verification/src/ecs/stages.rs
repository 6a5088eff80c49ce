//! The stages of a frame.

use vstd::prelude::*;

use crate::ecs::error::EcsError;

verus! {

/// The stage in which the world changes.
#[derive(Debug, Clone, Copy, PartialEq, Eq, Structural, Hash)]
pub struct Update;

/// The stage in which what is drawn is read out of the world. It comes after
/// [`Update`], so it sees what that stage of the same frame did.
#[derive(Debug, Clone, Copy, PartialEq, Eq, Structural, Hash)]
pub struct RenderExtract;

/// What running a stage comes to, where the scheduler either ran it or said that it
/// knows none of that name.
pub fn stage_result(ran: Result<(), String>) -> (result: Result<(), EcsError>)
    ensures
        result is Ok <==> ran is Ok,
        ran matches Err(stage) ==> result == Err::<(), EcsError>(EcsError::UnknownStage(stage)),
{
    match ran {
        Ok(_) => Ok(()),
        Err(stage) => Err(EcsError::UnknownStage(stage)),
    }
}

} // verus!
