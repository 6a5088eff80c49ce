//! What can go wrong while driving the entity layer.

use vstd::prelude::*;

use crate::text::join2;

verus! {

/// What can go wrong while driving the entity layer.
#[derive(Debug, PartialEq, Eq)]
#[non_exhaustive]
pub enum EcsError {
    /// A stage was run that nothing was registered for.
    UnknownStage(String),
}

impl EcsError {
    /// The error in words.
    pub open spec fn text(self) -> Seq<char> {
        match self {
            EcsError::UnknownStage(stage) => "no schedule registered for stage "@ + stage@,
        }
    }

    /// The error in words.
    pub fn message(&self) -> (text: String)
        ensures
            text@ == self.text(),
    {
        match self {
            EcsError::UnknownStage(stage) => join2("no schedule registered for stage ", stage),
        }
    }
}

/// What the error says: which stage is not known.
pub proof fn law_error_names_the_stage(error: EcsError)
    ensures
        error matches EcsError::UnknownStage(stage) ==> error.text()
            == "no schedule registered for stage "@ + stage@,
{
}

} // verus!
