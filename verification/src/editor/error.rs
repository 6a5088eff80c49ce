//! What can go wrong in the editor.

use vstd::prelude::*;

use crate::text::{join2, join3};

verus! {

/// What can go wrong in the editor.
#[derive(Debug, PartialEq, Eq)]
pub enum EditorError {
    /// The renderer failed.
    Renderer {
        /// The renderer's own message.
        message: String,
    },
    /// A directory under the assets directory could not be read.
    AssetScan {
        /// The directory.
        path: String,
        /// The system's message.
        message: String,
    },
    /// The editor session could not be written.
    Session {
        /// The session file.
        path: String,
        /// What went wrong.
        message: String,
    },
    /// A prefab file could not be written or read.
    Prefab {
        /// What went wrong.
        message: String,
    },
    /// The entity to be captured as a prefab is gone.
    PrefabEntityMissing,
}

impl EditorError {
    /// The error in words.
    pub open spec fn text(self) -> Seq<char> {
        match self {
            EditorError::Renderer { message } => message@,
            EditorError::AssetScan { path, message } => "failed to scan assets directory "@ + path@
                + ": "@ + message@,
            EditorError::Session { path, message } => "failed to write editor session "@ + path@
                + ": "@ + message@,
            EditorError::Prefab { message } => "prefab file error: "@ + message@,
            EditorError::PrefabEntityMissing => "prefab: the selected entity no longer exists"@,
        }
    }

    /// The error in words.
    pub fn message(&self) -> (text: String)
        ensures
            text@ == self.text(),
    {
        match self {
            EditorError::Renderer { message } => message.clone(),
            EditorError::AssetScan { path, message } => {
                let head = join3("failed to scan assets directory ", path, ": ");
                join2(&head, message)
            },
            EditorError::Session { path, message } => {
                let head = join3("failed to write editor session ", path, ": ");
                join2(&head, message)
            },
            EditorError::Prefab { message } => join2("prefab file error: ", message),
            EditorError::PrefabEntityMissing => "prefab: the selected entity no longer exists".to_owned(),
        }
    }
}

/// What the errors of the editor say: what failed, where, and why.
pub proof fn law_errors_say_what_failed(error: EditorError)
    ensures
        error matches EditorError::Renderer { message } ==> error.text() == message@,
        error matches EditorError::AssetScan { path, message } ==> error.text()
            == "failed to scan assets directory "@ + path@ + ": "@ + message@,
        error matches EditorError::Session { path, message } ==> error.text()
            == "failed to write editor session "@ + path@ + ": "@ + message@,
        error matches EditorError::Prefab { message } ==> error.text() == "prefab file error: "@
            + message@,
        error is PrefabEntityMissing ==> error.text()
            == "prefab: the selected entity no longer exists"@,
{
}

} // verus!
