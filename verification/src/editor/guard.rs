//! Actions that would lose unsaved work: asking first, and carrying them out.

use vstd::prelude::*;

use crate::editor::dirty::{unsaved_text, DirtyState, PendingAction};
use crate::editor::project_swap::ProjectRequest;
use crate::text::{join2, join3};

verus! {

/// What the host does to the scene for an action that was let through.
#[derive(Debug, Clone, Copy, PartialEq, Eq, Structural)]
pub enum SceneEffect {
    /// Nothing.
    Unchanged,
    /// Starts an empty scene.
    NewScene,
    /// Loads the scene anew.
    RevertScene,
}

/// The state of the guard.
#[derive(Debug)]
pub struct Guard {
    /// The action that waits for an answer.
    pub pending: Option<PendingAction>,
    /// Whether the editor was told to close.
    pub exit_requested: bool,
    /// The project that was asked for.
    pub project_request: Option<ProjectRequest>,
}

/// What carrying out an action does to the scene.
pub open spec fn effect_of(action: PendingAction) -> SceneEffect {
    match action {
        PendingAction::NewScene => SceneEffect::NewScene,
        PendingAction::RevertScene => SceneEffect::RevertScene,
        _ => SceneEffect::Unchanged,
    }
}

/// Whether a request is to open, or to create, the project in the directory.
pub open spec fn asks_for(request: Option<ProjectRequest>, root: Seq<char>, create: bool) -> bool {
    request matches Some(request) && request.root@ == root && request.create == create
}

/// Whether the guard changed as carrying out the action changes it, but for the action
/// that waits.
pub open spec fn carried_out(before: Guard, after: Guard, action: PendingAction) -> bool {
    &&& after.exit_requested == (before.exit_requested || action == PendingAction::Quit)
    &&& match action {
        PendingAction::OpenProject(root) => asks_for(after.project_request, root@, false),
        PendingAction::NewProject(root) => asks_for(after.project_request, root@, true),
        _ => after.project_request == before.project_request,
    }
}

/// The buttons of the question, and whether it was closed otherwise.
#[derive(Debug, Clone, Copy, PartialEq, Eq, Structural)]
pub struct GuardAnswer {
    /// To save, and then to go on.
    pub save: bool,
    /// To go on.
    pub discard: bool,
    /// Not to go on.
    pub cancel: bool,
    /// Whether the question was dismissed.
    pub dismissed: bool,
}

/// What an answer comes to.
#[derive(Debug, Clone, Copy, PartialEq, Eq, Structural)]
pub enum Choice {
    /// The action is carried out.
    Proceed,
    /// The action is dropped.
    Cancel,
    /// The question stays.
    Wait,
}

impl GuardAnswer {
    /// What the answer comes to.
    pub open spec fn choice_of(self) -> Choice {
        if self.cancel {
            Choice::Cancel
        } else if self.save || self.discard {
            Choice::Proceed
        } else if self.dismissed {
            Choice::Cancel
        } else {
            Choice::Wait
        }
    }

    /// What the answer comes to.
    pub fn choice(self) -> (choice: Choice)
        ensures
            choice == self.choice_of(),
    {
        if self.cancel {
            Choice::Cancel
        } else if self.save || self.discard {
            Choice::Proceed
        } else if self.dismissed {
            Choice::Cancel
        } else {
            Choice::Wait
        }
    }
}

impl Default for Guard {
    fn default() -> (guard: Guard)
        ensures
            guard.pending is None,
            !guard.exit_requested,
            guard.project_request is None,
    {
        Guard { pending: None, exit_requested: false, project_request: None }
    }
}

impl Guard {
    /// Carries out an action that was let through.
    pub fn apply_pending(&mut self, action: PendingAction) -> (effect: SceneEffect)
        ensures
            effect == effect_of(action),
            final(self).pending == old(self).pending,
            carried_out(*old(self), *final(self), action),
    {
        match action {
            PendingAction::Quit => {
                self.exit_requested = true;
                SceneEffect::Unchanged
            },
            PendingAction::NewScene => SceneEffect::NewScene,
            PendingAction::RevertScene => SceneEffect::RevertScene,
            PendingAction::OpenProject(path) => {
                self.project_request = Some(ProjectRequest::open(&path));
                SceneEffect::Unchanged
            },
            PendingAction::NewProject(path) => {
                self.project_request = Some(ProjectRequest::create(&path));
                SceneEffect::Unchanged
            },
        }
    }

    /// Carries out the action if nothing is unsaved, else asks first.
    pub fn request_guarded(&mut self, dirty: &DirtyState, action: PendingAction) -> (effect:
        SceneEffect)
        ensures
            dirty@.anything() ==> {
                &&& effect == SceneEffect::Unchanged
                &&& final(self).pending == Some(action)
                &&& final(self).exit_requested == old(self).exit_requested
                &&& final(self).project_request == old(self).project_request
            },
            !dirty@.anything() ==> {
                &&& effect == effect_of(action)
                &&& final(self).pending == old(self).pending
                &&& carried_out(*old(self), *final(self), action)
            },
    {
        if dirty.any() {
            self.pending = Some(action);
            SceneEffect::Unchanged
        } else {
            self.apply_pending(action)
        }
    }

    /// Takes the answer to the question. The host has saved the scene where the answer
    /// says so.
    pub fn answer(&mut self, answer: GuardAnswer) -> (effect: SceneEffect)
        ensures
            match old(self).pending {
                None => effect == SceneEffect::Unchanged && *final(self) == *old(self),
                Some(action) => match answer.choice_of() {
                    Choice::Proceed => {
                        &&& effect == effect_of(action)
                        &&& final(self).pending is None
                        &&& carried_out(*old(self), *final(self), action)
                    },
                    Choice::Cancel => {
                        &&& effect == SceneEffect::Unchanged
                        &&& final(self).pending is None
                        &&& final(self).exit_requested == old(self).exit_requested
                        &&& final(self).project_request == old(self).project_request
                    },
                    Choice::Wait => effect == SceneEffect::Unchanged && *final(self) == *old(self),
                },
            },
    {
        let action = match &self.pending {
            Some(action) => action.clone(),
            None => {
                return SceneEffect::Unchanged;
            },
        };
        match answer.choice() {
            Choice::Proceed => {
                self.pending = None;
                self.apply_pending(action)
            },
            Choice::Cancel => {
                self.pending = None;
                SceneEffect::Unchanged
            },
            Choice::Wait => SceneEffect::Unchanged,
        }
    }
}

/// The question that is asked before an action.
pub open spec fn question_text(unsaved: Seq<char>, action: PendingAction) -> Seq<char> {
    "Save changes to "@ + unsaved + " before "@ + action.phrase() + "?"@
}

/// The question that is asked before an action.
pub fn question(dirty: &DirtyState, action: &PendingAction) -> (text: String)
    ensures
        text@ == question_text(
            if dirty@.anything() {
                unsaved_text(dirty@)
            } else {
                "the scene"@
            },
            *action,
        ),
{
    let unsaved = match dirty.summary() {
        Some(summary) => summary,
        None => "the scene".to_string(),
    };
    let asked = join3("Save changes to ", &unsaved, " before ");
    join3(&asked, action.verb(), "?")
}

/// What the status bar says of unsaved work.
pub fn saved_text(dirty: &DirtyState) -> (text: String)
    ensures
        text@ == (if dirty@.anything() {
            "\u{25cf} Unsaved: "@ + unsaved_text(dirty@)
        } else {
            "Saved"@
        }),
{
    match dirty.summary() {
        Some(summary) => join2("\u{25cf} Unsaved: ", &summary),
        None => "Saved".to_string(),
    }
}

/// What an answer means: cancelling wins over everything, saving or discarding goes on, and
/// only closing the question without any of these cancels too. With no answer the question
/// stays.
pub proof fn law_cancelling_wins(answer: GuardAnswer)
    ensures
        answer.choice_of() is Cancel <==> answer.cancel || (answer.dismissed && !answer.save
            && !answer.discard),
        answer.choice_of() is Proceed <==> !answer.cancel && (answer.save || answer.discard),
        answer.choice_of() is Wait <==> !(answer.cancel || answer.save || answer.discard
            || answer.dismissed),
{
}

/// What carrying out an action does: only quitting asks to exit; only opening or creating a
/// project asks for one, at the root that was named; only a new scene and going back to the
/// saved one touch the scene.
pub proof fn law_actions_do_what_they_name(before: Guard, after: Guard, action: PendingAction)
    requires
        carried_out(before, after, action),
    ensures
        action is Quit ==> after.exit_requested,
        !(action is Quit) ==> after.exit_requested == before.exit_requested,
        action matches PendingAction::OpenProject(root) ==> after.project_request is Some
            && after.project_request->0.root@ == root@ && !after.project_request->0.create,
        action matches PendingAction::NewProject(root) ==> after.project_request is Some
            && after.project_request->0.root@ == root@ && after.project_request->0.create,
        !(action is OpenProject) && !(action is NewProject) ==> after.project_request
            == before.project_request,
        effect_of(action) is NewScene <==> action is NewScene,
        effect_of(action) is RevertScene <==> action is RevertScene,
{
}

/// The question names what is not saved and what waits for the answer.
pub proof fn law_question_names_what_waits(unsaved: Seq<char>, action: PendingAction)
    ensures
        question_text(unsaved, action) == "Save changes to "@ + unsaved + " before "@
            + action.phrase() + "?"@,
{
}

} // verus!
