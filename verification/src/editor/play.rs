//! Play mode: the edited scene is kept while the project's game runs.

use vstd::prelude::*;

use crate::ecs::world::SceneWorld;
use crate::editor::history::restores;

verus! {

/// Whether the editor is editing, building or running.
#[derive(Debug, Clone, Copy, PartialEq, Eq, Structural)]
pub enum EditorMode {
    /// Panels change the world, and edits can be undone.
    Edit,
    /// The project is being compiled.
    Building,
    /// The compiled game is running.
    Play,
}

impl Default for EditorMode {
    fn default() -> (mode: EditorMode)
        ensures
            mode == EditorMode::Edit,
    {
        EditorMode::Edit
    }
}

/// The editor's mode, and the scene as it was before the game was started.
pub struct PlayState<S> {
    mode: EditorMode,
    snapshot: Option<S>,
}

/// What a play state holds.
pub ghost struct PlayView<S> {
    /// The mode.
    pub mode: EditorMode,
    /// The scene as it was before the game was started.
    pub snapshot: Option<S>,
}

impl<S> View for PlayState<S> {
    type V = PlayView<S>;

    closed spec fn view(&self) -> PlayView<S> {
        PlayView { mode: self.mode, snapshot: self.snapshot }
    }
}

impl<S> PlayView<S> {
    /// Whether a snapshot is kept exactly while the game is built or run.
    pub open spec fn wf(self) -> bool {
        self.snapshot is Some <==> self.mode != EditorMode::Edit
    }

    /// The state after play was started with the scene captured.
    pub open spec fn started(self, scene: S) -> PlayView<S> {
        if self.mode == EditorMode::Edit {
            PlayView { mode: EditorMode::Building, snapshot: Some(scene) }
        } else {
            self
        }
    }

    /// The state after the notice that the game runs.
    pub open spec fn running(self) -> PlayView<S> {
        PlayView {
            mode: if self.mode == EditorMode::Building {
                EditorMode::Play
            } else {
                self.mode
            },
            snapshot: self.snapshot,
        }
    }

    /// The state after play was stopped.
    pub open spec fn stopped(self) -> PlayView<S> {
        if self.mode == EditorMode::Edit {
            self
        } else {
            PlayView { mode: EditorMode::Edit, snapshot: None }
        }
    }
}

impl<S> Default for PlayState<S> {
    fn default() -> (play: PlayState<S>)
        ensures
            play@ == (PlayView::<S> { mode: EditorMode::Edit, snapshot: None }),
    {
        PlayState::new()
    }
}

impl<S> PlayState<S> {
    /// Editing, with no snapshot.
    pub fn new() -> (play: PlayState<S>)
        ensures
            play@ == (PlayView::<S> { mode: EditorMode::Edit, snapshot: None }),
    {
        PlayState { mode: EditorMode::Edit, snapshot: None }
    }

    /// The mode.
    pub fn mode(&self) -> (mode: EditorMode)
        ensures
            mode == self@.mode,
    {
        self.mode
    }

    /// Whether a build or a running game owns the editor.
    pub fn is_playing(&self) -> (answer: bool)
        ensures
            answer == (self@.mode != EditorMode::Edit),
    {
        match self.mode {
            EditorMode::Edit => false,
            EditorMode::Building | EditorMode::Play => true,
        }
    }

    /// Keeps a snapshot of the world and starts building. Nothing happens when play
    /// mode is active already, so the first snapshot stays.
    pub fn start<F: Fn(&SceneWorld) -> S>(&mut self, world: &SceneWorld, capture: &F)
        requires
            capture.requires((world,)),
        ensures
            old(self)@.mode != EditorMode::Edit ==> final(self)@ == old(self)@,
            old(self)@.mode == EditorMode::Edit ==> (final(self)@.snapshot matches Some(scene)
                && final(self)@ == old(self)@.started(scene) && capture.ensures((world,), scene)),
            old(self)@.wf() ==> final(self)@.wf(),
    {
        if self.is_playing() {
            return;
        }
        self.snapshot = Some(capture(world));
        self.mode = EditorMode::Building;
    }

    /// Notes that the built game runs. A notice that comes after the game was
    /// stopped is ignored.
    pub fn mark_running(&mut self)
        ensures
            final(self)@ == old(self)@.running(),
            old(self)@.wf() ==> final(self)@.wf(),
    {
        match self.mode {
            EditorMode::Building => {
                self.mode = EditorMode::Play;
            },
            EditorMode::Edit | EditorMode::Play => {},
        }
    }

    /// Brings the snapshot back and returns to editing. Nothing happens when play
    /// mode is not active.
    pub fn stop<G: Fn(&S) -> SceneWorld>(&mut self, world: &mut SceneWorld, restore: &G)
        requires
            old(world).wf(),
            restores(restore),
        ensures
            final(world).wf(),
            final(self)@ == old(self)@.stopped(),
            old(self)@.mode == EditorMode::Edit ==> *final(world) == *old(world),
            old(self)@.mode != EditorMode::Edit ==> match old(self)@.snapshot {
                Some(scene) => restore.ensures((&scene,), *final(world)),
                None => *final(world) == *old(world),
            },
            old(self)@.wf() ==> final(self)@.wf(),
    {
        if !self.is_playing() {
            return;
        }
        match self.snapshot.take() {
            Some(scene) => {
                *world = restore(&scene);
            },
            None => {},
        }
        self.mode = EditorMode::Edit;
    }
}

/// The scene that a stop brings back is the one captured by the first start,
/// whatever is started or noticed after that; and a notice after the stop changes
/// nothing.
pub proof fn law_first_snapshot_is_kept<S>(play: PlayView<S>, first: S, second: S)
    requires
        play.mode == EditorMode::Edit,
    ensures
        play.started(first).started(second) == play.started(first),
        play.started(first).running().started(second).snapshot == Some(first),
        play.started(first).running().mode == EditorMode::Play,
        play.started(first).running().stopped().mode == EditorMode::Edit,
        play.started(first).stopped().running() == play.started(first).stopped(),
{
}

/// Starting begins to build and keeps the scene, if the editor was editing; a game that is
/// built begins to run; stopping goes back to editing and lets go of the scene. Where a step
/// does not apply, nothing changes.
pub proof fn law_playing_goes_round<S>(play: PlayView<S>, scene: S)
    ensures
        play.mode is Edit ==> play.started(scene).mode is Building && play.started(scene).snapshot
            == Some(scene),
        !(play.mode is Edit) ==> play.started(scene).mode == play.mode && play.started(
            scene,
        ).snapshot == play.snapshot,
        play.mode is Building <==> play.running().mode is Play && !(play.mode is Play),
        play.mode is Edit <==> play.running().mode is Edit,
        play.mode is Play ==> play.running().mode is Play,
        play.running().snapshot == play.snapshot,
        play.stopped().mode is Edit,
        !(play.mode is Edit) ==> play.stopped().snapshot is None,
        play.mode is Edit ==> play.stopped().snapshot == play.snapshot,
        play.wf() <==> (play.mode is Edit <==> play.snapshot is None),
{
}

} // verus!
