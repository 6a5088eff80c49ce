//! What the shell decides in a frame: undoing and settling, dragging the gizmo,
//! playing, and what its menus, toolbar and panels say.

use vstd::prelude::*;

use crate::ecs::components::{Components, Transform};
use crate::ecs::entities::Entity;
use crate::ecs::scalar::Scalar;
use crate::ecs::world::{lemma_filter, lemma_filter_push, SceneWorld, WorldView};
use crate::editor::chrome::BottomTab;
use crate::editor::dirty::{DirtyState, DirtyView};
use crate::editor::gizmo::{
    law_first_of_the_nearest_handles_is_taken, nearest, pick_axis, Axis, HandleDistance,
};
use crate::editor::hierarchy::{select_only, selected, selection_list};
use crate::editor::history::{captured, found_alike, restores, History, HistoryView};
use crate::editor::inspector::{set_transform, transform_of};
use crate::editor::play::{EditorMode, PlayState};
use crate::paths::{extension, extension_of, file_name, file_name_of, same_path};
use crate::text::{
    ascii_lowercase, ascii_lowercase_of, decimal, decimal_text, join2, join3, law_ascii_lowercase,
    same, trim, trim_of,
};

verus! {

/// A pointer shape.
#[derive(Debug, Clone, Copy, PartialEq, Eq, Structural)]
pub enum CursorIcon {
    /// The arrow.
    Default,
    /// A closed hand.
    Grabbing,
}

/// The pointer shape over the scene: a closed hand only while a handle is dragged.
pub fn scene_cursor_icon(image_dragged: bool, gizmo_dragging: bool) -> (icon: CursorIcon)
    ensures
        icon == (if image_dragged && gizmo_dragging {
            CursorIcon::Grabbing
        } else {
            CursorIcon::Default
        }),
{
    if image_dragged && gizmo_dragging {
        CursorIcon::Grabbing
    } else {
        CursorIcon::Default
    }
}

/// A step through the history.
#[derive(Debug, Clone, Copy, PartialEq, Eq, Structural)]
pub enum Shortcut {
    /// Back.
    Undo,
    /// Forth.
    Redo,
}

/// The step that the keys pressed in a frame ask for. `command` and `shift` are the
/// keys held, `z` and `y` those pressed.
pub fn shortcut(command: bool, shift: bool, z: bool, y: bool) -> (step: Option<Shortcut>)
    ensures
        step == (if command && z && !shift {
            Some(Shortcut::Undo)
        } else if command && ((z && shift) || y) {
            Some(Shortcut::Redo)
        } else {
            None
        }),
{
    if command && z && !shift {
        Some(Shortcut::Undo)
    } else if command && ((z && shift) || y) {
        Some(Shortcut::Redo)
    } else {
        None
    }
}

/// Starts a frame: outside play mode, makes sure that the state before the edit has
/// been captured.
pub fn open_frame<S, F: Fn(&SceneWorld) -> S>(
    history: &mut History<S>,
    world: &SceneWorld,
    primary: Option<Entity>,
    playing: bool,
    capture: &F,
)
    requires
        world.wf(),
        capture.requires((world,)),
    ensures
        playing ==> final(history)@ == old(history)@,
        !playing ==> {
            &&& final(history)@.undo == old(history)@.undo
            &&& final(history)@.redo == old(history)@.redo
            &&& old(history)@.pending is Some ==> final(history)@.pending == old(history)@.pending
            &&& old(history)@.pending is None ==> (final(history)@.pending matches Some(snapshot)
                && captured(snapshot, *world, primary, capture))
        },
{
    if !playing {
        history.begin_frame(world, primary, capture);
    }
}

/// Takes a step through the history. The selection becomes what it was then, with
/// nothing selected beside it, and no handle is dragged any more.
pub fn take_step<S, F: Fn(&SceneWorld) -> S, G: Fn(&S) -> SceneWorld>(
    step: Shortcut,
    history: &mut History<S>,
    world: &mut SceneWorld,
    primary: &mut Option<Entity>,
    secondary: &mut Vec<Entity>,
    dragging: &mut Option<Axis>,
    capture: &F,
    restore: &G,
) -> (done: bool)
    requires
        old(world).wf(),
        capture.requires((&*old(world),)),
        restores(restore),
    ensures
        final(world).wf(),
        final(secondary)@.len() == 0,
        *final(dragging) is None,
        done == (match step {
            Shortcut::Undo => old(history)@.undo.len() > 0,
            Shortcut::Redo => old(history)@.redo.len() > 0,
        }),
        !done ==> {
            &&& final(history)@ == old(history)@
            &&& *final(world) == *old(world)
            &&& *final(primary) == *old(primary)
        },
        done && step == Shortcut::Undo ==> {
            let earlier = old(history)@.undo.last();
            let current = final(history)@.redo.last();
            &&& final(history)@ == old(history)@.undone(current)
            &&& captured(current, *old(world), *old(primary), capture)
            &&& restore.ensures((&earlier.scene,), *final(world))
            &&& *final(primary) == earlier.reselected(final(world)@)
        },
        done && step == Shortcut::Redo ==> {
            let later = old(history)@.redo.last();
            let current = final(history)@.undo.last();
            &&& final(history)@ == old(history)@.redone(current)
            &&& captured(current, *old(world), *old(primary), capture)
            &&& restore.ensures((&later.scene,), *final(world))
            &&& *final(primary) == later.reselected(final(world)@)
        },
        old(history)@.bounded() ==> final(history)@.bounded(),
{
    secondary.clear();
    *dragging = None;
    match step {
        Shortcut::Undo => history.undo(world, primary, capture, restore),
        Shortcut::Redo => history.redo(world, primary, capture, restore),
    }
}

/// Ends a frame: outside play mode, while nothing is dragged or typed, the edits since
/// the last settled frame become one step, and the scene is unsaved if there is one.
pub fn settle_frame<S, F: Fn(&SceneWorld) -> S, E: Fn(&S, &S) -> bool>(
    history: &mut History<S>,
    world: &SceneWorld,
    dirty: &mut DirtyState,
    playing: bool,
    pointer_down: bool,
    widget_focused: bool,
    capture: &F,
    alike: &E,
) -> (recorded: bool)
    requires
        world.wf(),
        capture.requires((world,)),
        forall|a: &S, b: &S| alike.requires((a, b)),
    ensures
        playing || pointer_down || widget_focused ==> !recorded && final(history)@ == old(history)@,
        !playing && !pointer_down && !widget_focused ==> {
            &&& recorded ==> old(history)@.pending is Some && final(history)@
                == old(history)@.committed()
            &&& !recorded ==> final(history)@ == (HistoryView { pending: None, ..old(history)@ })
            &&& old(history)@.pending matches Some(pending) ==> found_alike(
                *world,
                pending.scene,
                !recorded,
                capture,
                alike,
            )
        },
        recorded ==> final(dirty)@ == (DirtyView { scene: true, ..old(dirty)@ }),
        !recorded ==> final(dirty)@ == old(dirty)@,
        old(history)@.bounded() ==> final(history)@.bounded(),
{
    if playing || pointer_down || widget_focused {
        return false;
    }
    let recorded: bool = history.settle(world, capture, alike);
    if recorded {
        dirty.mark_scene();
    }
    recorded
}

/// A handle of the gizmo on the screen.
#[derive(Debug, Clone, Copy, PartialEq, Eq, Structural)]
pub struct Handle {
    /// Its axis, and how far the pointer is from it.
    pub near: HandleDistance,
    /// How long it is, in pixels.
    pub length: Scalar,
}

/// What the pointer does over the scene in a frame.
#[derive(Debug, Clone, Copy, PartialEq, Eq, Structural)]
pub struct DragInput {
    /// A drag began.
    pub started: bool,
    /// It is known where the pointer is.
    pub pointer_known: bool,
    /// The pointer is being dragged.
    pub dragged: bool,
    /// A drag ended.
    pub stopped: bool,
}

/// The least number that tells one from its neighbour in single precision: handles
/// must be longer, in pixels, to be dragged.
pub const EPSILON_BITS: u32 = 0x3400_0000;

/// The axis whose handle the pointer takes.
pub open spec fn picked(handles: Seq<Handle>) -> Option<Axis> {
    match nearest(handles.map_values(|handle: Handle| handle.near), handles.len()) {
        Some(near) => Some(near.axis),
        None => None,
    }
}

/// The first handle of the axis, from number `from` on.
pub open spec fn first_handle(handles: Seq<Handle>, axis: Axis, from: int) -> Option<int>
    decreases handles.len() - from,
{
    if from >= handles.len() {
        None
    } else if handles[from].near.axis == axis {
        Some(from)
    } else {
        first_handle(handles, axis, from + 1)
    }
}

/// The axis that is dragged during the frame.
pub open spec fn dragged_axis(
    dragging: Option<Axis>,
    has_origin: bool,
    handles: Seq<Handle>,
    input: DragInput,
) -> Option<Axis> {
    if !has_origin {
        None
    } else if input.started && input.pointer_known {
        picked(handles)
    } else {
        dragging
    }
}

/// The handle along which the selection moves in the frame.
pub open spec fn dragged_handle(
    dragging: Option<Axis>,
    has_origin: bool,
    handles: Seq<Handle>,
    input: DragInput,
    has_primary: bool,
) -> Option<int> {
    match dragged_axis(dragging, has_origin, handles, input) {
        Some(axis) => match first_handle(handles, axis, 0) {
            Some(i) => if input.dragged && has_primary && (Scalar { bits: EPSILON_BITS }).less(
                handles[i].length,
            ) {
                Some(i)
            } else {
                None
            },
            None => None,
        },
        None => None,
    }
}

/// Follows a drag of the gizmo for one frame: takes the handle under the pointer when
/// a drag begins, lets go when it ends or when there is nothing to move, and says
/// along which handle the selection moves.
pub fn drag_gizmo(
    dragging: &mut Option<Axis>,
    has_origin: bool,
    handles: &[Handle],
    input: DragInput,
    has_primary: bool,
) -> (along: Option<usize>)
    ensures
        *final(dragging) == (if input.stopped {
            None
        } else {
            dragged_axis(*old(dragging), has_origin, handles@, input)
        }),
        match along {
            Some(i) => dragged_handle(*old(dragging), has_origin, handles@, input, has_primary)
                == Some(i as int),
            None => dragged_handle(*old(dragging), has_origin, handles@, input, has_primary)
                is None,
        },
        along matches Some(i) ==> i < handles@.len(),
{
    if !has_origin {
        *dragging = None;
        return None;
    }
    if input.started && input.pointer_known {
        let mut near: Vec<HandleDistance> = Vec::new();
        let ghost all = handles@.map_values(|handle: Handle| handle.near);
        let count: usize = handles.len();
        for i in 0..count
            invariant
                count == handles@.len(),
                all == handles@.map_values(|handle: Handle| handle.near),
                near@ == all.take(i as int),
        {
            near.push(handles[i].near);
            assert(near@ =~= all.take(i + 1));
        }
        assert(near@ =~= all);
        *dragging = pick_axis(&near);
    }
    let axis: Option<Axis> = *dragging;
    if input.stopped {
        *dragging = None;
    }
    let axis: Axis = match axis {
        Some(axis) => axis,
        None => {
            return None;
        },
    };
    let mut i: usize = 0;
    while i < handles.len() && handles[i].near.axis != axis
        invariant
            i <= handles@.len(),
            first_handle(handles@, axis, 0) == first_handle(handles@, axis, i as int),
        decreases handles@.len() - i,
    {
        i += 1;
    }
    if i == handles.len() {
        return None;
    }
    let shortest = Scalar { bits: EPSILON_BITS };
    if input.dragged && has_primary && shortest.is_less(&handles[i].length) {
        Some(i)
    } else {
        None
    }
}

/// Whether a drag moves the entity: locked ones stay.
pub open spec fn is_free(world: WorldView, entity: Entity) -> bool {
    !(world.alive(entity) && world.table[entity].lock is Some)
}

/// The entities that a drag is applied to.
pub open spec fn drag_targets(
    world: WorldView,
    primary: Option<Entity>,
    secondary: Seq<Entity>,
) -> Seq<Entity> {
    selected(primary, secondary).filter(|entity: Entity| is_free(world, entity))
}

/// Whether the world changed as applying the drag to the entity changes it: its
/// transform was updated, if it has one.
pub open spec fn drag_step<F: Fn(Transform) -> Transform>(
    before: WorldView,
    after: WorldView,
    entity: Entity,
    update: &F,
) -> bool {
    match before.table[entity].transform {
        Some(transform) => if before.alive(entity) {
            &&& after.table[entity].transform matches Some(moved) && update.ensures(
                (transform,),
                moved,
            )
            &&& after == before.updated(
                entity,
                Components { transform: after.table[entity].transform, ..before.table[entity] },
            )
        } else {
            after == before
        },
        None => after == before,
    }
}

/// Whether the worlds are those that applying the drag to one entity after the other
/// goes through.
pub open spec fn drag_trace<F: Fn(Transform) -> Transform>(
    worlds: Seq<WorldView>,
    targets: Seq<Entity>,
    update: &F,
) -> bool {
    &&& worlds.len() == targets.len() + 1
    &&& forall|i: int|
        0 <= i < targets.len() ==> drag_step(
            worlds[i],
            #[trigger] worlds[i + 1],
            targets[i],
            update,
        )
}

/// Whether dragging took the world from one state to the other.
pub open spec fn dragged<F: Fn(Transform) -> Transform>(
    before: WorldView,
    after: WorldView,
    targets: Seq<Entity>,
    update: &F,
) -> bool {
    exists|worlds: Seq<WorldView>| #[trigger]
        drag_trace(worlds, targets, update) && worlds[0] == before && worlds.last() == after
}

/// Applies a drag to every entity of the selection that is not locked and has a
/// transform.
pub fn drag_selection<F: Fn(Transform) -> Transform>(
    world: &mut SceneWorld,
    primary: Option<Entity>,
    secondary: &[Entity],
    update: &F,
)
    requires
        old(world).wf(),
        forall|transform: Transform| update.requires((transform,)),
    ensures
        final(world).wf(),
        dragged(
            old(world)@,
            final(world)@,
            drag_targets(old(world)@, primary, secondary@),
            update,
        ),
{
    let ghost before = world@;
    let all = selection_list(primary, secondary);
    let ghost free = |entity: Entity| is_free(before, entity);
    let mut targets: Vec<Entity> = Vec::new();
    let count: usize = all.len();
    proof {
        reveal(Seq::filter);
        assert(all@.take(0).filter(free) =~= Seq::empty());
    }
    for i in 0..count
        invariant
            world.wf(),
            world@ == before,
            count == all@.len(),
            free == (|entity: Entity| is_free(before, entity)),
            targets@ == all@.take(i as int).filter(free),
    {
        let entity = all[i];
        let locked: bool = match world.get(entity) {
            Some(components) => components.lock.is_some(),
            None => false,
        };
        proof {
            assert(all@.take(i + 1) =~= all@.take(i as int).push(entity));
            lemma_filter_push(all@.take(i as int), entity, free);
        }
        if !locked {
            targets.push(entity);
        }
    }
    assert(all@.take(count as int) =~= all@);
    assert(targets@ == drag_targets(before, primary, secondary@));
    let ghost mut worlds: Seq<WorldView> = seq![before];
    let count: usize = targets.len();
    for i in 0..count
        invariant
            world.wf(),
            count == targets@.len(),
            forall|transform: Transform| update.requires((transform,)),
            worlds.len() == i + 1,
            worlds[0] == before,
            worlds.last() == world@,
            forall|k: int|
                0 <= k < i ==> drag_step(worlds[k], #[trigger] worlds[k + 1], targets@[k], update),
    {
        let target = targets[i];
        let ghost earlier = world@;
        match transform_of(world, target) {
            Some(transform) => {
                let updated = update(transform);
                set_transform(world, target, updated);
            },
            None => {},
        }
        let ghost longer = worlds.push(world@);
        assert forall|k: int| 0 <= k < i + 1 implies drag_step(
            longer[k],
            #[trigger] longer[k + 1],
            targets@[k],
            update,
        ) by {
            if k < i {
                assert(longer[k + 1] == worlds[k + 1]);
            }
        }
        proof {
            worlds = longer;
        }
    }
    assert(drag_trace(worlds, targets@, update));
}

/// A drag changes nothing but transforms, and no transform of an entity that is
/// locked or not selected.
pub proof fn law_drag_moves_only_free_selected_entities<F: Fn(Transform) -> Transform>(
    before: WorldView,
    after: WorldView,
    targets: Seq<Entity>,
    update: &F,
    entity: Entity,
)
    requires
        dragged(before, after, targets, update),
    ensures
        after.order == before.order,
        after.parents == before.parents,
        after.population == before.population,
        !targets.contains(entity) ==> after.table[entity] == before.table[entity],
        before.alive(entity) ==> after.table[entity] == (Components {
            transform: after.table[entity].transform,
            ..before.table[entity]
        }),
{
    let worlds = choose|worlds: Seq<WorldView>| #[trigger]
        drag_trace(worlds, targets, update) && worlds[0] == before && worlds.last() == after;
    lemma_drag(worlds, targets, update, entity, targets.len());
}

proof fn lemma_drag<F: Fn(Transform) -> Transform>(
    worlds: Seq<WorldView>,
    targets: Seq<Entity>,
    update: &F,
    entity: Entity,
    n: nat,
)
    requires
        drag_trace(worlds, targets, update),
        n <= targets.len(),
    ensures
        worlds[n as int].order == worlds[0].order,
        worlds[n as int].parents == worlds[0].parents,
        worlds[n as int].population == worlds[0].population,
        !targets.contains(entity) ==> worlds[n as int].table[entity] == worlds[0].table[entity],
        worlds[0].alive(entity) ==> worlds[n as int].table[entity] == (Components {
            transform: worlds[n as int].table[entity].transform,
            ..worlds[0].table[entity]
        }),
    decreases n,
{
    if n > 0 {
        lemma_drag(worlds, targets, update, entity, (n - 1) as nat);
        let i = n - 1;
        assert(drag_step(worlds[i], worlds[i + 1], targets[i], update));
        assert(targets.contains(targets[i]));
    }
}

/// Starts play mode, or ends it: the world becomes what it was before, and nothing is
/// selected.
pub fn toggle_play<S, F: Fn(&SceneWorld) -> S, G: Fn(&S) -> SceneWorld>(
    play: &mut PlayState<S>,
    world: &mut SceneWorld,
    primary: &mut Option<Entity>,
    capture: &F,
    restore: &G,
)
    requires
        old(world).wf(),
        capture.requires((&*old(world),)),
        restores(restore),
    ensures
        final(world).wf(),
        old(play)@.mode == EditorMode::Edit ==> {
            &&& *final(world) == *old(world)
            &&& *final(primary) == *old(primary)
            &&& final(play)@.snapshot matches Some(scene) && final(play)@ == old(play)@.started(
                scene,
            ) && capture.ensures((&*old(world),), scene)
        },
        old(play)@.mode != EditorMode::Edit ==> {
            &&& final(play)@ == old(play)@.stopped()
            &&& *final(primary) is None
            &&& match old(play)@.snapshot {
                Some(scene) => restore.ensures((&scene,), *final(world)),
                None => *final(world) == *old(world),
            }
        },
        old(play)@.wf() ==> final(play)@.wf(),
{
    if play.is_playing() {
        play.stop(world, restore);
        *primary = None;
    } else {
        play.start(world, capture);
    }
}

/// The label of the play button.
pub fn play_label(playing: bool) -> (label: &'static str)
    ensures
        label@ == (if playing {
            "\u{23f9} Stop"@
        } else {
            "\u{25b6} Play"@
        }),
{
    if playing {
        "\u{23f9} Stop"
    } else {
        "\u{25b6} Play"
    }
}

/// What the toolbar says of play mode, with its color; nothing while editing.
pub fn mode_badge(mode: EditorMode) -> (badge: Option<((u8, u8, u8), &'static str)>)
    ensures
        match mode {
            EditorMode::Edit => badge is None,
            EditorMode::Building => badge matches Some(badge) && badge.0 == (150u8, 170u8, 210u8)
                && badge.1@ == "BUILDING"@,
            EditorMode::Play => badge matches Some(badge) && badge.0 == (235u8, 180u8, 90u8)
                && badge.1@ == "PLAYING"@,
        },
{
    match mode {
        EditorMode::Edit => None,
        EditorMode::Building => Some(((150, 170, 210), "BUILDING")),
        EditorMode::Play => Some(((235, 180, 90), "PLAYING")),
    }
}

/// The label of the entry that builds and exports the project.
pub open spec fn export_text(configuration: Option<Seq<char>>, running: bool) -> Seq<char> {
    match configuration {
        Some(name) => if running {
            "Building "@ + name + "\u{2026}"@
        } else {
            "Build & Export ("@ + name + ")\u{2026}"@
        },
        None => "Build & Export\u{2026}"@,
    }
}

/// The label of the entry that builds and exports the project.
pub fn export_label(configuration: Option<&str>, running: bool) -> (label: String)
    ensures
        label@ == export_text(
            match configuration {
                Some(name) => Some(name@),
                None => None,
            },
            running,
        ),
{
    match configuration {
        Some(name) => if running {
            join3("Building ", name, "\u{2026}")
        } else {
            join3("Build & Export (", name, ")\u{2026}")
        },
        None => "Build & Export\u{2026}".to_string(),
    }
}

/// Whether the project can be built and exported now.
pub fn can_export(has_configuration: bool, running: bool, playing: bool) -> (answer: bool)
    ensures
        answer == (has_configuration && !running && !playing),
{
    has_configuration && !running && !playing
}

/// The entry for a project opened before: its directory's name, or its whole path
/// where it has none, and whether it can be chosen, which the current one cannot.
pub fn recent_entry(root: &str, current: &str) -> (entry: (String, bool))
    ensures
        entry.0@ == (match file_name_of(root@) {
            Some(name) => name,
            None => root@,
        }),
        entry.1 == !same_path(root@, current@),
{
    let label = match file_name(root) {
        Some(name) => name,
        None => root.to_owned(),
    };
    (label, !crate::paths::same(root, current))
}

/// Where the text cursor is, in words.
pub fn cursor_text(line: u64, column: u64) -> (text: String)
    ensures
        text@ == "Ln "@ + decimal_text(line as nat) + ", Col "@ + decimal_text(column as nat),
{
    let place = join3("Ln ", &decimal(line), ", Col ");
    join2(&place, &decimal(column))
}

/// The label of a tab at the bottom: the one for problems says how many there are.
pub fn bottom_tab_label(tab: BottomTab, problems: u64) -> (label: String)
    ensures
        label@ == (if tab == BottomTab::Problems && problems > 0 {
            "Problems ("@ + decimal_text(problems as nat) + ")"@
        } else {
            tab.text()
        }),
{
    match tab {
        BottomTab::Problems => if problems > 0 {
            join3("Problems (", &decimal(problems), ")")
        } else {
            tab.label().to_string()
        },
        _ => tab.label().to_string(),
    }
}

/// Whether a file dropped on the scene is a template to be instantiated.
pub open spec fn names_prefab(path: Seq<char>) -> bool {
    extension_of(path) matches Some(ext) && ascii_lowercase_of(ext) == "prefab"@
}

/// Whether a file dropped on the scene is a template to be instantiated. Any other
/// becomes an entity that refers to it.
pub fn is_prefab(path: &str) -> (answer: bool)
    ensures
        answer == names_prefab(path@),
{
    match extension(path) {
        Some(ext) => same(&ascii_lowercase(&ext), "prefab"),
        None => false,
    }
}

/// After a file was dropped on the scene: what was spawned for it, if anything, becomes
/// the sole selection, and the scene is unsaved.
pub fn accept_drop(
    spawned: Option<Entity>,
    primary: &mut Option<Entity>,
    secondary: &mut Vec<Entity>,
    dirty: &mut DirtyState,
)
    ensures
        spawned is None ==> {
            &&& *final(primary) == *old(primary)
            &&& final(secondary)@ == old(secondary)@
            &&& final(dirty)@ == old(dirty)@
        },
        spawned is Some ==> {
            &&& *final(primary) == spawned
            &&& final(secondary)@.len() == 0
            &&& final(dirty)@ == (DirtyView { scene: true, ..old(dirty)@ })
        },
{
    match spawned {
        Some(entity) => {
            select_only(primary, secondary, entity);
            dirty.mark_scene();
        },
        None => {},
    }
}

/// A rectangle on the screen.
#[derive(Debug, Clone, Copy, PartialEq, Eq, Structural)]
pub struct ScreenRect {
    /// Its left edge.
    pub x: Scalar,
    /// Its upper edge.
    pub y: Scalar,
    /// Its width.
    pub width: Scalar,
    /// Its height.
    pub height: Scalar,
}

impl ScreenRect {
    /// Whether the numbers are the same.
    pub open spec fn same(self, other: ScreenRect) -> bool {
        self.x.same(other.x) && self.y.same(other.y) && self.width.same(other.width)
            && self.height.same(other.height)
    }

    /// Whether the numbers are the same.
    pub fn is_same(&self, other: &ScreenRect) -> (answer: bool)
        ensures
            answer == self.same(*other),
    {
        self.x.is_same(&other.x) && self.y.is_same(&other.y) && self.width.is_same(&other.width)
            && self.height.is_same(&other.height)
    }
}

/// Where the code editor floats.
#[derive(Debug, Clone, Copy, PartialEq, Eq, Structural)]
pub struct CodePanel {
    /// The space for it, where its panel is shown.
    pub rect: Option<ScreenRect>,
    /// Whether it is shown.
    pub visible: bool,
    /// Whether its panel is being resized.
    pub resizing: bool,
}

impl CodePanel {
    /// Whether the space differs from that of the last frame.
    pub open spec fn moved(self, rect: Option<ScreenRect>) -> bool {
        match (self.rect, rect) {
            (Some(before), Some(now)) => !before.same(now),
            (Some(_), None) => true,
            (None, _) => false,
        }
    }

    /// Places it for a frame: it is shown where there is space and no question is
    /// open, and is being resized where the space changed while a button is held.
    pub fn place(&mut self, rect: Option<ScreenRect>, pointer_down: bool, asking: bool)
        ensures
            final(self).rect == rect,
            final(self).visible == (rect is Some && !asking),
            final(self).resizing == (pointer_down && old(self).moved(rect)),
    {
        let moved: bool = match (&self.rect, &rect) {
            (Some(before), Some(now)) => !before.is_same(now),
            (Some(_), None) => true,
            (None, _) => false,
        };
        self.resizing = pointer_down && moved;
        self.visible = rect.is_some() && !asking;
        self.rect = rect;
    }
}

/// Who wrote a message of the assistant's chat.
#[derive(Debug, Clone, Copy, PartialEq, Eq, Structural)]
pub enum ChatRole {
    /// The user.
    User,
    /// The assistant.
    Assistant,
    /// The editor.
    System,
}

impl ChatRole {
    /// How the writer is called.
    pub open spec fn text(self) -> Seq<char> {
        match self {
            ChatRole::User => "You"@,
            ChatRole::Assistant => "Assistant"@,
            ChatRole::System => "System"@,
        }
    }

    /// How the writer is called.
    pub fn label(self) -> (label: &'static str)
        ensures
            label@ == self.text(),
    {
        match self {
            ChatRole::User => "You",
            ChatRole::Assistant => "Assistant",
            ChatRole::System => "System",
        }
    }
}

/// A line of the chat.
pub fn chat_line(role: ChatRole, content: &str) -> (line: String)
    ensures
        line@ == role.text() + ": "@ + content@,
{
    join3(role.label(), ": ", content)
}

/// A prompt that was put in the queue.
#[derive(Debug, PartialEq, Eq)]
pub struct QueuedPrompt {
    /// What the user wrote.
    pub prompt: String,
    /// What the action log says of it.
    pub plan: String,
}

/// Puts what the user wrote in the queue, if the button was clicked and there is more
/// than white space.
pub fn queue_prompt(clicked: bool, input: &mut String) -> (queued: Option<QueuedPrompt>)
    ensures
        queued is Some <==> clicked && trim_of(old(input)@).len() > 0,
        queued is None ==> *final(input) == *old(input),
        queued matches Some(queued) ==> {
            &&& queued.prompt@ == old(input)@
            &&& queued.plan@ == "chat: "@ + old(input)@
            &&& final(input)@.len() == 0
        },
{
    if !clicked {
        return None;
    }
    let trimmed = trim(input);
    let rest = crate::text::to_chars(&trimmed);
    if rest.len() == 0 {
        return None;
    }
    let prompt = input.clone();
    let plan = join2("chat: ", &prompt);
    *input = String::new();
    Some(QueuedPrompt { prompt, plan })
}

/// How many entries of the action log are shown.
pub const SHOWN_LOG_ENTRIES: usize = 8;

/// The numbers of the log entries that are shown: the newest first.
pub fn shown_log_entries(count: usize) -> (shown: Vec<usize>)
    ensures
        shown@ == Seq::new(
            (if count < SHOWN_LOG_ENTRIES {
                count
            } else {
                SHOWN_LOG_ENTRIES
            }) as nat,
            |i: int| (count - 1 - i) as usize,
        ),
{
    let limit: usize = if count < SHOWN_LOG_ENTRIES {
        count
    } else {
        SHOWN_LOG_ENTRIES
    };
    let mut shown: Vec<usize> = Vec::new();
    for i in 0..limit
        invariant
            limit <= count,
            shown@.len() == i,
            forall|k: int| 0 <= k < i ==> #[trigger] shown@[k] == count - 1 - k,
    {
        shown.push(count - 1 - i);
    }
    assert(shown@ =~= Seq::new(limit as nat, |i: int| (count - 1 - i) as usize));
    shown
}

/// What dragging a handle does. Taking hold needs a place to drag from and a pointer; then
/// the handle that is nearest is held, and until it is let go the same one. The selection
/// follows exactly while the pointer moves, something is selected, and the first handle of
/// the held axis is longer than the smallest step between numbers near one.
pub proof fn law_held_handle_drags(
    dragging: Option<Axis>,
    has_origin: bool,
    handles: Seq<Handle>,
    input: DragInput,
    has_primary: bool,
    k: int,
)
    requires
        0 <= k < handles.len(),
    ensures
        ({
            let axis = dragged_axis(dragging, has_origin, handles, input);
            let along = dragged_handle(dragging, has_origin, handles, input, has_primary);
            let long = (Scalar { bits: 0x3400_0000 }).less(handles[k].length);
            &&& !has_origin ==> axis is None
            &&& has_origin && !(input.started && input.pointer_known) ==> axis == dragging
            &&& along is Some ==> 0 <= along->0 < handles.len() && axis == Some(
                handles[along->0].near.axis,
            )
            &&& along == Some(k) ==> input.dragged && has_primary && long
            &&& axis == Some(handles[k].near.axis) && along is Some ==> along->0 <= k
            &&& axis == Some(handles[k].near.axis) && input.dragged && has_primary && long
                && along is None ==> exists|j: int|
                0 <= j < k && #[trigger] handles[j].near.axis == handles[k].near.axis
        }),
{
    let axis = dragged_axis(dragging, has_origin, handles, input);
    if axis is Some {
        lemma_first_handle(handles, axis->0, 0);
    }
}

proof fn lemma_first_handle(handles: Seq<Handle>, axis: Axis, from: int)
    requires
        0 <= from,
    ensures
        match first_handle(handles, axis, from) {
            Some(i) => from <= i < handles.len() && handles[i].near.axis == axis && forall|j: int|
                from <= j < i ==> #[trigger] handles[j].near.axis != axis,
            None => forall|j: int|
                from <= j < handles.len() ==> #[trigger] handles[j].near.axis != axis,
        },
    decreases handles.len() - from,
{
    if from < handles.len() && handles[from].near.axis != axis {
        lemma_first_handle(handles, axis, from + 1);
    }
}

/// The entities that follow a drag are those of the selection that are not locked, the
/// primary one and the others alike.
pub proof fn law_locked_entities_are_not_dragged(
    world: WorldView,
    primary: Option<Entity>,
    secondary: Seq<Entity>,
    entity: Entity,
)
    ensures
        drag_targets(world, primary, secondary).contains(entity) <==> (primary == Some(entity)
            || secondary.contains(entity)) && !(world.table.contains_key(entity)
            && world.table[entity].lock is Some),
{
    let all = selected(primary, secondary);
    lemma_filter(all, |e: Entity| is_free(world, e));
    if primary == Some(entity) {
        assert(all[0] == entity);
    }
    if secondary.contains(entity) {
        let k = secondary.index_of(entity);
        assert(all[if primary is Some {
            k + 1
        } else {
            k
        }] == entity);
    }
    if all.contains(entity) && primary is Some {
        let k = all.index_of(entity);
        if k > 0 {
            assert(secondary[k - 1] == entity);
        }
    }
}

/// An entity that follows a drag once, is alive and has a transform, gets the transform that
/// the drag makes of the one it had.
pub proof fn law_dragged_entities_get_the_new_transform<F: Fn(Transform) -> Transform>(
    worlds: Seq<WorldView>,
    targets: Seq<Entity>,
    update: &F,
    k: int,
)
    requires
        drag_trace(worlds, targets, update),
        targets.no_duplicates(),
        0 <= k < targets.len(),
        worlds[0].table.contains_key(targets[k]),
        worlds[0].table[targets[k]].transform is Some,
    ensures
        worlds.last().table[targets[k]].transform is Some,
        update.ensures(
            (worlds[0].table[targets[k]].transform->0,),
            worlds.last().table[targets[k]].transform->0,
        ),
{
    lemma_not_dragged_yet(worlds, targets, update, targets[k], 0, k);
    assert(drag_step(worlds[k], worlds[k + 1], targets[k], update));
    lemma_not_dragged_yet(
        worlds,
        targets,
        update,
        targets[k],
        k + 1,
        targets.len() as int,
    );
}

proof fn lemma_not_dragged_yet<F: Fn(Transform) -> Transform>(
    worlds: Seq<WorldView>,
    targets: Seq<Entity>,
    update: &F,
    entity: Entity,
    from: int,
    n: int,
)
    requires
        drag_trace(worlds, targets, update),
        0 <= from <= n <= targets.len(),
        forall|i: int| from <= i < n ==> #[trigger] targets[i] != entity,
    ensures
        worlds[n].table.contains_key(entity) == worlds[from].table.contains_key(entity),
        worlds[n].table[entity] == worlds[from].table[entity],
    decreases n - from,
{
    if from < n {
        lemma_not_dragged_yet(worlds, targets, update, entity, from, n - 1);
        assert(drag_step(worlds[n - 1], worlds[(n - 1) + 1], targets[n - 1], update));
    }
}

/// The code panel counts as moved exactly if it was shown and now is not, or has another
/// place or size.
pub proof fn law_code_panel_moves_with_its_place(panel: CodePanel, rect: Option<ScreenRect>)
    ensures
        panel.moved(rect) <==> panel.rect is Some && !(rect is Some
            && panel.rect->0.x.same(rect->0.x) && panel.rect->0.y.same(rect->0.y)
            && panel.rect->0.width.same(rect->0.width) && panel.rect->0.height.same(
            rect->0.height,
        )),
{
}

/// A file is a prefab exactly if what is behind the last dot of its name says so, in any
/// letter case.
pub proof fn law_prefabs_are_told_by_their_extension(path: Seq<char>)
    ensures
        names_prefab(path) <==> extension_of(path) is Some && {
            let ext = extension_of(path)->0;
            &&& ext.len() == 6
            &&& ext[0] == 'p' || ext[0] == 'P'
            &&& ext[1] == 'r' || ext[1] == 'R'
            &&& ext[2] == 'e' || ext[2] == 'E'
            &&& ext[3] == 'f' || ext[3] == 'F'
            &&& ext[4] == 'a' || ext[4] == 'A'
            &&& ext[5] == 'b' || ext[5] == 'B'
        },
{
    reveal_strlit("prefab");
    if extension_of(path) is Some {
        let ext = extension_of(path)->0;
        let low = ascii_lowercase_of(ext);
        assert(low.len() == ext.len());
        if ext.len() == 6 {
            law_ascii_lowercase(ext, 0);
            law_ascii_lowercase(ext, 1);
            law_ascii_lowercase(ext, 2);
            law_ascii_lowercase(ext, 3);
            law_ascii_lowercase(ext, 4);
            law_ascii_lowercase(ext, 5);
            assert(low[0] == 'p' <==> ext[0] == 'p' || ext[0] == 'P');
            assert(low[1] == 'r' <==> ext[1] == 'r' || ext[1] == 'R');
            assert(low[2] == 'e' <==> ext[2] == 'e' || ext[2] == 'E');
            assert(low[3] == 'f' <==> ext[3] == 'f' || ext[3] == 'F');
            assert(low[4] == 'a' <==> ext[4] == 'a' || ext[4] == 'A');
            assert(low[5] == 'b' <==> ext[5] == 'b' || ext[5] == 'B');
            if low[0] == 'p' && low[1] == 'r' && low[2] == 'e' && low[3] == 'f' && low[4] == 'a'
                && low[5] == 'b' {
                assert(low =~= "prefab"@);
            }
        }
    }
}

/// Who speaks in the chat with the assistant.
pub proof fn law_speakers_are_named(choice: ChatRole)
    ensures
        choice is User ==> choice.text() == "You"@,
        choice is Assistant ==> choice.text() == "Assistant"@,
        choice is System ==> choice.text() == "System"@,
{
}

/// What the button for an export says: what is built, if something is to be, and whether it
/// is being built.
pub proof fn law_export_button_names_what_is_built(name: Seq<char>)
    ensures
        export_text(None, true) == "Build & Export\u{2026}"@,
        export_text(None, false) == "Build & Export\u{2026}"@,
        export_text(Some(name), true) == "Building "@ + name + "\u{2026}"@,
        export_text(Some(name), false) == "Build & Export ("@ + name + ")\u{2026}"@,
{
}

/// Taking hold of a handle takes that of the nearest axis: the first of the nearest handles
/// that are at most eight pixels away from the pointer, if there is one.
pub proof fn law_nearest_handle_is_held(
    dragging: Option<Axis>,
    handles: Seq<Handle>,
    input: DragInput,
) -> (k: int)
    requires
        input.started,
        input.pointer_known,
    ensures
        ({
            let eight = Scalar { bits: 0x4100_0000 };
            let held = dragged_axis(dragging, true, handles, input);
            &&& held is Some ==> 0 <= k < handles.len() && held == Some(handles[k].near.axis)
                && handles[k].near.distance.at_most(eight)
            &&& held is Some ==> forall|i: int|
                0 <= i < handles.len() && (#[trigger] handles[i]).near.distance.at_most(eight)
                    ==> handles[k].near.distance.place() <= handles[i].near.distance.place()
            &&& held is None ==> forall|i: int|
                0 <= i < handles.len() ==> !(#[trigger] handles[i]).near.distance.at_most(eight)
        }),
{
    let near = handles.map_values(|handle: Handle| handle.near);
    let k = law_first_of_the_nearest_handles_is_taken(near);
    assert forall|i: int| 0 <= i < handles.len() implies near[i] == (#[trigger] handles[i]).near by {
    }
    k
}

} // verus!
