//! What the hierarchy panel does with the user's input.
//!
//! The panel draws a row per entity and reports clicks, drops and edits; each of
//! them is decided here.

use vstd::prelude::*;

use crate::ecs::components::{no_components, Components, Lock, Transform};
use crate::ecs::entities::{
    ancestor, descends, law_descent_is_reflexive_and_transitive, subtree, valid_entity, Entity,
    MAX_POPULATION,
};
use crate::ecs::tree::{acyclic, lemma_chain_is_linked, lemma_fewer_links};
use crate::ecs::world::{lemma_filter, lemma_filter_push, SceneWorld, WorldView};
use crate::editor::duplicate::{
    copy_size, duplicate_entity, duplicated, extends, lemma_new_roots_keep_subtrees,
};
use crate::editor::hierarchy::{
    display_name, is_descendant, is_locked, label_of, law_no_entity_is_put_below_itself,
    law_range_runs_between_the_two, law_toggling_changes_one_entity, locked_in, may_reparent,
    parent_placement, placement, rename, reparent, reparented, run_between, select_only,
    select_range, select_toggle, selected, selected_once, selection_list, toggled, HierarchyState,
    Renaming,
};
use crate::text::{trim, trim_of};

verus! {

/// The selection after a click on a row: with the range modifier the rows from
/// the primary to it, with the multiple modifier the row toggled, else the row
/// alone.
pub open spec fn clicked(
    primary: Option<Entity>,
    secondary: Seq<Entity>,
    order: Seq<Entity>,
    entity: Entity,
    multi: bool,
    range: bool,
) -> (Option<Entity>, Seq<Entity>) {
    if range {
        match primary {
            Some(anchor) if order.contains(anchor) && order.contains(entity) => (
                primary,
                run_between(
                    order,
                    order.index_of_first(anchor)->0,
                    order.index_of_first(entity)->0,
                ).filter(|e: Entity| e != anchor),
            ),
            _ => (Some(entity), Seq::empty()),
        }
    } else if multi {
        toggled(primary, secondary, entity)
    } else {
        (Some(entity), Seq::empty())
    }
}

/// Changes the selection for a click on the row of `entity`.
pub fn row_clicked(
    primary: &mut Option<Entity>,
    secondary: &mut Vec<Entity>,
    order: &[Entity],
    entity: Entity,
    multi: bool,
    range: bool,
)
    ensures
        (*final(primary), final(secondary)@) == clicked(
            *old(primary),
            old(secondary)@,
            order@,
            entity,
            multi,
            range,
        ),
{
    if range {
        select_range(primary, secondary, order, entity);
    } else if multi {
        select_toggle(primary, secondary, entity);
    } else {
        select_only(primary, secondary, entity);
    }
    assert(secondary@.len() == 0 ==> secondary@ =~= Seq::<Entity>::empty());
}

/// Begins renaming the entity, with its label as the draft.
pub fn begin_rename(world: &SceneWorld, state: &mut HierarchyState, entity: Entity)
    requires
        world.wf(),
        valid_entity(entity),
    ensures
        final(state).renaming matches Some(renaming) && renaming.entity == entity
            && renaming.draft@ == label_of(world@, entity) && renaming.focus,
        final(state).search == old(state).search,
        final(state).prefab_request == old(state).prefab_request,
        final(state).flat_order == old(state).flat_order,
{
    state.renaming = Some(Renaming { entity, draft: display_name(world, entity), focus: true });
}

/// What the rename field reports of a frame.
#[derive(Clone, Copy)]
pub struct RenameInput {
    /// Whether the field lost the focus.
    pub lost_focus: bool,
    /// Whether the enter key was pressed.
    pub enter_pressed: bool,
    /// Whether the escape key was pressed.
    pub escape_pressed: bool,
}

impl RenameInput {
    /// Whether the draft is accepted.
    pub open spec fn accepts(self) -> bool {
        self.lost_focus && self.enter_pressed
    }

    /// Whether the draft is dropped.
    pub open spec fn drops(self) -> bool {
        !self.accepts() && (self.escape_pressed || self.lost_focus)
    }
}

/// Whether the entity's row shows the rename field.
pub fn is_renaming(state: &HierarchyState, entity: Entity) -> (answer: bool)
    ensures
        answer == (state.renaming matches Some(renaming) && renaming.entity == entity),
{
    match &state.renaming {
        Some(renaming) => renaming.entity == entity,
        None => false,
    }
}

/// Ends a frame of the rename field. Accepted, a draft that is more than white
/// space becomes the entity's name, trimmed; dropped, it is gone; else it stays,
/// and no longer asks for the focus.
pub fn rename_frame(world: &mut SceneWorld, state: &mut HierarchyState, input: RenameInput)
    requires
        old(world).wf(),
        old(state).renaming matches Some(renaming) ==> old(world)@.alive(renaming.entity),
    ensures
        final(world).wf(),
        final(state).search == old(state).search,
        final(state).prefab_request == old(state).prefab_request,
        final(state).flat_order == old(state).flat_order,
        match old(state).renaming {
            Some(renaming) => {
                let name = trim_of(renaming.draft@);
                &&& if input.accepts() && name.len() > 0 {
                    let label = final(world)@.table[renaming.entity].name;
                    &&& label matches Some(label) && label.0@ == name
                    &&& final(world)@ == old(world)@.updated(
                        renaming.entity,
                        (Components { name: label, ..old(world)@.table[renaming.entity] }),
                    )
                } else {
                    final(world)@ == old(world)@
                }
                &&& if input.accepts() || input.drops() {
                    final(state).renaming is None
                } else {
                    final(state).renaming == Some((Renaming { focus: false, ..renaming }))
                }
            },
            None => final(world)@ == old(world)@ && final(state).renaming is None,
        },
{
    match state.renaming.take() {
        Some(mut renaming) => {
            renaming.focus = false;
            if input.lost_focus && input.enter_pressed {
                let name = trim(&renaming.draft);
                if !name.as_str().is_empty() {
                    rename(world, renaming.entity, &name);
                }
            } else if input.escape_pressed || input.lost_focus {
            } else {
                state.renaming = Some(renaming);
            }
        },
        None => {},
    }
}

/// What happens to one entity dropped on `target`: it moves there, unless it is
/// locked, is not alive or would close a circle.
pub open spec fn drop_moves(world: WorldView, child: Entity, target: Entity) -> bool {
    !locked_in(world, child) && may_reparent(world, child, Some(target))
}

/// Whether `now` is `before` after one entity was dropped on `target`.
pub open spec fn drop_step<F: Fn(&Vec<Transform>, &Vec<Transform>) -> Transform>(
    before: WorldView,
    now: WorldView,
    child: Entity,
    target: Entity,
    relocate: F,
) -> bool {
    if drop_moves(before, child, target) {
        exists|a: Vec<Transform>, b: Vec<Transform>, local: Transform|
            {
                &&& a@ == placement(before, child)
                &&& b@ == parent_placement(before, Some(target))
                &&& #[trigger] relocate.ensures((&a, &b), local)
                &&& now == reparented(before, child, Some(target), local)
            }
    } else {
        now == before
    }
}

/// Whether `worlds` are what the world becomes from one dropped entity to the
/// next, and `moved` is whether any of them moves.
pub open spec fn drop_run<F: Fn(&Vec<Transform>, &Vec<Transform>) -> Transform>(
    worlds: Seq<WorldView>,
    group: Seq<Entity>,
    target: Entity,
    relocate: F,
    moved: bool,
) -> bool {
    &&& worlds.len() == group.len() + 1
    &&& forall|i: int|
        0 <= i < group.len() ==> drop_step(
            #[trigger] worlds[i],
            worlds[i + 1],
            group[i],
            target,
            relocate,
        )
    &&& moved <==> exists|i: int|
        0 <= i < group.len() && drop_moves(#[trigger] worlds[i], group[i], target)
}

/// The entities that a drop moves: all that are selected where the dragged one
/// is among them, else it alone.
pub open spec fn drop_group(
    primary: Option<Entity>,
    secondary: Seq<Entity>,
    dragged: Entity,
) -> Seq<Entity> {
    if primary == Some(dragged) || secondary.contains(dragged) {
        selected(primary, secondary)
    } else {
        seq![dragged]
    }
}

fn holds(entities: &[Entity], entity: Entity) -> (answer: bool)
    ensures
        answer == entities@.contains(entity),
{
    for i in 0..entities.len()
        invariant
            forall|j: int| 0 <= j < i ==> entities@[j] != entity,
    {
        if entities[i] == entity {
            assert(entities@[i as int] == entity);
            return true;
        }
    }
    false
}

/// Drops the dragged entity, and the whole selection where it is part of it, on
/// the row of `target`: one after the other they become its children, keeping
/// their place in the world. Locked entities stay where they are, and so do those
/// that would close a circle. If any moved, the dragged entity is the selection.
pub fn drop_on_row<F: Fn(&Vec<Transform>, &Vec<Transform>) -> Transform>(
    world: &mut SceneWorld,
    primary: &mut Option<Entity>,
    secondary: &mut Vec<Entity>,
    dragged: Entity,
    target: Entity,
    relocate: &F,
) -> (moved: bool)
    requires
        old(world).wf(),
        forall|a: Vec<Transform>, b: Vec<Transform>| relocate.requires((&a, &b)),
    ensures
        final(world).wf(),
        exists|worlds: Seq<WorldView>|
            {
                &&& #[trigger] drop_run(
                    worlds,
                    drop_group(*old(primary), old(secondary)@, dragged),
                    target,
                    *relocate,
                    moved,
                )
                &&& worlds[0] == old(world)@
                &&& worlds.last() == final(world)@
            },
        moved ==> *final(primary) == Some(dragged) && final(secondary)@.len() == 0,
        !moved ==> *final(primary) == *old(primary) && final(secondary)@ == old(secondary)@,
{
    let in_selection: bool = *primary == Some(dragged) || holds(secondary, dragged);
    let group: Vec<Entity> = if in_selection {
        selection_list(*primary, secondary)
    } else {
        let mut one: Vec<Entity> = Vec::new();
        one.push(dragged);
        one
    };
    assert(group@ =~= drop_group(*primary, secondary@, dragged));
    let ghost mut worlds: Seq<WorldView> = seq![world@];
    let mut moved: bool = false;
    for i in 0..group.len()
        invariant
            forall|a: Vec<Transform>, b: Vec<Transform>| relocate.requires((&a, &b)),
            world.wf(),
            worlds.len() == i + 1,
            worlds[0] == old(world)@,
            worlds.last() == world@,
            forall|j: int|
                0 <= j < i ==> drop_step(
                    #[trigger] worlds[j],
                    worlds[j + 1],
                    group@[j],
                    target,
                    *relocate,
                ),
            moved <==> exists|j: int|
                0 <= j < i && drop_moves(#[trigger] worlds[j], group@[j], target),
    {
        let child: Entity = group[i];
        let ghost before = world@;
        let ghost listed = worlds;
        let mut now: bool = false;
        if !is_locked(world, child) && !is_descendant(world, target, child) {
            now = reparent(world, child, Some(target), relocate);
        }
        if now {
            moved = true;
        }
        proof {
            worlds = worlds.push(world@);
            assert(now == drop_moves(before, child, target));
            assert(drop_step(listed[i as int], world@, child, target, *relocate));
            assert forall|j: int| 0 <= j < i + 1 implies drop_step(
                #[trigger] worlds[j],
                worlds[j + 1],
                group@[j],
                target,
                *relocate,
            ) by {
                if j < i {
                    assert(worlds[j] == listed[j] && worlds[j + 1] == listed[j + 1]);
                } else {
                    assert(worlds[j] == listed[j] && worlds[j + 1] == world@);
                }
            }
            if moved {
                if now {
                    assert(drop_moves(worlds[i as int], group@[i as int], target));
                } else {
                    let j = choose|j: int|
                        0 <= j < i && drop_moves(#[trigger] listed[j], group@[j], target);
                    assert(drop_moves(worlds[j], group@[j], target));
                }
            }
            if exists|j: int|
                0 <= j < i + 1 && drop_moves(#[trigger] worlds[j], group@[j], target) {
                let j = choose|j: int|
                    0 <= j < i + 1 && drop_moves(#[trigger] worlds[j], group@[j], target);
                assert(worlds[j] == listed[j]);
            }
        }
    }
    assert(drop_run(worlds, group@, target, *relocate, moved));
    if moved {
        select_only(primary, secondary, dragged);
    }
    moved
}

/// Drops the dragged entity on the scene root: it becomes a root and the
/// selection, where it is alive and not locked.
pub fn drop_on_root<F: Fn(&Vec<Transform>, &Vec<Transform>) -> Transform>(
    world: &mut SceneWorld,
    primary: &mut Option<Entity>,
    secondary: &mut Vec<Entity>,
    dragged: Entity,
    relocate: &F,
) -> (moved: bool)
    requires
        old(world).wf(),
        forall|a: Vec<Transform>, b: Vec<Transform>| relocate.requires((&a, &b)),
    ensures
        final(world).wf(),
        moved == (old(world)@.alive(dragged) && !locked_in(old(world)@, dragged)),
        moved ==> {
            &&& *final(primary) == Some(dragged)
            &&& final(secondary)@.len() == 0
            &&& exists|a: Vec<Transform>, b: Vec<Transform>, local: Transform|
                {
                    &&& a@ == placement(old(world)@, dragged)
                    &&& b@ == Seq::<Transform>::empty()
                    &&& #[trigger] relocate.ensures((&a, &b), local)
                    &&& final(world)@ == reparented(old(world)@, dragged, None, local)
                }
        },
        !moved ==> {
            &&& final(world)@ == old(world)@
            &&& *final(primary) == *old(primary)
            &&& final(secondary)@ == old(secondary)@
        },
{
    if is_locked(world, dragged) {
        return false;
    }
    let moved: bool = reparent(world, dragged, None, relocate);
    if moved {
        select_only(primary, secondary, dragged);
    }
    moved
}

/// Everything at or below an entity of `entities` that is alive.
pub open spec fn doomed(world: WorldView, entities: Seq<Entity>) -> Set<Entity> {
    Set::new(
        |e: Entity|
            exists|i: int|
                0 <= i < entities.len() && world.alive(entities[i]) && #[trigger] descends(
                    world.parents,
                    e,
                    entities[i],
                ),
    )
}

proof fn lemma_filter_twice(
    items: Seq<Entity>,
    one: Set<Entity>,
    two: Set<Entity>,
    both: Set<Entity>,
)
    requires
        forall|e: Entity| #[trigger] both.contains(e) <==> one.contains(e) || two.contains(e),
    ensures
        items.filter(|e: Entity| !one.contains(e)).filter(|e: Entity| !two.contains(e))
            == items.filter(|e: Entity| !both.contains(e)),
    decreases items.len(),
{
    reveal(Seq::filter);
    let a = |e: Entity| !one.contains(e);
    let b = |e: Entity| !two.contains(e);
    let c = |e: Entity| !both.contains(e);
    if items.len() > 0 {
        let rest = items.drop_last();
        let last = items.last();
        lemma_filter_twice(rest, one, two, both);
        lemma_filter_push(rest, last, a);
        lemma_filter_push(rest, last, c);
        assert(items =~= rest.push(last));
        if a(last) {
            lemma_filter_push(rest.filter(a), last, b);
        }
        assert(both.contains(last) <==> one.contains(last) || two.contains(last));
    }
}

/// Removing one more branch from a world from which branches were removed.
proof fn lemma_remove_branch(
    before: WorldView,
    entities: Seq<Entity>,
    i: int,
    middle: WorldView,
)
    requires
        before.consistent(),
        0 <= i < entities.len(),
        middle == before.without(doomed(before, entities.take(i))),
    ensures
        middle.alive(entities[i]) ==> middle.without(subtree(middle.parents, entities[i]))
            == before.without(doomed(before, entities.take(i + 1))),
        !middle.alive(entities[i]) ==> doomed(before, entities.take(i + 1)) == doomed(
            before,
            entities.take(i),
        ),
{
    let entity = entities[i];
    let gone = doomed(before, entities.take(i));
    let all = doomed(before, entities.take(i + 1));
    let branch = subtree(before.parents, entity);
    let left = subtree(middle.parents, entity);
    assert(entities.take(i + 1)[i] == entity);
    assert forall|e: Entity| #[trigger] all.contains(e) <==> gone.contains(e) || (before.alive(
        entity,
    ) && branch.contains(e)) by {
        if all.contains(e) {
            let j = choose|j: int|
                0 <= j < entities.take(i + 1).len() && before.alive(entities.take(i + 1)[j])
                    && #[trigger] descends(before.parents, e, entities.take(i + 1)[j]);
            if j < i {
                assert(entities.take(i)[j] == entities.take(i + 1)[j]);
                assert(descends(before.parents, e, entities.take(i)[j]));
            }
        }
        if gone.contains(e) {
            let j = choose|j: int|
                0 <= j < entities.take(i).len() && before.alive(entities.take(i)[j])
                    && #[trigger] descends(before.parents, e, entities.take(i)[j]);
            assert(entities.take(i)[j] == entities.take(i + 1)[j]);
            assert(descends(before.parents, e, entities.take(i + 1)[j]));
        }
        if before.alive(entity) && branch.contains(e) {
            assert(descends(before.parents, e, entities.take(i + 1)[i]));
        }
    }
    assert forall|e: Entity, above: Entity| #[trigger]
        descends(before.parents, e, above) && gone.contains(above) implies gone.contains(e) by {
        let j = choose|j: int|
            0 <= j < entities.take(i).len() && before.alive(entities.take(i)[j])
                && #[trigger] descends(before.parents, above, entities.take(i)[j]);
        law_descent_is_reflexive_and_transitive(before.parents, e, above, entities.take(i)[j]);
        assert(descends(before.parents, e, entities.take(i)[j]));
    }
    if middle.alive(entity) {
        assert(before.alive(entity) && !gone.contains(entity));
        assert forall|e: Entity| #[trigger] all.contains(e) <==> gone.contains(e)
            || left.contains(e) by {
            if left.contains(e) {
                let k = choose|k: nat| #[trigger] ancestor(middle.parents, e, k) == Some(entity);
                lemma_fewer_links(before.parents, middle.parents, e, k);
                assert(ancestor(before.parents, e, k) == Some(entity));
                assert(branch.contains(e));
            }
            if branch.contains(e) && !gone.contains(e) {
                let k = choose|k: nat| #[trigger] ancestor(before.parents, e, k) == Some(entity);
                lemma_survivor_chain(before.parents, middle.parents, gone, e, k);
                assert(ancestor(middle.parents, e, k) == Some(entity));
            }
        }
        lemma_filter_twice(before.order, gone, left, all);
        let now = middle.without(left);
        let expected = before.without(all);
        assert(now.population == expected.population) by {
            let dom = before.table.dom();
            let first = dom.intersect(gone);
            let second = middle.table.dom().intersect(left);
            assert(middle.table.dom() =~= dom.difference(gone));
            assert(first.disjoint(second));
            assert(first + second =~= dom.intersect(all));
            vstd::set_lib::lemma_set_disjoint_lens(first, second);
            vstd::set_lib::lemma_len_subset(dom.intersect(all), dom);
        }
        assert(now.order == expected.order);
        assert(now.table =~= expected.table);
        assert(now.parents =~= expected.parents);
        assert(now =~= expected);
    } else {
        assert(all =~= gone) by {
            assert forall|e: Entity| all.contains(e) <==> gone.contains(e) by {
                if before.alive(entity) {
                    assert(gone.contains(entity));
                    if branch.contains(e) {
                        assert(descends(before.parents, e, entity));
                    }
                }
            }
        }
    }
}

/// A chain that begins with a survivor is left whole.
proof fn lemma_survivor_chain(
    before: Map<Entity, Entity>,
    now: Map<Entity, Entity>,
    gone: Set<Entity>,
    entity: Entity,
    k: nat,
)
    requires
        now == before.remove_keys(gone),
        !gone.contains(entity),
        forall|e: Entity, above: Entity| #[trigger]
            descends(before, e, above) && gone.contains(above) ==> gone.contains(e),
        ancestor(before, entity, k) is Some,
    ensures
        ancestor(now, entity, k) == ancestor(before, entity, k),
    decreases k,
{
    if k > 0 {
        lemma_chain_is_linked(before, entity, (k - 1) as nat, k);
        lemma_survivor_chain(before, now, gone, entity, (k - 1) as nat);
        let below = ancestor(before, entity, (k - 1) as nat)->0;
        assert(descends(before, entity, below));
        assert(!gone.contains(below));
        assert(now.contains_key(below));
    }
}

/// Removes all the given entities with everything below them.
pub fn despawn_all(world: &mut SceneWorld, entities: &[Entity])
    requires
        old(world).wf(),
    ensures
        final(world).wf(),
        final(world)@ == old(world)@.without(doomed(old(world)@, entities@)),
{
    let ghost before = world@;
    proof {
        world.lemma_consistent();
        let none = doomed(before, entities@.take(0));
        assert(none =~= Set::<Entity>::empty());
        let keep = |e: Entity| !none.contains(e);
        lemma_filter_all(before.order, keep);
        assert(before.table.dom().intersect(none) =~= Set::empty());
        assert(before.without(none).table =~= before.table);
        assert(before.without(none).parents =~= before.parents);
        assert(world@ =~= before.without(none));
    }
    for i in 0..entities.len()
        invariant
            before.consistent(),
            world.wf(),
            world@ == before.without(doomed(before, entities@.take(i as int))),
    {
        let ghost middle = world@;
        let _ = world.despawn(entities[i]);
        proof {
            lemma_remove_branch(before, entities@, i as int, middle);
        }
    }
    assert(entities@.take(entities@.len() as int) =~= entities@);
}

proof fn lemma_filter_all(items: Seq<Entity>, keep: spec_fn(Entity) -> bool)
    requires
        forall|e: Entity| #[trigger] keep(e),
    ensures
        items.filter(keep) == items,
    decreases items.len(),
{
    reveal(Seq::filter);
    if items.len() > 0 {
        lemma_filter_all(items.drop_last(), keep);
        assert(keep(items.last()));
        assert(items.drop_last().push(items.last()) =~= items);
    }
}

/// Removes the selected entities with everything below them; nothing is selected
/// or being renamed after.
pub fn delete_selection(
    world: &mut SceneWorld,
    primary: &mut Option<Entity>,
    secondary: &mut Vec<Entity>,
    state: &mut HierarchyState,
)
    requires
        old(world).wf(),
    ensures
        final(world).wf(),
        final(world)@ == old(world)@.without(
            doomed(old(world)@, selected(*old(primary), old(secondary)@)),
        ),
        *final(primary) is None,
        final(secondary)@.len() == 0,
        final(state).renaming is None,
        final(state).search == old(state).search,
        final(state).prefab_request == old(state).prefab_request,
        final(state).flat_order == old(state).flat_order,
{
    let selection = selection_list(*primary, secondary);
    despawn_all(world, &selection);
    *primary = None;
    secondary.clear();
    state.renaming = None;
}

/// Removes the entity of a row with everything below it, and takes it out of the
/// selection; nothing is being renamed after.
pub fn delete_row(
    world: &mut SceneWorld,
    primary: &mut Option<Entity>,
    secondary: &mut Vec<Entity>,
    state: &mut HierarchyState,
    entity: Entity,
)
    requires
        old(world).wf(),
    ensures
        final(world).wf(),
        !old(world)@.alive(entity) ==> final(world)@ == old(world)@,
        old(world)@.alive(entity) ==> final(world)@ == old(world)@.without(
            subtree(old(world)@.parents, entity),
        ),
        *final(primary) == (if *old(primary) == Some(entity) {
            None
        } else {
            *old(primary)
        }),
        final(secondary)@ == old(secondary)@.filter(|e: Entity| e != entity),
        final(state).renaming is None,
        final(state).search == old(state).search,
        final(state).prefab_request == old(state).prefab_request,
        final(state).flat_order == old(state).flat_order,
{
    let _ = world.despawn(entity);
    if *primary == Some(entity) {
        *primary = None;
    }
    let ghost listed = secondary@;
    let ghost keep = |e: Entity| e != entity;
    let mut kept: Vec<Entity> = Vec::new();
    proof {
        reveal(Seq::filter);
        assert(listed.take(0) =~= Seq::<Entity>::empty());
    }
    for i in 0..secondary.len()
        invariant
            listed == secondary@,
            keep == (|e: Entity| e != entity),
            kept@ == listed.take(i as int).filter(keep),
    {
        proof {
            assert(listed.take(i + 1) =~= listed.take(i as int).push(listed[i as int]));
            lemma_filter_push(listed.take(i as int), listed[i as int], keep);
        }
        if secondary[i] != entity {
            kept.push(secondary[i]);
        }
    }
    assert(listed.take(listed.len() as int) =~= listed);
    *secondary = kept;
    state.renaming = None;
}

/// The world with the entities of `selection` that are alive all locked, or all
/// unlocked.
pub open spec fn locked_all(world: WorldView, selection: Seq<Entity>, locked: bool) -> WorldView {
    WorldView {
        table: Map::new(
            |e: Entity| world.alive(e),
            |e: Entity|
                if selection.contains(e) {
                    Components {
                        lock: if locked {
                            Some(Lock)
                        } else {
                            None
                        },
                        ..world.table[e]
                    }
                } else {
                    world.table[e]
                },
        ),
        ..world
    }
}

/// Locks the whole selection, or unlocks it where the primary is locked.
pub fn toggle_lock(world: &mut SceneWorld, primary: Option<Entity>, secondary: &[Entity])
    requires
        old(world).wf(),
    ensures
        final(world).wf(),
        final(world)@ == locked_all(
            old(world)@,
            selected(primary, secondary@),
            !(primary matches Some(entity) && locked_in(old(world)@, entity)),
        ),
{
    let ghost before = world@;
    let unlock: bool = match primary {
        Some(entity) => is_locked(world, entity),
        None => false,
    };
    let selection = selection_list(primary, secondary);
    assert(world@ =~= locked_all(before, selection@.take(0), !unlock)) by {
        assert(world@.table =~= locked_all(before, selection@.take(0), !unlock).table);
    }
    for i in 0..selection.len()
        invariant
            world.wf(),
            world@ == locked_all(before, selection@.take(i as int), !unlock),
    {
        let entity: Entity = selection[i];
        let ghost middle = world@;
        proof {
            assert(selection@.take(i + 1) =~= selection@.take(i as int).push(entity));
            assert(selection@.take(i + 1)[i as int] == entity);
        }
        match world.get(entity) {
            Some(components) => {
                let mut components = components.clone();
                components.lock = if unlock {
                    None
                } else {
                    Some(Lock)
                };
                world.set(entity, components);
            },
            None => {},
        }
        proof {
            let expected = locked_all(before, selection@.take(i + 1), !unlock);
            assert forall|e: Entity| before.alive(e) implies #[trigger] world@.table[e]
                == expected.table[e] by {
                let (some, more) = (selection@.take(i as int), selection@.take(i + 1));
                if some.contains(e) {
                    let j = some.index_of(e);
                    assert(more[j] == e);
                }
                if more.contains(e) && e != entity {
                    let j = more.index_of(e);
                    assert(some[j] == e);
                }
                assert(middle.table[e] == locked_all(before, some, !unlock).table[e]);
            }
            assert(world@.table =~= expected.table);
            assert(world@ =~= expected);
        }
    }
    assert(selection@.take(selection@.len() as int) =~= selection@);
}

/// Locking twice is locking and unlocking: where the primary is alive and the
/// selection was all unlocked, the second use undoes the first.
pub proof fn law_toggling_the_lock_twice_restores(
    world: WorldView,
    primary: Entity,
    secondary: Seq<Entity>,
)
    requires
        world.alive(primary),
        forall|e: Entity| #[trigger]
            selected(Some(primary), secondary).contains(e) ==> !locked_in(world, e),
    ensures
        ({
            let selection = selected(Some(primary), secondary);
            let locked = locked_all(world, selection, true);
            &&& locked_in(locked, primary)
            &&& locked_all(locked, selection, false) == world
        }),
{
    let selection = selected(Some(primary), secondary);
    assert(selection[0] == primary);
    let locked = locked_all(world, selection, true);
    let after = locked_all(locked, selection, false);
    assert forall|e: Entity| world.alive(e) implies #[trigger] after.table[e] == world.table[e] by {
        if selection.contains(e) {
            assert(!locked_in(world, e));
        }
    }
    assert(after.table =~= world.table);
    assert(after =~= world);
}

/// How many entities the copies of all the given ones are.
pub open spec fn copy_total(world: WorldView, entities: Seq<Entity>) -> nat
    decreases entities.len(),
{
    if entities.len() == 0 {
        0
    } else {
        copy_total(world, entities.drop_last()) + copy_size(world, entities.last())
    }
}

proof fn lemma_copy_total_grows(world: WorldView, entities: Seq<Entity>, n: int)
    requires
        0 <= n <= entities.len(),
    ensures
        copy_total(world, entities.take(n)) <= copy_total(world, entities),
    decreases entities.len(),
{
    if n == entities.len() {
        assert(entities.take(n) =~= entities);
    } else {
        assert(entities.drop_last().take(n) =~= entities.take(n));
        lemma_copy_total_grows(world, entities.drop_last(), n);
    }
}

/// Whether `now` is `before` with a copy of `entity` added, or, where there was
/// no such entity, with an entity that carries nothing.
pub open spec fn copy_step(
    before: WorldView,
    now: WorldView,
    entity: Entity,
    existed: bool,
    copy: Entity,
) -> bool {
    if existed {
        duplicated(before, now, entity, copy)
    } else {
        !before.alive(copy) && now == before.spawned(copy, no_components())
    }
}

/// Whether `worlds` are what the world becomes from one copied entity to the
/// next, and `copies` are the copies.
pub open spec fn duplicate_run(
    worlds: Seq<WorldView>,
    copies: Seq<Entity>,
    entities: Seq<Entity>,
) -> bool {
    &&& worlds.len() == entities.len() + 1
    &&& copies.len() == entities.len()
    &&& forall|i: int|
        0 <= i < entities.len() ==> copy_step(
            worlds[i],
            worlds[i + 1],
            entities[i],
            worlds[0].alive(entities[i]),
            #[trigger] copies[i],
        )
}

/// Copies every selected entity, one after the other; the last copy becomes the
/// selection.
pub fn duplicate_selection(
    world: &mut SceneWorld,
    primary: &mut Option<Entity>,
    secondary: &mut Vec<Entity>,
)
    requires
        old(world).wf(),
        acyclic(old(world)@.parents),
        old(world)@.population + copy_total(
            old(world)@,
            selected(*old(primary), old(secondary)@),
        ) <= MAX_POPULATION,
    ensures
        final(world).wf(),
        acyclic(final(world)@.parents),
        extends(old(world)@, final(world)@, None),
        exists|worlds: Seq<WorldView>, copies: Seq<Entity>|
            {
                &&& #[trigger] duplicate_run(
                    worlds,
                    copies,
                    selected(*old(primary), old(secondary)@),
                )
                &&& worlds[0] == old(world)@
                &&& worlds.last() == final(world)@
                &&& if copies.len() == 0 {
                    *final(primary) == *old(primary) && final(secondary)@ == old(secondary)@
                } else {
                    *final(primary) == Some(copies.last()) && final(secondary)@.len() == 0
                }
            },
{
    let ghost before = world@;
    proof {
        world.lemma_consistent();
    }
    let selection = selection_list(*primary, secondary);
    let mut existed: Vec<bool> = Vec::new();
    for i in 0..selection.len()
        invariant
            world.wf(),
            before == world@,
            existed@.len() == i,
            forall|j: int| 0 <= j < i ==> #[trigger] existed@[j] == before.alive(selection@[j]),
    {
        existed.push(world.contains(selection[i]));
    }
    let ghost mut worlds: Seq<WorldView> = seq![world@];
    let ghost mut copies: Seq<Entity> = Seq::empty();
    let mut last: Option<Entity> = None;
    for i in 0..selection.len()
        invariant
            before.consistent(),
            existed@.len() == selection@.len(),
            forall|j: int|
                0 <= j < selection@.len() ==> #[trigger] existed@[j] == before.alive(
                    selection@[j],
                ),
            before.population + copy_total(before, selection@) <= MAX_POPULATION,
            world.wf(),
            acyclic(world@.parents),
            extends(before, world@, None),
            world@.population == before.population + copy_total(
                before,
                selection@.take(i as int),
            ),
            worlds.len() == i + 1,
            copies.len() == i,
            worlds[0] == before,
            worlds.last() == world@,
            forall|j: int|
                0 <= j < i ==> copy_step(
                    worlds[j],
                    worlds[j + 1],
                    selection@[j],
                    before.alive(selection@[j]),
                    #[trigger] copies[j],
                ),
            last == (if i == 0 {
                None
            } else {
                Some(copies.last())
            }),
    {
        let source: Entity = selection[i];
        let ghost middle = world@;
        let ghost (listed, made) = (worlds, copies);
        proof {
            assert(selection@.take(i + 1).drop_last() =~= selection@.take(i as int));
            assert(selection@.take(i + 1).last() == source);
            lemma_copy_total_grows(before, selection@, i + 1);
            if before.alive(source) {
                lemma_new_roots_keep_subtrees(before, middle, source);
                assert(middle.alive(source));
                assert(copy_size(middle, source) == copy_size(before, source));
            }
        }
        let copy: Entity = if existed[i] {
            duplicate_entity(world, source)
        } else {
            world.spawn(Components::default())
        };
        last = Some(copy);
        proof {
            worlds = worlds.push(world@);
            copies = copies.push(copy);
            assert forall|j: int| 0 <= j < i + 1 implies copy_step(
                worlds[j],
                worlds[j + 1],
                selection@[j],
                before.alive(selection@[j]),
                #[trigger] copies[j],
            ) by {
                assert(worlds[j] == listed[j]);
                if j < i {
                    assert(worlds[j + 1] == listed[j + 1] && copies[j] == made[j]);
                }
            }
            assert(extends(before, world@, None)) by {
                assert forall|e: Entity| #[trigger] before.alive(e) implies {
                    &&& world@.alive(e)
                    &&& world@.table[e] == before.table[e]
                    &&& world@.parents.contains_key(e) <==> before.parents.contains_key(e)
                    &&& before.parents.contains_key(e) ==> world@.parents[e] == before.parents[e]
                } by {
                    assert(middle.alive(e));
                }
                assert forall|e: Entity|
                    #![trigger world@.parents.contains_key(e)]
                    !before.alive(e) && world@.parents.contains_key(e) implies !before.alive(
                    world@.parents[e],
                ) by {
                    if middle.alive(e) {
                        assert(middle.parents.contains_key(e));
                    } else if before.alive(world@.parents[e]) {
                        assert(middle.alive(world@.parents[e]));
                    }
                }
            }
        }
    }
    assert(selection@.take(selection@.len() as int) =~= selection@);
    match last {
        Some(copy) => {
            select_only(primary, secondary, copy);
        },
        None => {},
    }
    assert(duplicate_run(worlds, copies, selection@));
}

/// A click without a modifier selects the row alone. With the modifier for several it leaves
/// what else is selected, and with that for a range it keeps the primary row and selects the
/// rows from it on; without a primary row that is listed it selects the row alone too.
pub proof fn law_clicks_select(
    primary: Option<Entity>,
    secondary: Seq<Entity>,
    order: Seq<Entity>,
    entity: Entity,
    multi: bool,
    range: bool,
    a: int,
    b: int,
    k: int,
)
    requires
        order.no_duplicates(),
        selected_once(primary, secondary),
        0 <= b < order.len(),
        order[b] == entity,
        0 <= k < order.len(),
    ensures
        ({
            let (p, s) = clicked(primary, secondary, order, entity, multi, range);
            let alone = p == Some(entity) && s.len() == 0;
            &&& !multi && !range ==> alone
            &&& range && primary is None ==> alone
            &&& range && primary is Some && !order.contains(primary->0) ==> alone
            &&& range && 0 <= a < order.len() && primary == Some(order[a]) ==> p == primary && (
            s.contains(order[k]) <==> k != a && (a <= k <= b || b <= k <= a))
            &&& multi && !range ==> (selected(p, s).contains(entity) <==> !selected(
                primary,
                secondary,
            ).contains(entity))
            &&& multi && !range && order[k] != entity ==> (selected(p, s).contains(order[k])
                <==> selected(primary, secondary).contains(order[k]))
        }),
{
    if range && 0 <= a < order.len() && primary == Some(order[a]) {
        order.index_of_first_ensures(order[a]);
        order.index_of_first_ensures(entity);
        assert(order.contains(order[a]) && order.contains(order[b]));
        assert(order.index_of_first(order[a])->0 == a);
        assert(order.index_of_first(entity)->0 == b);
        law_range_runs_between_the_two(order, a, b, k);
        let keep = |e: Entity| e != order[a];
        lemma_filter(run_between(order, a, b), keep);
        let (p, s) = clicked(primary, secondary, order, entity, multi, range);
        let anchor = primary->0;
        let other = |e: Entity| e != anchor;
        assert(keep =~= other);
        assert(s == run_between(order, a, b).filter(other));
        assert(s.contains(order[k]) <==> run_between(order, a, b).contains(order[k]) && keep(
            order[k],
        ));
    }
    if multi && !range {
        law_toggling_changes_one_entity(primary, secondary, entity);
    }
}

/// A rename is taken over exactly if the field is left by the enter key; it is dropped if
/// the field is left otherwise or escape is pressed.
pub proof fn law_enter_takes_the_name(input: RenameInput)
    ensures
        input.accepts() <==> input.lost_focus && input.enter_pressed,
        input.drops() <==> (input.lost_focus && !input.enter_pressed) || (!input.lost_focus
            && input.escape_pressed),
{
}

/// Dropping an entity on a row hangs it below that row, where the host's step puts it, if it
/// is not locked and may be there; nothing of the other entities changes. Otherwise nothing
/// changes at all.
pub proof fn law_dropped_entity_hangs_on_the_row<
    F: Fn(&Vec<Transform>, &Vec<Transform>) -> Transform,
>(
    before: WorldView,
    now: WorldView,
    child: Entity,
    target: Entity,
    relocate: F,
    other: Entity,
) -> (local: Transform)
    requires
        drop_step(before, now, child, target, relocate),
        other != child,
    ensures
        ({
            let free = before.table.contains_key(child) && before.table[child].lock is None;
            let moves = free && may_reparent(before, child, Some(target));
            &&& !moves ==> now == before
            &&& moves ==> {
                &&& now.parents.contains_key(child) && now.parents[child] == target
                &&& now.table[child] == (Components {
                    transform: Some(local),
                    ..before.table[child]
                })
                &&& now.parents.contains_key(other) == before.parents.contains_key(other)
                &&& before.parents.contains_key(other) ==> now.parents[other]
                    == before.parents[other]
                &&& before.table.contains_key(other) ==> now.table[other] == before.table[other]
                &&& exists|a: Vec<Transform>, b: Vec<Transform>|
                    a@ == placement(before, child) && b@ == placement(before, target)
                        && #[trigger] relocate.ensures((&a, &b), local)
            }
        }),
{
    if drop_moves(before, child, target) {
        let (a, b, local) = choose|a: Vec<Transform>, b: Vec<Transform>, local: Transform|
            {
                &&& a@ == placement(before, child)
                &&& b@ == parent_placement(before, Some(target))
                &&& #[trigger] relocate.ensures((&a, &b), local)
                &&& now == reparented(before, child, Some(target), local)
            };
        law_no_entity_is_put_below_itself(before, child, target, local, other, 0);
        local
    } else {
        arbitrary()
    }
}

/// What is dragged is the whole selection if the row that is held belongs to it, and the row
/// alone otherwise.
pub proof fn law_selection_is_dragged_together(
    primary: Option<Entity>,
    secondary: Seq<Entity>,
    dragged: Entity,
    entity: Entity,
)
    ensures
        ({
            let held = primary == Some(dragged) || secondary.contains(dragged);
            let group = drop_group(primary, secondary, dragged);
            &&& !held ==> (group.contains(entity) <==> entity == dragged)
            &&& held ==> (group.contains(entity) <==> primary == Some(entity)
                || secondary.contains(entity))
        }),
{
    let group = drop_group(primary, secondary, dragged);
    lemma_selected_has(primary, secondary, entity);
    if !(primary == Some(dragged) || secondary.contains(dragged)) {
        assert(group[0] == dragged);
    }
}

proof fn lemma_selected_has(primary: Option<Entity>, secondary: Seq<Entity>, entity: Entity)
    ensures
        selected(primary, secondary).contains(entity) <==> primary == Some(entity)
            || secondary.contains(entity),
{
    let all = selected(primary, secondary);
    if primary == Some(entity) {
        assert(all[0] == entity);
    }
    if secondary.contains(entity) {
        let k = secondary.index_of(entity);
        assert(all[if primary is Some {
            k + 1
        } else {
            k
        }] == entity);
    }
    if all.contains(entity) && primary is Some {
        let k = all.index_of(entity);
        if k > 0 {
            assert(secondary[k - 1] == entity);
        }
    }
}

/// Deleting the selection deletes what is selected and alive, with all that is below it, and
/// nothing else: every other entity keeps its components and its parent.
pub proof fn law_deleting_takes_what_is_below(
    world: WorldView,
    primary: Option<Entity>,
    secondary: Seq<Entity>,
    entity: Entity,
    k: nat,
)
    ensures
        ({
            let now = world.without(doomed(world, selected(primary, secondary)));
            let above = ancestor(world.parents, entity, k);
            let hit = above is Some && world.table.contains_key(above->0) && (primary == above
                || secondary.contains(above->0));
            &&& hit ==> !now.table.contains_key(entity) && !now.parents.contains_key(entity)
                && !now.order.contains(entity)
            &&& world.table.contains_key(entity) && !now.table.contains_key(entity)
                ==> exists|j: nat|
                {
                    let over = #[trigger] ancestor(world.parents, entity, j);
                    over is Some && world.table.contains_key(over->0) && (primary == over
                        || secondary.contains(over->0))
                }
            &&& now.table.contains_key(entity) ==> world.table.contains_key(entity)
                && now.table[entity] == world.table[entity] && now.parents.contains_key(entity)
                == world.parents.contains_key(entity)
            &&& now.parents.contains_key(entity) ==> world.parents.contains_key(entity)
                && now.parents[entity] == world.parents[entity]
        }),
{
    let all = selected(primary, secondary);
    let dead = doomed(world, all);
    let now = world.without(dead);
    lemma_filter(world.order, |e: Entity| !dead.contains(e));
    let above = ancestor(world.parents, entity, k);
    if above is Some {
        lemma_selected_has(primary, secondary, above->0);
        if world.table.contains_key(above->0) && all.contains(above->0) {
            let i = all.index_of(above->0);
            assert(descends(world.parents, entity, all[i]));
            assert(dead.contains(entity));
        }
    }
    if dead.contains(entity) {
        let i = choose|i: int|
            0 <= i < all.len() && world.alive(all[i]) && #[trigger] descends(
                world.parents,
                entity,
                all[i],
            );
        let j = choose|j: nat| #[trigger] ancestor(world.parents, entity, j) == Some(all[i]);
        assert(all.contains(all[i]));
        lemma_selected_has(primary, secondary, all[i]);
        assert(ancestor(world.parents, entity, j) == Some(all[i]));
    }
}

/// Locking or unlocking the selection does so for each selected entity that is alive, and
/// changes nothing else.
pub proof fn law_locks_are_set_on_the_selection(
    world: WorldView,
    selection: Seq<Entity>,
    locked: bool,
    entity: Entity,
)
    ensures
        ({
            let now = locked_all(world, selection, locked);
            &&& now.order == world.order && now.parents == world.parents && now.population
                == world.population
            &&& now.table.contains_key(entity) == world.table.contains_key(entity)
            &&& world.table.contains_key(entity) ==> now.table[entity] == (Components {
                lock: now.table[entity].lock,
                ..world.table[entity]
            })
            &&& world.table.contains_key(entity) && selection.contains(entity) ==> (
            now.table[entity].lock is Some <==> locked)
            &&& world.table.contains_key(entity) && !selection.contains(entity)
                ==> now.table[entity].lock == world.table[entity].lock
        }),
{
}

/// What dropping a group on a row does: each of the group is hung on the row or stays where
/// it was; entities that are not in the group stay as they are. The drop moved something
/// exactly if one of the group could be moved when it was its turn; otherwise the world is
/// as it was.
pub proof fn law_drop_moves_the_group<F: Fn(&Vec<Transform>, &Vec<Transform>) -> Transform>(
    worlds: Seq<WorldView>,
    group: Seq<Entity>,
    target: Entity,
    relocate: F,
    moved: bool,
    entity: Entity,
)
    requires
        drop_run(worlds, group, target, relocate, moved),
    ensures
        !moved ==> worlds.last() == worlds[0],
        worlds.last().order == worlds[0].order,
        worlds.last().table.contains_key(entity) == worlds[0].table.contains_key(entity),
        !group.contains(entity) ==> {
            &&& worlds.last().table[entity] == worlds[0].table[entity]
            &&& worlds.last().parents.contains_key(entity) == worlds[0].parents.contains_key(entity)
            &&& worlds[0].parents.contains_key(entity) ==> worlds.last().parents[entity]
                == worlds[0].parents[entity]
        },
        worlds.last().parents.contains_key(entity) ==> worlds.last().parents[entity] == target || (
        worlds[0].parents.contains_key(entity) && worlds.last().parents[entity]
            == worlds[0].parents[entity]),
        moved ==> exists|i: int|
            {
                let child = group[i];
                let then = #[trigger] worlds[i];
                &&& 0 <= i < group.len()
                &&& then.table.contains_key(child) && then.table[child].lock is None
                &&& may_reparent(then, child, Some(target))
            },
{
    lemma_drop_run(worlds, group, target, relocate, moved, entity, group.len());
    if moved {
        let i = choose|i: int|
            0 <= i < group.len() && drop_moves(#[trigger] worlds[i], group[i], target);
        assert(worlds[i].alive(group[i]));
    }
}

proof fn lemma_drop_run<F: Fn(&Vec<Transform>, &Vec<Transform>) -> Transform>(
    worlds: Seq<WorldView>,
    group: Seq<Entity>,
    target: Entity,
    relocate: F,
    moved: bool,
    entity: Entity,
    n: nat,
)
    requires
        drop_run(worlds, group, target, relocate, moved),
        n <= group.len(),
    ensures
        ({
            let now = worlds[n as int];
            let was = worlds[0];
            &&& !moved ==> now == was
            &&& now.order == was.order
            &&& now.table.contains_key(entity) == was.table.contains_key(entity)
            &&& !group.contains(entity) ==> {
                &&& now.table[entity] == was.table[entity]
                &&& now.parents.contains_key(entity) == was.parents.contains_key(entity)
                &&& was.parents.contains_key(entity) ==> now.parents[entity]
                    == was.parents[entity]
            }
            &&& now.parents.contains_key(entity) ==> now.parents[entity] == target || (
            was.parents.contains_key(entity) && now.parents[entity] == was.parents[entity])
        }),
    decreases n,
{
    if n > 0 {
        let m = n - 1;
        lemma_drop_run(worlds, group, target, relocate, moved, entity, m as nat);
        assert(drop_step(worlds[m], worlds[m + 1], group[m], target, relocate));
        assert(group.contains(group[m]));
    }
}

/// Duplicating the selection makes one copy for each selected entity in turn; for one that
/// is not alive the copy is an entity that carries nothing.
pub proof fn law_every_selected_entity_is_copied(
    worlds: Seq<WorldView>,
    copies: Seq<Entity>,
    entities: Seq<Entity>,
    i: int,
)
    requires
        duplicate_run(worlds, copies, entities),
        0 <= i < entities.len(),
    ensures
        copies.len() == entities.len(),
        worlds.len() == entities.len() + 1,
        worlds[0].table.contains_key(entities[i]) ==> duplicated(
            worlds[i],
            worlds[i + 1],
            entities[i],
            copies[i],
        ),
        !worlds[0].table.contains_key(entities[i]) ==> {
            let made = worlds[i + 1].table[copies[i]];
            &&& !worlds[i].table.contains_key(copies[i])
            &&& worlds[i + 1].table.contains_key(copies[i])
            &&& worlds[i + 1].parents == worlds[i].parents
            &&& made.name is None && made.transform is None && made.camera is None
            &&& made.asset_source is None && made.disabled is None && made.script is None
            &&& made.mesh_source is None && made.sprite_source is None
            &&& made.audio_emitter is None && made.collider is None && made.sprite is None
            &&& made.is_static is None && made.lock is None && made.global_transform is None
            &&& made.mesh_renderer is None && made.skinned_mesh_renderer is None
            &&& made.instanced_mesh_renderer is None && made.vegetation_renderer is None
        },
{
    assert(copies[i] == copies[i]);
}

} // verus!
