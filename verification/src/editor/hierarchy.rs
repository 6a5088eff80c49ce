//! The hierarchy panel: lists a world's entities as a tree, tracks which are
//! selected, and edits them.

use vstd::prelude::*;

use crate::ecs::components::{
    no_components, identity, Components, Disabled, Name, Quat, Transform, Vec3,
};
use crate::ecs::entities::{
    ancestor, debug_text, descends, entity_text, lists_children, subtree, valid_entity, Entity,
    MAX_POPULATION,
};
use crate::ecs::scalar::Scalar;
use crate::ecs::tree::{
    acyclic, found_within, lemma_linking_stays_acyclic, lemma_unlinking_stays_acyclic,
};
use crate::ecs::world::{SceneWorld, WorldView};
use crate::order::{ascending, sort_numbers};
use crate::text::join2;

verus! {

/// The longest chain of parents that is walked.
pub const MAX_HIERARCHY_DEPTH: u32 = 256;

/// An inline rename in progress.
pub struct Renaming {
    /// The entity being renamed.
    pub entity: Entity,
    /// The text so far.
    pub draft: String,
    /// Whether the text field is still to grab the focus.
    pub focus: bool,
}

/// What the hierarchy panel keeps from frame to frame.
pub struct HierarchyState {
    /// The text the tree is filtered by; empty shows everything.
    pub search: String,
    /// The row whose name is being edited, if any.
    pub renaming: Option<Renaming>,
    /// Set when the user asks for a prefab of an entity.
    pub prefab_request: Option<Entity>,
    /// The visible rows in draw order.
    pub flat_order: Vec<Entity>,
}

impl Default for HierarchyState {
    fn default() -> (state: HierarchyState)
        ensures
            state.search@.len() == 0,
            state.renaming is None,
            state.prefab_request is None,
            state.flat_order@.len() == 0,
    {
        HierarchyState {
            search: String::new(),
            renaming: None,
            prefab_request: None,
            flat_order: Vec::new(),
        }
    }
}

/// Whether the entity is listed at the top of the tree: it has a name and no
/// parent.
pub open spec fn is_root(world: WorldView, entity: Entity) -> bool {
    world.alive(entity) && world.table[entity].name is Some && !world.parents.contains_key(entity)
}

/// The world's root entities, in ascending order.
pub fn roots(world: &SceneWorld) -> (roots: Vec<Entity>)
    requires
        world.wf(),
    ensures
        ascending(roots@),
        forall|e: Entity| #[trigger] roots@.contains(e) <==> is_root(world@, e),
{
    proof {
        world.lemma_consistent();
    }
    let ghost order = world@.order;
    let mut found: Vec<Entity> = Vec::new();
    let count: usize = world.len();
    for i in 0..count
        invariant
            world.wf(),
            world@.consistent(),
            order == world@.order,
            count == order.len(),
            found@.no_duplicates(),
            forall|e: Entity| #[trigger]
                found@.contains(e) <==> is_root(world@, e) && order.take(i as int).contains(e),
    {
        let entity: Entity = world.entity_at(i);
        let ghost before = found@;
        proof {
            assert(order.take(i + 1) =~= order.take(i as int).push(entity));
            assert(!order.take(i as int).contains(entity)) by {
                if order.take(i as int).contains(entity) {
                    let j = order.take(i as int).index_of(entity);
                    assert(order[j] == order[i as int]);
                }
            }
            assert(world@.alive(entity)) by {
                assert(order.contains(order[i as int]));
            }
        }
        if world.components_at(i).name.is_some() && world.parent(entity).is_none() {
            assert(!before.contains(entity));
            found.push(entity);
            assert forall|e: Entity| #[trigger] found@.contains(e) <==> is_root(world@, e)
                && order.take(i + 1).contains(e) by {
                lemma_push_contains(before, entity, e);
                lemma_push_contains(order.take(i as int), entity, e);
            }
        } else {
            assert forall|e: Entity| #[trigger] found@.contains(e) <==> is_root(world@, e)
                && order.take(i + 1).contains(e) by {
                lemma_push_contains(order.take(i as int), entity, e);
            }
        }
    }
    assert(order.take(order.len() as int) =~= order);
    let result = sort_numbers(found);
    assert forall|e: Entity| #[trigger] result@.contains(e) <==> is_root(world@, e) by {
        assert(found@.contains(e) <==> is_root(world@, e) && order.contains(e));
        assert(world@.alive(e) <==> order.contains(e));
    }
    result
}

proof fn lemma_push_contains(items: Seq<Entity>, item: Entity, e: Entity)
    ensures
        items.push(item).contains(e) <==> items.contains(e) || e == item,
{
    if items.contains(e) {
        let i = items.index_of(e);
        assert(items.push(item)[i] == e);
    }
    if e == item {
        assert(items.push(item)[items.len() as int] == e);
    }
    if items.push(item).contains(e) {
        let i = items.push(item).index_of(e);
        if i < items.len() {
            assert(items[i] == e);
        }
    }
}

/// The entity's direct children, in ascending order.
pub fn children_of(world: &SceneWorld, entity: Entity) -> (children: Vec<Entity>)
    requires
        world.wf(),
    ensures
        ascending(children@),
        lists_children(children@, world@.parents, entity),
{
    sort_numbers(world.children(entity))
}

/// The label of an entity: its name if it has one, else one made of the entity.
pub open spec fn label_of(world: WorldView, entity: Entity) -> Seq<char> {
    if world.alive(entity) && world.table[entity].name is Some {
        (world.table[entity].name->0).0@
    } else {
        "Entity "@ + entity_text(entity)
    }
}

/// The label to show for the entity.
pub fn display_name(world: &SceneWorld, entity: Entity) -> (label: String)
    requires
        world.wf(),
        valid_entity(entity),
    ensures
        label@ == label_of(world@, entity),
{
    match world.get(entity) {
        Some(components) => match &components.name {
            Some(name) => name.text(),
            None => join2("Entity ", &debug_text(entity)),
        },
        None => join2("Entity ", &debug_text(entity)),
    }
}

/// Adds an entity with the given name at the given position, and nothing else.
pub fn spawn_entity(world: &mut SceneWorld, name: &str, position: Vec3) -> (entity: Entity)
    requires
        old(world).wf(),
        old(world)@.population < MAX_POPULATION,
    ensures
        final(world).wf(),
        !old(world)@.alive(entity),
        final(world)@.alive(entity),
        ({
            let components = final(world)@.table[entity];
            &&& components.name matches Some(label) && label.0@ == name@
            &&& components == (Components {
                name: components.name,
                transform: Some(Transform { translation: position, ..identity() }),
                ..no_components()
            })
            &&& final(world)@ == old(world)@.spawned(entity, components)
        }),
{
    let components = Components {
        name: Some(Name::new(name)),
        transform: Some(Transform::from_translation(position)),
        ..Components::default()
    };
    world.spawn(components)
}

/// Removes the entity and its descendants; nothing happens if it is not alive.
pub fn despawn_entity(world: &mut SceneWorld, entity: Entity)
    requires
        old(world).wf(),
    ensures
        final(world).wf(),
        !old(world)@.alive(entity) ==> final(world)@ == old(world)@,
        old(world)@.alive(entity) ==> final(world)@ == old(world)@.without(
            subtree(old(world)@.parents, entity),
        ),
{
    let _ = world.despawn(entity);
}

/// Whether the entity carries the disabled marker.
pub open spec fn disabled_in(world: WorldView, entity: Entity) -> bool {
    world.alive(entity) && world.table[entity].disabled is Some
}

/// Whether the entity carries the lock marker.
pub open spec fn locked_in(world: WorldView, entity: Entity) -> bool {
    world.alive(entity) && world.table[entity].lock is Some
}

/// Whether the entity carries the disabled marker.
pub fn is_disabled(world: &SceneWorld, entity: Entity) -> (answer: bool)
    requires
        world.wf(),
    ensures
        answer == disabled_in(world@, entity),
{
    match world.get(entity) {
        Some(components) => components.disabled.is_some(),
        None => false,
    }
}

/// Whether the entity carries the lock marker.
pub fn is_locked(world: &SceneWorld, entity: Entity) -> (answer: bool)
    requires
        world.wf(),
    ensures
        answer == locked_in(world@, entity),
{
    match world.get(entity) {
        Some(components) => components.lock.is_some(),
        None => false,
    }
}

/// Adds or removes the disabled marker.
pub fn set_disabled(world: &mut SceneWorld, entity: Entity, disabled: bool)
    requires
        old(world).wf(),
        old(world)@.alive(entity),
    ensures
        final(world).wf(),
        final(world)@ == old(world)@.updated(
            entity,
            (Components {
                disabled: if disabled {
                    Some(Disabled)
                } else {
                    None
                },
                ..old(world)@.table[entity]
            }),
        ),
{
    match world.get(entity) {
        Some(components) => {
            let mut components = components.clone();
            components.disabled = if disabled {
                Some(Disabled)
            } else {
                None
            };
            world.set(entity, components);
        },
        None => {},
    }
}

/// Sets the entity's name.
pub fn rename(world: &mut SceneWorld, entity: Entity, name: &str)
    requires
        old(world).wf(),
        old(world)@.alive(entity),
    ensures
        final(world).wf(),
        ({
            let label = final(world)@.table[entity].name;
            &&& label matches Some(label) && label.0@ == name@
            &&& final(world)@ == old(world)@.updated(
                entity,
                (Components { name: label, ..old(world)@.table[entity] }),
            )
        }),
{
    match world.get(entity) {
        Some(components) => {
            let mut components = components.clone();
            components.name = Some(Name::new(name));
            world.set(entity, components);
        },
        None => {},
    }
}

/// Whether `node` is `root` itself or sits below it, found within
/// [`MAX_HIERARCHY_DEPTH`] entities from `node` up.
pub fn is_descendant(world: &SceneWorld, node: Entity, root: Entity) -> (answer: bool)
    requires
        world.wf(),
    ensures
        answer == found_within(world@.parents, node, root, MAX_HIERARCHY_DEPTH as nat),
{
    let mut current: Option<Entity> = Some(node);
    for depth in 0..MAX_HIERARCHY_DEPTH
        invariant
            world.wf(),
            current == ancestor(world@.parents, node, depth as nat),
            forall|k: nat| k < depth ==> #[trigger] ancestor(world@.parents, node, k) != Some(root),
    {
        match current {
            Some(entity) => {
                if entity == root {
                    assert(ancestor(world@.parents, node, depth as nat) == Some(root));
                    return true;
                }
                current = world.parent(entity);
            },
            None => {
                assert forall|k: nat| k < MAX_HIERARCHY_DEPTH implies #[trigger] ancestor(
                    world@.parents,
                    node,
                    k,
                ) != Some(root) by {
                    if k >= depth {
                        crate::ecs::entities::lemma_ancestor_sum(
                            world@.parents,
                            node,
                            depth as nat,
                            (k - depth) as nat,
                        );
                    }
                }
                return false;
            },
        }
    }
    false
}

/// The first `limit` entities of the chain from `entity` up, as far as it goes.
pub open spec fn chain_of(links: Map<Entity, Entity>, entity: Entity, limit: nat) -> Seq<Entity>
    decreases limit,
{
    if limit == 0 {
        Seq::empty()
    } else {
        let below = chain_of(links, entity, (limit - 1) as nat);
        match ancestor(links, entity, (limit - 1) as nat) {
            Some(above) => below.push(above),
            None => below,
        }
    }
}

/// The entity's transform relative to its parent; the identity if it has none.
pub open spec fn local_of(world: WorldView, entity: Entity) -> Transform {
    if world.alive(entity) && world.table[entity].transform is Some {
        world.table[entity].transform->0
    } else {
        identity()
    }
}

/// The local transforms that, composed in order, place the entity in the world:
/// those of its chain of parents from the top down, ending with its own.
pub open spec fn placement(world: WorldView, entity: Entity) -> Seq<Transform> {
    chain_of(world.parents, entity, MAX_HIERARCHY_DEPTH as nat).reverse().map_values(
        |e: Entity| local_of(world, e),
    )
}

/// The local transforms that, composed in order, place the entity in the world.
pub fn world_transform(world: &SceneWorld, entity: Entity) -> (locals: Vec<Transform>)
    requires
        world.wf(),
    ensures
        locals@ == placement(world@, entity),
{
    let ghost links = world@.parents;
    let mut chain: Vec<Entity> = Vec::new();
    let mut current: Option<Entity> = Some(entity);
    for depth in 0..MAX_HIERARCHY_DEPTH
        invariant
            world.wf(),
            links == world@.parents,
            current == ancestor(links, entity, depth as nat),
            chain@ == chain_of(links, entity, depth as nat),
    {
        match current {
            Some(node) => {
                chain.push(node);
                current = world.parent(node);
            },
            None => {},
        }
    }
    let mut locals: Vec<Transform> = Vec::new();
    let mut i: usize = chain.len();
    let ghost up = chain@.reverse();
    assert(locals@ =~= up.take(0).map_values(|e: Entity| local_of(world@, e)));
    while i > 0
        invariant
            world.wf(),
            i <= chain@.len(),
            up == chain@.reverse(),
            locals@ == up.take(chain@.len() - i).map_values(|e: Entity| local_of(world@, e)),
        decreases i,
    {
        i -= 1;
        let local = match world.get(chain[i]) {
            Some(components) => match components.transform {
                Some(transform) => transform,
                None => Transform::identity(),
            },
            None => Transform::identity(),
        };
        locals.push(local);
        proof {
            let n = chain@.len() - i;
            assert(up[n - 1] == chain@[i as int]);
            assert(locals@ =~= up.take(n).map_values(|e: Entity| local_of(world@, e)));
        }
    }
    assert(up.take(chain@.len() as int) =~= up);
    locals
}

/// Whether moving `child` under `new_parent` (or to the root) is legal: both are
/// alive, and the parent is not the child nor found below it.
pub open spec fn may_reparent(world: WorldView, child: Entity, new_parent: Option<Entity>) -> bool {
    &&& world.alive(child)
    &&& new_parent matches Some(parent) ==> {
        &&& world.alive(parent)
        &&& !found_within(world.parents, parent, child, MAX_HIERARCHY_DEPTH as nat)
    }
}

/// The world after `child` is moved under `new_parent` and placed by `local`.
pub open spec fn reparented(
    world: WorldView,
    child: Entity,
    new_parent: Option<Entity>,
    local: Transform,
) -> WorldView {
    let moved = match new_parent {
        Some(parent) => world.linked(child, parent),
        None => world.unlinked(child),
    };
    moved.updated(child, Components { transform: Some(local), ..world.table[child] })
}

/// The local transforms that place the new parent; none at the root.
pub open spec fn parent_placement(world: WorldView, new_parent: Option<Entity>) -> Seq<Transform> {
    match new_parent {
        Some(parent) => placement(world, parent),
        None => Seq::empty(),
    }
}

/// Moves `child` under `new_parent`, or to the root, without moving it in the
/// world: `relocate` is given the local transforms that place the child and
/// those that place the new parent, and answers with the child's new local
/// transform. Returns `false`, and does nothing, where the move is illegal.
pub fn reparent<F: Fn(&Vec<Transform>, &Vec<Transform>) -> Transform>(
    world: &mut SceneWorld,
    child: Entity,
    new_parent: Option<Entity>,
    relocate: &F,
) -> (moved: bool)
    requires
        old(world).wf(),
        forall|a: Vec<Transform>, b: Vec<Transform>| relocate.requires((&a, &b)),
    ensures
        final(world).wf(),
        moved == may_reparent(old(world)@, child, new_parent),
        !moved ==> final(world)@ == old(world)@,
        moved ==> exists|a: Vec<Transform>, b: Vec<Transform>, local: Transform|
            {
                &&& a@ == placement(old(world)@, child)
                &&& b@ == parent_placement(old(world)@, new_parent)
                &&& #[trigger] relocate.ensures((&a, &b), local)
                &&& final(world)@ == reparented(old(world)@, child, new_parent, local)
            },
{
    if !world.contains(child) {
        return false;
    }
    match new_parent {
        Some(parent) => {
            if !world.contains(parent) || is_descendant(world, parent, child) {
                return false;
            }
        },
        None => {},
    }
    let child_locals = world_transform(world, child);
    let parent_locals = match new_parent {
        Some(parent) => world_transform(world, parent),
        None => Vec::new(),
    };
    let local = relocate(&child_locals, &parent_locals);
    match world.get(child) {
        Some(components) => {
            let mut components = components.clone();
            components.transform = Some(local);
            match new_parent {
                Some(parent) => {
                    proof {
                        assert(child != parent) by {
                            assert(ancestor(world@.parents, parent, 0) == Some(parent));
                        }
                    }
                    world.set_parent(child, parent);
                },
                None => {
                    world.clear_parent(child);
                },
            }
            world.set(child, components);
        },
        None => {},
    }
    true
}

/// Moving entities around keeps the tree a tree, as long as no chain of parents
/// is longer than the one that is walked.
pub proof fn law_reparenting_keeps_the_tree(
    world: WorldView,
    child: Entity,
    new_parent: Option<Entity>,
    local: Transform,
)
    requires
        acyclic(world.parents),
        may_reparent(world, child, new_parent),
        forall|e: Entity| #[trigger]
            ancestor(world.parents, e, MAX_HIERARCHY_DEPTH as nat) is None,
    ensures
        acyclic(reparented(world, child, new_parent, local).parents),
{
    match new_parent {
        Some(parent) => {
            if descends(world.parents, parent, child) {
                let k = choose|k: nat| #[trigger] ancestor(world.parents, parent, k) == Some(child);
                if k >= MAX_HIERARCHY_DEPTH {
                    crate::ecs::entities::lemma_ancestor_sum(
                        world.parents,
                        parent,
                        MAX_HIERARCHY_DEPTH as nat,
                        (k - MAX_HIERARCHY_DEPTH) as nat,
                    );
                }
                assert(found_within(world.parents, parent, child, MAX_HIERARCHY_DEPTH as nat));
            }
            lemma_linking_stays_acyclic(world.parents, child, parent);
        },
        None => {
            lemma_unlinking_stays_acyclic(world.parents, child);
        },
    }
}

/// The entities of a selection: the primary first, then the others.
pub open spec fn selected(primary: Option<Entity>, secondary: Seq<Entity>) -> Seq<Entity> {
    match primary {
        Some(entity) => seq![entity] + secondary,
        None => secondary,
    }
}

/// Every entity in the selection: the primary first, then the others.
pub fn selection_list(primary: Option<Entity>, secondary: &[Entity]) -> (all: Vec<Entity>)
    ensures
        all@ == selected(primary, secondary@),
{
    let mut all: Vec<Entity> = Vec::new();
    match primary {
        Some(entity) => {
            all.push(entity);
        },
        None => {},
    }
    let ghost lead = all@;
    for i in 0..secondary.len()
        invariant
            all@ == lead + secondary@.take(i as int),
    {
        all.push(secondary[i]);
        assert(all@ =~= lead + secondary@.take(i + 1));
    }
    assert(all@ =~= selected(primary, secondary@));
    all
}

/// Makes `entity` the sole selection.
pub fn select_only(primary: &mut Option<Entity>, secondary: &mut Vec<Entity>, entity: Entity)
    ensures
        *final(primary) == Some(entity),
        final(secondary)@.len() == 0,
{
    *primary = Some(entity);
    secondary.clear();
}

/// The first position of `entity` in `order`.
fn position(order: &[Entity], entity: Entity) -> (found: Option<usize>)
    ensures
        match found {
            Some(i) => i < order@.len() && order@.contains(entity) && i == order@.index_of_first(
                entity,
            )->0,
            None => !order@.contains(entity),
        },
{
    for i in 0..order.len()
        invariant
            forall|j: int| 0 <= j < i ==> order@[j] != entity,
    {
        if order[i] == entity {
            assert(order@[i as int] == entity);
            proof {
                order@.index_of_first_ensures(entity);
            }
            return Some(i);
        }
    }
    None
}

/// The rows between two positions, either way, ends included.
pub open spec fn run_between(order: Seq<Entity>, a: int, b: int) -> Seq<Entity> {
    if a <= b {
        order.subrange(a, b + 1)
    } else {
        order.subrange(b, a + 1)
    }
}

/// Selects the rows of `order` between the primary and `entity`: the primary
/// stays what it is, and every other row of the run is selected beside it. Where
/// there is no primary, or one of the two is not in `order`, `entity` becomes
/// the sole selection.
pub fn select_range(
    primary: &mut Option<Entity>,
    secondary: &mut Vec<Entity>,
    order: &[Entity],
    entity: Entity,
)
    ensures
        match *old(primary) {
            Some(anchor) if order@.contains(anchor) && order@.contains(entity) => {
                &&& *final(primary) == Some(anchor)
                &&& final(secondary)@ == run_between(
                    order@,
                    order@.index_of_first(anchor)->0,
                    order@.index_of_first(entity)->0,
                ).filter(|e: Entity| e != anchor)
            },
            _ => *final(primary) == Some(entity) && final(secondary)@.len() == 0,
        },
{
    let anchor: Entity = match *primary {
        Some(anchor) => anchor,
        None => {
            select_only(primary, secondary, entity);
            return;
        },
    };
    let (a, b) = match (position(order, anchor), position(order, entity)) {
        (Some(a), Some(b)) => (a, b),
        _ => {
            select_only(primary, secondary, entity);
            return;
        },
    };
    let lo: usize = if a <= b {
        a
    } else {
        b
    };
    let hi: usize = if a <= b {
        b
    } else {
        a
    };
    let ghost run = run_between(order@, a as int, b as int);
    let ghost keep = |e: Entity| e != anchor;
    secondary.clear();
    proof {
        reveal(Seq::filter);
        assert(run.take(0) =~= Seq::<Entity>::empty());
    }
    let mut i: usize = lo;
    while i <= hi
        invariant
            lo <= i <= hi + 1,
            hi < order@.len(),
            run == order@.subrange(lo as int, hi + 1),
            keep == (|e: Entity| e != anchor),
            secondary@ == run.take(i - lo).filter(keep),
            *primary == Some(anchor),
        decreases hi + 1 - i,
    {
        proof {
            assert(run.take(i - lo + 1) =~= run.take(i - lo).push(order@[i as int]));
            crate::ecs::world::lemma_filter_push(run.take(i - lo), order@[i as int], keep);
        }
        if order[i] != anchor {
            secondary.push(order[i]);
        }
        i += 1;
    }
    assert(run.take(i - lo) =~= run);
}

/// The selection after `entity` is toggled in it: taken out where it is selected
/// beside the primary; where it is the primary, the next one takes its place;
/// else added at the end.
pub open spec fn toggled(
    primary: Option<Entity>,
    secondary: Seq<Entity>,
    entity: Entity,
) -> (Option<Entity>, Seq<Entity>) {
    if secondary.contains(entity) {
        (primary, secondary.remove(secondary.index_of_first(entity)->0))
    } else if primary == Some(entity) {
        if secondary.len() == 0 {
            (None, secondary)
        } else {
            (Some(secondary[0]), secondary.remove(0))
        }
    } else {
        (primary, secondary.push(entity))
    }
}

/// Toggles `entity` in the selection.
pub fn select_toggle(primary: &mut Option<Entity>, secondary: &mut Vec<Entity>, entity: Entity)
    ensures
        (*final(primary), final(secondary)@) == toggled(*old(primary), old(secondary)@, entity),
{
    match position(secondary, entity) {
        Some(index) => {
            let _ = secondary.remove(index);
        },
        None => {
            if *primary == Some(entity) {
                *primary = if secondary.len() == 0 {
                    None
                } else {
                    Some(secondary.remove(0))
                };
            } else {
                secondary.push(entity);
            }
        },
    }
}

/// Whether no entity is selected twice.
pub open spec fn selected_once(primary: Option<Entity>, secondary: Seq<Entity>) -> bool {
    selected(primary, secondary).no_duplicates()
}

/// Toggling selects nothing twice, and changes of exactly one entity whether it
/// is selected.
pub proof fn law_toggling_changes_one_entity(
    primary: Option<Entity>,
    secondary: Seq<Entity>,
    entity: Entity,
)
    requires
        selected_once(primary, secondary),
    ensures
        ({
            let (p, s) = toggled(primary, secondary, entity);
            &&& selected_once(p, s)
            &&& selected(p, s).contains(entity) <==> !selected(primary, secondary).contains(entity)
            &&& forall|e: Entity|
                e != entity ==> (#[trigger] selected(p, s).contains(e) <==> selected(
                    primary,
                    secondary,
                ).contains(e))
        }),
{
    let all = selected(primary, secondary);
    let (p, s) = toggled(primary, secondary, entity);
    let after = selected(p, s);
    let lead: int = if primary is Some {
        1
    } else {
        0
    };
    if secondary.contains(entity) {
        secondary.index_of_first_ensures(entity);
        let i = secondary.index_of_first(entity)->0;
        assert(all[lead + i] == entity);
        assert(after =~= all.remove(lead + i));
        lemma_remove(all, lead + i);
    } else if primary == Some(entity) {
        assert(all[0] == entity);
        if secondary.len() == 0 {
            assert(after =~= all.remove(0));
        } else {
            assert(seq![secondary[0]] + secondary.remove(0) =~= secondary);
            assert(after =~= all.remove(0));
        }
        lemma_remove(all, 0);
    } else {
        assert(!all.contains(entity)) by {
            if all.contains(entity) {
                let i = all.index_of(entity);
                if i >= lead {
                    assert(secondary[i - lead] == entity);
                }
            }
        }
        assert(after =~= all.push(entity));
        assert forall|e: Entity| #[trigger] after.contains(e) <==> all.contains(e) || e
            == entity by {
            lemma_push_contains(all, entity, e);
        }
    }
}

proof fn lemma_remove(items: Seq<Entity>, at: int)
    requires
        items.no_duplicates(),
        0 <= at < items.len(),
    ensures
        items.remove(at).no_duplicates(),
        forall|e: Entity| #[trigger]
            items.remove(at).contains(e) <==> items.contains(e) && e != items[at],
{
    let rest = items.remove(at);
    assert forall|e: Entity| #[trigger] rest.contains(e) <==> items.contains(e) && e
        != items[at] by {
        if rest.contains(e) {
            let i = rest.index_of(e);
            assert(items[if i < at {
                i
            } else {
                i + 1
            }] == e);
        }
        if items.contains(e) && e != items[at] {
            let i = items.index_of(e);
            assert(rest[if i < at {
                i
            } else {
                i - 1
            }] == e);
        }
    }
    assert forall|i: int, j: int| 0 <= i < j < rest.len() implies rest[i] != rest[j] by {
        let a = if i < at {
            i
        } else {
            i + 1
        };
        let b = if j < at {
            j
        } else {
            j + 1
        };
        assert(items[a] != items[b]);
    }
}

/// Toggling an entity that is not selected, twice, changes nothing.
pub proof fn law_toggling_twice_restores(
    primary: Option<Entity>,
    secondary: Seq<Entity>,
    entity: Entity,
)
    requires
        !selected(primary, secondary).contains(entity),
    ensures
        ({
            let (p, s) = toggled(primary, secondary, entity);
            toggled(p, s, entity) == (primary, secondary)
        }),
{
    assert(!secondary.contains(entity)) by {
        if secondary.contains(entity) {
            let i = secondary.index_of(entity);
            let lead: int = if primary is Some {
                1
            } else {
                0
            };
            assert(selected(primary, secondary)[lead + i] == entity);
        }
    }
    assert(primary != Some(entity)) by {
        if primary == Some(entity) {
            assert(selected(primary, secondary)[0] == entity);
        }
    }
    let after = secondary.push(entity);
    assert(after[secondary.len() as int] == entity);
    after.index_of_first_ensures(entity);
    let i = after.index_of_first(entity)->0;
    assert(i == secondary.len()) by {
        if i < secondary.len() {
            assert(secondary[i] == entity);
        }
    }
    assert(after.remove(i) =~= secondary);
}

/// A range selection is the run of rows between the anchor and the target: a row
/// is selected exactly if it stands in the run.
pub proof fn law_range_selects_the_run(order: Seq<Entity>, anchor: Entity, entity: Entity)
    requires
        order.no_duplicates(),
        order.contains(anchor),
        order.contains(entity),
    ensures
        ({
            let a = order.index_of_first(anchor)->0;
            let b = order.index_of_first(entity)->0;
            let run = run_between(order, a, b);
            let secondary = run.filter(|e: Entity| e != anchor);
            &&& selected_once(Some(anchor), secondary)
            &&& forall|e: Entity| #[trigger]
                selected(Some(anchor), secondary).contains(e) <==> run.contains(e)
        }),
{
    order.index_of_first_ensures(anchor);
    order.index_of_first_ensures(entity);
    let a = order.index_of_first(anchor)->0;
    let b = order.index_of_first(entity)->0;
    let run = run_between(order, a, b);
    let keep = |e: Entity| e != anchor;
    let secondary = run.filter(keep);
    assert(run.no_duplicates()) by {
        assert forall|i: int, j: int| 0 <= i < j < run.len() implies run[i] != run[j] by {
            let lo = if a <= b {
                a
            } else {
                b
            };
            assert(order[lo + i] != order[lo + j]);
        }
    }
    crate::ecs::world::lemma_filter(run, keep);
    let all = selected(Some(anchor), secondary);
    assert(run.contains(anchor)) by {
        let lo = if a <= b {
            a
        } else {
            b
        };
        assert(run[a - lo] == anchor);
    }
    assert(!secondary.contains(anchor));
    assert forall|e: Entity| #[trigger] all.contains(e) <==> run.contains(e) by {
        if all.contains(e) {
            let i = all.index_of(e);
            if i > 0 {
                assert(secondary[i - 1] == e);
                assert(secondary.contains(e));
            }
        }
        if run.contains(e) {
            if e == anchor {
                assert(all[0] == e);
            } else {
                assert(secondary.contains(e));
                let i = secondary.index_of(e);
                assert(all[i + 1] == e);
            }
        }
    }
    assert forall|i: int, j: int| 0 <= i < j < all.len() implies all[i] != all[j] by {
        if i == 0 {
            assert(secondary.contains(secondary[j - 1]));
        } else {
            assert(secondary[i - 1] != secondary[j - 1]);
        }
    }
}

/// An entity is labelled by its name; one without a name, or that is not alive, by what it
/// is and its number.
pub proof fn law_entities_are_labelled_by_name(world: WorldView, entity: Entity)
    ensures
        world.table.contains_key(entity) && world.table[entity].name is Some ==> label_of(
            world,
            entity,
        ) == (world.table[entity].name->0).0@,
        !world.table.contains_key(entity) || world.table[entity].name is None ==> label_of(
            world,
            entity,
        ) == "Entity "@ + entity_text(entity),
{
}

/// The transforms that place an entity are its own, last, and before it those of what is
/// above it up to the root; at most two hundred and fifty-six of them are followed. What is
/// not alive or has no transform does not move anything.
pub proof fn law_placement_runs_from_the_root_down(world: WorldView, entity: Entity, j: nat)
    ensures
        ({
            let none = Scalar { bits: 0 };
            let full = Scalar { bits: 0x3f80_0000 };
            let still = Transform {
                translation: Vec3 { x: none, y: none, z: none },
                rotation: Quat { x: none, y: none, z: none, w: full },
                scale: Vec3 { x: full, y: full, z: full },
            };
            let steps = placement(world, entity);
            let above = ancestor(world.parents, entity, j);
            &&& 0 < steps.len() <= 256
            &&& steps.len() < 256 ==> ancestor(world.parents, entity, steps.len()) is None
            &&& j < steps.len() ==> above is Some && steps[steps.len() - 1 - j] == (
            if world.table.contains_key(above->0) && world.table[above->0].transform is Some {
                world.table[above->0].transform->0
            } else {
                still
            })
        }),
{
    lemma_chain_of(world.parents, entity, 256);
    reveal_with_fuel(chain_of, 2);
    let chain = chain_of(world.parents, entity, 256);
    lemma_chain_has_the_entity(world.parents, entity, 256);
    if j < chain.len() {
        assert(placement(world, entity)[chain.len() - 1 - j] == local_of(world, chain[j as int]));
    }
}

proof fn lemma_chain_has_the_entity(links: Map<Entity, Entity>, entity: Entity, limit: nat)
    requires
        limit > 0,
    ensures
        chain_of(links, entity, limit).len() > 0,
    decreases limit,
{
    if limit > 1 {
        lemma_chain_has_the_entity(links, entity, (limit - 1) as nat);
    } else {
        assert(ancestor(links, entity, 0) is Some);
    }
}

proof fn lemma_chain_of(links: Map<Entity, Entity>, entity: Entity, limit: nat)
    ensures
        ({
            let chain = chain_of(links, entity, limit);
            &&& chain.len() <= limit
            &&& chain.len() < limit ==> forall|k: nat|
                k >= chain.len() ==> #[trigger] ancestor(links, entity, k) is None
            &&& forall|k: nat|
                k < chain.len() ==> #[trigger] ancestor(links, entity, k) == Some(chain[k as int])
        }),
    decreases limit,
{
    if limit > 0 {
        let m = (limit - 1) as nat;
        lemma_chain_of(links, entity, m);
        let below = chain_of(links, entity, m);
        if ancestor(links, entity, m) is None && below.len() == m {
            assert forall|k: nat| k >= m implies #[trigger] ancestor(links, entity, k) is None by {
                lemma_end_stays(links, entity, m, k);
            }
        }
    }
}

proof fn lemma_end_stays(links: Map<Entity, Entity>, entity: Entity, m: nat, k: nat)
    requires
        ancestor(links, entity, m) is None,
        m <= k,
    ensures
        ancestor(links, entity, k) is None,
    decreases k,
{
    if m < k {
        lemma_end_stays(links, entity, m, (k - 1) as nat);
    }
}

/// An entity can be put below another exactly if both are alive and it is not among the
/// first two hundred and fifty-six of the other and what is above the other. It can always
/// be put at the top. Only its parent and its transform change.
pub proof fn law_no_entity_is_put_below_itself(
    world: WorldView,
    child: Entity,
    parent: Entity,
    local: Transform,
    entity: Entity,
    k: nat,
)
    ensures
        may_reparent(world, child, None) <==> world.table.contains_key(child),
        may_reparent(world, child, Some(parent)) ==> world.table.contains_key(child)
            && world.table.contains_key(parent) && child != parent,
        may_reparent(world, child, Some(parent)) && k < 256 ==> ancestor(world.parents, parent, k)
            != Some(child),
        world.table.contains_key(child) && world.table.contains_key(parent) && (forall|i: nat|
            i < 256 ==> #[trigger] ancestor(world.parents, parent, i) != Some(child))
            ==> may_reparent(world, child, Some(parent)),
        ({
            let put = reparented(world, child, Some(parent), local);
            let freed = reparented(world, child, None, local);
            &&& put.parents.contains_key(child) && put.parents[child] == parent
            &&& !freed.parents.contains_key(child)
            &&& entity != child ==> {
                &&& put.parents.contains_key(entity) == world.parents.contains_key(entity)
                &&& freed.parents.contains_key(entity) == world.parents.contains_key(entity)
                &&& world.parents.contains_key(entity) ==> put.parents[entity]
                    == world.parents[entity] && freed.parents[entity] == world.parents[entity]
                &&& put.table.contains_key(entity) == world.table.contains_key(entity)
                &&& freed.table.contains_key(entity) == world.table.contains_key(entity)
                &&& world.table.contains_key(entity) ==> put.table[entity] == world.table[entity]
                    && freed.table[entity] == world.table[entity]
            }
            &&& put.table[child] == (Components { transform: Some(local), ..world.table[child] })
            &&& freed.table[child] == put.table[child]
            &&& put.order == world.order && freed.order == world.order
            &&& put.population == world.population && freed.population == world.population
        }),
{
    if may_reparent(world, child, Some(parent)) {
        if child == parent {
            assert(ancestor(world.parents, parent, 0) == Some(child));
        }
        if k < 256 && ancestor(world.parents, parent, k) == Some(child) {
            assert(found_within(world.parents, parent, child, 256));
        }
    }
}

/// Choosing a range takes exactly the rows from the one that was chosen first to the one
/// that is chosen now, both of them too, whichever is further up.
pub proof fn law_range_runs_between_the_two(order: Seq<Entity>, a: int, b: int, k: int)
    requires
        order.no_duplicates(),
        0 <= a < order.len(),
        0 <= b < order.len(),
        0 <= k < order.len(),
    ensures
        run_between(order, a, b).contains(order[k]) <==> (a <= k <= b || b <= k <= a),
{
    let run = run_between(order, a, b);
    let low = if a <= b {
        a
    } else {
        b
    };
    if a <= k <= b || b <= k <= a {
        assert(run[k - low] == order[k]);
    }
    if run.contains(order[k]) {
        let i = run.index_of(order[k]);
        assert(order[low + i] == order[k]);
    }
}

/// Taking the primary entity out of the selection makes the first of the others the primary
/// one; taking out or putting in any other leaves the primary one, and the rest in order,
/// with what is put in last.
pub proof fn law_toggling_keeps_the_order(
    primary: Option<Entity>,
    secondary: Seq<Entity>,
    entity: Entity,
    i: int,
)
    requires
        selected_once(primary, secondary),
    ensures
        ({
            let (p, s) = toggled(primary, secondary, entity);
            &&& primary == Some(entity) && secondary.len() == 0 ==> p is None && s.len() == 0
            &&& primary == Some(entity) && secondary.len() > 0 ==> p == Some(secondary[0])
                && s.len() == secondary.len() - 1
            &&& primary == Some(entity) && 0 < i < secondary.len() ==> s[i - 1] == secondary[i]
            &&& primary != Some(entity) ==> p == primary
            &&& primary != Some(entity) && !secondary.contains(entity) ==> s.len()
                == secondary.len() + 1 && s.last() == entity
            &&& primary != Some(entity) && !secondary.contains(entity) && 0 <= i < secondary.len()
                ==> s[i] == secondary[i]
            &&& 0 <= i < secondary.len() && secondary[i] == entity ==> s == secondary.remove(i)
        }),
{
    let all = selected(primary, secondary);
    if primary is Some {
        if secondary.contains(primary->0) {
            let k = secondary.index_of(primary->0);
            assert(all[0] == all[k + 1]);
        }
    }
    if 0 <= i < secondary.len() && secondary[i] == entity {
        secondary.index_of_first_ensures(entity);
        let f = secondary.index_of_first(entity)->0;
        if primary is Some {
            assert(all[i + 1] == entity && all[f + 1] == entity);
        } else {
            assert(all[i] == entity && all[f] == entity);
        }
        assert(f == i);
    }
}

/// An entity is disabled or locked exactly if it is alive and carries the mark.
pub proof fn law_marks_need_an_entity(world: WorldView, entity: Entity)
    ensures
        disabled_in(world, entity) <==> world.table.contains_key(entity)
            && world.table[entity].disabled is Some,
        locked_in(world, entity) <==> world.table.contains_key(entity)
            && world.table[entity].lock is Some,
{
}

/// The entities at the top of the tree are those that are alive, have a name and no parent.
pub proof fn law_roots_have_a_name_and_no_parent(world: WorldView, entity: Entity)
    ensures
        is_root(world, entity) <==> world.table.contains_key(entity) && world.table[entity].name
            is Some && !world.parents.contains_key(entity),
{
}

} // verus!
