//! Entities and the tree they form.
//!
//! Entities, and which of them is whose child, are kept by `bevy_ecs`: a
//! `bevy_ecs::world::World` allocates them, links them by its `ChildOf` and
//! `Children` components, and despawns a parent together with its children. An
//! entity is named here by its 64 bits. What is trusted of `bevy_ecs` is stated
//! in this file, over three names: which entities of a world are alive, which of
//! them the world keeps for itself, and which parent each has.

use bevy_ecs::hierarchy::{ChildOf, Children};
use vstd::prelude::*;

use crate::text::decimal_text;

verus! {

/// An entity, by the bits that `bevy_ecs::entity::Entity::to_bits` gives.
pub type Entity = u64;

/// The most entities that a world is asked to hold: `bevy_ecs` has `u32::MAX` indices to
/// give, of which it may hold back up to 128 freed ones.
pub const MAX_POPULATION: u64 = 0xffff_ff00;

/// `bevy_ecs::world::World`, the store of entities.
#[verifier::external_type_specification]
#[verifier::external_body]
pub struct ExEntityStore(bevy_ecs::world::World);

/// The entities of a world that are alive.
pub uninterp spec fn live_entities(store: bevy_ecs::world::World) -> Set<Entity>;

/// The entities that a world keeps for itself, to carry its resources.
pub uninterp spec fn own_entities(store: bevy_ecs::world::World) -> Set<Entity>;

/// The parent of every entity of a world that has one.
pub uninterp spec fn parent_links(store: bevy_ecs::world::World) -> Map<Entity, Entity>;

/// Whether the bits are those of an entity: the index part is not zero.
pub open spec fn valid_entity(entity: Entity) -> bool {
    entity % 0x1_0000_0000 != 0
}

/// Whether a world's own entities are alive, and its links are between different
/// living entities.
pub open spec fn sound(store: bevy_ecs::world::World) -> bool {
    &&& live_entities(store).finite()
    &&& own_entities(store).subset_of(live_entities(store))
    &&& forall|e: Entity| #[trigger] live_entities(store).contains(e) ==> valid_entity(e)
    &&& forall|e: Entity| #[trigger]
        parent_links(store).contains_key(e) ==> {
            &&& live_entities(store).contains(e)
            &&& live_entities(store).contains(parent_links(store)[e])
            &&& parent_links(store)[e] != e
        }
}

/// No entity has a parent.
pub open spec fn no_links() -> Map<Entity, Entity> {
    Map::empty()
}

/// Whether `children` are the entities that have `parent` as their parent.
pub open spec fn lists_children(
    children: Seq<Entity>,
    links: Map<Entity, Entity>,
    parent: Entity,
) -> bool {
    forall|child: Entity| #[trigger]
        children.contains(child) <==> links.contains_key(child) && links[child] == parent
}

/// The entity `k` links above `entity`, where there is one.
pub open spec fn ancestor(links: Map<Entity, Entity>, entity: Entity, k: nat) -> Option<Entity>
    decreases k,
{
    if k == 0 {
        Some(entity)
    } else {
        match ancestor(links, entity, (k - 1) as nat) {
            Some(below) => if links.contains_key(below) {
                Some(links[below])
            } else {
                None
            },
            None => None,
        }
    }
}

/// Whether `entity` is `root` or sits somewhere below it.
pub open spec fn descends(links: Map<Entity, Entity>, entity: Entity, root: Entity) -> bool {
    exists|k: nat| #[trigger] ancestor(links, entity, k) == Some(root)
}

/// `root` and everything below it.
pub open spec fn subtree(links: Map<Entity, Entity>, root: Entity) -> Set<Entity> {
    Set::new(|entity: Entity| descends(links, entity, root))
}

/// The short text of an entity: its index and its generation with a `v` between.
pub open spec fn entity_text(entity: Entity) -> Seq<char> {
    if entity == 1 {
        seq!['P', 'L', 'A', 'C', 'E', 'H', 'O', 'L', 'D', 'E', 'R']
    } else {
        decimal_text((0xffff_ffff - entity % 0x1_0000_0000) as nat).push('v') + decimal_text(
            (entity / 0x1_0000_0000) as nat,
        )
    }
}

/// `World::new`: a world with no links, holding no more than the few entities
/// that it keeps for itself.
#[verifier::external_body]
pub(crate) fn new_store() -> (store: bevy_ecs::world::World)
    ensures
        sound(store),
        parent_links(store) == no_links(),
        live_entities(store) == own_entities(store),
        live_entities(store).len() < 0x1_0000,
{
    bevy_ecs::world::World::new()
}

/// `World::spawn_empty`: an entity that was not alive now is, with no parent and
/// no children. It panics only where there is no index left to give.
#[verifier::external_body]
pub(crate) fn spawn_empty(store: &mut bevy_ecs::world::World) -> (entity: Entity)
    requires
        sound(*old(store)),
        live_entities(*old(store)).len() < MAX_POPULATION,
    ensures
        sound(*final(store)),
        !live_entities(*old(store)).contains(entity),
        !own_entities(*old(store)).contains(entity),
        own_entities(*final(store)) == own_entities(*old(store)),
        live_entities(*final(store)) == live_entities(*old(store)).insert(entity),
        parent_links(*final(store)) == parent_links(*old(store)),
{
    store.spawn_empty().id().to_bits()
}

/// `Entities::count_spawned`: how many entities are alive.
#[verifier::external_body]
pub(crate) fn count_alive(store: &bevy_ecs::world::World) -> (count: u32)
    ensures
        count == live_entities(*store).len(),
{
    store.entities().count_spawned()
}

/// `World::despawn`: a living entity dies with everything below it, and the
/// links of the dead go with them; on any other nothing happens. The answer is
/// whether it was alive. Bits of which `Entity::try_from_bits` makes no entity
/// are those of none that is alive. None of the world's own entities may die: one
/// that carries a resource is looked up again after its death, which panics.
#[verifier::external_body]
pub(crate) fn despawn(store: &mut bevy_ecs::world::World, entity: Entity) -> (was_alive: bool)
    requires
        sound(*old(store)),
        own_entities(*old(store)).disjoint(subtree(parent_links(*old(store)), entity)),
    ensures
        sound(*final(store)),
        own_entities(*final(store)) == own_entities(*old(store)),
        was_alive == live_entities(*old(store)).contains(entity),
        !was_alive ==> {
            &&& live_entities(*final(store)) == live_entities(*old(store))
            &&& parent_links(*final(store)) == parent_links(*old(store))
        },
        was_alive ==> {
            let dead = subtree(parent_links(*old(store)), entity);
            &&& live_entities(*final(store)) == live_entities(*old(store)).difference(dead)
            &&& parent_links(*final(store)) == parent_links(*old(store)).remove_keys(dead)
        },
{
    match bevy_ecs::entity::Entity::try_from_bits(entity) {
        Some(id) => store.despawn(id),
        None => false,
    }
}

/// `World::get_entity`: whether the entity is alive.
#[verifier::external_body]
pub(crate) fn is_alive(store: &bevy_ecs::world::World, entity: Entity) -> (answer: bool)
    ensures
        answer == live_entities(*store).contains(entity),
{
    match bevy_ecs::entity::Entity::try_from_bits(entity) {
        Some(id) => store.get_entity(id).is_ok(),
        None => false,
    }
}

/// `World::get` of the `ChildOf` component: the parent of an entity.
#[verifier::external_body]
pub(crate) fn parent_of(store: &bevy_ecs::world::World, entity: Entity) -> (parent: Option<Entity>)
    ensures
        parent == (if parent_links(*store).contains_key(entity) {
            Some(parent_links(*store)[entity])
        } else {
            None
        }),
{
    let id = bevy_ecs::entity::Entity::try_from_bits(entity)?;
    store.get::<ChildOf>(id).map(|child_of| child_of.parent().to_bits())
}

/// `World::get` of the `Children` component: the entities that have the given
/// one as their parent, each once. In which order is not said.
#[verifier::external_body]
pub(crate) fn child_list(store: &bevy_ecs::world::World, entity: Entity) -> (children: Vec<Entity>)
    requires
        sound(*store),
    ensures
        children@.no_duplicates(),
        lists_children(children@, parent_links(*store), entity),
{
    match bevy_ecs::entity::Entity::try_from_bits(entity).and_then(|id| store.get::<Children>(id)) {
        Some(children) => children.iter().map(|child| child.to_bits()).collect(),
        None => Vec::new(),
    }
}

/// `EntityWorldMut::insert` of a `ChildOf` component: the child gets the given
/// parent in place of any it had. Both have to be alive and different;
/// `World::entity_mut` panics on an entity that is not, and a link to itself is
/// taken back.
#[verifier::external_body]
pub(crate) fn link(store: &mut bevy_ecs::world::World, child: Entity, parent: Entity)
    requires
        sound(*old(store)),
        live_entities(*old(store)).contains(child),
        live_entities(*old(store)).contains(parent),
        child != parent,
    ensures
        sound(*final(store)),
        own_entities(*final(store)) == own_entities(*old(store)),
        live_entities(*final(store)) == live_entities(*old(store)),
        parent_links(*final(store)) == parent_links(*old(store)).insert(child, parent),
{
    let parent = bevy_ecs::entity::Entity::from_bits(parent);
    store.entity_mut(bevy_ecs::entity::Entity::from_bits(child)).insert(ChildOf(parent));
}

/// `EntityWorldMut::remove` of the `ChildOf` component: the child has no parent.
/// It has to be alive.
#[verifier::external_body]
pub(crate) fn unlink(store: &mut bevy_ecs::world::World, child: Entity)
    requires
        sound(*old(store)),
        live_entities(*old(store)).contains(child),
    ensures
        sound(*final(store)),
        own_entities(*final(store)) == own_entities(*old(store)),
        live_entities(*final(store)) == live_entities(*old(store)),
        parent_links(*final(store)) == parent_links(*old(store)).remove(child),
{
    store.entity_mut(bevy_ecs::entity::Entity::from_bits(child)).remove::<ChildOf>();
}

/// `Debug` of `bevy_ecs::entity::Entity`: its index and its generation.
#[verifier::external_body]
pub(crate) fn debug_text(entity: Entity) -> (text: String)
    requires
        valid_entity(entity),
    ensures
        text@ == entity_text(entity),
{
    format!("{:?}", bevy_ecs::entity::Entity::from_bits(entity))
}

/// One step up from the bottom of a chain is one step up the chain.
pub proof fn lemma_ancestor_step(links: Map<Entity, Entity>, entity: Entity, k: nat)
    ensures
        links.contains_key(entity) ==> ancestor(links, entity, k + 1) == ancestor(
            links,
            links[entity],
            k,
        ),
        !links.contains_key(entity) ==> ancestor(links, entity, k + 1) is None,
    decreases k,
{
    if k > 0 {
        lemma_ancestor_step(links, entity, (k - 1) as nat);
    } else {
        assert(ancestor(links, entity, 0) == Some(entity));
        reveal_with_fuel(ancestor, 2);
    }
}

/// Climbing `j` and then `k` links is climbing both.
pub proof fn lemma_ancestor_sum(links: Map<Entity, Entity>, entity: Entity, j: nat, k: nat)
    ensures
        ancestor(links, entity, j) matches Some(above) ==> ancestor(links, entity, j + k)
            == ancestor(links, above, k),
        ancestor(links, entity, j) is None ==> ancestor(links, entity, j + k) is None,
    decreases k,
{
    if k > 0 {
        lemma_ancestor_sum(links, entity, j, (k - 1) as nat);
        assert(j + k - 1 == j + (k - 1) as nat);
    }
}

/// An entity descends from itself, and what descends from its descendants
/// descends from it.
pub proof fn law_descent_is_reflexive_and_transitive(
    links: Map<Entity, Entity>,
    a: Entity,
    b: Entity,
    c: Entity,
)
    ensures
        descends(links, a, a),
        descends(links, a, b) && descends(links, b, c) ==> descends(links, a, c),
{
    assert(ancestor(links, a, 0) == Some(a));
    if descends(links, a, b) && descends(links, b, c) {
        let j = choose|j: nat| #[trigger] ancestor(links, a, j) == Some(b);
        let k = choose|k: nat| #[trigger] ancestor(links, b, k) == Some(c);
        lemma_ancestor_sum(links, a, j, k);
        assert(ancestor(links, a, j + k) == Some(c));
    }
}

} // verus!
