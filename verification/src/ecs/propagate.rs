//! World-space transforms from the transforms relative to the parents.

use vstd::prelude::*;

use crate::ecs::components::{identity, Components, GlobalTransform, Quat, Transform, Vec3};
use crate::ecs::entities::{
    ancestor, descends, law_descent_is_reflexive_and_transitive, lists_children, subtree, Entity,
};
use crate::ecs::scalar::Scalar;
use crate::ecs::tree::{
    acyclic, lemma_chain_is_linked, lemma_child_is_less_deep, lemma_not_below_its_child,
    lemma_subtree_by_children, lemma_subtrees_are_apart, lemma_tree_has_depth, no_deeper,
};
use crate::ecs::world::{SceneWorld, WorldView};

verus! {

/// The entity's transform relative to its parent; the identity if it has none.
pub open spec fn local_transform(world: WorldView, entity: Entity) -> Transform {
    match world.table[entity].transform {
        Some(transform) => transform,
        None => identity(),
    }
}

/// Where the entity is in the world; nowhere if it is not alive or has no world-space
/// transform.
pub open spec fn global_of(world: WorldView, entity: Entity) -> Option<Transform> {
    if world.alive(entity) {
        match world.table[entity].global_transform {
            Some(global) => Some(global.0),
            None => None,
        }
    } else {
        None
    }
}

/// Where the entity is in the world; nowhere if it is not alive or has no world-space
/// transform.
pub fn global_transform(world: &SceneWorld, entity: Entity) -> (place: Option<Transform>)
    requires
        world.wf(),
    ensures
        place == global_of(world@, entity),
{
    match world.get(entity) {
        Some(components) => match components.global_transform {
            Some(global) => Some(global.0),
            None => None,
        },
        None => None,
    }
}

/// Whether propagation begins at the entity: it has a transform and no parent.
pub open spec fn begins(world: WorldView, entity: Entity) -> bool {
    world.alive(entity) && world.table[entity].transform is Some && !world.parents.contains_key(
        entity,
    )
}

/// The world with the given world-space transforms.
pub open spec fn with_globals(world: WorldView, globals: Map<Entity, Transform>) -> WorldView {
    WorldView {
        table: Map::new(
            |e: Entity| world.alive(e),
            |e: Entity|
                if globals.contains_key(e) {
                    Components {
                        global_transform: Some(GlobalTransform(globals[e])),
                        ..world.table[e]
                    }
                } else {
                    world.table[e]
                },
        ),
        ..world
    }
}

/// Whether the world-space transform of every entity in `globals` but `root` is
/// its parent's composed with its own.
pub open spec fn composed<F: Fn(Transform, Transform) -> Transform>(
    world: WorldView,
    compose: F,
    globals: Map<Entity, Transform>,
    root: Entity,
) -> bool {
    forall|e: Entity| #[trigger]
        globals.contains_key(e) && e != root ==> {
            &&& world.parents.contains_key(e)
            &&& globals.contains_key(world.parents[e])
            &&& compose.ensures(
                (globals[world.parents[e]], local_transform(world, e)),
                globals[e],
            )
        }
}

fn propagate_below<F: Fn(Transform, Transform) -> Transform>(
    world: &mut SceneWorld,
    entity: Entity,
    above: Transform,
    compose: &F,
    Ghost(depth): Ghost<nat>,
) -> (result: Ghost<Map<Entity, Transform>>)
    requires
        old(world).wf(),
        old(world)@.alive(entity),
        acyclic(old(world)@.parents),
        no_deeper(old(world)@.parents, entity, depth),
        forall|a: Transform, b: Transform| compose.requires((a, b)),
    ensures
        final(world).wf(),
        result@.dom() == subtree(old(world)@.parents, entity),
        compose.ensures((above, local_transform(old(world)@, entity)), result@[entity]),
        composed(old(world)@, *compose, result@, entity),
        final(world)@ == with_globals(old(world)@, result@),
    decreases depth,
{
    let ghost before = world@;
    let ghost links = before.parents;
    proof {
        world.lemma_consistent();
        law_descent_is_reflexive_and_transitive(links, entity, entity, entity);
    }
    let local = match world.get(entity) {
        Some(components) => match components.transform {
            Some(transform) => transform,
            None => Transform::identity(),
        },
        None => Transform::identity(),
    };
    let global = compose(above, local);
    match world.get(entity) {
        Some(components) => {
            let mut components = components.clone();
            components.global_transform = Some(GlobalTransform(global));
            world.set(entity, components);
        },
        None => {},
    }
    let ghost mut globals: Map<Entity, Transform> = Map::empty().insert(entity, global);
    proof {
        assert(world@.table =~= with_globals(before, globals).table);
        assert(world@ =~= with_globals(before, globals));
    }
    let children = world.children(entity);
    proof {
        lemma_subtree_by_children(links, entity, children@);
    }
    for i in 0..children.len()
        invariant
            before.consistent(),
            before.alive(entity),
            links == before.parents,
            acyclic(links),
            no_deeper(links, entity, depth),
            children@.no_duplicates(),
            lists_children(children@, links, entity),
            forall|a: Transform, b: Transform| compose.requires((a, b)),
            world.wf(),
            world@ == with_globals(before, globals),
            globals.contains_key(entity),
            globals[entity] == global,
            composed(before, *compose, globals, entity),
            forall|e: Entity| #[trigger]
                globals.contains_key(e) <==> e == entity || exists|j: int|
                    0 <= j < i && #[trigger] descends(links, e, children@[j]),
    {
        let child: Entity = children[i];
        let ghost middle = world@;
        let ghost some = globals;
        proof {
            assert(children@.contains(child));
            assert(links.contains_key(child));
            lemma_child_is_less_deep(links, entity, child, depth);
        }
        let Ghost(more) = propagate_below(
            world,
            child,
            global,
            compose,
            Ghost((depth - 1) as nat),
        );
        proof {
            globals = some.union_prefer_right(more);
            lemma_not_below_its_child(links, entity, child);
            assert forall|e: Entity| more.contains_key(e) implies !#[trigger] some.contains_key(
                e,
            ) by {
                assert(subtree(links, child).contains(e));
                if some.contains_key(e) && e != entity {
                    let j = choose|j: int|
                        0 <= j < i && #[trigger] descends(links, e, children@[j]);
                    assert(children@.contains(children@[j]));
                    assert(children@[j] != children@[i as int]);
                    lemma_subtrees_are_apart(links, entity, children@[j], child);
                }
            }
            assert forall|e: Entity| #[trigger] globals.contains_key(e) <==> e == entity || exists|
                j: int,
            |
                0 <= j < i + 1 && #[trigger] descends(links, e, children@[j]) by {
                if more.contains_key(e) {
                    assert(subtree(links, child).contains(e));
                    assert(descends(links, e, children@[i as int]));
                } else if some.contains_key(e) && e != entity {
                    let j = choose|j: int|
                        0 <= j < i && #[trigger] descends(links, e, children@[j]);
                    assert(descends(links, e, children@[j]));
                }
                if e == entity {
                    assert(some.contains_key(e));
                }
                if exists|j: int| 0 <= j < i + 1 && #[trigger] descends(links, e, children@[j]) {
                    let j = choose|j: int|
                        0 <= j < i + 1 && #[trigger] descends(links, e, children@[j]);
                    if j < i {
                        assert(some.contains_key(e));
                    } else {
                        assert(subtree(links, child).contains(e));
                        assert(more.contains_key(e));
                    }
                }
            }
            assert(!more.contains_key(entity)) by {
                if more.contains_key(entity) {
                    assert(subtree(links, child).contains(entity));
                }
            }
            assert(subtree(links, child).contains(child)) by {
                law_descent_is_reflexive_and_transitive(links, child, child, child);
            }
            assert(more.contains_key(child));
            assert forall|e: Entity| #[trigger] globals.contains_key(e) && e != entity implies {
                &&& before.parents.contains_key(e)
                &&& globals.contains_key(before.parents[e])
                &&& compose.ensures(
                    (globals[before.parents[e]], local_transform(before, e)),
                    globals[e],
                )
            } by {
                if more.contains_key(e) {
                    assert(subtree(links, child).contains(e));
                    lemma_below_is_alive(before, child, e);
                    assert(local_transform(middle, e) == local_transform(before, e));
                    if e == child {
                        assert(globals[entity] == global);
                    } else {
                        assert(more.contains_key(middle.parents[e]));
                    }
                } else {
                    assert(some.contains_key(e));
                    let up = before.parents[e];
                    assert(some.contains_key(up));
                    assert(!more.contains_key(up));
                }
            }
            lemma_with_globals_twice(before, some, more);
        }
    }
    proof {
        assert(globals.dom() =~= subtree(links, entity)) by {
            assert forall|e: Entity| globals.dom().contains(e) <==> subtree(
                links,
                entity,
            ).contains(e) by {
                assert(globals.contains_key(e) <==> e == entity || exists|j: int|
                    0 <= j < children@.len() && #[trigger] descends(links, e, children@[j]));
                assert(descends(links, e, entity) <==> subtree(links, entity).contains(e));
            }
        }
    }
    Ghost(globals)
}

proof fn lemma_below_is_alive(world: WorldView, root: Entity, entity: Entity)
    requires
        world.consistent(),
        world.alive(root),
        descends(world.parents, entity, root),
    ensures
        world.alive(entity),
{
    let k = choose|k: nat| #[trigger] ancestor(world.parents, entity, k) == Some(root);
    if k > 0 {
        lemma_chain_is_linked(world.parents, entity, 0, k);
        assert(world.parents.contains_key(entity));
    }
}

proof fn lemma_with_globals_twice(
    world: WorldView,
    some: Map<Entity, Transform>,
    more: Map<Entity, Transform>,
)
    ensures
        with_globals(with_globals(world, some), more) == with_globals(
            world,
            some.union_prefer_right(more),
        ),
{
    let twice = with_globals(with_globals(world, some), more);
    let once = with_globals(world, some.union_prefer_right(more));
    assert(twice.table =~= once.table);
    assert(twice =~= once);
}

proof fn lemma_roots_are_apart(links: Map<Entity, Entity>, a: Entity, b: Entity, entity: Entity)
    requires
        !links.contains_key(a),
        !links.contains_key(b),
        descends(links, entity, a),
        descends(links, entity, b),
    ensures
        a == b,
{
    let j = choose|j: nat| #[trigger] ancestor(links, entity, j) == Some(a);
    let k = choose|k: nat| #[trigger] ancestor(links, entity, k) == Some(b);
    if j < k {
        lemma_chain_is_linked(links, entity, j, k);
    } else if k < j {
        lemma_chain_is_linked(links, entity, k, j);
    }
}

/// Whether `globals` are the world-space transforms of all that is at or below an
/// entity with a transform and no parent: there the entity's own composed with
/// the identity, below it the parent's composed with the entity's own.
pub open spec fn propagated<F: Fn(Transform, Transform) -> Transform>(
    world: WorldView,
    compose: F,
    globals: Map<Entity, Transform>,
) -> bool {
    &&& forall|e: Entity| #[trigger]
        globals.contains_key(e) <==> exists|root: Entity|
            begins(world, root) && #[trigger] descends(world.parents, e, root)
    &&& forall|e: Entity| #[trigger]
        globals.contains_key(e) ==> {
            let above = if world.parents.contains_key(e) {
                globals[world.parents[e]]
            } else {
                identity()
            };
            compose.ensures((above, local_transform(world, e)), globals[e])
        }
}

/// Recomputes the world-space transform of every entity at or below one that has
/// a transform and no parent. `compose` composes a parent's world-space transform
/// with a transform relative to it.
pub fn propagate_transforms<F: Fn(Transform, Transform) -> Transform>(
    world: &mut SceneWorld,
    compose: &F,
)
    requires
        old(world).wf(),
        acyclic(old(world)@.parents),
        forall|a: Transform, b: Transform| compose.requires((a, b)),
    ensures
        final(world).wf(),
        exists|globals: Map<Entity, Transform>| #[trigger]
            propagated(old(world)@, *compose, globals) && final(world)@ == with_globals(
                old(world)@,
                globals,
            ),
{
    let ghost before = world@;
    let ghost links = before.parents;
    proof {
        world.lemma_consistent();
        assert(links.dom().subset_of(before.table.dom())) by {
            assert forall|e: Entity| links.dom().contains(e) implies before.table.dom().contains(
                e,
            ) by {
                assert(before.parents.contains_key(e));
                assert(before.alive(e));
            }
        }
        vstd::set_lib::lemma_len_subset(links.dom(), before.table.dom());
    }
    let ghost mut globals: Map<Entity, Transform> = Map::empty();
    proof {
        assert(with_globals(before, globals).table =~= before.table);
        assert(world@ =~= with_globals(before, globals));
    }
    let count: usize = world.len();
    for i in 0..count
        invariant
            before.consistent(),
            links == before.parents,
            links.dom().finite(),
            acyclic(links),
            count == before.order.len(),
            forall|a: Transform, b: Transform| compose.requires((a, b)),
            world.wf(),
            world@ == with_globals(before, globals),
            forall|e: Entity| #[trigger]
                globals.contains_key(e) <==> exists|j: int|
                    0 <= j < i && begins(before, before.order[j]) && #[trigger] descends(
                        links,
                        e,
                        before.order[j],
                    ),
            forall|e: Entity| #[trigger]
                globals.contains_key(e) ==> {
                    let above = if links.contains_key(e) {
                        globals[links[e]]
                    } else {
                        identity()
                    };
                    compose.ensures((above, local_transform(before, e)), globals[e])
                },
            forall|e: Entity| #[trigger]
                globals.contains_key(e) && links.contains_key(e) ==> globals.contains_key(
                    links[e],
                ),
    {
        let entity: Entity = world.entity_at(i);
        let ghost middle = world@;
        let ghost some = globals;
        assert(before.order.contains(entity));
        assert(before.alive(entity));
        assert(middle.table[entity].transform == before.table[entity].transform);
        let starts: bool = match world.get(entity) {
            Some(components) => components.transform.is_some() && world.parent(entity).is_none(),
            None => false,
        };
        assert(starts == begins(before, entity));
        if starts {
            proof {
                lemma_tree_has_depth(links, entity);
            }
            let Ghost(more) = propagate_below(
                world,
                entity,
                Transform::identity(),
                compose,
                Ghost(links.dom().len()),
            );
            proof {
                globals = some.union_prefer_right(more);
                lemma_with_globals_twice(before, some, more);
                assert forall|e: Entity| more.contains_key(e) implies !#[trigger] some.contains_key(
                    e,
                ) by {
                    assert(subtree(links, entity).contains(e));
                    if some.contains_key(e) {
                        let j = choose|j: int|
                            0 <= j < i && begins(before, before.order[j]) && #[trigger] descends(
                                links,
                                e,
                                before.order[j],
                            );
                        lemma_roots_are_apart(links, entity, before.order[j], e);
                        assert(before.order[j] == before.order[i as int]);
                    }
                }
                assert forall|e: Entity| #[trigger] globals.contains_key(e) <==> exists|j: int|
                    0 <= j < i + 1 && begins(before, before.order[j]) && #[trigger] descends(
                        links,
                        e,
                        before.order[j],
                    ) by {
                    if more.contains_key(e) {
                        assert(subtree(links, entity).contains(e));
                        assert(descends(links, e, before.order[i as int]));
                    } else if some.contains_key(e) {
                        let j = choose|j: int|
                            0 <= j < i && begins(before, before.order[j]) && #[trigger] descends(
                                links,
                                e,
                                before.order[j],
                            );
                        assert(descends(links, e, before.order[j]));
                    }
                    if exists|j: int|
                        0 <= j < i + 1 && begins(before, before.order[j]) && #[trigger] descends(
                            links,
                            e,
                            before.order[j],
                        ) {
                        let j = choose|j: int|
                            0 <= j < i + 1 && begins(before, before.order[j])
                                && #[trigger] descends(links, e, before.order[j]);
                        if j < i {
                            assert(some.contains_key(e));
                        } else {
                            assert(subtree(links, entity).contains(e));
                            assert(more.contains_key(e));
                        }
                    }
                }
                assert forall|e: Entity| #[trigger] globals.contains_key(e) implies {
                    let above = if links.contains_key(e) {
                        globals[links[e]]
                    } else {
                        identity()
                    };
                    &&& compose.ensures((above, local_transform(before, e)), globals[e])
                    &&& links.contains_key(e) ==> globals.contains_key(links[e])
                } by {
                    if more.contains_key(e) {
                        assert(subtree(links, entity).contains(e));
                        lemma_below_is_alive(before, entity, e);
                        assert(local_transform(middle, e) == local_transform(before, e));
                        if e != entity {
                            assert(more.contains_key(middle.parents[e]));
                        }
                    } else {
                        assert(some.contains_key(e));
                        if links.contains_key(e) {
                            assert(some.contains_key(links[e]));
                            assert(!more.contains_key(links[e]));
                        }
                    }
                }
            }
        } else {
            proof {
                assert forall|e: Entity| #[trigger] globals.contains_key(e) <==> exists|j: int|
                    0 <= j < i + 1 && begins(before, before.order[j]) && #[trigger] descends(
                        links,
                        e,
                        before.order[j],
                    ) by {
                    if globals.contains_key(e) {
                        let j = choose|j: int|
                            0 <= j < i && begins(before, before.order[j]) && #[trigger] descends(
                                links,
                                e,
                                before.order[j],
                            );
                        assert(descends(links, e, before.order[j]));
                    }
                }
            }
        }
    }
    proof {
        assert forall|e: Entity| #[trigger] globals.contains_key(e) <==> exists|root: Entity|
            begins(before, root) && #[trigger] descends(links, e, root) by {
            if globals.contains_key(e) {
                let j = choose|j: int|
                    0 <= j < count && begins(before, before.order[j]) && #[trigger] descends(
                        links,
                        e,
                        before.order[j],
                    );
                assert(begins(before, before.order[j]) && descends(links, e, before.order[j]));
            }
            if exists|root: Entity| begins(before, root) && #[trigger] descends(links, e, root) {
                let root = choose|root: Entity|
                    begins(before, root) && #[trigger] descends(links, e, root);
                assert(before.alive(root));
                let j = before.order.index_of(root);
                assert(descends(links, e, before.order[j]));
            }
        }
        assert(propagated(before, *compose, globals));
    }
}

/// Propagation changes nothing but world-space transforms, and none of an entity
/// that is not at or below one with a transform and no parent.
pub proof fn law_propagation_touches_only_globals<F: Fn(Transform, Transform) -> Transform>(
    world: WorldView,
    compose: F,
    globals: Map<Entity, Transform>,
    entity: Entity,
)
    requires
        propagated(world, compose, globals),
        world.alive(entity),
    ensures
        ({
            let now = with_globals(world, globals);
            &&& now.parents == world.parents && now.order == world.order
            &&& now.table[entity] == (Components {
                global_transform: now.table[entity].global_transform,
                ..world.table[entity]
            })
            &&& (forall|root: Entity|
                begins(world, root) ==> !#[trigger] descends(world.parents, entity, root))
                ==> now.table[entity] == world.table[entity]
        }),
{
}

/// Where entities are after propagation. One without a parent is where its own transform
/// puts it in the world. One with a parent is where its transform puts it in what the
/// parent's place is, if the root of the tree has a transform; one without a transform is
/// taken as not moved at all. Trees whose root has no transform keep their places.
pub proof fn law_places_follow_the_parents<F: Fn(Transform, Transform) -> Transform>(
    world: WorldView,
    compose: F,
    go: spec_fn(Transform, Transform) -> Transform,
    globals: Map<Entity, Transform>,
    entity: Entity,
    root: Entity,
    k: nat,
)
    requires
        propagated(world, compose, globals),
        forall|a: Transform, b: Transform, c: Transform| #[trigger]
            compose.ensures((a, b), c) ==> c == go(a, b),
        world.consistent(),
        world.alive(entity),
        ancestor(world.parents, entity, k) == Some(root),
        !world.parents.contains_key(root),
    ensures
        ({
            let none = Scalar { bits: 0 };
            let full = Scalar { bits: 0x3f80_0000 };
            let still = Transform {
                translation: Vec3 { x: none, y: none, z: none },
                rotation: Quat { x: none, y: none, z: none, w: full },
                scale: Vec3 { x: full, y: full, z: full },
            };
            let now = with_globals(world, globals);
            let local = match world.table[entity].transform {
                Some(own) => own,
                None => still,
            };
            let place = now.table[entity].global_transform;
            &&& world.table[root].transform is Some && k == 0 ==> place == Some(
                GlobalTransform(go(still, local)),
            )
            &&& world.table[root].transform is Some && k > 0 ==> {
                let above = now.table[world.parents[entity]].global_transform;
                &&& above is Some
                &&& place == Some(GlobalTransform(go((above->0).0, local)))
            }
            &&& world.table[root].transform is None ==> place
                == world.table[entity].global_transform
        }),
{
    if k > 0 {
        lemma_chain_is_linked(world.parents, entity, 0, k);
        lemma_step_up(world.parents, entity, k);
    }
    if world.table[root].transform is Some {
        lemma_root_is_alive(world, entity, root, k);
        assert(begins(world, root));
        assert(descends(world.parents, entity, root));
        assert(globals.contains_key(entity));
        if k > 0 {
            let parent = world.parents[entity];
            assert(ancestor(world.parents, parent, (k - 1) as nat) == Some(root));
            assert(descends(world.parents, parent, root));
            assert(globals.contains_key(parent));
        }
    } else {
        if globals.contains_key(entity) {
            let other = choose|r: Entity|
                begins(world, r) && #[trigger] descends(world.parents, entity, r);
            let j = choose|j: nat| #[trigger] ancestor(world.parents, entity, j) == Some(other);
            lemma_one_root(world.parents, entity, j, k, other, root);
        }
    }
}

proof fn lemma_step_up(links: Map<Entity, Entity>, entity: Entity, k: nat)
    requires
        k > 0,
        ancestor(links, entity, k) is Some,
    ensures
        links.contains_key(entity),
        ancestor(links, links[entity], (k - 1) as nat) == ancestor(links, entity, k),
    decreases k,
{
    assert(ancestor(links, entity, 0) == Some(entity));
    if k > 1 {
        lemma_step_up(links, entity, (k - 1) as nat);
    } else {
        assert(ancestor(links, entity, 1) is Some);
    }
}

proof fn lemma_root_is_alive(world: WorldView, entity: Entity, root: Entity, k: nat)
    requires
        world.consistent(),
        world.alive(entity),
        ancestor(world.parents, entity, k) == Some(root),
    ensures
        world.alive(root),
{
    if k > 0 {
        let below = ancestor(world.parents, entity, (k - 1) as nat)->0;
        assert(world.parents.contains_key(below));
    }
}

proof fn lemma_one_root(
    links: Map<Entity, Entity>,
    entity: Entity,
    j: nat,
    k: nat,
    a: Entity,
    b: Entity,
)
    requires
        ancestor(links, entity, j) == Some(a),
        ancestor(links, entity, k) == Some(b),
        !links.contains_key(a),
        !links.contains_key(b),
    ensures
        a == b,
    decreases j + k,
{
    if j > 0 && k > 0 {
        lemma_step_up(links, entity, j);
        lemma_step_up(links, entity, k);
        lemma_one_root(links, links[entity], (j - 1) as nat, (k - 1) as nat, a, b);
    } else if j > 0 {
        lemma_step_up(links, entity, j);
    } else if k > 0 {
        lemma_step_up(links, entity, k);
    }
}

} // verus!
