//! Copies what a physics simulation computed into the scene.

use vstd::prelude::*;

use crate::ecs::components::{Components, Quat, Transform, Vec3};
use crate::ecs::entities::Entity;
use crate::ecs::world::{SceneWorld, WorldView};

verus! {

/// A rigid body that drives an entity.
#[derive(Debug, Clone, Copy, PartialEq, Eq, Structural)]
pub struct RigidBody {
    /// The entity.
    pub entity: Entity,
    /// The body's handle.
    pub body: u64,
}

/// Where a body is.
#[derive(Debug, Clone, Copy, PartialEq, Eq, Structural)]
pub struct Pose {
    /// Its place.
    pub translation: Vec3,
    /// Its orientation.
    pub rotation: Quat,
}

/// Whether the body has something to drive: its entity is alive and has a transform.
pub open spec fn drives(world: WorldView, body: RigidBody) -> bool {
    world.alive(body.entity) && world.table[body.entity].transform is Some
}

/// The world after the body's entity was moved to the pose, its scale unchanged;
/// without a pose everything stays.
pub open spec fn posed(world: WorldView, body: RigidBody, pose: Option<Pose>) -> WorldView {
    match pose {
        Some(pose) => {
            let before = world.table[body.entity];
            let transform = Transform {
                translation: pose.translation,
                rotation: pose.rotation,
                scale: before.transform->0.scale,
            };
            world.updated(body.entity, (Components { transform: Some(transform), ..before }))
        },
        None => world,
    }
}

/// Whether the body's entity was moved to where the body is, if it has something to
/// drive; else everything stayed.
pub open spec fn synced<F: Fn(u64) -> Option<Pose>>(
    before: WorldView,
    after: WorldView,
    body: RigidBody,
    pose_of: &F,
) -> bool {
    if drives(before, body) {
        exists|pose: Option<Pose>| #[trigger]
            pose_of.ensures((body.body,), pose) && after == posed(before, body, pose)
    } else {
        after == before
    }
}

/// Whether the worlds follow on each other, one body after the other.
pub open spec fn sync_run<F: Fn(u64) -> Option<Pose>>(
    worlds: Seq<WorldView>,
    bodies: Seq<RigidBody>,
    pose_of: &F,
) -> bool {
    &&& worlds.len() == bodies.len() + 1
    &&& forall|i: int|
        #![trigger bodies[i]]
        0 <= i < bodies.len() ==> synced(worlds[i], worlds[i + 1], bodies[i], pose_of)
}

/// Moves every entity that a rigid body drives to where its body is. `pose_of` says
/// where a body is, or that there is none of that handle any more: such an entity stays.
pub fn sync_rigid_bodies<F: Fn(u64) -> Option<Pose>>(
    world: &mut SceneWorld,
    bodies: &[RigidBody],
    pose_of: &F,
)
    requires
        old(world).wf(),
        forall|body: u64| pose_of.requires((body,)),
    ensures
        final(world).wf(),
        exists|worlds: Seq<WorldView>| #[trigger]
            sync_run(worlds, bodies@, pose_of) && worlds[0] == old(world)@ && worlds.last()
                == final(world)@,
{
    let ghost mut worlds: Seq<WorldView> = seq![world@];
    for i in 0..bodies.len()
        invariant
            world.wf(),
            forall|body: u64| pose_of.requires((body,)),
            worlds[0] == old(world)@,
            worlds.last() == world@,
            sync_run(worlds, bodies@.take(i as int), pose_of),
    {
        let ghost before = world@;
        let ghost earlier = worlds;
        let body = bodies[i];
        match world.get(body.entity) {
            Some(components) => match components.transform {
                Some(transform) => match pose_of(body.body) {
                    Some(pose) => {
                        let mut components = components.clone();
                        components.transform = Some(
                            Transform {
                                translation: pose.translation,
                                rotation: pose.rotation,
                                scale: transform.scale,
                            },
                        );
                        world.set(body.entity, components);
                    },
                    None => {},
                },
                None => {},
            },
            None => {},
        }
        proof {
            assert(synced(before, world@, body, pose_of));
            worlds = worlds.push(world@);
            let now = bodies@.take(i + 1);
            assert forall|k: int| #![trigger now[k]] 0 <= k < now.len() implies synced(
                worlds[k],
                worlds[k + 1],
                now[k],
                pose_of,
            ) by {
                assert(worlds[k] == earlier[k]);
                if k < i {
                    assert(bodies@.take(i as int)[k] == now[k]);
                    assert(worlds[k + 1] == earlier[k + 1]);
                }
            }
        }
    }
    assert(bodies@.take(bodies@.len() as int) =~= bodies@);
}

/// After the bodies were copied, an entity is where the last of its bodies is that the
/// simulation knows: the place and the orientation are the body's, the scale is what it was.
/// Entities without such a body, without a transform or not alive stay as they are, and of
/// no entity anything but the transform changes.
pub proof fn law_entities_are_where_their_bodies_are<F: Fn(u64) -> Option<Pose>>(
    worlds: Seq<WorldView>,
    bodies: Seq<RigidBody>,
    pose_of: &F,
    pose: spec_fn(u64) -> Option<Pose>,
    entity: Entity,
    k: int,
)
    requires
        sync_run(worlds, bodies, pose_of),
        forall|body: u64, found: Option<Pose>| #[trigger]
            pose_of.ensures((body,), found) ==> found == pose(body),
        0 <= k <= bodies.len(),
        k < bodies.len() ==> bodies[k].entity == entity && pose(bodies[k].body) is Some,
        forall|j: int|
            #![trigger bodies[j]]
            0 <= j < bodies.len() && (k < j || k == bodies.len()) && bodies[j].entity == entity
                ==> pose(bodies[j].body) is None,
    ensures
        ({
            let before = worlds[0];
            let after = worlds.last();
            let driven = k < bodies.len() && before.table.contains_key(entity)
                && before.table[entity].transform is Some;
            &&& after.order == before.order && after.parents == before.parents
                && after.population == before.population
            &&& after.table.contains_key(entity) <==> before.table.contains_key(entity)
            &&& before.table.contains_key(entity) && !driven ==> after.table[entity]
                == before.table[entity]
            &&& driven ==> after.table[entity] == (Components {
                transform: Some(
                    Transform {
                        translation: pose(bodies[k].body)->0.translation,
                        rotation: pose(bodies[k].body)->0.rotation,
                        scale: before.table[entity].transform->0.scale,
                    },
                ),
                ..before.table[entity]
            })
        }),
    decreases bodies.len(),
{
    if bodies.len() > 0 {
        let n = bodies.len() - 1;
        let rest = bodies.drop_last();
        let start = worlds.drop_last();
        assert forall|i: int| #![trigger rest[i]] 0 <= i < rest.len() implies synced(
            start[i],
            start[i + 1],
            rest[i],
            pose_of,
        ) by {
            assert(bodies[i] == rest[i]);
        }
        assert(synced(worlds[n], worlds[n + 1], bodies[n], pose_of));
        if bodies[n].entity == entity && pose(bodies[n].body) is Some {
            let m = lemma_last_body(rest, pose, entity);
            law_entities_are_where_their_bodies_are(start, rest, pose_of, pose, entity, m);
        } else {
            let m = if k == bodies.len() {
                n as int
            } else {
                k
            };
            assert forall|j: int|
                #![trigger rest[j]]
                0 <= j < rest.len() && (m < j || m == rest.len()) && rest[j].entity
                    == entity implies pose(rest[j].body) is None by {
                assert(bodies[j] == rest[j]);
            }
            law_entities_are_where_their_bodies_are(start, rest, pose_of, pose, entity, m);
        }
    }
}

proof fn lemma_last_body(
    bodies: Seq<RigidBody>,
    pose: spec_fn(u64) -> Option<Pose>,
    entity: Entity,
) -> (k: int)
    ensures
        0 <= k <= bodies.len(),
        k < bodies.len() ==> bodies[k].entity == entity && pose(bodies[k].body) is Some,
        forall|j: int|
            #![trigger bodies[j]]
            0 <= j < bodies.len() && (k < j || k == bodies.len()) && bodies[j].entity == entity
                ==> pose(bodies[j].body) is None,
    decreases bodies.len(),
{
    if bodies.len() == 0 {
        0
    } else {
        let n = bodies.len() - 1;
        if bodies[n].entity == entity && pose(bodies[n].body) is Some {
            n
        } else {
            let rest = bodies.drop_last();
            let m = lemma_last_body(rest, pose, entity);
            let k = if m == rest.len() {
                bodies.len() as int
            } else {
                m
            };
            assert forall|j: int|
                #![trigger bodies[j]]
                0 <= j < bodies.len() && (k < j || k == bodies.len()) && bodies[j].entity
                    == entity implies pose(bodies[j].body) is None by {
                if j < n {
                    assert(rest[j] == bodies[j]);
                }
            }
            k
        }
    }
}

} // verus!
