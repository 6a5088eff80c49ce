//! What of a world takes part in a frame.
//!
//! Which entities are drawn, and how, is read off the world here. Whether a handle is
//! registered, what is in view and how far away it is, the host says.

use vstd::prelude::*;

use crate::ecs::components::{Components, RenderHandles, Transform, Vec3};
use crate::ecs::entities::Entity;
use crate::ecs::propagate::{propagate_transforms, propagated, with_globals};
use crate::ecs::render::{
    instance_total, lemma_instance_total_grows, plan_frame, FramePlan, InstancedInput, MeshInput,
    SkinnedInput, SpriteInput,
};
use crate::ecs::scalar::Scalar;
use crate::ecs::tree::acyclic;
use crate::ecs::world::{lemma_filter, lemma_filter_push, SceneWorld, WorldView};

verus! {

/// A way of being drawn.
#[derive(Debug, Clone, Copy, PartialEq, Eq, Structural)]
pub enum Drawn {
    /// As a mesh.
    Mesh,
    /// As a mesh with a skeleton.
    Skinned,
    /// As many copies of a mesh.
    Instanced,
    /// As plants in the wind.
    Vegetation,
    /// As a flat image.
    Sprite,
}

impl Drawn {
    /// Whether something with the components is drawn in this way. Copies and plants
    /// have places of their own; everything else needs a place in the world.
    pub open spec fn holds(self, components: Components) -> bool {
        match self {
            Drawn::Mesh => components.global_transform is Some && components.mesh_renderer is Some,
            Drawn::Skinned => components.global_transform is Some
                && components.skinned_mesh_renderer is Some,
            Drawn::Instanced => components.instanced_mesh_renderer is Some,
            Drawn::Vegetation => components.vegetation_renderer is Some,
            Drawn::Sprite => components.global_transform is Some && components.sprite is Some,
        }
    }

    /// Whether something with the components is drawn in this way.
    pub fn is_held_by(self, components: &Components) -> (answer: bool)
        ensures
            answer == self.holds(*components),
    {
        let placed: bool = components.global_transform.is_some();
        match self {
            Drawn::Mesh => placed && components.mesh_renderer.is_some(),
            Drawn::Skinned => placed && components.skinned_mesh_renderer.is_some(),
            Drawn::Instanced => components.instanced_mesh_renderer.is_some(),
            Drawn::Vegetation => components.vegetation_renderer.is_some(),
            Drawn::Sprite => placed && components.sprite.is_some(),
        }
    }
}

/// The entities that are drawn in the given way, each once, in the order in which they
/// were spawned.
pub open spec fn drawn_entities(world: WorldView, kind: Drawn) -> Seq<Entity> {
    world.order.filter(|e: Entity| kind.holds(world.table[e]))
}

/// The entities that are drawn in the given way.
pub fn entities_drawn(world: &SceneWorld, kind: Drawn) -> (entities: Vec<Entity>)
    requires
        world.wf(),
    ensures
        entities@ == drawn_entities(world@, kind),
{
    let ghost keep = |e: Entity| kind.holds(world@.table[e]);
    let mut entities: Vec<Entity> = Vec::new();
    let count: usize = world.len();
    proof {
        reveal(Seq::filter);
        assert(world@.order.take(0) =~= Seq::empty());
    }
    for i in 0..count
        invariant
            world.wf(),
            count == world@.order.len(),
            keep == (|e: Entity| kind.holds(world@.table[e])),
            entities@ == world@.order.take(i as int).filter(keep),
    {
        let entity: Entity = world.entity_at(i);
        proof {
            assert(world@.order.take(i + 1) =~= world@.order.take(i as int).push(entity));
            lemma_filter_push(world@.order.take(i as int), entity, keep);
        }
        if kind.is_held_by(world.components_at(i)) {
            entities.push(entity);
        }
    }
    assert(world@.order.take(count as int) =~= world@.order);
    entities
}

/// Exactly the living entities that hold what a way of drawing needs are drawn in that
/// way, and none of them twice.
pub proof fn law_every_holder_is_drawn_once(world: &SceneWorld, kind: Drawn)
    requires
        world.wf(),
    ensures
        drawn_entities(world@, kind).no_duplicates(),
        forall|e: Entity| #[trigger]
            drawn_entities(world@, kind).contains(e) <==> world@.alive(e) && kind.holds(
                world@.table[e],
            ),
        drawn_entities(world@, kind).len() <= world@.population,
{
    world.lemma_consistent();
    let keep = |e: Entity| kind.holds(world@.table[e]);
    lemma_filter(world@.order, keep);
    assert forall|e: Entity| #[trigger] drawn_entities(world@, kind).contains(e) <==> world@.alive(
        e,
    ) && kind.holds(world@.table[e]) by {
        assert(world@.alive(e) <==> world@.order.contains(e));
    }
    world@.order.unique_seq_to_set();
    assert(world@.order.to_set() =~= world@.table.dom()) by {
        assert forall|e: Entity| world@.order.to_set().contains(e) <==> world@.table.dom().contains(
            e,
        ) by {
            assert(world@.alive(e) <==> world@.order.contains(e));
        }
    }
}

/// What the host says of a mesh.
#[derive(Debug, Clone, Copy, PartialEq, Eq, Structural)]
pub struct MeshLook {
    /// Whether the mesh is registered with the renderer.
    pub mesh_registered: bool,
    /// Whether the material is registered with the renderer.
    pub material_registered: bool,
    /// Whether its bounds reach into the camera frustum.
    pub visible: bool,
    /// Whether its material is blended.
    pub transparent: bool,
    /// How far into the view volume it lies.
    pub depth: Scalar,
}

/// Whether the mesh is that of something with the components, as the host sees it.
pub open spec fn is_mesh_of<F: Fn(Transform, RenderHandles) -> MeshLook>(
    input: MeshInput,
    components: Components,
    look: &F,
) -> bool {
    let handles = components.mesh_renderer->0;
    &&& input.mesh == handles.mesh
    &&& input.material == handles.material
    &&& look.ensures(
        ((components.global_transform->0).0, handles),
        (MeshLook {
            mesh_registered: input.mesh_registered,
            material_registered: input.material_registered,
            visible: input.visible,
            transparent: input.transparent,
            depth: input.depth,
        }),
    )
}

/// The meshes of a frame: one for each entity that is drawn as one.
pub fn mesh_inputs<F: Fn(Transform, RenderHandles) -> MeshLook>(
    world: &SceneWorld,
    look: &F,
) -> (inputs: Vec<MeshInput>)
    requires
        world.wf(),
        forall|place: Transform, handles: RenderHandles| look.requires((place, handles)),
    ensures
        inputs@.len() == drawn_entities(world@, Drawn::Mesh).len(),
        forall|i: int|
            0 <= i < inputs@.len() ==> is_mesh_of(
                #[trigger] inputs@[i],
                world@.table[drawn_entities(world@, Drawn::Mesh)[i]],
                look,
            ),
{
    let entities = entities_drawn(world, Drawn::Mesh);
    proof {
        law_every_holder_is_drawn_once(world, Drawn::Mesh);
    }
    let mut inputs: Vec<MeshInput> = Vec::new();
    let count: usize = entities.len();
    for i in 0..count
        invariant
            world.wf(),
            count == entities@.len(),
            entities@ == drawn_entities(world@, Drawn::Mesh),
            forall|e: Entity| #[trigger]
                entities@.contains(e) ==> world@.alive(e) && Drawn::Mesh.holds(world@.table[e]),
            forall|place: Transform, handles: RenderHandles| look.requires((place, handles)),
            inputs@.len() == i,
            forall|k: int|
                0 <= k < i ==> is_mesh_of(
                    #[trigger] inputs@[k],
                    world@.table[entities@[k]],
                    look,
                ),
    {
        assert(entities@.contains(entities@[i as int]));
        match world.get(entities[i]) {
            Some(components) => match (components.global_transform, components.mesh_renderer) {
                (Some(place), Some(handles)) => {
                    let seen = look(place.0, handles);
                    inputs.push(
                        MeshInput {
                            mesh: handles.mesh,
                            material: handles.material,
                            mesh_registered: seen.mesh_registered,
                            material_registered: seen.material_registered,
                            visible: seen.visible,
                            transparent: seen.transparent,
                            depth: seen.depth,
                        },
                    );
                },
                _ => {},
            },
            None => {},
        }
    }
    inputs
}

/// The skinned meshes of a frame: one for each entity that is drawn as one.
pub fn skinned_inputs<F: Fn(RenderHandles) -> SkinnedInput>(
    world: &SceneWorld,
    look: &F,
) -> (inputs: Vec<SkinnedInput>)
    requires
        world.wf(),
        forall|handles: RenderHandles| look.requires((handles,)),
    ensures
        inputs@.len() == drawn_entities(world@, Drawn::Skinned).len(),
        forall|i: int|
            0 <= i < inputs@.len() ==> look.ensures(
                (world@.table[drawn_entities(
                    world@,
                    Drawn::Skinned,
                )[i]].skinned_mesh_renderer->0,),
                #[trigger] inputs@[i],
            ),
{
    let entities = entities_drawn(world, Drawn::Skinned);
    proof {
        law_every_holder_is_drawn_once(world, Drawn::Skinned);
    }
    let mut inputs: Vec<SkinnedInput> = Vec::new();
    let count: usize = entities.len();
    for i in 0..count
        invariant
            world.wf(),
            count == entities@.len(),
            entities@ == drawn_entities(world@, Drawn::Skinned),
            forall|e: Entity| #[trigger]
                entities@.contains(e) ==> world@.alive(e) && Drawn::Skinned.holds(world@.table[e]),
            forall|handles: RenderHandles| look.requires((handles,)),
            inputs@.len() == i,
            forall|k: int|
                0 <= k < i ==> look.ensures(
                    (world@.table[entities@[k]].skinned_mesh_renderer->0,),
                    #[trigger] inputs@[k],
                ),
    {
        assert(entities@.contains(entities@[i as int]));
        match world.get(entities[i]) {
            Some(components) => match components.skinned_mesh_renderer {
                Some(handles) => {
                    inputs.push(look(handles));
                },
                None => {},
            },
            None => {},
        }
    }
    inputs
}

/// The handles of what is drawn as copies or as plants.
pub open spec fn copied_handles(components: Components, kind: Drawn) -> RenderHandles {
    if kind == Drawn::Vegetation {
        components.vegetation_renderer->0
    } else {
        components.instanced_mesh_renderer->0
    }
}

/// The copies or plants of a frame: one list for each entity that is drawn as such.
pub fn instanced_inputs<F: Fn(Entity, RenderHandles) -> InstancedInput>(
    world: &SceneWorld,
    kind: Drawn,
    look: &F,
) -> (inputs: Vec<InstancedInput>)
    requires
        world.wf(),
        kind == Drawn::Instanced || kind == Drawn::Vegetation,
        forall|entity: Entity, handles: RenderHandles| look.requires((entity, handles)),
    ensures
        inputs@.len() == drawn_entities(world@, kind).len(),
        forall|i: int|
            0 <= i < inputs@.len() ==> look.ensures(
                (
                    drawn_entities(world@, kind)[i],
                    copied_handles(world@.table[drawn_entities(world@, kind)[i]], kind),
                ),
                #[trigger] inputs@[i],
            ),
{
    let entities = entities_drawn(world, kind);
    proof {
        law_every_holder_is_drawn_once(world, kind);
    }
    let mut inputs: Vec<InstancedInput> = Vec::new();
    let count: usize = entities.len();
    for i in 0..count
        invariant
            world.wf(),
            kind == Drawn::Instanced || kind == Drawn::Vegetation,
            count == entities@.len(),
            entities@ == drawn_entities(world@, kind),
            forall|e: Entity| #[trigger]
                entities@.contains(e) ==> world@.alive(e) && kind.holds(world@.table[e]),
            forall|entity: Entity, handles: RenderHandles| look.requires((entity, handles)),
            inputs@.len() == i,
            forall|k: int|
                0 <= k < i ==> look.ensures(
                    (entities@[k], copied_handles(world@.table[entities@[k]], kind)),
                    #[trigger] inputs@[k],
                ),
    {
        assert(entities@.contains(entities@[i as int]));
        match world.get(entities[i]) {
            Some(components) => {
                let handles: Option<RenderHandles> = match kind {
                    Drawn::Vegetation => components.vegetation_renderer,
                    _ => components.instanced_mesh_renderer,
                };
                match handles {
                    Some(handles) => {
                        inputs.push(look(entities[i], handles));
                    },
                    None => {},
                }
            },
            None => {},
        }
    }
    inputs
}

/// Whether the sprite is that of the entity, as deep as the host says.
pub open spec fn is_sprite_of<F: Fn(Vec3) -> Scalar>(
    input: SpriteInput,
    entity: Entity,
    components: Components,
    depth: &F,
) -> bool {
    &&& input.entity == entity
    &&& input.z_order == components.sprite->0.z_order
    &&& depth.ensures(((components.global_transform->0).0.translation,), input.depth)
}

/// The sprites of a frame: one for each entity that is drawn as one.
pub fn sprite_inputs<F: Fn(Vec3) -> Scalar>(world: &SceneWorld, depth: &F) -> (inputs: Vec<
    SpriteInput,
>)
    requires
        world.wf(),
        forall|position: Vec3| depth.requires((position,)),
    ensures
        inputs@.len() == drawn_entities(world@, Drawn::Sprite).len(),
        forall|i: int|
            0 <= i < inputs@.len() ==> is_sprite_of(
                #[trigger] inputs@[i],
                drawn_entities(world@, Drawn::Sprite)[i],
                world@.table[drawn_entities(world@, Drawn::Sprite)[i]],
                depth,
            ),
{
    let entities = entities_drawn(world, Drawn::Sprite);
    proof {
        law_every_holder_is_drawn_once(world, Drawn::Sprite);
    }
    let mut inputs: Vec<SpriteInput> = Vec::new();
    let count: usize = entities.len();
    for i in 0..count
        invariant
            world.wf(),
            count == entities@.len(),
            entities@ == drawn_entities(world@, Drawn::Sprite),
            forall|e: Entity| #[trigger]
                entities@.contains(e) ==> world@.alive(e) && Drawn::Sprite.holds(world@.table[e]),
            forall|position: Vec3| depth.requires((position,)),
            inputs@.len() == i,
            forall|k: int|
                0 <= k < i ==> is_sprite_of(
                    #[trigger] inputs@[k],
                    entities@[k],
                    world@.table[entities@[k]],
                    depth,
                ),
    {
        assert(entities@.contains(entities@[i as int]));
        match world.get(entities[i]) {
            Some(components) => match (components.global_transform, components.sprite) {
                (Some(place), Some(sprite)) => {
                    let far = depth(place.0.translation);
                    inputs.push(
                        SpriteInput { z_order: sprite.z_order, depth: far, entity: entities[i] },
                    );
                },
                _ => {},
            },
            None => {},
        }
    }
    inputs
}

/// Whether the instances of all can be counted.
fn is_countable(inputs: &[InstancedInput]) -> (answer: bool)
    ensures
        answer == (instance_total(inputs@) <= u32::MAX),
{
    let mut total: u64 = 0;
    proof {
        assert(inputs@.take(0) =~= Seq::empty());
        assert(inputs@.take(inputs@.len() as int) =~= inputs@);
    }
    for i in 0..inputs.len()
        invariant
            total == instance_total(inputs@.take(i as int)),
            total <= u32::MAX,
    {
        proof {
            assert(inputs@.take(i + 1).drop_last() =~= inputs@.take(i as int));
            lemma_instance_total_grows(inputs@, i + 1);
        }
        let input = &inputs[i];
        if input.mesh_registered && input.material_registered {
            let more: usize = input.in_view.len();
            if more > 0xffff_ffff || total + more as u64 > 0xffff_ffff {
                return false;
            }
            total = total + more as u64;
        }
    }
    true
}

/// What takes part in a frame, each list in the order of its entities.
pub struct FrameInputs {
    /// The meshes.
    pub meshes: Vec<MeshInput>,
    /// The skinned meshes.
    pub skinned: Vec<SkinnedInput>,
    /// The copies.
    pub instanced: Vec<InstancedInput>,
    /// The plants; none without a way to draw them.
    pub vegetation: Option<Vec<InstancedInput>>,
    /// The sprites; none without a way to draw them.
    pub sprites: Option<Vec<SpriteInput>>,
}

impl FrameInputs {
    /// The plants that are drawn.
    pub open spec fn plants(&self) -> Seq<InstancedInput> {
        match self.vegetation {
            Some(plants) => plants@,
            None => Seq::empty(),
        }
    }

    /// The sprites that are drawn.
    pub open spec fn images(&self) -> Seq<SpriteInput> {
        match self.sprites {
            Some(sprites) => sprites@,
            None => Seq::empty(),
        }
    }

    /// Whether the lists are those of the world: one item for each entity that is drawn
    /// in the way, as the host sees it.
    pub open spec fn shows<
        M: Fn(Transform, RenderHandles) -> MeshLook,
        S: Fn(RenderHandles) -> SkinnedInput,
        I: Fn(Entity, RenderHandles) -> InstancedInput,
        D: Fn(Vec3) -> Scalar,
    >(&self, world: WorldView, mesh: &M, skin: &S, copies: &I, depth: &D) -> bool {
        let meshes = drawn_entities(world, Drawn::Mesh);
        let skinned = drawn_entities(world, Drawn::Skinned);
        let instanced = drawn_entities(world, Drawn::Instanced);
        &&& self.meshes@.len() == meshes.len()
        &&& forall|i: int|
            0 <= i < meshes.len() ==> is_mesh_of(
                #[trigger] self.meshes@[i],
                world.table[meshes[i]],
                mesh,
            )
        &&& self.skinned@.len() == skinned.len()
        &&& forall|i: int|
            0 <= i < skinned.len() ==> skin.ensures(
                (world.table[skinned[i]].skinned_mesh_renderer->0,),
                #[trigger] self.skinned@[i],
            )
        &&& self.instanced@.len() == instanced.len()
        &&& forall|i: int|
            0 <= i < instanced.len() ==> copies.ensures(
                (instanced[i], copied_handles(world.table[instanced[i]], Drawn::Instanced)),
                #[trigger] self.instanced@[i],
            )
        &&& self.vegetation matches Some(plants) ==> {
            let planted = drawn_entities(world, Drawn::Vegetation);
            &&& plants@.len() == planted.len()
            &&& forall|i: int|
                0 <= i < planted.len() ==> copies.ensures(
                    (planted[i], copied_handles(world.table[planted[i]], Drawn::Vegetation)),
                    #[trigger] plants@[i],
                )
        }
        &&& self.sprites matches Some(images) ==> {
            let shown = drawn_entities(world, Drawn::Sprite);
            &&& images@.len() == shown.len()
            &&& forall|i: int|
                0 <= i < shown.len() ==> is_sprite_of(
                    #[trigger] images@[i],
                    shown[i],
                    world.table[shown[i]],
                    depth,
                )
        }
    }
}

/// What takes part in a frame, and how it is drawn.
pub struct Frame {
    /// What takes part.
    pub inputs: FrameInputs,
    /// How it is drawn, unless there are more instances than can be counted.
    pub plan: Option<FramePlan>,
}

/// Recomputes the world-space transforms, finds what takes part in the frame, and plans
/// how it is drawn. Plants and sprites take part only with a way to draw them. `compose`
/// composes a parent's world-space transform with a transform relative to it; the other
/// functions say how the host sees a mesh, a skinned mesh, the copies or plants of an
/// entity, and how deep in the view a place is.
pub fn extract_frame<
    C: Fn(Transform, Transform) -> Transform,
    M: Fn(Transform, RenderHandles) -> MeshLook,
    S: Fn(RenderHandles) -> SkinnedInput,
    I: Fn(Entity, RenderHandles) -> InstancedInput,
    D: Fn(Vec3) -> Scalar,
>(
    world: &mut SceneWorld,
    with_vegetation: bool,
    with_sprites: bool,
    compose: &C,
    mesh: &M,
    skin: &S,
    copies: &I,
    depth: &D,
) -> (frame: Frame)
    requires
        old(world).wf(),
        acyclic(old(world)@.parents),
        forall|a: Transform, b: Transform| compose.requires((a, b)),
        forall|place: Transform, handles: RenderHandles| mesh.requires((place, handles)),
        forall|handles: RenderHandles| skin.requires((handles,)),
        forall|entity: Entity, handles: RenderHandles| copies.requires((entity, handles)),
        forall|position: Vec3| depth.requires((position,)),
    ensures
        final(world).wf(),
        exists|globals: Map<Entity, Transform>| #[trigger]
            propagated(old(world)@, *compose, globals) && final(world)@ == with_globals(
                old(world)@,
                globals,
            ),
        frame.inputs.shows(final(world)@, mesh, skin, copies, depth),
        frame.inputs.vegetation is Some <==> with_vegetation,
        frame.inputs.sprites is Some <==> with_sprites,
        frame.plan is Some <==> instance_total(frame.inputs.instanced@) <= u32::MAX
            && instance_total(frame.inputs.plants()) <= u32::MAX,
        frame.plan matches Some(plan) ==> {
            &&& plan.lists(
                frame.inputs.meshes@,
                frame.inputs.skinned@,
                frame.inputs.instanced@,
                frame.inputs.plants(),
                frame.inputs.images(),
            )
            &&& plan.counts(frame.inputs.instanced@, frame.inputs.plants())
        },
{
    propagate_transforms(world, compose);
    proof {
        world.lemma_consistent();
        law_every_holder_is_drawn_once(world, Drawn::Mesh);
        law_every_holder_is_drawn_once(world, Drawn::Skinned);
        law_every_holder_is_drawn_once(world, Drawn::Sprite);
    }
    let inputs = FrameInputs {
        meshes: mesh_inputs(world, mesh),
        skinned: skinned_inputs(world, skin),
        instanced: instanced_inputs(world, Drawn::Instanced, copies),
        vegetation: if with_vegetation {
            Some(instanced_inputs(world, Drawn::Vegetation, copies))
        } else {
            None
        },
        sprites: if with_sprites {
            Some(sprite_inputs(world, depth))
        } else {
            None
        },
    };
    let plants: Option<&[InstancedInput]> = match &inputs.vegetation {
        Some(plants) => Some(plants.as_slice()),
        None => None,
    };
    let images: Option<&[SpriteInput]> = match &inputs.sprites {
        Some(images) => Some(images.as_slice()),
        None => None,
    };
    let countable: bool = is_countable(&inputs.instanced) && match plants {
        Some(plants) => is_countable(plants),
        None => true,
    };
    let plan = if countable {
        Some(plan_frame(&inputs.meshes, &inputs.skinned, &inputs.instanced, plants, images))
    } else {
        None
    };
    Frame { inputs, plan }
}

/// Every entity that can be drawn takes part in the frame, at a place in the list of its
/// kind that is its own: with a place in the world and a renderer it is among the meshes,
/// with the handles of that renderer and with what the host says of them; with a skeleton
/// likewise; copies and plants need no place; a sprite keeps its layer. The places are
/// those of the entities among all that are drawn in that way.
pub proof fn law_what_can_be_drawn_takes_part<
    M: Fn(Transform, RenderHandles) -> MeshLook,
    S: Fn(RenderHandles) -> SkinnedInput,
    I: Fn(Entity, RenderHandles) -> InstancedInput,
    D: Fn(Vec3) -> Scalar,
>(
    inputs: &FrameInputs,
    world: &SceneWorld,
    mesh: &M,
    skin: &S,
    copies: &I,
    depth: &D,
    entity: Entity,
) -> (at: (int, int, int, int, int))
    requires
        world.wf(),
        inputs.shows(world@, mesh, skin, copies, depth),
        world@.alive(entity),
    ensures
        ({
            let own = world@.table[entity];
            let placed = own.global_transform is Some;
            &&& placed && own.mesh_renderer is Some ==> {
                let input = inputs.meshes@[at.0];
                &&& 0 <= at.0 < inputs.meshes@.len()
                &&& input.mesh == own.mesh_renderer->0.mesh
                &&& input.material == own.mesh_renderer->0.material
                &&& mesh.ensures(
                    ((own.global_transform->0).0, own.mesh_renderer->0),
                    (MeshLook {
                        mesh_registered: input.mesh_registered,
                        material_registered: input.material_registered,
                        visible: input.visible,
                        transparent: input.transparent,
                        depth: input.depth,
                    }),
                )
            }
            &&& placed && own.skinned_mesh_renderer is Some ==> {
                &&& 0 <= at.1 < inputs.skinned@.len()
                &&& skin.ensures((own.skinned_mesh_renderer->0,), inputs.skinned@[at.1])
            }
            &&& own.instanced_mesh_renderer is Some ==> {
                &&& 0 <= at.2 < inputs.instanced@.len()
                &&& copies.ensures(
                    (entity, own.instanced_mesh_renderer->0),
                    inputs.instanced@[at.2],
                )
            }
            &&& own.vegetation_renderer is Some && inputs.vegetation is Some ==> {
                &&& 0 <= at.3 < (inputs.vegetation->0)@.len()
                &&& copies.ensures(
                    (entity, own.vegetation_renderer->0),
                    (inputs.vegetation->0)@[at.3],
                )
            }
            &&& placed && own.sprite is Some && inputs.sprites is Some ==> {
                let input = (inputs.sprites->0)@[at.4];
                &&& 0 <= at.4 < (inputs.sprites->0)@.len()
                &&& input.entity == entity
                &&& input.z_order == own.sprite->0.z_order
                &&& depth.ensures(((own.global_transform->0).0.translation,), input.depth)
            }
        }),
{
    law_every_holder_is_drawn_once(world, Drawn::Mesh);
    law_every_holder_is_drawn_once(world, Drawn::Skinned);
    law_every_holder_is_drawn_once(world, Drawn::Instanced);
    law_every_holder_is_drawn_once(world, Drawn::Vegetation);
    law_every_holder_is_drawn_once(world, Drawn::Sprite);
    let meshes = drawn_entities(world@, Drawn::Mesh);
    let skinned = drawn_entities(world@, Drawn::Skinned);
    let instanced = drawn_entities(world@, Drawn::Instanced);
    let planted = drawn_entities(world@, Drawn::Vegetation);
    let shown = drawn_entities(world@, Drawn::Sprite);
    if meshes.contains(entity) {
        let i = meshes.index_of(entity);
        assert(is_mesh_of(inputs.meshes@[i], world@.table[meshes[i]], mesh));
    }
    if skinned.contains(entity) {
        let i = skinned.index_of(entity);
        assert(skinned[i] == entity);
        assert(inputs.skinned@[i] == inputs.skinned@[i]);
    }
    if instanced.contains(entity) {
        let i = instanced.index_of(entity);
        assert(instanced[i] == entity);
        assert(inputs.instanced@[i] == inputs.instanced@[i]);
    }
    if planted.contains(entity) && inputs.vegetation is Some {
        let i = planted.index_of(entity);
        assert(planted[i] == entity);
        assert((inputs.vegetation->0)@[i] == (inputs.vegetation->0)@[i]);
    }
    if shown.contains(entity) && inputs.sprites is Some {
        let i = shown.index_of(entity);
        assert(is_sprite_of((inputs.sprites->0)@[i], shown[i], world@.table[shown[i]], depth));
    }
    (
        meshes.index_of(entity),
        skinned.index_of(entity),
        instanced.index_of(entity),
        planted.index_of(entity),
        shown.index_of(entity),
    )
}

/// Nothing else takes part in a frame: every mesh of it is that of an entity of the world
/// with a place and a renderer, and the meshes stand in the order of the entities; so with
/// skeletons, copies, plants and sprites.
pub proof fn law_nothing_else_takes_part(world: &SceneWorld, kind: Drawn, i: int) -> (e: Entity)
    requires
        world.wf(),
        0 <= i < drawn_entities(world@, kind).len(),
    ensures
        e == drawn_entities(world@, kind)[i],
        world@.order.contains(e),
        ({
            let own = world@.table[e];
            &&& kind == Drawn::Mesh ==> own.global_transform is Some && own.mesh_renderer is Some
            &&& kind == Drawn::Skinned ==> own.global_transform is Some
                && own.skinned_mesh_renderer is Some
            &&& kind == Drawn::Instanced ==> own.instanced_mesh_renderer is Some
            &&& kind == Drawn::Vegetation ==> own.vegetation_renderer is Some
            &&& kind == Drawn::Sprite ==> own.global_transform is Some && own.sprite is Some
        }),
        i > 0 ==> world@.order.index_of(drawn_entities(world@, kind)[i - 1])
            < world@.order.index_of(e),
{
    law_every_holder_is_drawn_once(world, kind);
    world.lemma_consistent();
    let drawn = drawn_entities(world@, kind);
    assert(drawn.contains(drawn[i]));
    if i > 0 {
        lemma_filter_keeps_order(world@.order, |e: Entity| kind.holds(world@.table[e]), i - 1, i);
    }
    drawn[i]
}

proof fn lemma_filter_keeps_order(
    items: Seq<Entity>,
    keep: spec_fn(Entity) -> bool,
    i: int,
    j: int,
)
    requires
        items.no_duplicates(),
        0 <= i < j < items.filter(keep).len(),
    ensures
        items.contains(items.filter(keep)[i]),
        items.contains(items.filter(keep)[j]),
        items.index_of(items.filter(keep)[i]) < items.index_of(items.filter(keep)[j]),
    decreases items.len(),
{
    reveal(Seq::filter);
    let rest = items.drop_last();
    let kept = rest.filter(keep);
    let all = items.filter(keep);
    lemma_filter(rest, keep);
    lemma_filter(items, keep);
    assert(all.contains(all[i]) && all.contains(all[j]));
    if j < kept.len() {
        lemma_filter_keeps_order(rest, keep, i, j);
        lemma_index_in_front(items, all[i]);
        lemma_index_in_front(items, all[j]);
    } else {
        assert(kept.contains(kept[i]));
        lemma_index_in_front(items, all[i]);
        assert(all[j] == items.last());
        assert(items[items.index_of(all[j])] == items[items.len() - 1]);
    }
}

proof fn lemma_index_in_front(items: Seq<Entity>, item: Entity)
    requires
        items.no_duplicates(),
        items.len() > 0,
        items.drop_last().contains(item),
    ensures
        items.contains(item),
        items.index_of(item) == items.drop_last().index_of(item),
{
    let k = items.drop_last().index_of(item);
    assert(items[k] == item);
    assert(items[items.index_of(item)] == items[k]);
}

} // verus!
