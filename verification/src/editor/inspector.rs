//! The inspector: the component kinds that it knows, and the edits it makes.

use vstd::prelude::*;

use crate::ecs::components::{
    identity, no_components, white, AssetSource, BodyKind, Camera, ColliderShape, Components,
    Disabled, Lock, Name, SceneAudioEmitter, SceneCollider, Script, Sprite, Static, Transform,
    UvRect, Vec2, Vec3,
};
use crate::ecs::entities::Entity;
use crate::ecs::scalar::{one, zero, Scalar};
use crate::ecs::world::{SceneWorld, WorldView};
use crate::editor::assets::{kind_of_path, AssetKind};
use crate::paths::{absolute, climbs, components_of, extension, extension_of, is_absolute, up};
use crate::text::{decimal, decimal_text, join2, join3, same};

verus! {

/// Whether a path may be used as a script reference: relative to the project, not
/// climbing out of it, and naming a Rust file.
pub open spec fn script_path(path: Seq<char>) -> bool {
    &&& !absolute(path)
    &&& !components_of(path).contains(up())
    &&& extension_of(path) == Some("rs"@)
}

/// Whether the path may be used as a script reference.
pub fn valid_script_path(path: &str) -> (answer: bool)
    ensures
        answer == script_path(path@),
{
    !is_absolute(path) && !climbs(path) && match extension(path) {
        Some(extension) => same(&extension, "rs"),
        None => false,
    }
}

/// Whether an asset of the kind may go into a slot that expects the other.
pub fn accepts_asset_kind(kind: AssetKind, expected: AssetKind) -> (answer: bool)
    ensures
        answer == (kind == expected && kind.referenceable()),
{
    kind == expected && kind.is_referenceable()
}

/// Whether a file dropped on a slot is taken.
pub fn accepts_drop(path: &str, expected: AssetKind) -> (answer: bool)
    ensures
        answer == (kind_of_path(path@) == expected && expected.referenceable()),
{
    accepts_asset_kind(AssetKind::from_path(path), expected)
}

/// The texts of three numbers, between brackets.
pub open spec fn triple_text(x: Seq<char>, y: Seq<char>, z: Seq<char>) -> Seq<char> {
    "Cuboid (half-extents ["@ + x + ", "@ + (y + ", "@ + z) + "])"@
}

/// The texts of a height and a radius.
pub open spec fn round_text(lead: Seq<char>, height: Seq<char>, radius: Seq<char>) -> Seq<char> {
    lead + height + ", radius "@ + radius + ")"@
}

/// Whether `text` describes the shape, where `number` writes the numbers.
pub open spec fn describes<F: Fn(Scalar) -> String>(
    text: Seq<char>,
    shape: ColliderShape,
    number: &F,
) -> bool {
    match shape {
        ColliderShape::Ball { radius } => exists|r: String| #[trigger]
            number.ensures((radius,), r) && text == "Ball (radius "@ + r@ + ")"@,
        ColliderShape::Cuboid { half_extents } => exists|x: String, y: String, z: String|
            {
                &&& #[trigger] number.ensures((half_extents.x,), x)
                &&& #[trigger] number.ensures((half_extents.y,), y)
                &&& #[trigger] number.ensures((half_extents.z,), z)
                &&& text == triple_text(x@, y@, z@)
            },
        ColliderShape::Cylinder { half_height, radius } => exists|h: String, r: String|
            {
                &&& #[trigger] number.ensures((half_height,), h)
                &&& #[trigger] number.ensures((radius,), r)
                &&& text == round_text("Cylinder (half-height "@, h@, r@)
            },
        ColliderShape::Capsule { half_height, radius } => exists|h: String, r: String|
            {
                &&& #[trigger] number.ensures((half_height,), h)
                &&& #[trigger] number.ensures((radius,), r)
                &&& text == round_text("Capsule (half-height "@, h@, r@)
            },
        ColliderShape::TriMesh { .. } => text == "Triangle mesh"@,
    }
}

/// One line on the shape. `number` writes a number.
pub fn collider_shape_summary<F: Fn(Scalar) -> String>(
    shape: &ColliderShape,
    number: &F,
) -> (text: String)
    requires
        forall|x: Scalar| number.requires((x,)),
    ensures
        describes(text@, *shape, number),
{
    match shape {
        ColliderShape::Ball { radius } => {
            let r = number(*radius);
            join3("Ball (radius ", &r, ")")
        },
        ColliderShape::Cuboid { half_extents } => {
            let x = number(half_extents.x);
            let y = number(half_extents.y);
            let z = number(half_extents.z);
            let head = join3("Cuboid (half-extents [", &x, ", ");
            let tail = join3(&y, ", ", &z);
            let text = join3(&head, &tail, "])");
            assert(text@ == triple_text(x@, y@, z@));
            text
        },
        ColliderShape::Cylinder { half_height, radius } => {
            let h = number(*half_height);
            let r = number(*radius);
            let head = join3("Cylinder (half-height ", &h, ", radius ");
            let text = join3(&head, &r, ")");
            assert(text@ == round_text("Cylinder (half-height "@, h@, r@));
            text
        },
        ColliderShape::Capsule { half_height, radius } => {
            let h = number(*half_height);
            let r = number(*radius);
            let head = join3("Capsule (half-height ", &h, ", radius ");
            let text = join3(&head, &r, ")");
            assert(text@ == round_text("Capsule (half-height "@, h@, r@));
            text
        },
        ColliderShape::TriMesh { .. } => "Triangle mesh".to_owned(),
    }
}

/// The world with the entity's components replaced; the world itself where the
/// entity is not alive.
pub open spec fn edited(world: WorldView, entity: Entity, components: Components) -> WorldView {
    if world.alive(entity) {
        world.updated(entity, components)
    } else {
        world
    }
}

/// The entity's name, if it has one.
pub fn name_of(world: &SceneWorld, entity: Entity) -> (name: Option<String>)
    requires
        world.wf(),
    ensures
        match name {
            Some(text) => world@.alive(entity) && (world@.table[entity].name matches Some(label)
                && label.0@ == text@),
            None => !world@.alive(entity) || world@.table[entity].name is None,
        },
{
    match world.get(entity) {
        Some(components) => match &components.name {
            Some(name) => Some(name.text()),
            None => None,
        },
        None => None,
    }
}

/// Sets the entity's name, adding one if it had none. Nothing happens if the
/// entity is not alive.
pub fn set_name(world: &mut SceneWorld, entity: Entity, name: &str)
    requires
        old(world).wf(),
    ensures
        final(world).wf(),
        ({
            let label = final(world)@.table[entity].name;
            &&& old(world)@.alive(entity) ==> (label matches Some(label) && label.0@ == name@)
            &&& final(world)@ == edited(
                old(world)@,
                entity,
                (Components { name: label, ..old(world)@.table[entity] }),
            )
        }),
{
    match world.get(entity) {
        Some(components) => {
            let mut components = components.clone();
            components.name = Some(Name::new(name));
            world.set(entity, components);
        },
        None => {},
    }
}

/// The entity's transform, if it has one.
pub fn transform_of(world: &SceneWorld, entity: Entity) -> (transform: Option<Transform>)
    requires
        world.wf(),
    ensures
        transform == (if world@.alive(entity) {
            world@.table[entity].transform
        } else {
            None
        }),
{
    match world.get(entity) {
        Some(components) => components.transform,
        None => None,
    }
}

/// Sets the entity's transform, adding one if it had none. Nothing happens if the
/// entity is not alive.
pub fn set_transform(world: &mut SceneWorld, entity: Entity, transform: Transform)
    requires
        old(world).wf(),
    ensures
        final(world).wf(),
        final(world)@ == edited(
            old(world)@,
            entity,
            (Components { transform: Some(transform), ..old(world)@.table[entity] }),
        ),
{
    match world.get(entity) {
        Some(components) => {
            let mut components = components.clone();
            components.transform = Some(transform);
            world.set(entity, components);
        },
        None => {},
    }
}

/// A kind of component that the inspector can show, add and remove.
#[derive(Debug, Clone, Copy, PartialEq, Eq, Structural)]
pub enum ComponentKind {
    /// The transform.
    Transform,
    /// The camera.
    Camera,
    /// The sound source.
    AudioEmitter,
    /// The collision shape.
    Collider,
    /// The sprite.
    Sprite,
    /// The asset file it was created from.
    AssetSource,
    /// The script.
    Script,
}

/// All component kinds, in the order of their sections.
pub open spec fn registry_order() -> Seq<ComponentKind> {
    seq![
        ComponentKind::Transform,
        ComponentKind::Camera,
        ComponentKind::AudioEmitter,
        ComponentKind::Collider,
        ComponentKind::Sprite,
        ComponentKind::AssetSource,
        ComponentKind::Script,
    ]
}

/// All component kinds, in the order of their sections.
pub fn registry() -> (kinds: Vec<ComponentKind>)
    ensures
        kinds@ == registry_order(),
{
    let kinds: Vec<ComponentKind> = vec![
        ComponentKind::Transform,
        ComponentKind::Camera,
        ComponentKind::AudioEmitter,
        ComponentKind::Collider,
        ComponentKind::Sprite,
        ComponentKind::AssetSource,
        ComponentKind::Script,
    ];
    assert(kinds@ =~= registry_order());
    kinds
}

impl ComponentKind {
    /// The heading of the section.
    pub open spec fn heading(self) -> Seq<char> {
        match self {
            ComponentKind::Transform => "Transform"@,
            ComponentKind::Camera => "Camera"@,
            ComponentKind::AudioEmitter => "Audio Emitter"@,
            ComponentKind::Collider => "Collider"@,
            ComponentKind::Sprite => "Sprite"@,
            ComponentKind::AssetSource => "Asset Source"@,
            ComponentKind::Script => "Script"@,
        }
    }

    /// The heading of the section, and the label in the menu that adds one.
    pub fn name(self) -> (name: &'static str)
        ensures
            name@ == self.heading(),
    {
        match self {
            ComponentKind::Transform => "Transform",
            ComponentKind::Camera => "Camera",
            ComponentKind::AudioEmitter => "Audio Emitter",
            ComponentKind::Collider => "Collider",
            ComponentKind::Sprite => "Sprite",
            ComponentKind::AssetSource => "Asset Source",
            ComponentKind::Script => "Script",
        }
    }

    /// The identifier of the Rust type.
    pub open spec fn identifier(self) -> Seq<char> {
        match self {
            ComponentKind::Transform => "Transform"@,
            ComponentKind::Camera => "Camera"@,
            ComponentKind::AudioEmitter => "SceneAudioEmitter"@,
            ComponentKind::Collider => "SceneCollider"@,
            ComponentKind::Sprite => "Sprite"@,
            ComponentKind::AssetSource => "AssetSource"@,
            ComponentKind::Script => "Script"@,
        }
    }

    /// The identifier of the Rust type, which the button that opens its
    /// declaration asks for.
    pub fn rust_name(self) -> (name: &'static str)
        ensures
            name@ == self.identifier(),
    {
        match self {
            ComponentKind::Transform => "Transform",
            ComponentKind::Camera => "Camera",
            ComponentKind::AudioEmitter => "SceneAudioEmitter",
            ComponentKind::Collider => "SceneCollider",
            ComponentKind::Sprite => "Sprite",
            ComponentKind::AssetSource => "AssetSource",
            ComponentKind::Script => "Script",
        }
    }

    /// Whether the components hold one of this kind.
    pub open spec fn held_by(self, components: Components) -> bool {
        match self {
            ComponentKind::Transform => components.transform is Some,
            ComponentKind::Camera => components.camera is Some,
            ComponentKind::AudioEmitter => components.audio_emitter is Some,
            ComponentKind::Collider => components.collider is Some,
            ComponentKind::Sprite => components.sprite is Some,
            ComponentKind::AssetSource => components.asset_source is Some,
            ComponentKind::Script => components.script is Some,
        }
    }

    /// The components `base` with the part of this kind as in `from`.
    pub open spec fn taken_from(self, base: Components, from: Components) -> Components {
        match self {
            ComponentKind::Transform => Components { transform: from.transform, ..base },
            ComponentKind::Camera => Components { camera: from.camera, ..base },
            ComponentKind::AudioEmitter => Components {
                audio_emitter: from.audio_emitter,
                ..base
            },
            ComponentKind::Collider => Components { collider: from.collider, ..base },
            ComponentKind::Sprite => Components { sprite: from.sprite, ..base },
            ComponentKind::AssetSource => Components { asset_source: from.asset_source, ..base },
            ComponentKind::Script => Components { script: from.script, ..base },
        }
    }

    /// Whether the components hold one of this kind.
    pub fn is_held_by(self, components: &Components) -> (answer: bool)
        ensures
            answer == self.held_by(*components),
    {
        match self {
            ComponentKind::Transform => components.transform.is_some(),
            ComponentKind::Camera => components.camera.is_some(),
            ComponentKind::AudioEmitter => components.audio_emitter.is_some(),
            ComponentKind::Collider => components.collider.is_some(),
            ComponentKind::Sprite => components.sprite.is_some(),
            ComponentKind::AssetSource => components.asset_source.is_some(),
            ComponentKind::Script => components.script.is_some(),
        }
    }

    /// The components `base` with the part of this kind as in `from`.
    fn take_from(self, base: &Components, from: &Components) -> (components: Components)
        ensures
            components == self.taken_from(*base, *from),
    {
        let mut components = base.clone();
        let from = from.clone();
        match self {
            ComponentKind::Transform => {
                components.transform = from.transform;
            },
            ComponentKind::Camera => {
                components.camera = from.camera;
            },
            ComponentKind::AudioEmitter => {
                components.audio_emitter = from.audio_emitter;
            },
            ComponentKind::Collider => {
                components.collider = from.collider;
            },
            ComponentKind::Sprite => {
                components.sprite = from.sprite;
            },
            ComponentKind::AssetSource => {
                components.asset_source = from.asset_source;
            },
            ComponentKind::Script => {
                components.script = from.script;
            },
        }
        components
    }

    /// Whether the entity has a component of this kind.
    pub open spec fn on(self, world: WorldView, entity: Entity) -> bool {
        world.alive(entity) && self.held_by(world.table[entity])
    }

    /// Whether the entity has a component of this kind.
    pub fn present(self, world: &SceneWorld, entity: Entity) -> (answer: bool)
        requires
            world.wf(),
        ensures
            answer == self.on(world@, entity),
    {
        match world.get(entity) {
            Some(components) => self.is_held_by(components),
            None => false,
        }
    }

    /// Gives the entity the component of this kind that `defaults` holds. Nothing
    /// happens if the entity is not alive.
    pub fn insert_default(self, world: &mut SceneWorld, entity: Entity, defaults: &Components)
        requires
            old(world).wf(),
        ensures
            final(world).wf(),
            final(world)@ == edited(
                old(world)@,
                entity,
                self.taken_from(old(world)@.table[entity], *defaults),
            ),
    {
        match world.get(entity) {
            Some(components) => {
                let components = self.take_from(components, defaults);
                world.set(entity, components);
            },
            None => {},
        }
    }

    /// Takes the component of this kind from the entity. Nothing happens if the
    /// entity is not alive.
    pub fn remove(self, world: &mut SceneWorld, entity: Entity)
        requires
            old(world).wf(),
        ensures
            final(world).wf(),
            final(world)@ == edited(
                old(world)@,
                entity,
                self.taken_from(old(world)@.table[entity], no_components()),
            ),
    {
        match world.get(entity) {
            Some(components) => {
                let components = self.take_from(components, &Components::default());
                world.set(entity, components);
            },
            None => {},
        }
    }

    /// The world after the component of this kind was copied from one entity to
    /// another that has one too.
    pub open spec fn copied(self, world: WorldView, from: Entity, to: Entity) -> WorldView {
        if self.on(world, from) && self.on(world, to) {
            world.updated(to, self.taken_from(world.table[to], world.table[from]))
        } else {
            world
        }
    }

    /// Copies the component of this kind from one entity to another, if both have
    /// one.
    pub fn copy_to(self, world: &mut SceneWorld, from: Entity, to: Entity)
        requires
            old(world).wf(),
        ensures
            final(world).wf(),
            final(world)@ == self.copied(old(world)@, from, to),
    {
        if !self.present(world, from) || !self.present(world, to) {
            return;
        }
        match (world.get(from), world.get(to)) {
            (Some(source), Some(target)) => {
                let components = self.take_from(target, source);
                world.set(to, components);
            },
            _ => {},
        }
    }

    /// The world after the component was copied to the first `n` of the entities.
    pub open spec fn copied_to_all(
        self,
        world: WorldView,
        from: Entity,
        others: Seq<Entity>,
        n: nat,
    ) -> WorldView
        decreases n,
    {
        if n == 0 {
            world
        } else {
            self.copied(
                self.copied_to_all(world, from, others, (n - 1) as nat),
                from,
                others[n - 1],
            )
        }
    }
}

/// Sections have different headings.
pub proof fn law_headings_differ(a: ComponentKind, b: ComponentKind)
    requires
        a.heading() == b.heading(),
    ensures
        a == b,
{
    reveal_strlit("Transform");
    reveal_strlit("Camera");
    reveal_strlit("Audio Emitter");
    reveal_strlit("Collider");
    reveal_strlit("Sprite");
    reveal_strlit("Asset Source");
    reveal_strlit("Script");
    assert("Transform"@.len() == 9 && "Audio Emitter"@.len() == 13 && "Collider"@.len() == 8
        && "Asset Source"@.len() == 12);
    assert("Camera"@.len() == 6 && "Sprite"@.len() == 6 && "Script"@.len() == 6);
    assert("Camera"@[0] != "Sprite"@[0] && "Camera"@[0] != "Script"@[0]);
    assert("Sprite"@[1] != "Script"@[1]);
}

/// Every component kind stands in the registry.
pub proof fn law_registry_is_complete(kind: ComponentKind)
    ensures
        registry_order().contains(kind),
        registry_order().no_duplicates(),
{
    let kinds = registry_order();
    let place: int = match kind {
        ComponentKind::Transform => 0,
        ComponentKind::Camera => 1,
        ComponentKind::AudioEmitter => 2,
        ComponentKind::Collider => 3,
        ComponentKind::Sprite => 4,
        ComponentKind::AssetSource => 5,
        ComponentKind::Script => 6,
    };
    assert(kinds[place] == kind);
}

/// A component that is added is there, one that is removed is gone, and neither
/// touches a component of another kind.
pub proof fn law_adding_and_removing(
    kind: ComponentKind,
    other: ComponentKind,
    base: Components,
    defaults: Components,
)
    requires
        kind.held_by(defaults),
    ensures
        kind.held_by(kind.taken_from(base, defaults)),
        !kind.held_by(kind.taken_from(base, no_components())),
        other != kind ==> other.held_by(kind.taken_from(base, defaults)) == other.held_by(base),
        other != kind ==> other.held_by(kind.taken_from(base, no_components())) == other.held_by(
            base,
        ),
        kind.taken_from(kind.taken_from(base, defaults), base) == base,
{
}

/// The number one half.
pub const HALF_BITS: u32 = 0x3f00_0000;

/// The numbers of a box that is one unit across.
pub open spec fn half_extents() -> Vec3 {
    let half = Scalar { bits: HALF_BITS };
    Vec3 { x: half, y: half, z: half }
}

/// What a component looks like when it is added: at the origin, a unit box that
/// does not move, a unit square that shows the whole atlas, nothing referred to.
/// The camera and the sound source are the host's.
pub fn default_components(camera: Camera, emitter: SceneAudioEmitter) -> (defaults: Components)
    ensures
        defaults.transform == Some(identity()),
        defaults.camera == Some(camera),
        defaults.audio_emitter == Some(emitter),
        defaults.collider == Some(
            SceneCollider {
                shape: ColliderShape::Cuboid { half_extents: half_extents() },
                body: BodyKind::Fixed,
            },
        ),
        defaults.sprite == Some(
            Sprite {
                size: Vec2 { x: one(), y: one() },
                uv: UvRect {
                    min: Vec2 { x: zero(), y: zero() },
                    max: Vec2 { x: one(), y: one() },
                },
                color: white(),
                z_order: zero(),
            },
        ),
        defaults.asset_source matches Some(source) && source.path@.len() == 0 && source.id is None,
        defaults.script matches Some(script) && script.path@.len() == 0,
        forall|kind: ComponentKind| #[trigger] kind.held_by(defaults),
{
    let (o, i) = (Scalar::zero(), Scalar::one());
    let half = Scalar { bits: HALF_BITS };
    let square = Vec2 { x: i, y: i };
    Components {
        transform: Some(Transform::identity()),
        camera: Some(camera),
        audio_emitter: Some(emitter),
        collider: Some(
            SceneCollider {
                shape: ColliderShape::Cuboid { half_extents: Vec3 { x: half, y: half, z: half } },
                body: BodyKind::Fixed,
            },
        ),
        sprite: Some(Sprite::new(square, UvRect { min: Vec2 { x: o, y: o }, max: square })),
        asset_source: Some(AssetSource::default()),
        script: Some(Script::default()),
        ..Components::default()
    }
}

/// A marker on an entity.
#[derive(Debug, Clone, Copy, PartialEq, Eq, Structural)]
pub enum Marker {
    /// Not moving.
    Static,
    /// Disabled.
    Disabled,
    /// Locked.
    Locked,
}

impl Marker {
    /// The components with the marker on or off.
    pub open spec fn set_on(self, base: Components, present: bool) -> Components {
        match self {
            Marker::Static => Components {
                is_static: if present {
                    Some(Static)
                } else {
                    None
                },
                ..base
            },
            Marker::Disabled => Components {
                disabled: if present {
                    Some(Disabled)
                } else {
                    None
                },
                ..base
            },
            Marker::Locked => Components {
                lock: if present {
                    Some(Lock)
                } else {
                    None
                },
                ..base
            },
        }
    }

    /// Whether the components carry the marker.
    pub open spec fn on(self, components: Components) -> bool {
        match self {
            Marker::Static => components.is_static is Some,
            Marker::Disabled => components.disabled is Some,
            Marker::Locked => components.lock is Some,
        }
    }
}

/// Whether the entity carries the marker.
pub fn has_marker(world: &SceneWorld, entity: Entity, marker: Marker) -> (answer: bool)
    requires
        world.wf(),
    ensures
        answer == (world@.alive(entity) && marker.on(world@.table[entity])),
{
    match world.get(entity) {
        Some(components) => match marker {
            Marker::Static => components.is_static.is_some(),
            Marker::Disabled => components.disabled.is_some(),
            Marker::Locked => components.lock.is_some(),
        },
        None => false,
    }
}

/// Adds the marker to the entity, or removes it. Nothing happens if the entity is
/// not alive.
pub fn toggle_marker(world: &mut SceneWorld, entity: Entity, marker: Marker, present: bool)
    requires
        old(world).wf(),
    ensures
        final(world).wf(),
        final(world)@ == edited(
            old(world)@,
            entity,
            marker.set_on(old(world)@.table[entity], present),
        ),
{
    match world.get(entity) {
        Some(components) => {
            let mut components = components.clone();
            match marker {
                Marker::Static => {
                    components.is_static = if present {
                        Some(Static)
                    } else {
                        None
                    };
                },
                Marker::Disabled => {
                    components.disabled = if present {
                        Some(Disabled)
                    } else {
                        None
                    };
                },
                Marker::Locked => {
                    components.lock = if present {
                        Some(Lock)
                    } else {
                        None
                    };
                },
            }
            world.set(entity, components);
        },
        None => {},
    }
}

/// What the inspector shows.
#[derive(Debug, Clone, Copy, PartialEq, Eq, Structural)]
pub enum Shown {
    /// That nothing is selected.
    Nothing,
    /// That the selected entity is gone.
    Gone,
    /// The entity's sections.
    Sections {
        /// Whether an edit goes to every selected entity.
        apply_to_all: bool,
    },
}

/// What the inspector shows for a selection.
pub fn shown(
    world: &SceneWorld,
    selected: Option<Entity>,
    others: &[Entity],
    batch_edit: bool,
) -> (shown: Shown)
    requires
        world.wf(),
    ensures
        shown == (match selected {
            None => Shown::Nothing,
            Some(entity) => if world@.alive(entity) {
                Shown::Sections { apply_to_all: others@.len() > 0 && batch_edit }
            } else {
                Shown::Gone
            },
        }),
{
    match selected {
        None => Shown::Nothing,
        Some(entity) => if world.contains(entity) {
            Shown::Sections { apply_to_all: others.len() > 0 && batch_edit }
        } else {
            Shown::Gone
        },
    }
}

/// How many entities are selected, in words.
pub fn selection_notice(others: &[Entity]) -> (text: String)
    requires
        others@.len() < u64::MAX,
    ensures
        text@ == decimal_text(others@.len() + 1) + " entities selected"@,
{
    let count: u64 = others.len() as u64 + 1;
    join2(&decimal(count), " entities selected")
}

/// Those of the first `n` kinds that the entity has, or has not.
pub open spec fn kinds_on(world: WorldView, entity: Entity, present: bool, n: nat) -> Seq<
    ComponentKind,
>
    decreases n,
{
    if n == 0 {
        Seq::empty()
    } else {
        let rest = kinds_on(world, entity, present, (n - 1) as nat);
        let kind = registry_order()[n - 1];
        if kind.on(world, entity) == present {
            rest.push(kind)
        } else {
            rest
        }
    }
}

fn kinds_where(world: &SceneWorld, entity: Entity, present: bool) -> (kinds: Vec<ComponentKind>)
    requires
        world.wf(),
    ensures
        kinds@ == kinds_on(world@, entity, present, registry_order().len()),
{
    let all = registry();
    let mut kinds: Vec<ComponentKind> = Vec::new();
    for i in 0..all.len()
        invariant
            world.wf(),
            all@ == registry_order(),
            kinds@ == kinds_on(world@, entity, present, i as nat),
    {
        if all[i].present(world, entity) == present {
            kinds.push(all[i]);
        }
    }
    kinds
}

/// The sections of an entity: the kinds that it has, in order.
pub fn sections(world: &SceneWorld, entity: Entity) -> (kinds: Vec<ComponentKind>)
    requires
        world.wf(),
    ensures
        kinds@ == kinds_on(world@, entity, true, registry_order().len()),
{
    kinds_where(world, entity, true)
}

/// What can be added to an entity: the kinds that it does not have, in order.
pub fn addable(world: &SceneWorld, entity: Entity) -> (kinds: Vec<ComponentKind>)
    requires
        world.wf(),
    ensures
        kinds@ == kinds_on(world@, entity, false, registry_order().len()),
{
    kinds_where(world, entity, false)
}

proof fn lemma_kinds_on(world: WorldView, entity: Entity, present: bool, n: nat)
    requires
        n <= registry_order().len(),
    ensures
        forall|kind: ComponentKind| #[trigger]
            kinds_on(world, entity, present, n).contains(kind) <==> registry_order().take(
                n as int,
            ).contains(kind) && kind.on(world, entity) == present,
    decreases n,
{
    if n > 0 {
        lemma_kinds_on(world, entity, present, (n - 1) as nat);
        let rest = kinds_on(world, entity, present, (n - 1) as nat);
        let all = kinds_on(world, entity, present, n);
        let last = registry_order()[n - 1];
        let shorter = registry_order().take(n - 1);
        let longer = registry_order().take(n as int);
        assert(longer =~= shorter.push(last));
        assert forall|kind: ComponentKind| #[trigger] all.contains(kind) <==> longer.contains(kind)
            && kind.on(world, entity) == present by {
            assert(rest.contains(kind) <==> shorter.contains(kind) && kind.on(world, entity)
                == present);
            assert(shorter.push(last).contains(kind) <==> shorter.contains(kind) || kind == last)
                by {
                if shorter.contains(kind) {
                    let at = shorter.index_of(kind);
                    assert(shorter.push(last)[at] == kind);
                }
                assert(shorter.push(last)[n - 1] == last);
            }
            assert(rest.push(last).contains(kind) <==> rest.contains(kind) || kind == last) by {
                if rest.contains(kind) {
                    let at = rest.index_of(kind);
                    assert(rest.push(last)[at] == kind);
                }
                assert(rest.push(last)[rest.len() as int] == last);
            }
        }
    }
}

/// Every component kind is either shown as a section or offered to be added.
pub proof fn law_every_kind_is_shown_or_offered(
    world: WorldView,
    entity: Entity,
    kind: ComponentKind,
)
    ensures
        kinds_on(world, entity, true, registry_order().len()).contains(kind) <==> kind.on(
            world,
            entity,
        ),
        kinds_on(world, entity, false, registry_order().len()).contains(kind) <==> !kind.on(
            world,
            entity,
        ),
{
    lemma_kinds_on(world, entity, true, registry_order().len());
    lemma_kinds_on(world, entity, false, registry_order().len());
    law_registry_is_complete(kind);
    assert(registry_order().take(registry_order().len() as int) =~= registry_order());
}

/// The world after a section was drawn: the component removed where that was
/// asked, else an edit of it copied to the other selected entities.
pub open spec fn section_done(
    world: WorldView,
    kind: ComponentKind,
    entity: Entity,
    others: Seq<Entity>,
    changed: bool,
    remove: bool,
    apply_to_all: bool,
) -> WorldView {
    if remove {
        edited(world, entity, kind.taken_from(world.table[entity], no_components()))
    } else if changed && apply_to_all {
        kind.copied_to_all(world, entity, others, others.len())
    } else {
        world
    }
}

/// Ends a section: `changed` says that its editor changed the component, `remove`
/// that the button that removes it was clicked.
pub fn finish_section(
    world: &mut SceneWorld,
    kind: ComponentKind,
    entity: Entity,
    others: &[Entity],
    changed: bool,
    remove: bool,
    apply_to_all: bool,
)
    requires
        old(world).wf(),
    ensures
        final(world).wf(),
        final(world)@ == section_done(
            old(world)@,
            kind,
            entity,
            others@,
            changed,
            remove,
            apply_to_all,
        ),
{
    if remove {
        kind.remove(world, entity);
    } else if changed && apply_to_all {
        let ghost before = world@;
        for i in 0..others.len()
            invariant
                world.wf(),
                world@ == kind.copied_to_all(before, entity, others@, i as nat),
        {
            kind.copy_to(world, entity, others[i]);
        }
    }
}

/// What was typed or ticked in the identity header in one frame.
#[derive(Debug)]
pub struct IdentityEdits {
    /// A new name.
    pub name: Option<String>,
    /// A click on the static marker's box.
    pub is_static: Option<bool>,
    /// A click on the disabled marker's box.
    pub disabled: Option<bool>,
    /// A click on the lock marker's box.
    pub locked: Option<bool>,
}

/// The components with the marker set where a click says so.
pub open spec fn marked(components: Components, marker: Marker, click: Option<bool>) -> Components {
    match click {
        Some(present) => marker.set_on(components, present),
        None => components,
    }
}

/// The components after the identity header was edited, but for the name.
pub open spec fn markers_edited(components: Components, edits: IdentityEdits) -> Components {
    marked(
        marked(
            marked(components, Marker::Static, edits.is_static),
            Marker::Disabled,
            edits.disabled,
        ),
        Marker::Locked,
        edits.locked,
    )
}

/// Applies what was edited in the identity header.
pub fn edit_identity(world: &mut SceneWorld, entity: Entity, edits: IdentityEdits)
    requires
        old(world).wf(),
    ensures
        final(world).wf(),
        ({
            let before = old(world)@.table[entity];
            let label = final(world)@.table[entity].name;
            &&& old(world)@.alive(entity) ==> match edits.name {
                Some(name) => label matches Some(label) && label.0@ == name@,
                None => label == before.name,
            }
            &&& final(world)@ == edited(
                old(world)@,
                entity,
                (Components { name: label, ..markers_edited(before, edits) }),
            )
        }),
{
    let ghost before = world@;
    match &edits.name {
        Some(name) => set_name(world, entity, name),
        None => {},
    }
    match edits.is_static {
        Some(present) => toggle_marker(world, entity, Marker::Static, present),
        None => {},
    }
    match edits.disabled {
        Some(present) => toggle_marker(world, entity, Marker::Disabled, present),
        None => {},
    }
    match edits.locked {
        Some(present) => toggle_marker(world, entity, Marker::Locked, present),
        None => {},
    }
    assert(before.alive(entity) ==> world@ =~= before.updated(
        entity,
        (Components {
            name: world@.table[entity].name,
            ..markers_edited(before.table[entity], edits)
        }),
    ));
}

/// Edits the reference to the asset file: `typed` is the path as typed in this
/// frame, `dropped` a file that was dropped on the slot. A changed path points the
/// reference elsewhere, so it loses its identifier.
pub fn edit_asset_source(
    world: &mut SceneWorld,
    entity: Entity,
    typed: Option<String>,
    dropped: Option<String>,
) -> (changed: bool)
    requires
        old(world).wf(),
    ensures
        final(world).wf(),
        changed == (ComponentKind::AssetSource.on(old(world)@, entity) && (typed is Some
            || dropped is Some)),
        !changed ==> final(world)@ == old(world)@,
        changed ==> ({
            let source = final(world)@.table[entity].asset_source;
            &&& source matches Some(source) && source.id is None && source.path@ == (
            match dropped {
                Some(path) => path@,
                None => typed->0@,
            })
            &&& final(world)@ == old(world)@.updated(
                entity,
                (Components { asset_source: source, ..old(world)@.table[entity] }),
            )
        }),
{
    match world.get(entity) {
        Some(components) => {
            if components.asset_source.is_none() {
                return false;
            }
            let path: String = match (dropped, typed) {
                (Some(path), _) => path,
                (None, Some(path)) => path,
                (None, None) => {
                    return false;
                },
            };
            let mut components = components.clone();
            components.asset_source = Some(AssetSource { path, id: None });
            world.set(entity, components);
            true
        },
        None => false,
    }
}

/// Whether the inspector warns about a script path: it is not empty and not
/// usable.
pub fn warns_of_script(path: &str) -> (answer: bool)
    ensures
        answer == (path@.len() > 0 && !script_path(path@)),
{
    !path.is_empty() && !valid_script_path(path)
}

/// Edits the script reference.
pub fn edit_script(world: &mut SceneWorld, entity: Entity, typed: Option<String>) -> (changed: bool)
    requires
        old(world).wf(),
    ensures
        final(world).wf(),
        changed == (ComponentKind::Script.on(old(world)@, entity) && typed is Some),
        !changed ==> final(world)@ == old(world)@,
        changed ==> final(world)@ == old(world)@.updated(
            entity,
            (Components {
                script: Some(Script { path: typed->0 }),
                ..old(world)@.table[entity]
            }),
        ),
{
    match (world.get(entity), typed) {
        (Some(components), Some(path)) => {
            if components.script.is_none() {
                return false;
            }
            let mut components = components.clone();
            components.script = Some(Script { path });
            world.set(entity, components);
            true
        },
        _ => false,
    }
}

/// What was edited of a sound source in one frame.
#[derive(Debug)]
pub struct EmitterEdits {
    /// A new sound.
    pub sound: Option<String>,
    /// A click on the autoplay box.
    pub autoplay: Option<bool>,
    /// A click on the loop box.
    pub looping: Option<bool>,
    /// A new gain.
    pub gain: Option<Scalar>,
    /// A new radius.
    pub radius: Option<Scalar>,
}

/// The value of an edit, or the value as it was.
pub open spec fn or_else<T>(edit: Option<T>, value: T) -> T {
    match edit {
        Some(new) => new,
        None => value,
    }
}

/// The greatest gain, encoded: four.
pub const GREATEST_GAIN_BITS: u32 = 0x4080_0000;

/// The greatest radius of a sound, encoded: one thousand.
pub const GREATEST_RADIUS_BITS: u32 = 0x447a_0000;

/// The smallest size of a collision shape, encoded: a thousandth.
pub const LEAST_SIZE_BITS: u32 = 0x3a83_126f;

/// The greatest size of a collision shape, encoded: ten thousand.
pub const GREATEST_SIZE_BITS: u32 = 0x461c_4000;

/// A number from its encoding.
pub open spec fn number(bits: u32) -> Scalar {
    Scalar { bits }
}

/// Whether a number lies between two others, given encoded.
pub open spec fn lies_between(low: u32, value: Scalar, high: u32) -> bool {
    number(low).at_most(value) && value.at_most(number(high))
}

/// The value of an edit moved into the range, or the value as it was.
pub open spec fn in_range_or(edit: Option<Scalar>, value: Scalar, low: u32, high: u32) -> Scalar {
    match edit {
        Some(new) => new.clamped(number(low), number(high)),
        None => value,
    }
}

/// The gain of a sound after an edit.
pub open spec fn gain_or(edit: Option<Scalar>, value: Scalar) -> Scalar {
    in_range_or(edit, value, 0, GREATEST_GAIN_BITS)
}

/// The radius of a sound after an edit.
pub open spec fn radius_or(edit: Option<Scalar>, value: Scalar) -> Scalar {
    in_range_or(edit, value, 0, GREATEST_RADIUS_BITS)
}

/// The size of a collision shape after an edit.
pub open spec fn size_or(edit: Option<Scalar>, value: Scalar) -> Scalar {
    in_range_or(edit, value, LEAST_SIZE_BITS, GREATEST_SIZE_BITS)
}

fn ranged(edit: Option<Scalar>, value: Scalar, low: u32, high: u32) -> (number: Scalar)
    ensures
        number == in_range_or(edit, value, low, high),
{
    match edit {
        Some(new) => new.clamp(&Scalar { bits: low }, &Scalar { bits: high }),
        None => value,
    }
}

/// A number that was entered is stored within the range of its field.
pub proof fn law_edited_numbers_are_in_range(edit: Scalar, value: Scalar)
    requires
        !edit.not_a_number(),
    ensures
        lies_between(0, gain_or(Some(edit), value), GREATEST_GAIN_BITS),
        lies_between(0, radius_or(Some(edit), value), GREATEST_RADIUS_BITS),
        lies_between(LEAST_SIZE_BITS, size_or(Some(edit), value), GREATEST_SIZE_BITS),
{
}

/// The sound source after an edit.
pub open spec fn emitter_edited(
    emitter: SceneAudioEmitter,
    edits: EmitterEdits,
) -> SceneAudioEmitter {
    SceneAudioEmitter {
        sound: or_else(edits.sound, emitter.sound),
        autoplay: or_else(edits.autoplay, emitter.autoplay),
        looping: or_else(edits.looping, emitter.looping),
        gain: gain_or(edits.gain, emitter.gain),
        radius: radius_or(edits.radius, emitter.radius),
    }
}

/// Edits the sound source. A new gain or radius is moved into the range of its field.
pub fn edit_emitter(world: &mut SceneWorld, entity: Entity, edits: EmitterEdits) -> (changed: bool)
    requires
        old(world).wf(),
    ensures
        final(world).wf(),
        changed == (ComponentKind::AudioEmitter.on(old(world)@, entity) && (edits.sound is Some
            || edits.autoplay is Some || edits.looping is Some || edits.gain is Some
            || edits.radius is Some)),
        !changed ==> final(world)@ == old(world)@,
        changed ==> final(world)@ == old(world)@.updated(
            entity,
            (Components {
                audio_emitter: Some(
                    emitter_edited(old(world)@.table[entity].audio_emitter->0, edits),
                ),
                ..old(world)@.table[entity]
            }),
        ),
{
    let any: bool = edits.sound.is_some() || edits.autoplay.is_some() || edits.looping.is_some()
        || edits.gain.is_some() || edits.radius.is_some();
    if !any {
        return false;
    }
    match world.get(entity) {
        Some(components) => {
            let mut components = components.clone();
            match components.audio_emitter {
                Some(emitter) => {
                    components.audio_emitter = Some(
                        SceneAudioEmitter {
                            sound: match edits.sound {
                                Some(sound) => sound,
                                None => emitter.sound,
                            },
                            autoplay: match edits.autoplay {
                                Some(autoplay) => autoplay,
                                None => emitter.autoplay,
                            },
                            looping: match edits.looping {
                                Some(looping) => looping,
                                None => emitter.looping,
                            },
                            gain: ranged(edits.gain, emitter.gain, 0, GREATEST_GAIN_BITS),
                            radius: ranged(
                                edits.radius,
                                emitter.radius,
                                0,
                                GREATEST_RADIUS_BITS,
                            ),
                        },
                    );
                    world.set(entity, components);
                    true
                },
                None => false,
            }
        },
        None => false,
    }
}

/// What was edited of a collision shape in one frame. A ball has one size, its
/// radius; a cylinder and a capsule have two, half their height and their radius;
/// a box has three; the triangles of a mesh have none.
#[derive(Debug, Clone, Copy)]
pub struct ColliderEdits {
    /// A new way of moving.
    pub body: Option<BodyKind>,
    /// A new first size.
    pub first: Option<Scalar>,
    /// A new second size.
    pub second: Option<Scalar>,
    /// A new third size.
    pub third: Option<Scalar>,
}

/// The number of sizes that a shape has.
pub open spec fn sizes(shape: ColliderShape) -> int {
    match shape {
        ColliderShape::Ball { .. } => 1,
        ColliderShape::Cuboid { .. } => 3,
        ColliderShape::Cylinder { .. } => 2,
        ColliderShape::Capsule { .. } => 2,
        ColliderShape::TriMesh { .. } => 0,
    }
}

/// The shape after an edit.
pub open spec fn shape_edited(shape: ColliderShape, edits: ColliderEdits) -> ColliderShape {
    match shape {
        ColliderShape::Ball { radius } => ColliderShape::Ball {
            radius: size_or(edits.first, radius),
        },
        ColliderShape::Cuboid { half_extents } => ColliderShape::Cuboid {
            half_extents: Vec3 {
                x: size_or(edits.first, half_extents.x),
                y: size_or(edits.second, half_extents.y),
                z: size_or(edits.third, half_extents.z),
            },
        },
        ColliderShape::Cylinder { half_height, radius } => ColliderShape::Cylinder {
            half_height: size_or(edits.first, half_height),
            radius: size_or(edits.second, radius),
        },
        ColliderShape::Capsule { half_height, radius } => ColliderShape::Capsule {
            half_height: size_or(edits.first, half_height),
            radius: size_or(edits.second, radius),
        },
        ColliderShape::TriMesh { mesh } => ColliderShape::TriMesh { mesh },
    }
}

fn edited_or(edit: Option<Scalar>, value: Scalar) -> (number: Scalar)
    ensures
        number == size_or(edit, value),
{
    ranged(edit, value, LEAST_SIZE_BITS, GREATEST_SIZE_BITS)
}

fn edit_shape(shape: ColliderShape, edits: ColliderEdits) -> (new: ColliderShape)
    ensures
        new == shape_edited(shape, edits),
{
    match shape {
        ColliderShape::Ball { radius } => ColliderShape::Ball {
            radius: edited_or(edits.first, radius),
        },
        ColliderShape::Cuboid { half_extents } => ColliderShape::Cuboid {
            half_extents: Vec3 {
                x: edited_or(edits.first, half_extents.x),
                y: edited_or(edits.second, half_extents.y),
                z: edited_or(edits.third, half_extents.z),
            },
        },
        ColliderShape::Cylinder { half_height, radius } => ColliderShape::Cylinder {
            half_height: edited_or(edits.first, half_height),
            radius: edited_or(edits.second, radius),
        },
        ColliderShape::Capsule { half_height, radius } => ColliderShape::Capsule {
            half_height: edited_or(edits.first, half_height),
            radius: edited_or(edits.second, radius),
        },
        ColliderShape::TriMesh { mesh } => ColliderShape::TriMesh { mesh },
    }
}

fn size_count(shape: &ColliderShape) -> (count: u8)
    ensures
        count == sizes(*shape),
{
    match shape {
        ColliderShape::Ball { .. } => 1,
        ColliderShape::Cuboid { .. } => 3,
        ColliderShape::Cylinder { .. } => 2,
        ColliderShape::Capsule { .. } => 2,
        ColliderShape::TriMesh { .. } => 0,
    }
}

/// Whether the edits touch a collider of the shape.
pub open spec fn touches(edits: ColliderEdits, shape: ColliderShape) -> bool {
    ||| edits.body is Some
    ||| edits.first is Some && sizes(shape) >= 1
    ||| edits.second is Some && sizes(shape) >= 2
    ||| edits.third is Some && sizes(shape) >= 3
}

/// Edits the collision shape. A new size is moved into the range of its field.
pub fn edit_collider(world: &mut SceneWorld, entity: Entity, edits: ColliderEdits) -> (changed:
    bool)
    requires
        old(world).wf(),
    ensures
        final(world).wf(),
        changed == (old(world)@.alive(entity) && (old(world)@.table[entity].collider matches Some(
            collider,
        ) && touches(edits, collider.shape))),
        !changed ==> final(world)@ == old(world)@,
        changed ==> ({
            let before = old(world)@.table[entity].collider->0;
            final(world)@ == old(world)@.updated(
                entity,
                (Components {
                    collider: Some(
                        SceneCollider {
                            shape: shape_edited(before.shape, edits),
                            body: or_else(edits.body, before.body),
                        },
                    ),
                    ..old(world)@.table[entity]
                }),
            )
        }),
{
    match world.get(entity) {
        Some(components) => {
            let mut components = components.clone();
            match components.collider {
                Some(collider) => {
                    let count: u8 = size_count(&collider.shape);
                    let any: bool = edits.body.is_some() || (edits.first.is_some() && count >= 1)
                        || (edits.second.is_some() && count >= 2) || (edits.third.is_some()
                        && count >= 3);
                    if !any {
                        return false;
                    }
                    components.collider = Some(
                        SceneCollider {
                            shape: edit_shape(collider.shape, edits),
                            body: match edits.body {
                                Some(body) => body,
                                None => collider.body,
                            },
                        },
                    );
                    world.set(entity, components);
                    true
                },
                None => false,
            }
        },
        None => false,
    }
}

/// A script reference does not begin with a slash, has no component that leads upwards, and
/// names a Rust file.
pub proof fn law_scripts_stay_in_the_project(path: Seq<char>)
    ensures
        script_path(path) ==> path.len() == 0 || path[0] != '/',
        script_path(path) ==> !components_of(path).contains(seq!['.', '.']),
        script_path(path) ==> extension_of(path) == Some(seq!['r', 's']),
        !components_of(path).contains(seq!['.', '.']) && extension_of(path) == Some(
            seq!['r', 's'],
        ) && (path.len() == 0 || path[0] != '/') ==> script_path(path),
{
    reveal_strlit("rs");
    assert("rs"@ =~= seq!['r', 's']);
}

/// What the kinds of components are: each has its one field, which says whether it is there
/// and is what is taken over; all the others stay.
pub proof fn law_kinds_are_their_fields(kind: ComponentKind, base: Components, from: Components)
    ensures
        ({
            let now = kind.taken_from(base, from);
            &&& now.transform == (if kind is Transform {
                from.transform
            } else {
                base.transform
            })
            &&& now.camera == (if kind is Camera {
                from.camera
            } else {
                base.camera
            })
            &&& now.audio_emitter == (if kind is AudioEmitter {
                from.audio_emitter
            } else {
                base.audio_emitter
            })
            &&& now.collider == (if kind is Collider {
                from.collider
            } else {
                base.collider
            })
            &&& now.sprite == (if kind is Sprite {
                from.sprite
            } else {
                base.sprite
            })
            &&& now.asset_source == (if kind is AssetSource {
                from.asset_source
            } else {
                base.asset_source
            })
            &&& now.script == (if kind is Script {
                from.script
            } else {
                base.script
            })
            &&& now == (Components {
                transform: now.transform,
                camera: now.camera,
                audio_emitter: now.audio_emitter,
                collider: now.collider,
                sprite: now.sprite,
                asset_source: now.asset_source,
                script: now.script,
                ..base
            })
        }),
        kind.held_by(base) <==> {
            ||| kind is Transform && base.transform is Some
            ||| kind is Camera && base.camera is Some
            ||| kind is AudioEmitter && base.audio_emitter is Some
            ||| kind is Collider && base.collider is Some
            ||| kind is Sprite && base.sprite is Some
            ||| kind is AssetSource && base.asset_source is Some
            ||| kind is Script && base.script is Some
        },
{
}

/// A marker that is clicked is there or not as the click says; the other markers, and all
/// else, stay. Markers that are not clicked stay too.
pub proof fn law_clicked_markers_are_set(components: Components, edits: IdentityEdits)
    ensures
        ({
            let now = markers_edited(components, edits);
            &&& edits.is_static is None ==> now.is_static == components.is_static
            &&& edits.is_static is Some ==> (now.is_static is Some <==> edits.is_static->0)
            &&& edits.disabled is None ==> now.disabled == components.disabled
            &&& edits.disabled is Some ==> (now.disabled is Some <==> edits.disabled->0)
            &&& edits.locked is None ==> now.lock == components.lock
            &&& edits.locked is Some ==> (now.lock is Some <==> edits.locked->0)
            &&& now == (Components {
                is_static: now.is_static,
                disabled: now.disabled,
                lock: now.lock,
                ..components
            })
        }),
{
}

/// A marker is on where its component is, and setting it puts the component there or takes
/// it away.
pub proof fn law_markers_are_their_components(marker: Marker, base: Components, present: bool)
    ensures
        marker.on(base) <==> (marker is Static && base.is_static is Some) || (marker is Disabled
            && base.disabled is Some) || (marker is Locked && base.lock is Some),
        marker.on(marker.set_on(base, present)) <==> present,
        !(marker is Static) ==> marker.set_on(base, present).is_static == base.is_static,
        !(marker is Disabled) ==> marker.set_on(base, present).disabled == base.disabled,
        !(marker is Locked) ==> marker.set_on(base, present).lock == base.lock,
{
}

/// What is done with a section: removing it takes the component from the entity alone. A
/// change that applies to all is copied to every other entity that has the component; any
/// other change stays with the entity.
pub proof fn law_sections_apply_to_all_that_have_them(
    world: WorldView,
    kind: ComponentKind,
    entity: Entity,
    others: Seq<Entity>,
    changed: bool,
    remove: bool,
    apply_to_all: bool,
    e: Entity,
)
    requires
        world.table.contains_key(entity),
        world.table.contains_key(e),
    ensures
        ({
            let now = section_done(world, kind, entity, others, changed, remove, apply_to_all);
            let copied = !remove && changed && apply_to_all && e != entity && others.contains(e)
                && kind.held_by(world.table[entity]) && kind.held_by(world.table[e]);
            &&& now.order == world.order && now.parents == world.parents && now.population
                == world.population
            &&& now.table.dom() == world.table.dom()
            &&& remove && e == entity ==> !kind.held_by(now.table[e]) && now.table[e]
                == kind.taken_from(world.table[e], now.table[e])
            &&& copied ==> now.table[e] == kind.taken_from(
                world.table[e],
                world.table[entity],
            )
            &&& !copied && !(remove && e == entity) ==> now.table[e] == world.table[e]
        }),
{
    let now = section_done(world, kind, entity, others, changed, remove, apply_to_all);
    if !remove && changed && apply_to_all {
        lemma_copied_to_all(kind, world, entity, others, others.len(), e);
        assert(others.take(others.len() as int) =~= others);
    }
    assert(now.table.dom() =~= world.table.dom());
}

proof fn lemma_copied_to_all(
    kind: ComponentKind,
    world: WorldView,
    from: Entity,
    others: Seq<Entity>,
    n: nat,
    e: Entity,
)
    requires
        n <= others.len(),
        world.table.contains_key(from),
        world.table.contains_key(e),
    ensures
        ({
            let now = kind.copied_to_all(world, from, others, n);
            &&& now.order == world.order && now.parents == world.parents && now.population
                == world.population
            &&& now.table.dom() == world.table.dom()
            &&& now.table[from] == world.table[from]
            &&& now.table[e] == (if e != from && others.take(n as int).contains(e)
                && kind.held_by(world.table[from]) && kind.held_by(world.table[e]) {
                kind.taken_from(world.table[e], world.table[from])
            } else {
                world.table[e]
            })
        }),
    decreases n,
{
    let m = (n - 1) as nat;
    if n > 0 {
        lemma_copied_to_all(kind, world, from, others, m, e);
        let to = others[m as int];
        let before = kind.copied_to_all(world, from, others, m);
        if world.table.contains_key(to) {
            lemma_copied_to_all(kind, world, from, others, m, to);
        } else {
            assert(!before.table.dom().contains(to));
        }
        let now = kind.copied_to_all(world, from, others, n);
        assert(now.table.dom() =~= world.table.dom());
        assert(others.take(n as int) =~= others.take(m as int).push(to));
        if others.take(m as int).contains(e) {
            let k = others.take(m as int).index_of(e);
            assert(others.take(n as int)[k] == e);
        }
        if e == to {
            assert(others.take(n as int)[m as int] == e);
        } else if others.take(n as int).contains(e) {
            let k = others.take(n as int).index_of(e);
            assert(others.take(m as int)[k] == e);
        }
        assert(kind.taken_from(kind.taken_from(world.table[e], world.table[from]), world.table[from])
            == kind.taken_from(world.table[e], world.table[from]));
        assert(kind.taken_from(world.table[from], world.table[from]) == world.table[from]);
    } else {
        assert(others.take(0).len() == 0);
    }
}

/// Where a kind of component stands among all the kinds.
pub open spec fn rank(kind: ComponentKind) -> int {
    match kind {
        ComponentKind::Transform => 1,
        ComponentKind::Camera => 2,
        ComponentKind::AudioEmitter => 3,
        ComponentKind::Collider => 4,
        ComponentKind::Sprite => 5,
        ComponentKind::AssetSource => 6,
        ComponentKind::Script => 7,
    }
}

/// Sections and offers stand in the order of the kinds.
pub proof fn law_sections_stand_in_order(
    world: WorldView,
    entity: Entity,
    present: bool,
    i: int,
    j: int,
)
    requires
        0 <= i < j < kinds_on(world, entity, present, 7).len(),
    ensures
        registry_order().len() == 7,
        rank(kinds_on(world, entity, present, 7)[i]) < rank(
            kinds_on(world, entity, present, 7)[j],
        ),
{
    lemma_kinds_rise(world, entity, present, 7);
}

proof fn lemma_kinds_rise(world: WorldView, entity: Entity, present: bool, n: nat)
    requires
        n <= 7,
    ensures
        forall|k: int|
            0 <= k < kinds_on(world, entity, present, n).len() ==> rank(
                #[trigger] kinds_on(world, entity, present, n)[k],
            ) <= n,
        forall|k: int, l: int|
            #![trigger kinds_on(world, entity, present, n)[k], kinds_on(
                world,
                entity,
                present,
                n,
            )[l]]
            0 <= k < l < kinds_on(world, entity, present, n).len() ==> rank(
                kinds_on(world, entity, present, n)[k],
            ) < rank(kinds_on(world, entity, present, n)[l]),
    decreases n,
{
    if n > 0 {
        lemma_kinds_rise(world, entity, present, (n - 1) as nat);
        let kinds = registry_order();
        assert(rank(kinds[0]) == 1 && rank(kinds[1]) == 2 && rank(kinds[2]) == 3 && rank(kinds[3])
            == 4 && rank(kinds[4]) == 5 && rank(kinds[5]) == 6 && rank(kinds[6]) == 7);
        assert(rank(kinds[n - 1]) == n);
        let rest = kinds_on(world, entity, present, (n - 1) as nat);
        let all = kinds_on(world, entity, present, n);
        assert forall|k: int| 0 <= k < all.len() implies rank(#[trigger] all[k]) <= n by {
            if k < rest.len() {
                assert(all[k] == rest[k]);
            }
        }
        assert forall|k: int, l: int|
            #![trigger all[k], all[l]]
            0 <= k < l < all.len() implies rank(all[k]) < rank(all[l]) by {
            assert(all[k] == rest[k]);
            if l < rest.len() {
                assert(all[l] == rest[l]);
            }
        }
    }
}

/// What is typed for a sound replaces what it is typed for and nothing else; the gain is
/// kept between nothing and four, the radius between nothing and a thousand.
pub proof fn law_sounds_take_what_is_typed(emitter: SceneAudioEmitter, edits: EmitterEdits)
    ensures
        ({
            let now = emitter_edited(emitter, edits);
            let none = Scalar { bits: 0 };
            &&& edits.sound is None ==> now.sound == emitter.sound
            &&& edits.sound is Some ==> now.sound == edits.sound->0
            &&& edits.autoplay is None ==> now.autoplay == emitter.autoplay
            &&& edits.autoplay is Some ==> now.autoplay == edits.autoplay->0
            &&& edits.looping is None ==> now.looping == emitter.looping
            &&& edits.looping is Some ==> now.looping == edits.looping->0
            &&& edits.gain is None ==> now.gain == emitter.gain
            &&& edits.gain is Some ==> now.gain == edits.gain->0.clamped(
                none,
                Scalar { bits: 0x4080_0000 },
            )
            &&& edits.radius is None ==> now.radius == emitter.radius
            &&& edits.radius is Some ==> now.radius == edits.radius->0.clamped(
                none,
                Scalar { bits: 0x447a_0000 },
            )
        }),
{
}

/// What is typed for the size of a collider replaces that size, kept between a thousandth
/// and ten thousand; a size that the shape does not have touches nothing, and the kind of
/// the shape stays.
pub proof fn law_colliders_take_what_is_typed(shape: ColliderShape, edits: ColliderEdits)
    ensures
        ({
            let now = shape_edited(shape, edits);
            let least = Scalar { bits: 0x3a83_126f };
            let greatest = Scalar { bits: 0x461c_4000 };
            let first = match edits.first {
                Some(size) => Some(size.clamped(least, greatest)),
                None => None,
            };
            let second = match edits.second {
                Some(size) => Some(size.clamped(least, greatest)),
                None => None,
            };
            let third = match edits.third {
                Some(size) => Some(size.clamped(least, greatest)),
                None => None,
            };
            &&& shape matches ColliderShape::Ball { radius } ==> now == (ColliderShape::Ball {
                radius: if first is Some {
                    first->0
                } else {
                    radius
                },
            }) && (touches(edits, shape) <==> edits.body is Some || first is Some)
            &&& shape matches ColliderShape::Cuboid { half_extents } ==> now == (
            ColliderShape::Cuboid {
                half_extents: Vec3 {
                    x: if first is Some {
                        first->0
                    } else {
                        half_extents.x
                    },
                    y: if second is Some {
                        second->0
                    } else {
                        half_extents.y
                    },
                    z: if third is Some {
                        third->0
                    } else {
                        half_extents.z
                    },
                },
            }) && (touches(edits, shape) <==> edits.body is Some || first is Some
                || second is Some || third is Some)
            &&& shape matches ColliderShape::Cylinder { half_height, radius } ==> now == (
            ColliderShape::Cylinder {
                half_height: if first is Some {
                    first->0
                } else {
                    half_height
                },
                radius: if second is Some {
                    second->0
                } else {
                    radius
                },
            }) && (touches(edits, shape) <==> edits.body is Some || first is Some
                || second is Some)
            &&& shape matches ColliderShape::Capsule { half_height, radius } ==> now == (
            ColliderShape::Capsule {
                half_height: if first is Some {
                    first->0
                } else {
                    half_height
                },
                radius: if second is Some {
                    second->0
                } else {
                    radius
                },
            }) && (touches(edits, shape) <==> edits.body is Some || first is Some
                || second is Some)
            &&& shape is TriMesh ==> now == shape && (touches(edits, shape) <==> edits.body
                is Some)
        }),
{
}

/// A collider is summed up by its shape and its sizes, as the host writes numbers: the
/// radius of a ball, the half extents of a cuboid, the half height and the radius of what
/// is round.
pub proof fn law_colliders_are_summed_up<F: Fn(Scalar) -> String>(
    text: Seq<char>,
    shape: ColliderShape,
    number: &F,
    said: spec_fn(Scalar) -> Seq<char>,
)
    requires
        describes(text, shape, number),
        forall|x: Scalar, s: String| #[trigger] number.ensures((x,), s) ==> s@ == said(x),
    ensures
        shape matches ColliderShape::Ball { radius } ==> text == "Ball (radius "@ + said(radius)
            + ")"@,
        shape matches ColliderShape::Cuboid { half_extents } ==> text
            == "Cuboid (half-extents ["@ + said(half_extents.x) + ", "@ + said(half_extents.y)
            + ", "@ + said(half_extents.z) + "])"@,
        shape matches ColliderShape::Cylinder { half_height, radius } ==> text
            == "Cylinder (half-height "@ + said(half_height) + ", radius "@ + said(radius) + ")"@,
        shape matches ColliderShape::Capsule { half_height, radius } ==> text
            == "Capsule (half-height "@ + said(half_height) + ", radius "@ + said(radius) + ")"@,
        shape is TriMesh ==> text == "Triangle mesh"@,
{
    if let ColliderShape::Cuboid { half_extents } = shape {
        let (x, y, z) = (said(half_extents.x), said(half_extents.y), said(half_extents.z));
        assert(triple_text(x, y, z) =~= "Cuboid (half-extents ["@ + x + ", "@ + y + ", "@ + z
            + "])"@);
    }
}

/// What stands above the sections of the inspector.
pub proof fn law_sections_are_headed(choice: ComponentKind)
    ensures
        choice is Transform ==> choice.heading() == "Transform"@,
        choice is Camera ==> choice.heading() == "Camera"@,
        choice is AudioEmitter ==> choice.heading() == "Audio Emitter"@,
        choice is Collider ==> choice.heading() == "Collider"@,
        choice is Sprite ==> choice.heading() == "Sprite"@,
        choice is AssetSource ==> choice.heading() == "Asset Source"@,
        choice is Script ==> choice.heading() == "Script"@,
{
}

/// What the components are called in code.
pub proof fn law_components_are_named_in_code(choice: ComponentKind)
    ensures
        choice is Transform ==> choice.identifier() == "Transform"@,
        choice is Camera ==> choice.identifier() == "Camera"@,
        choice is AudioEmitter ==> choice.identifier() == "SceneAudioEmitter"@,
        choice is Collider ==> choice.identifier() == "SceneCollider"@,
        choice is Sprite ==> choice.identifier() == "Sprite"@,
        choice is AssetSource ==> choice.identifier() == "AssetSource"@,
        choice is Script ==> choice.identifier() == "Script"@,
{
}

/// An edit changes the entity that is alive, and only it; an entity that is not alive cannot
/// be edited.
pub proof fn law_edits_need_a_living_entity(
    world: WorldView,
    entity: Entity,
    components: Components,
    other: Entity,
)
    requires
        other != entity,
    ensures
        ({
            let now = edited(world, entity, components);
            let alive = world.table.contains_key(entity);
            &&& !alive ==> now == world
            &&& alive ==> now.table.contains_key(entity) && now.table[entity] == components
            &&& now.order == world.order && now.parents == world.parents && now.population
                == world.population
            &&& now.table.contains_key(other) == world.table.contains_key(other)
            &&& world.table.contains_key(other) ==> now.table[other] == world.table[other]
        }),
        half_extents().x.bits == 0x3f00_0000,
        half_extents().y.bits == 0x3f00_0000,
        half_extents().z.bits == 0x3f00_0000,
{
}

} // verus!
