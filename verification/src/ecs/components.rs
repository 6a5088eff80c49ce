//! The components an entity can carry.
//!
//! Numbers are held as [`Scalar`]s. Everything a component holds is plain data:
//! GPU and physics handles belong to the systems that own them.

use vstd::prelude::*;

use crate::asset_id::AssetId;
use crate::ecs::scalar::{one, zero, Scalar};

verus! {

/// A pair of numbers.
#[derive(Clone, Copy, Debug, PartialEq, Eq, Structural)]
pub struct Vec2 {
    /// The first component.
    pub x: Scalar,
    /// The second component.
    pub y: Scalar,
}

/// A triple of numbers.
#[derive(Clone, Copy, Debug, PartialEq, Eq, Structural)]
pub struct Vec3 {
    /// The first component.
    pub x: Scalar,
    /// The second component.
    pub y: Scalar,
    /// The third component.
    pub z: Scalar,
}

/// A rotation.
#[derive(Clone, Copy, Debug, PartialEq, Eq, Structural)]
pub struct Quat {
    /// The first component of the axis part.
    pub x: Scalar,
    /// The second component of the axis part.
    pub y: Scalar,
    /// The third component of the axis part.
    pub z: Scalar,
    /// The real part.
    pub w: Scalar,
}

/// A linear color with opacity.
#[derive(Clone, Copy, Debug, PartialEq, Eq, Structural)]
pub struct Rgba {
    /// Red.
    pub r: Scalar,
    /// Green.
    pub g: Scalar,
    /// Blue.
    pub b: Scalar,
    /// Opacity.
    pub a: Scalar,
}

impl Vec2 {
    /// Whether both components are the same numbers.
    pub open spec fn same(self, other: Vec2) -> bool {
        self.x.same(other.x) && self.y.same(other.y)
    }

    /// Whether both components are the same numbers.
    pub fn is_same(&self, other: &Vec2) -> (answer: bool)
        ensures
            answer == self.same(*other),
    {
        self.x.is_same(&other.x) && self.y.is_same(&other.y)
    }
}

impl Vec3 {
    /// Whether all components are the same numbers.
    pub open spec fn same(self, other: Vec3) -> bool {
        self.x.same(other.x) && self.y.same(other.y) && self.z.same(other.z)
    }

    /// Whether all components are the same numbers.
    pub fn is_same(&self, other: &Vec3) -> (answer: bool)
        ensures
            answer == self.same(*other),
    {
        self.x.is_same(&other.x) && self.y.is_same(&other.y) && self.z.is_same(&other.z)
    }
}

impl Quat {
    /// Whether all components are the same numbers.
    pub open spec fn same(self, other: Quat) -> bool {
        self.x.same(other.x) && self.y.same(other.y) && self.z.same(other.z) && self.w.same(other.w)
    }

    /// Whether all components are the same numbers.
    pub fn is_same(&self, other: &Quat) -> (answer: bool)
        ensures
            answer == self.same(*other),
    {
        self.x.is_same(&other.x) && self.y.is_same(&other.y) && self.z.is_same(&other.z)
            && self.w.is_same(&other.w)
    }
}

impl Rgba {
    /// Whether all components are the same numbers.
    pub open spec fn same(self, other: Rgba) -> bool {
        self.r.same(other.r) && self.g.same(other.g) && self.b.same(other.b) && self.a.same(other.a)
    }

    /// Whether all components are the same numbers.
    pub fn is_same(&self, other: &Rgba) -> (answer: bool)
        ensures
            answer == self.same(*other),
    {
        self.r.is_same(&other.r) && self.g.is_same(&other.g) && self.b.is_same(&other.b)
            && self.a.is_same(&other.a)
    }
}

/// An entity's position, rotation and scale, relative to its parent.
#[derive(Clone, Copy, Debug, PartialEq, Eq, Structural)]
pub struct Transform {
    /// Where it is.
    pub translation: Vec3,
    /// How it is turned.
    pub rotation: Quat,
    /// How large it is along each axis.
    pub scale: Vec3,
}

/// The transform that changes nothing.
pub open spec fn identity() -> Transform {
    Transform {
        translation: Vec3 { x: zero(), y: zero(), z: zero() },
        rotation: Quat { x: zero(), y: zero(), z: zero(), w: one() },
        scale: Vec3 { x: one(), y: one(), z: one() },
    }
}

impl Transform {
    /// The transform that changes nothing.
    pub fn identity() -> (transform: Transform)
        ensures
            transform == self::identity(),
    {
        let (o, i) = (Scalar::zero(), Scalar::one());
        Transform {
            translation: Vec3 { x: o, y: o, z: o },
            rotation: Quat { x: o, y: o, z: o, w: i },
            scale: Vec3 { x: i, y: i, z: i },
        }
    }

    /// The transform that only moves by `translation`.
    pub fn from_translation(translation: Vec3) -> (transform: Transform)
        ensures
            transform == (Transform { translation, ..self::identity() }),
    {
        Transform { translation, ..Transform::identity() }
    }

    /// Whether all the numbers are the same.
    pub open spec fn same(self, other: Transform) -> bool {
        self.translation.same(other.translation) && self.rotation.same(other.rotation)
            && self.scale.same(other.scale)
    }

    /// Whether all the numbers are the same.
    pub fn is_same(&self, other: &Transform) -> (answer: bool)
        ensures
            answer == self.same(*other),
    {
        self.translation.is_same(&other.translation) && self.rotation.is_same(&other.rotation)
            && self.scale.is_same(&other.scale)
    }
}

impl Default for Transform {
    fn default() -> (transform: Transform)
        ensures
            transform == self::identity(),
    {
        Transform::identity()
    }
}

/// An entity's resolved world-space transform.
#[derive(Clone, Copy, Debug, PartialEq, Eq, Structural)]
pub struct GlobalTransform(pub Transform);

impl Default for GlobalTransform {
    fn default() -> (transform: GlobalTransform)
        ensures
            transform == GlobalTransform(self::identity()),
    {
        GlobalTransform(Transform::identity())
    }
}

/// How a camera projects the scene.
#[derive(Clone, Copy, Debug, PartialEq, Eq, Structural)]
pub enum Projection {
    /// With perspective.
    Perspective {
        /// The vertical field of view.
        fov_y_radians: Scalar,
    },
    /// Without.
    Orthographic {
        /// The height of the view.
        height: Scalar,
    },
}

/// An entity that views the scene.
#[derive(Clone, Copy, Debug, PartialEq, Eq, Structural)]
pub struct Camera {
    /// Where it stands.
    pub eye: Vec3,
    /// What it looks at.
    pub target: Vec3,
    /// Which way is up.
    pub up: Vec3,
    /// How it projects.
    pub projection: Projection,
    /// Width over height.
    pub aspect_ratio: Scalar,
    /// The near plane.
    pub near: Scalar,
    /// The far plane.
    pub far: Scalar,
}

impl Projection {
    /// Whether both project alike.
    pub open spec fn same(self, other: Projection) -> bool {
        match (self, other) {
            (
                Projection::Perspective { fov_y_radians: a },
                Projection::Perspective { fov_y_radians: b },
            ) => a.same(b),
            (Projection::Orthographic { height: a }, Projection::Orthographic { height: b }) => a.same(b),
            _ => false,
        }
    }

    /// Whether both project alike.
    pub fn is_same(&self, other: &Projection) -> (answer: bool)
        ensures
            answer == self.same(*other),
    {
        match (self, other) {
            (
                Projection::Perspective { fov_y_radians: a },
                Projection::Perspective { fov_y_radians: b },
            ) => a.is_same(b),
            (
                Projection::Orthographic { height: a },
                Projection::Orthographic { height: b },
            ) => a.is_same(b),
            _ => false,
        }
    }
}

impl Camera {
    /// Whether all the numbers are the same.
    pub open spec fn same(self, other: Camera) -> bool {
        self.eye.same(other.eye) && self.target.same(other.target) && self.up.same(other.up)
            && self.projection.same(other.projection) && self.aspect_ratio.same(other.aspect_ratio)
            && self.near.same(other.near) && self.far.same(other.far)
    }

    /// Whether all the numbers are the same.
    pub fn is_same(&self, other: &Camera) -> (answer: bool)
        ensures
            answer == self.same(*other),
    {
        self.eye.is_same(&other.eye) && self.target.is_same(&other.target) && self.up.is_same(
            &other.up,
        ) && self.projection.is_same(&other.projection) && self.aspect_ratio.is_same(
            &other.aspect_ratio,
        ) && self.near.is_same(&other.near) && self.far.is_same(&other.far)
    }
}

/// A region of an atlas texture.
#[derive(Clone, Copy, Debug, PartialEq, Eq, Structural)]
pub struct UvRect {
    /// Its lower corner.
    pub min: Vec2,
    /// Its upper corner.
    pub max: Vec2,
}

/// An entity that renders as a sprite.
#[derive(Clone, Copy, Debug, PartialEq, Eq, Structural)]
pub struct Sprite {
    /// World-space width and height.
    pub size: Vec2,
    /// The atlas region it samples.
    pub uv: UvRect,
    /// The tint.
    pub color: Rgba,
    /// The layer. Higher draws on top.
    pub z_order: Scalar,
}

/// The color that tints nothing.
pub open spec fn white() -> Rgba {
    Rgba { r: one(), g: one(), b: one(), a: one() }
}

impl Sprite {
    /// A sprite `size` world units across, sampling `uv`, with no tint, on the
    /// layer zero.
    pub fn new(size: Vec2, uv: UvRect) -> (sprite: Sprite)
        ensures
            sprite == (Sprite { size, uv, color: white(), z_order: zero() }),
    {
        let i = Scalar::one();
        Sprite { size, uv, color: Rgba { r: i, g: i, b: i, a: i }, z_order: Scalar::zero() }
    }

    /// This sprite moved to the layer `z_order`.
    pub fn with_z_order(self, z_order: Scalar) -> (sprite: Sprite)
        ensures
            sprite == (Sprite { z_order, ..self }),
    {
        Sprite { z_order, ..self }
    }

    /// Whether all the numbers are the same.
    pub open spec fn same(self, other: Sprite) -> bool {
        self.size.same(other.size) && self.uv.min.same(other.uv.min) && self.uv.max.same(
            other.uv.max,
        ) && self.color.same(other.color) && self.z_order.same(other.z_order)
    }

    /// Whether all the numbers are the same.
    pub fn is_same(&self, other: &Sprite) -> (answer: bool)
        ensures
            answer == self.same(*other),
    {
        self.size.is_same(&other.size) && self.uv.min.is_same(&other.uv.min) && self.uv.max.is_same(
            &other.uv.max,
        ) && self.color.is_same(&other.color) && self.z_order.is_same(&other.z_order)
    }
}

/// A human-readable label for an entity.
#[derive(Debug, PartialEq, Eq)]
pub struct Name(pub String);

impl Name {
    /// A name with the given text.
    pub fn new(name: &str) -> (result: Name)
        ensures
            result.0@ == name@,
    {
        Name(name.to_owned())
    }

    /// The name as text.
    pub fn text(&self) -> (text: String)
        ensures
            text@ == self.0@,
    {
        self.0.clone()
    }
}

impl Default for Name {
    fn default() -> (name: Name)
        ensures
            name.0@.len() == 0,
    {
        Name(String::new())
    }
}

impl Clone for Name {
    fn clone(&self) -> (copy: Name)
        ensures
            copy == *self,
    {
        Name(self.0.clone())
    }
}

impl From<String> for Name {
    fn from(name: String) -> (result: Name) {
        Name(name)
    }
}

impl vstd::std_specs::convert::FromSpecImpl<String> for Name {
    open spec fn obeys_from_spec() -> bool {
        true
    }

    open spec fn from_spec(name: String) -> Name {
        Name(name)
    }
}

impl From<&str> for Name {
    fn from(name: &str) -> (result: Name)
        ensures
            result.0@ == name@,
    {
        Name::new(name)
    }
}

impl vstd::std_specs::convert::FromSpecImpl<&str> for Name {
    open spec fn obeys_from_spec() -> bool {
        false
    }

    open spec fn from_spec(name: &str) -> Name {
        arbitrary()
    }
}

/// A reference to the asset file an entity was created from.
#[derive(Debug, PartialEq, Eq)]
pub struct AssetSource {
    /// The project-relative path of the source file.
    pub path: String,
    /// The canonical UUID text of the asset's identifier, once known.
    pub id: Option<String>,
}

impl AssetSource {
    /// A reference by path, with no identifier yet.
    pub fn new(path: &str) -> (source: AssetSource)
        ensures
            source.path@ == path@,
            source.id is None,
    {
        AssetSource { path: path.to_owned(), id: None }
    }

    /// A reference by path and identifier.
    pub fn with_id(path: &str, id: &str) -> (source: AssetSource)
        ensures
            source.path@ == path@,
            source.id matches Some(text) && text@ == id@,
    {
        AssetSource { path: path.to_owned(), id: Some(id.to_owned()) }
    }
}

impl Default for AssetSource {
    fn default() -> (source: AssetSource)
        ensures
            source.path@.len() == 0,
            source.id is None,
    {
        AssetSource { path: String::new(), id: None }
    }
}

impl Clone for AssetSource {
    fn clone(&self) -> (copy: AssetSource)
        ensures
            copy == *self,
    {
        AssetSource {
            path: self.path.clone(),
            id: match &self.id {
                Some(id) => Some(id.clone()),
                None => None,
            },
        }
    }
}

/// A project-relative script attached to an entity.
#[derive(Debug, PartialEq, Eq)]
pub struct Script {
    /// The path relative to the project root.
    pub path: String,
}

impl Script {
    /// A script reference.
    pub fn new(path: &str) -> (script: Script)
        ensures
            script.path@ == path@,
    {
        Script { path: path.to_owned() }
    }
}

impl Default for Script {
    fn default() -> (script: Script)
        ensures
            script.path@.len() == 0,
    {
        Script { path: String::new() }
    }
}

impl Clone for Script {
    fn clone(&self) -> (copy: Script)
        ensures
            copy == *self,
    {
        Script { path: self.path.clone() }
    }
}

/// The asset references an entity's mesh is built from.
#[derive(Debug, PartialEq, Eq)]
pub struct MeshSource {
    /// The canonical UUID text of the mesh asset.
    pub mesh: String,
    /// The canonical UUID text of the material asset.
    pub material: String,
}

impl MeshSource {
    /// A reference to a mesh and a material.
    pub fn new(mesh: &str, material: &str) -> (source: MeshSource)
        ensures
            source.mesh@ == mesh@,
            source.material@ == material@,
    {
        MeshSource { mesh: mesh.to_owned(), material: material.to_owned() }
    }
}

impl Default for MeshSource {
    fn default() -> (source: MeshSource)
        ensures
            source.mesh@.len() == 0,
            source.material@.len() == 0,
    {
        MeshSource { mesh: String::new(), material: String::new() }
    }
}

impl Clone for MeshSource {
    fn clone(&self) -> (copy: MeshSource)
        ensures
            copy == *self,
    {
        MeshSource { mesh: self.mesh.clone(), material: self.material.clone() }
    }
}

/// The atlas reference an entity's sprite is built from, with the size, tint and
/// layer as stored on disk.
#[derive(Debug, PartialEq, Eq)]
pub struct SpriteSource {
    /// The canonical UUID text of the atlas texture asset.
    pub atlas: String,
    /// The region within the atlas.
    pub region: String,
    /// World-space width and height.
    pub size: Vec2,
    /// The tint.
    pub color: Rgba,
    /// The layer.
    pub z_order: Scalar,
}

impl Clone for SpriteSource {
    fn clone(&self) -> (copy: SpriteSource)
        ensures
            copy == *self,
    {
        SpriteSource {
            atlas: self.atlas.clone(),
            region: self.region.clone(),
            size: self.size,
            color: self.color,
            z_order: self.z_order,
        }
    }
}

/// A sound source placed in a scene.
#[derive(Debug, PartialEq, Eq)]
pub struct SceneAudioEmitter {
    /// The canonical UUID text of the sound asset; empty until one is chosen.
    pub sound: String,
    /// Whether it starts by itself.
    pub autoplay: bool,
    /// Whether it starts over when it ends.
    pub looping: bool,
    /// How loud it is.
    pub gain: Scalar,
    /// How far it can be heard.
    pub radius: Scalar,
}

impl Clone for SceneAudioEmitter {
    fn clone(&self) -> (copy: SceneAudioEmitter)
        ensures
            copy == *self,
    {
        SceneAudioEmitter {
            sound: self.sound.clone(),
            autoplay: self.autoplay,
            looping: self.looping,
            gain: self.gain,
            radius: self.radius,
        }
    }
}

/// How a body moves.
#[derive(Clone, Copy, Debug, PartialEq, Eq, Structural)]
pub enum BodyKind {
    /// Not at all.
    Fixed,
    /// By the simulation.
    Dynamic,
    /// By the game.
    Kinematic,
}

/// The shape of a collider.
#[derive(Debug, PartialEq, Eq)]
pub enum ColliderShape {
    /// A ball.
    Ball {
        /// Its radius.
        radius: Scalar,
    },
    /// A box.
    Cuboid {
        /// Half its size along each axis.
        half_extents: Vec3,
    },
    /// A cylinder.
    Cylinder {
        /// Half its height.
        half_height: Scalar,
        /// Its radius.
        radius: Scalar,
    },
    /// A capsule.
    Capsule {
        /// Half its height.
        half_height: Scalar,
        /// Its radius.
        radius: Scalar,
    },
    /// The triangles of a mesh asset.
    TriMesh {
        /// The canonical UUID text of the mesh asset.
        mesh: String,
    },
}

impl Clone for ColliderShape {
    fn clone(&self) -> (copy: ColliderShape)
        ensures
            copy == *self,
    {
        match self {
            ColliderShape::Ball { radius } => ColliderShape::Ball { radius: *radius },
            ColliderShape::Cuboid { half_extents } => ColliderShape::Cuboid {
                half_extents: *half_extents,
            },
            ColliderShape::Cylinder { half_height, radius } => ColliderShape::Cylinder {
                half_height: *half_height,
                radius: *radius,
            },
            ColliderShape::Capsule { half_height, radius } => ColliderShape::Capsule {
                half_height: *half_height,
                radius: *radius,
            },
            ColliderShape::TriMesh { mesh } => ColliderShape::TriMesh { mesh: mesh.clone() },
        }
    }
}

/// A collision shape placed in a scene.
#[derive(Debug, PartialEq, Eq)]
pub struct SceneCollider {
    /// The shape.
    pub shape: ColliderShape,
    /// How the body moves.
    pub body: BodyKind,
}

impl Clone for SceneCollider {
    fn clone(&self) -> (copy: SceneCollider)
        ensures
            copy == *self,
    {
        SceneCollider { shape: self.shape.clone(), body: self.body }
    }
}

/// Marks an entity as disabled in the editor.
#[derive(Clone, Copy, Debug, PartialEq, Eq, Structural, Default)]
pub struct Disabled;

/// Marks an entity as not moving.
#[derive(Clone, Copy, Debug, PartialEq, Eq, Structural, Default)]
pub struct Static;

/// Marks an entity as locked in the editor.
#[derive(Clone, Copy, Debug, PartialEq, Eq, Structural, Default)]
pub struct Lock;

/// The renderer's handles of a drawn entity.
#[derive(Clone, Copy, Debug, PartialEq, Eq, Structural)]
pub struct RenderHandles {
    /// The geometry.
    pub mesh: AssetId,
    /// The material.
    pub material: AssetId,
}

/// Everything one entity carries.
#[derive(Debug, PartialEq, Eq)]
pub struct Components {
    /// Its name.
    pub name: Option<Name>,
    /// Its transform relative to its parent.
    pub transform: Option<Transform>,
    /// Its world-space transform.
    pub global_transform: Option<GlobalTransform>,
    /// Its camera.
    pub camera: Option<Camera>,
    /// Its sound source.
    pub audio_emitter: Option<SceneAudioEmitter>,
    /// Its collision shape.
    pub collider: Option<SceneCollider>,
    /// Its sprite.
    pub sprite: Option<Sprite>,
    /// What its sprite is built from.
    pub sprite_source: Option<SpriteSource>,
    /// The asset file it was created from.
    pub asset_source: Option<AssetSource>,
    /// Its script.
    pub script: Option<Script>,
    /// What its mesh is built from.
    pub mesh_source: Option<MeshSource>,
    /// The renderer's handles of its mesh.
    pub mesh_renderer: Option<RenderHandles>,
    /// The renderer's handles of its skinned mesh.
    pub skinned_mesh_renderer: Option<RenderHandles>,
    /// The renderer's handles of its instanced mesh.
    pub instanced_mesh_renderer: Option<RenderHandles>,
    /// The renderer's handles of its vegetation.
    pub vegetation_renderer: Option<RenderHandles>,
    /// Present where it is disabled.
    pub disabled: Option<Disabled>,
    /// Present where it does not move.
    pub is_static: Option<Static>,
    /// Present where it is locked.
    pub lock: Option<Lock>,
}

/// No components at all.
pub open spec fn no_components() -> Components {
    Components {
        name: None,
        transform: None,
        global_transform: None,
        camera: None,
        audio_emitter: None,
        collider: None,
        sprite: None,
        sprite_source: None,
        asset_source: None,
        script: None,
        mesh_source: None,
        mesh_renderer: None,
        skinned_mesh_renderer: None,
        instanced_mesh_renderer: None,
        vegetation_renderer: None,
        disabled: None,
        is_static: None,
        lock: None,
    }
}

impl Default for Components {
    fn default() -> (components: Components)
        ensures
            components == no_components(),
    {
        Components {
            name: None,
            transform: None,
            global_transform: None,
            camera: None,
            audio_emitter: None,
            collider: None,
            sprite: None,
            sprite_source: None,
            asset_source: None,
            script: None,
            mesh_source: None,
            mesh_renderer: None,
            skinned_mesh_renderer: None,
            instanced_mesh_renderer: None,
            vegetation_renderer: None,
            disabled: None,
            is_static: None,
            lock: None,
        }
    }
}

impl Clone for Components {
    fn clone(&self) -> (copy: Components)
        ensures
            copy == *self,
    {
        Components {
            name: self.name.clone(),
            transform: self.transform,
            global_transform: self.global_transform,
            camera: self.camera,
            audio_emitter: self.audio_emitter.clone(),
            collider: self.collider.clone(),
            sprite: self.sprite,
            sprite_source: self.sprite_source.clone(),
            asset_source: self.asset_source.clone(),
            script: self.script.clone(),
            mesh_source: self.mesh_source.clone(),
            mesh_renderer: self.mesh_renderer,
            skinned_mesh_renderer: self.skinned_mesh_renderer,
            instanced_mesh_renderer: self.instanced_mesh_renderer,
            vegetation_renderer: self.vegetation_renderer,
            disabled: self.disabled,
            is_static: self.is_static,
            lock: self.lock,
        }
    }
}

/// Values of several numbers are the same exactly if every one of their numbers is: no
/// field is left out, and cameras of two kinds are never the same.
pub proof fn law_sameness_covers_every_number(
    a: Transform,
    b: Transform,
    c: Camera,
    d: Camera,
    e: Sprite,
    f: Sprite,
)
    ensures
        a.same(b) <==> {
            &&& a.translation.x.same(b.translation.x)
            &&& a.translation.y.same(b.translation.y)
            &&& a.translation.z.same(b.translation.z)
            &&& a.rotation.x.same(b.rotation.x)
            &&& a.rotation.y.same(b.rotation.y)
            &&& a.rotation.z.same(b.rotation.z)
            &&& a.rotation.w.same(b.rotation.w)
            &&& a.scale.x.same(b.scale.x)
            &&& a.scale.y.same(b.scale.y)
            &&& a.scale.z.same(b.scale.z)
        },
        c.same(d) <==> {
            &&& c.eye.x.same(d.eye.x) && c.eye.y.same(d.eye.y) && c.eye.z.same(d.eye.z)
            &&& c.target.x.same(d.target.x)
            &&& c.target.y.same(d.target.y)
            &&& c.target.z.same(d.target.z)
            &&& c.up.x.same(d.up.x) && c.up.y.same(d.up.y) && c.up.z.same(d.up.z)
            &&& c.aspect_ratio.same(d.aspect_ratio)
            &&& c.near.same(d.near)
            &&& c.far.same(d.far)
            &&& c.projection is Perspective <==> d.projection is Perspective
            &&& c.projection is Perspective ==> c.projection->fov_y_radians.same(
                d.projection->fov_y_radians,
            )
            &&& c.projection is Orthographic ==> c.projection->height.same(d.projection->height)
        },
        e.same(f) <==> {
            &&& e.size.x.same(f.size.x) && e.size.y.same(f.size.y)
            &&& e.uv.min.x.same(f.uv.min.x) && e.uv.min.y.same(f.uv.min.y)
            &&& e.uv.max.x.same(f.uv.max.x) && e.uv.max.y.same(f.uv.max.y)
            &&& e.color.r.same(f.color.r) && e.color.g.same(f.color.g)
            &&& e.color.b.same(f.color.b) && e.color.a.same(f.color.a)
            &&& e.z_order.same(f.z_order)
        },
{
}

/// An entity without components has none of them.
pub proof fn law_no_component_is_there(components: Components)
    ensures
        components == no_components() <==> {
            &&& components.name is None && components.transform is None
            &&& components.global_transform is None && components.camera is None
            &&& components.audio_emitter is None && components.collider is None
            &&& components.sprite is None && components.sprite_source is None
            &&& components.asset_source is None && components.script is None
            &&& components.mesh_source is None && components.mesh_renderer is None
            &&& components.skinned_mesh_renderer is None
            &&& components.instanced_mesh_renderer is None
            &&& components.vegetation_renderer is None && components.disabled is None
            &&& components.is_static is None && components.lock is None
        },
{
}

/// The transform that changes nothing stands at the origin, is not turned, and has its full
/// size; white is full in every colour.
pub proof fn law_nothing_is_changed()
    ensures
        ({
            let none = Scalar { bits: 0 };
            let full = Scalar { bits: 0x3f80_0000 };
            &&& identity().translation == (Vec3 { x: none, y: none, z: none })
            &&& identity().rotation == (Quat { x: none, y: none, z: none, w: full })
            &&& identity().scale == (Vec3 { x: full, y: full, z: full })
            &&& white() == (Rgba { r: full, g: full, b: full, a: full })
        }),
{
}

} // verus!
