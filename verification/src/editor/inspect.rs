//! The property editors: what an edit of their rows makes of a value.

use vstd::prelude::*;

use crate::ecs::components::{Camera, Projection, Quat, Rgba, Sprite, Transform, UvRect, Vec2, Vec3};
use crate::ecs::scalar::{one, zero, Scalar};
use crate::editor::inspector::or_else;

verus! {

/// The least field of view that can be set, in degrees: one.
pub const LEAST_FOV_BITS: u32 = 0x3f80_0000;

/// The greatest field of view that can be set, in degrees: one hundred and
/// seventy-nine.
pub const GREATEST_FOV_BITS: u32 = 0x4333_0000;

/// What was edited of a transform in one frame.
#[derive(Debug, Clone, Copy)]
pub struct TransformEdits {
    /// A new position.
    pub translation: Option<Vec3>,
    /// A new rotation.
    pub rotation: Option<Quat>,
    /// A new scale.
    pub scale: Option<Vec3>,
}

/// Edits a transform and says whether anything was changed.
pub fn edit_transform(transform: &mut Transform, edits: TransformEdits) -> (changed: bool)
    ensures
        changed == (edits.translation is Some || edits.rotation is Some || edits.scale is Some),
        *final(transform) == (Transform {
            translation: or_else(edits.translation, old(transform).translation),
            rotation: or_else(edits.rotation, old(transform).rotation),
            scale: or_else(edits.scale, old(transform).scale),
        }),
{
    let mut changed: bool = false;
    match edits.translation {
        Some(translation) => {
            transform.translation = translation;
            changed = true;
        },
        None => {},
    }
    match edits.rotation {
        Some(rotation) => {
            transform.rotation = rotation;
            changed = true;
        },
        None => {},
    }
    match edits.scale {
        Some(scale) => {
            transform.scale = scale;
            changed = true;
        },
        None => {},
    }
    changed
}

/// What was edited of a camera in one frame. Its aspect ratio is the viewport's
/// and cannot be edited.
#[derive(Debug, Clone, Copy)]
pub struct CameraEdits {
    /// A new position.
    pub eye: Option<Vec3>,
    /// A new target.
    pub target: Option<Vec3>,
    /// A new direction that is up.
    pub up: Option<Vec3>,
    /// A new field of view in degrees, with perspective; a new height of the view
    /// without.
    pub lens: Option<Scalar>,
    /// A new near plane.
    pub near: Option<Scalar>,
    /// A new far plane.
    pub far: Option<Scalar>,
}

/// The label of the row for the field of view or for the height of the view.
pub fn lens_label(projection: &Projection) -> (label: &'static str)
    ensures
        label@ == (match projection {
            Projection::Perspective { .. } => "FOV \u{b0}"@,
            Projection::Orthographic { .. } => "Ortho Height"@,
        }),
{
    match projection {
        Projection::Perspective { .. } => "FOV \u{b0}",
        Projection::Orthographic { .. } => "Ortho Height",
    }
}

/// Whether `after` is `before` with the lens row edited: a field of view is kept
/// between its bounds and stored as what `radians` makes of it.
pub open spec fn lens_edited<F: Fn(Scalar) -> Scalar>(
    before: Projection,
    edit: Option<Scalar>,
    after: Projection,
    radians: &F,
) -> bool {
    match (before, edit) {
        (_, None) => after == before,
        (Projection::Perspective { .. }, Some(degrees)) => {
            after matches Projection::Perspective { fov_y_radians } && radians.ensures(
                (degrees.clamped(
                    Scalar { bits: LEAST_FOV_BITS },
                    Scalar { bits: GREATEST_FOV_BITS },
                ),),
                fov_y_radians,
            )
        },
        (Projection::Orthographic { .. }, Some(height)) => after == (Projection::Orthographic {
            height,
        }),
    }
}

/// Edits a camera and says whether anything was changed. `radians` turns degrees
/// into radians.
pub fn edit_camera<F: Fn(Scalar) -> Scalar>(
    camera: &mut Camera,
    edits: CameraEdits,
    radians: &F,
) -> (changed: bool)
    requires
        forall|x: Scalar| radians.requires((x,)),
    ensures
        changed == (edits.eye is Some || edits.target is Some || edits.up is Some
            || edits.lens is Some || edits.near is Some || edits.far is Some),
        lens_edited(old(camera).projection, edits.lens, final(camera).projection, radians),
        *final(camera) == (Camera {
            eye: or_else(edits.eye, old(camera).eye),
            target: or_else(edits.target, old(camera).target),
            up: or_else(edits.up, old(camera).up),
            projection: final(camera).projection,
            aspect_ratio: old(camera).aspect_ratio,
            near: or_else(edits.near, old(camera).near),
            far: or_else(edits.far, old(camera).far),
        }),
{
    let mut changed: bool = false;
    match edits.eye {
        Some(eye) => {
            camera.eye = eye;
            changed = true;
        },
        None => {},
    }
    match edits.target {
        Some(target) => {
            camera.target = target;
            changed = true;
        },
        None => {},
    }
    match edits.up {
        Some(up) => {
            camera.up = up;
            changed = true;
        },
        None => {},
    }
    match edits.lens {
        Some(value) => {
            camera.projection = match camera.projection {
                Projection::Perspective { .. } => {
                    let degrees = value.clamp(
                        &Scalar { bits: LEAST_FOV_BITS },
                        &Scalar { bits: GREATEST_FOV_BITS },
                    );
                    Projection::Perspective { fov_y_radians: radians(degrees) }
                },
                Projection::Orthographic { .. } => Projection::Orthographic { height: value },
            };
            changed = true;
        },
        None => {},
    }
    match edits.near {
        Some(near) => {
            camera.near = near;
            changed = true;
        },
        None => {},
    }
    match edits.far {
        Some(far) => {
            camera.far = far;
            changed = true;
        },
        None => {},
    }
    changed
}

/// What was edited of a sprite in one frame.
#[derive(Debug, Clone, Copy)]
pub struct SpriteEdits {
    /// A new size.
    pub size: Option<Vec2>,
    /// A new lower corner of the atlas region.
    pub uv_min: Option<Vec2>,
    /// A new upper corner of the atlas region.
    pub uv_max: Option<Vec2>,
    /// A new tint.
    pub color: Option<Rgba>,
}

/// The atlas coordinate with both numbers moved between zero and one.
pub open spec fn within_atlas(uv: Vec2) -> Vec2 {
    Vec2 { x: uv.x.clamped(zero(), one()), y: uv.y.clamped(zero(), one()) }
}

/// The corner of an atlas region after an edit.
pub open spec fn corner_edited(edit: Option<Vec2>, corner: Vec2) -> Vec2 {
    match edit {
        Some(uv) => within_atlas(uv),
        None => corner,
    }
}

fn edit_corner(edit: Option<Vec2>, corner: Vec2) -> (new: Vec2)
    ensures
        new == corner_edited(edit, corner),
{
    match edit {
        Some(uv) => Vec2 {
            x: uv.x.clamp(&Scalar::zero(), &Scalar::one()),
            y: uv.y.clamp(&Scalar::zero(), &Scalar::one()),
        },
        None => corner,
    }
}

/// Edits a sprite and says whether anything was changed.
pub fn edit_sprite(sprite: &mut Sprite, edits: SpriteEdits) -> (changed: bool)
    ensures
        changed == (edits.size is Some || edits.uv_min is Some || edits.uv_max is Some
            || edits.color is Some),
        *final(sprite) == (Sprite {
            size: or_else(edits.size, old(sprite).size),
            uv: UvRect {
                min: corner_edited(edits.uv_min, old(sprite).uv.min),
                max: corner_edited(edits.uv_max, old(sprite).uv.max),
            },
            color: or_else(edits.color, old(sprite).color),
            z_order: old(sprite).z_order,
        }),
{
    match edits.size {
        Some(size) => {
            sprite.size = size;
        },
        None => {},
    }
    sprite.uv = UvRect {
        min: edit_corner(edits.uv_min, sprite.uv.min),
        max: edit_corner(edits.uv_max, sprite.uv.max),
    };
    match edits.color {
        Some(color) => {
            sprite.color = color;
        },
        None => {},
    }
    edits.size.is_some() || edits.uv_min.is_some() || edits.uv_max.is_some()
        || edits.color.is_some()
}

/// What is typed for the lens of a camera: a field of view is kept between one degree and a
/// hundred and seventy-nine and turned into radians by the host; a height is taken as it is.
/// The kind of the camera stays.
pub proof fn law_lens_takes_what_is_typed<F: Fn(Scalar) -> Scalar>(
    before: Projection,
    edit: Option<Scalar>,
    after: Projection,
    radians: &F,
)
    requires
        lens_edited(before, edit, after, radians),
    ensures
        edit is None ==> after == before,
        before is Perspective <==> after is Perspective,
        before is Perspective && edit is Some ==> radians.ensures(
            (edit->0.clamped(Scalar { bits: 0x3f80_0000 }, Scalar { bits: 0x4333_0000 }),),
            after->fov_y_radians,
        ),
        before is Orthographic && edit is Some ==> after->height == edit->0,
{
}

/// What is typed for a corner of a sprite is kept within the texture, from nothing to one,
/// each way for itself.
pub proof fn law_corners_stay_in_the_texture(edit: Option<Vec2>, corner: Vec2)
    ensures
        edit is None ==> corner_edited(edit, corner) == corner,
        edit is Some ==> {
            let none = Scalar { bits: 0 };
            let full = Scalar { bits: 0x3f80_0000 };
            &&& corner_edited(edit, corner).x == edit->0.x.clamped(none, full)
            &&& corner_edited(edit, corner).y == edit->0.y.clamped(none, full)
        },
{
}

} // verus!
