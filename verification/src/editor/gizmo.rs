//! The handles with which entities are moved, turned and scaled.

use vstd::prelude::*;

use crate::ecs::components::{Rgba, Vec3};
use crate::ecs::scalar::{one, zero, Scalar};

verus! {

/// How near to a handle the pointer must be to take it, in pixels: eight.
pub const PICK_RADIUS_BITS: u32 = 0x4100_0000;

/// What dragging a handle does.
#[derive(Debug, Clone, Copy, PartialEq, Eq, Structural)]
pub enum GizmoMode {
    /// Moves the entity.
    Translate,
    /// Turns it.
    Rotate,
    /// Scales it.
    Scale,
}

impl Default for GizmoMode {
    fn default() -> (mode: GizmoMode)
        ensures
            mode == GizmoMode::Translate,
    {
        GizmoMode::Translate
    }
}

impl GizmoMode {
    /// All modes, in the order of the toolbar.
    pub const ALL: [GizmoMode; 3] = [GizmoMode::Translate, GizmoMode::Rotate, GizmoMode::Scale];

    /// A short label for the toolbar.
    pub fn label(self) -> (label: &'static str)
        ensures
            label@ == (match self {
                GizmoMode::Translate => "Move"@,
                GizmoMode::Rotate => "Rotate"@,
                GizmoMode::Scale => "Scale"@,
            }),
    {
        match self {
            GizmoMode::Translate => "Move",
            GizmoMode::Rotate => "Rotate",
            GizmoMode::Scale => "Scale",
        }
    }
}

/// An axis.
#[derive(Debug, Clone, Copy, PartialEq, Eq, Structural)]
pub enum Axis {
    /// The red one.
    X,
    /// The green one.
    Y,
    /// The blue one.
    Z,
}

impl Axis {
    /// All axes.
    pub const ALL: [Axis; 3] = [Axis::X, Axis::Y, Axis::Z];

    /// The direction of the axis, one unit long.
    pub fn direction(self) -> (direction: Vec3)
        ensures
            direction == (match self {
                Axis::X => Vec3 { x: one(), y: zero(), z: zero() },
                Axis::Y => Vec3 { x: zero(), y: one(), z: zero() },
                Axis::Z => Vec3 { x: zero(), y: zero(), z: one() },
            }),
    {
        let (o, i) = (Scalar::zero(), Scalar::one());
        match self {
            Axis::X => Vec3 { x: i, y: o, z: o },
            Axis::Y => Vec3 { x: o, y: i, z: o },
            Axis::Z => Vec3 { x: o, y: o, z: i },
        }
    }

    /// The color of the axis's handle: 0.9, 0.2, 0.2 for the first; 0.2, 0.85, 0.2
    /// for the second; 0.25, 0.45, 0.95 for the third.
    pub fn color(self) -> (color: Rgba)
        ensures
            color == (match self {
                Axis::X => Rgba {
                    r: Scalar { bits: 0x3f66_6666 },
                    g: Scalar { bits: 0x3e4c_cccd },
                    b: Scalar { bits: 0x3e4c_cccd },
                    a: one(),
                },
                Axis::Y => Rgba {
                    r: Scalar { bits: 0x3e4c_cccd },
                    g: Scalar { bits: 0x3f59_999a },
                    b: Scalar { bits: 0x3e4c_cccd },
                    a: one(),
                },
                Axis::Z => Rgba {
                    r: Scalar { bits: 0x3e80_0000 },
                    g: Scalar { bits: 0x3ee6_6666 },
                    b: Scalar { bits: 0x3f73_3333 },
                    a: one(),
                },
            }),
    {
        let (r, g, b): (u32, u32, u32) = match self {
            Axis::X => (0x3f66_6666, 0x3e4c_cccd, 0x3e4c_cccd),
            Axis::Y => (0x3e4c_cccd, 0x3f59_999a, 0x3e4c_cccd),
            Axis::Z => (0x3e80_0000, 0x3ee6_6666, 0x3f73_3333),
        };
        Rgba {
            r: Scalar { bits: r },
            g: Scalar { bits: g },
            b: Scalar { bits: b },
            a: Scalar::one(),
        }
    }
}

/// The handles that are shown: all in three dimensions; in two, those in the plane
/// of the screen, and for turning the one across it.
pub open spec fn shown_axes(mode: GizmoMode, two_d: bool) -> Seq<Axis> {
    if !two_d {
        seq![Axis::X, Axis::Y, Axis::Z]
    } else if mode == GizmoMode::Rotate {
        seq![Axis::Z]
    } else {
        seq![Axis::X, Axis::Y]
    }
}

/// The handles that are shown and can be taken.
pub fn axes_for(mode: GizmoMode, two_d: bool) -> (axes: Vec<Axis>)
    ensures
        axes@ == shown_axes(mode, two_d),
{
    let axes: Vec<Axis> = if !two_d {
        vec![Axis::X, Axis::Y, Axis::Z]
    } else {
        match mode {
            GizmoMode::Rotate => vec![Axis::Z],
            GizmoMode::Translate | GizmoMode::Scale => vec![Axis::X, Axis::Y],
        }
    };
    assert(axes@ =~= shown_axes(mode, two_d));
    axes
}

/// A handle, and how far the pointer is from it on the screen, in pixels.
#[derive(Debug, Clone, Copy, PartialEq, Eq, Structural)]
pub struct HandleDistance {
    /// The handle's axis.
    pub axis: Axis,
    /// How far the pointer is from it.
    pub distance: Scalar,
}

/// Whether the pointer is near enough to take the handle.
pub open spec fn in_reach(handle: HandleDistance) -> bool {
    let radius = Scalar { bits: PICK_RADIUS_BITS };
    handle.distance.less(radius) || handle.distance.same(radius)
}

/// The handle that is taken among the first `n`: the nearest in reach, the first of
/// several that are as near.
pub open spec fn nearest(handles: Seq<HandleDistance>, n: nat) -> Option<HandleDistance>
    decreases n,
{
    if n == 0 {
        None
    } else {
        let handle = handles[n - 1];
        match nearest(handles, (n - 1) as nat) {
            Some(best) => if in_reach(handle) && handle.distance.place() < best.distance.place() {
                Some(handle)
            } else {
                Some(best)
            },
            None => if in_reach(handle) {
                Some(handle)
            } else {
                None
            },
        }
    }
}

/// The axis whose handle the pointer takes, if it is near enough to one.
pub fn pick_axis(handles: &[HandleDistance]) -> (axis: Option<Axis>)
    ensures
        axis == (match nearest(handles@, handles@.len()) {
            Some(handle) => Some(handle.axis),
            None => None,
        }),
{
    let radius = Scalar { bits: PICK_RADIUS_BITS };
    let mut best: Option<HandleDistance> = None;
    for i in 0..handles.len()
        invariant
            radius == (Scalar { bits: PICK_RADIUS_BITS }),
            best == nearest(handles@, i as nat),
    {
        let handle = handles[i];
        if handle.distance.is_less(&radius) || handle.distance.is_same(&radius) {
            best = match best {
                Some(found) => if handle.distance.place_of() < found.distance.place_of() {
                    Some(handle)
                } else {
                    Some(found)
                },
                None => Some(handle),
            };
        }
    }
    match best {
        Some(handle) => Some(handle.axis),
        None => None,
    }
}

/// A handle is taken exactly if one is in reach, and no handle in reach is nearer
/// than the one that is taken.
pub proof fn law_nearest_handle_is_taken(handles: Seq<HandleDistance>, n: nat, i: int)
    requires
        0 <= i < n <= handles.len(),
        in_reach(handles[i]),
    ensures
        nearest(handles, n) matches Some(best) && in_reach(best) && best.distance.place()
            <= handles[i].distance.place() && handles.take(n as int).contains(best),
    decreases n,
{
    lemma_nearest_is_one(handles, n);
    lemma_nearest_is_one(handles, (n - 1) as nat);
    if i < n - 1 {
        law_nearest_handle_is_taken(handles, (n - 1) as nat, i);
    }
}

proof fn lemma_nearest_is_one(handles: Seq<HandleDistance>, n: nat)
    requires
        n <= handles.len(),
    ensures
        nearest(handles, n) matches Some(best) ==> in_reach(best) && handles.take(
            n as int,
        ).contains(best),
    decreases n,
{
    if n > 0 {
        lemma_nearest_is_one(handles, (n - 1) as nat);
        match nearest(handles, n) {
            Some(best) => {
                if handles.take(n - 1).contains(best) {
                    let k = handles.take(n - 1).index_of(best);
                    assert(handles.take(n as int)[k] == best);
                } else {
                    assert(handles.take(n as int)[n - 1] == best);
                }
            },
            None => {},
        }
    }
}

/// A handle is taken if the pointer is at most eight pixels away from it: the nearest of
/// them, and of several that are as near the first.
pub proof fn law_first_of_the_nearest_handles_is_taken(handles: Seq<HandleDistance>) -> (k: int)
    ensures
        ({
            let eight = Scalar { bits: 0x4100_0000 };
            let taken = nearest(handles, handles.len());
            &&& taken is Some ==> 0 <= k < handles.len() && taken == Some(handles[k])
                && handles[k].distance.at_most(eight)
            &&& taken is Some ==> forall|i: int|
                0 <= i < handles.len() && (#[trigger] handles[i]).distance.at_most(eight)
                    ==> handles[k].distance.place() <= handles[i].distance.place()
            &&& taken is Some ==> forall|i: int|
                0 <= i < k && (#[trigger] handles[i]).distance.at_most(eight)
                    ==> handles[k].distance.place() < handles[i].distance.place()
            &&& taken is None ==> forall|i: int|
                0 <= i < handles.len() ==> !(#[trigger] handles[i]).distance.at_most(eight)
        }),
{
    lemma_first_of_the_nearest(handles, handles.len())
}

proof fn lemma_first_of_the_nearest(handles: Seq<HandleDistance>, n: nat) -> (k: int)
    requires
        n <= handles.len(),
    ensures
        ({
            let taken = nearest(handles, n);
            &&& taken is Some ==> 0 <= k < n && taken == Some(handles[k]) && in_reach(handles[k])
            &&& taken is Some ==> forall|i: int|
                0 <= i < n && in_reach(#[trigger] handles[i]) ==> handles[k].distance.place()
                    <= handles[i].distance.place()
            &&& taken is Some ==> forall|i: int|
                0 <= i < k && in_reach(#[trigger] handles[i]) ==> handles[k].distance.place()
                    < handles[i].distance.place()
            &&& taken is None ==> forall|i: int|
                0 <= i < n ==> !in_reach(#[trigger] handles[i])
        }),
    decreases n,
{
    if n == 0 {
        0
    } else {
        let k = lemma_first_of_the_nearest(handles, (n - 1) as nat);
        if nearest(handles, n) == nearest(handles, (n - 1) as nat) && nearest(
            handles,
            (n - 1) as nat,
        ) is Some && !(in_reach(handles[n - 1]) && handles[n - 1].distance.place()
            < handles[k].distance.place()) {
            k
        } else {
            n - 1
        }
    }
}

/// In space there is a handle for every axis. In the plane things are moved and scaled
/// along the first two, and turned round the third. The handles stand in the order of the
/// axes.
pub proof fn law_axes_of_the_plane(mode: GizmoMode, two_d: bool, i: int, j: int)
    ensures
        ({
            let shown = shown_axes(mode, two_d);
            &&& shown.contains(Axis::X) <==> !(two_d && mode is Rotate)
            &&& shown.contains(Axis::Y) <==> !(two_d && mode is Rotate)
            &&& shown.contains(Axis::Z) <==> !two_d || mode is Rotate
            &&& 0 <= i < j < shown.len() ==> shown[i] is X || (shown[i] is Y && shown[j] is Z)
            &&& 0 <= i < j < shown.len() ==> shown[i] != shown[j]
        }),
{
    let shown = shown_axes(mode, two_d);
    assert(shown.contains(shown[0]));
    assert(shown.contains(shown[shown.len() - 1]));
    if !two_d {
        assert(shown[1] == Axis::Y);
    }
}

} // verus!
