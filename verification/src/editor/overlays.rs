//! What the scene view draws over the scene: colliders, cameras, lights, sound
//! sources, the ground grid and the navigation grid.

use vstd::prelude::*;

use crate::ecs::components::{identity, Camera, ColliderShape, Components, Transform, Vec2, Vec3};
use crate::ecs::scalar::{zero, Scalar};
use crate::ecs::world::{SceneWorld, WorldView};

verus! {

/// Which overlays are on.
#[derive(Debug, Clone, Copy, PartialEq, Eq, Structural)]
pub struct OverlayToggles {
    /// The collision shapes.
    pub colliders: bool,
    /// The lights.
    pub lights: bool,
    /// What the cameras see.
    pub cameras: bool,
    /// The ground grid.
    pub grid: bool,
    /// The sound sources.
    pub audio: bool,
    /// The navigation grid.
    pub nav: bool,
}

/// No overlay.
pub open spec fn no_overlays() -> OverlayToggles {
    OverlayToggles {
        colliders: false,
        lights: false,
        cameras: false,
        grid: false,
        audio: false,
        nav: false,
    }
}

impl Default for OverlayToggles {
    fn default() -> (toggles: OverlayToggles)
        ensures
            toggles == no_overlays(),
    {
        OverlayToggles {
            colliders: false,
            lights: false,
            cameras: false,
            grid: false,
            audio: false,
            nav: false,
        }
    }
}

impl OverlayToggles {
    /// Whether any overlay is on.
    pub fn any(self) -> (answer: bool)
        ensures
            answer == (self != no_overlays()),
    {
        self.colliders || self.lights || self.cameras || self.grid || self.audio || self.nav
    }
}

/// A light at a place.
#[derive(Debug, Clone, Copy, PartialEq, Eq, Structural)]
pub struct PointLight {
    /// Where it is.
    pub position: Vec3,
    /// How far it reaches.
    pub range: Scalar,
}

/// The lights of the scene view.
#[derive(Debug)]
pub struct Lights {
    /// The headings of the directional lights.
    pub directions: Vec<Vec3>,
    /// The lights that have a place.
    pub points: Vec<PointLight>,
}

/// A grid of cells, each walkable or blocked, row by row.
#[derive(Debug)]
pub struct NavGrid {
    /// How many cells a row has.
    pub width: u32,
    /// How many rows there are.
    pub height: u32,
    /// How large a cell is.
    pub cell_size: Scalar,
    /// Where its first corner lies in the ground plane.
    pub origin: Vec2,
    /// Which cells are blocked.
    pub blocked: Vec<bool>,
}

impl NavGrid {
    /// Whether there is exactly one flag for each cell.
    pub open spec fn well_formed(self) -> bool {
        self.blocked@.len() == self.width * self.height
    }

    /// Whether there is exactly one flag for each cell.
    pub fn is_well_formed(&self) -> (answer: bool)
        ensures
            answer == self.well_formed(),
    {
        assert(0 <= self.width * self.height <= 0xffff_ffff * 0xffff_ffff) by (nonlinear_arith)
            requires
                0 <= self.width <= 0xffff_ffff,
                0 <= self.height <= 0xffff_ffff,
        ;
        self.blocked.len() as u64 == self.width as u64 * self.height as u64
    }
}

/// One thing that is drawn.
#[derive(Debug, PartialEq, Eq)]
pub enum OverlayItem {
    /// The ground grid.
    Grid,
    /// The outline of a collision shape.
    Shape {
        /// Where the entity is.
        at: Transform,
        /// The shape.
        shape: ColliderShape,
    },
    /// A marker in place of the triangles of a mesh.
    MeshMarker {
        /// Where the entity is.
        at: Transform,
    },
    /// What a camera sees.
    Frustum {
        /// The camera.
        camera: Camera,
        /// Where the camera is moved to, if its entity was placed away from the
        /// origin.
        moved_to: Option<Vec3>,
    },
    /// An arrow for a directional light.
    Heading {
        /// Its heading.
        direction: Vec3,
    },
    /// A marker for a light.
    LightMarker {
        /// Where it is.
        position: Vec3,
    },
    /// A ring at the reach of a light.
    LightRing {
        /// Where it is.
        position: Vec3,
        /// How far it reaches.
        range: Scalar,
    },
    /// A marker for a sound source.
    EmitterMarker {
        /// Where the entity is.
        at: Transform,
    },
    /// A ring at the reach of a sound source.
    EmitterRing {
        /// Where the entity is.
        at: Transform,
        /// How far it can be heard.
        radius: Scalar,
    },
    /// The line before a column of the navigation grid.
    NavColumn {
        /// The column.
        column: u64,
    },
    /// The line before a row of the navigation grid.
    NavRow {
        /// The row.
        row: u64,
    },
    /// A cross over a blocked cell.
    NavBlocked {
        /// The column of the cell.
        column: u64,
        /// The row of the cell.
        row: u64,
    },
}

/// Where an entity is: its world-space transform, its own where that is not known yet,
/// and the origin where it has neither.
pub open spec fn placement(components: Components) -> Transform {
    match components.global_transform {
        Some(global) => global.0,
        None => match components.transform {
            Some(local) => local,
            None => identity(),
        },
    }
}

fn place(components: &Components) -> (at: Transform)
    ensures
        at == placement(*components),
{
    match components.global_transform {
        Some(global) => global.0,
        None => match components.transform {
            Some(local) => local,
            None => Transform::identity(),
        },
    }
}

/// What is drawn for the collider of an entity.
pub open spec fn collider_items(components: Components) -> Seq<OverlayItem> {
    match components.collider {
        Some(collider) => match collider.shape {
            ColliderShape::TriMesh { .. } => seq![
                OverlayItem::MeshMarker { at: placement(components) },
            ],
            shape => seq![OverlayItem::Shape { at: placement(components), shape }],
        },
        None => Seq::empty(),
    }
}

/// What is drawn for the camera of an entity.
pub open spec fn camera_items(components: Components) -> Seq<OverlayItem> {
    match components.camera {
        Some(camera) => {
            let place = placement(components).translation;
            seq![
                OverlayItem::Frustum {
                    camera,
                    moved_to: if place.same(Vec3 { x: zero(), y: zero(), z: zero() }) {
                        None
                    } else {
                        Some(place)
                    },
                },
            ]
        },
        None => Seq::empty(),
    }
}

/// What is drawn for the sound source of an entity.
pub open spec fn emitter_items(components: Components) -> Seq<OverlayItem> {
    match components.audio_emitter {
        Some(emitter) => {
            let at = placement(components);
            let marker = seq![OverlayItem::EmitterMarker { at }];
            if zero().less(emitter.radius) {
                marker.push(OverlayItem::EmitterRing { at, radius: emitter.radius })
            } else {
                marker
            }
        },
        None => Seq::empty(),
    }
}

/// What is drawn for the first `n` entities.
pub open spec fn entity_items(
    world: WorldView,
    of: spec_fn(Components) -> Seq<OverlayItem>,
    n: nat,
) -> Seq<OverlayItem>
    decreases n,
{
    if n == 0 {
        Seq::empty()
    } else {
        entity_items(world, of, (n - 1) as nat) + of(world.table[world.order[n - 1]])
    }
}

/// What is drawn for the first `n` lights that have a place.
pub open spec fn point_items(points: Seq<PointLight>, n: nat) -> Seq<OverlayItem>
    decreases n,
{
    if n == 0 {
        Seq::empty()
    } else {
        let light = points[n - 1];
        let marked = point_items(points, (n - 1) as nat).push(
            OverlayItem::LightMarker { position: light.position },
        );
        if zero().less(light.range) {
            marked.push(OverlayItem::LightRing { position: light.position, range: light.range })
        } else {
            marked
        }
    }
}

/// What is drawn for the lights.
pub open spec fn light_items(lights: Lights) -> Seq<OverlayItem> {
    lights.directions@.map_values(|direction: Vec3| OverlayItem::Heading { direction })
        + point_items(lights.points@, lights.points@.len())
}

/// The crosses over the blocked cells among the first `n`.
pub open spec fn blocked_items(blocked: Seq<bool>, width: int, n: nat) -> Seq<OverlayItem>
    decreases n,
{
    if n == 0 {
        Seq::empty()
    } else {
        let before = blocked_items(blocked, width, (n - 1) as nat);
        if blocked[n - 1] {
            before.push(
                OverlayItem::NavBlocked {
                    column: ((n - 1) % width) as u64,
                    row: ((n - 1) / width) as u64,
                },
            )
        } else {
            before
        }
    }
}

/// What is drawn for the navigation grid: nothing where it is not well formed.
pub open spec fn nav_items(grid: Option<NavGrid>) -> Seq<OverlayItem> {
    match grid {
        Some(grid) => if grid.well_formed() {
            Seq::new((grid.width + 1) as nat, |i: int| OverlayItem::NavColumn { column: i as u64 })
                + Seq::new(
                (grid.height + 1) as nat,
                |i: int| OverlayItem::NavRow { row: i as u64 },
            ) + blocked_items(grid.blocked@, grid.width as int, grid.blocked@.len())
        } else {
            Seq::empty()
        },
        None => Seq::empty(),
    }
}

/// The items where the overlay is on, else none.
pub open spec fn items_if(on: bool, items: Seq<OverlayItem>) -> Seq<OverlayItem> {
    if on {
        items
    } else {
        Seq::empty()
    }
}

/// What is drawn for the colliders of the world.
pub open spec fn all_colliders(world: WorldView) -> Seq<OverlayItem> {
    entity_items(world, |c: Components| collider_items(c), world.order.len())
}

/// What is drawn for the cameras of the world.
pub open spec fn all_cameras(world: WorldView) -> Seq<OverlayItem> {
    entity_items(world, |c: Components| camera_items(c), world.order.len())
}

/// What is drawn for the sound sources of the world.
pub open spec fn all_emitters(world: WorldView) -> Seq<OverlayItem> {
    entity_items(world, |c: Components| emitter_items(c), world.order.len())
}

/// All that the overlays draw.
pub open spec fn overlay(
    world: WorldView,
    lights: Lights,
    nav: Option<NavGrid>,
    toggles: OverlayToggles,
) -> Seq<OverlayItem> {
    items_if(toggles.grid, seq![OverlayItem::Grid]) + items_if(
        toggles.colliders,
        all_colliders(world),
    ) + items_if(toggles.cameras, all_cameras(world)) + items_if(
        toggles.lights,
        light_items(lights),
    ) + items_if(toggles.audio, all_emitters(world)) + items_if(toggles.nav, nav_items(nav))
}

fn draw_colliders(world: &SceneWorld, draw: &mut Vec<OverlayItem>)
    requires
        world.wf(),
    ensures
        final(draw)@ == old(draw)@ + all_colliders(world@),
{
    let ghost start = draw@;
    let ghost of = |c: Components| collider_items(c);
    let count: usize = world.len();
    for i in 0..count
        invariant
            world.wf(),
            count == world@.order.len(),
            of == (|c: Components| collider_items(c)),
            draw@ == start + entity_items(world@, of, i as nat),
    {
        let components = world.components_at(i);
        let ghost before = draw@;
        match &components.collider {
            Some(collider) => {
                let at = place(components);
                match &collider.shape {
                    ColliderShape::TriMesh { .. } => {
                        draw.push(OverlayItem::MeshMarker { at });
                    },
                    shape => {
                        draw.push(OverlayItem::Shape { at, shape: shape.clone() });
                    },
                }
            },
            None => {},
        }
        assert(draw@ =~= before + collider_items(*components));
        assert(draw@ =~= start + entity_items(world@, of, (i + 1) as nat));
    }
}

fn draw_cameras(world: &SceneWorld, draw: &mut Vec<OverlayItem>)
    requires
        world.wf(),
    ensures
        final(draw)@ == old(draw)@ + all_cameras(world@),
{
    let ghost start = draw@;
    let ghost of = |c: Components| camera_items(c);
    let origin = Vec3 { x: Scalar::zero(), y: Scalar::zero(), z: Scalar::zero() };
    let count: usize = world.len();
    for i in 0..count
        invariant
            world.wf(),
            count == world@.order.len(),
            origin == (Vec3 { x: zero(), y: zero(), z: zero() }),
            of == (|c: Components| camera_items(c)),
            draw@ == start + entity_items(world@, of, i as nat),
    {
        let components = world.components_at(i);
        let ghost before = draw@;
        match components.camera {
            Some(camera) => {
                let place = place(components).translation;
                let moved_to: Option<Vec3> = if place.is_same(&origin) {
                    None
                } else {
                    Some(place)
                };
                draw.push(OverlayItem::Frustum { camera, moved_to });
            },
            None => {},
        }
        assert(draw@ =~= before + camera_items(*components));
        assert(draw@ =~= start + entity_items(world@, of, (i + 1) as nat));
    }
}

fn draw_audio_emitters(world: &SceneWorld, draw: &mut Vec<OverlayItem>)
    requires
        world.wf(),
    ensures
        final(draw)@ == old(draw)@ + all_emitters(world@),
{
    let ghost start = draw@;
    let ghost of = |c: Components| emitter_items(c);
    let nothing = Scalar::zero();
    let count: usize = world.len();
    for i in 0..count
        invariant
            world.wf(),
            count == world@.order.len(),
            nothing == zero(),
            of == (|c: Components| emitter_items(c)),
            draw@ == start + entity_items(world@, of, i as nat),
    {
        let components = world.components_at(i);
        let ghost before = draw@;
        match &components.audio_emitter {
            Some(emitter) => {
                let at = place(components);
                draw.push(OverlayItem::EmitterMarker { at });
                if nothing.is_less(&emitter.radius) {
                    draw.push(OverlayItem::EmitterRing { at, radius: emitter.radius });
                }
            },
            None => {},
        }
        assert(draw@ =~= before + emitter_items(*components));
        assert(draw@ =~= start + entity_items(world@, of, (i + 1) as nat));
    }
}

fn draw_lights(lights: &Lights, draw: &mut Vec<OverlayItem>)
    ensures
        final(draw)@ == old(draw)@ + light_items(*lights),
{
    let ghost start = draw@;
    let ghost headings = lights.directions@.map_values(
        |direction: Vec3| OverlayItem::Heading { direction },
    );
    let count: usize = lights.directions.len();
    for i in 0..count
        invariant
            count == lights.directions@.len(),
            headings == lights.directions@.map_values(
                |direction: Vec3| OverlayItem::Heading { direction },
            ),
            draw@ == start + headings.take(i as int),
    {
        draw.push(OverlayItem::Heading { direction: lights.directions[i] });
        assert(draw@ =~= start + headings.take(i + 1));
    }
    assert(headings.take(count as int) =~= headings);
    let nothing = Scalar::zero();
    let count: usize = lights.points.len();
    for i in 0..count
        invariant
            count == lights.points@.len(),
            nothing == zero(),
            draw@ == start + headings + point_items(lights.points@, i as nat),
    {
        let light = lights.points[i];
        draw.push(OverlayItem::LightMarker { position: light.position });
        if nothing.is_less(&light.range) {
            draw.push(OverlayItem::LightRing { position: light.position, range: light.range });
        }
        assert(draw@ =~= start + headings + point_items(lights.points@, (i + 1) as nat));
    }
    assert(draw@ =~= start + light_items(*lights));
}

fn draw_nav_grid(grid: &Option<NavGrid>, draw: &mut Vec<OverlayItem>)
    ensures
        final(draw)@ == old(draw)@ + nav_items(*grid),
{
    let ghost start = draw@;
    let grid = match grid {
        Some(grid) => grid,
        None => {
            assert(draw@ =~= start + Seq::<OverlayItem>::empty());
            return;
        },
    };
    if !grid.is_well_formed() {
        assert(draw@ =~= start + Seq::<OverlayItem>::empty());
        return;
    }
    let ghost columns = Seq::new(
        (grid.width + 1) as nat,
        |i: int| OverlayItem::NavColumn { column: i as u64 },
    );
    let ghost rows = Seq::new(
        (grid.height + 1) as nat,
        |i: int| OverlayItem::NavRow { row: i as u64 },
    );
    let columns_end: u64 = grid.width as u64 + 1;
    for column in 0..columns_end
        invariant
            columns.len() == columns_end,
            forall|i: int|
                0 <= i < columns.len() ==> columns[i] == (OverlayItem::NavColumn {
                    column: i as u64,
                }),
            draw@ == start + columns.take(column as int),
    {
        draw.push(OverlayItem::NavColumn { column });
        assert(draw@ =~= start + columns.take(column + 1));
    }
    assert(columns.take(columns_end as int) =~= columns);
    let rows_end: u64 = grid.height as u64 + 1;
    for row in 0..rows_end
        invariant
            rows.len() == rows_end,
            forall|i: int|
                0 <= i < rows.len() ==> rows[i] == (OverlayItem::NavRow { row: i as u64 }),
            draw@ == start + columns + rows.take(row as int),
    {
        draw.push(OverlayItem::NavRow { row });
        assert(draw@ =~= start + columns + rows.take(row + 1));
    }
    assert(rows.take(rows_end as int) =~= rows);
    let count: usize = grid.blocked.len();
    for i in 0..count
        invariant
            count == grid.blocked@.len(),
            grid.well_formed(),
            draw@ == start + columns + rows + blocked_items(
                grid.blocked@,
                grid.width as int,
                i as nat,
            ),
    {
        if grid.blocked[i] {
            assert(0 < grid.width <= count) by (nonlinear_arith)
                requires
                    count == grid.width * grid.height,
                    i < count,
            ;
            let width: u64 = grid.width as u64;
            draw.push(OverlayItem::NavBlocked { column: i as u64 % width, row: i as u64 / width });
        }
        assert(draw@ =~= start + columns + rows + blocked_items(
            grid.blocked@,
            grid.width as int,
            (i + 1) as nat,
        ));
    }
    assert(draw@ =~= start + nav_items(Some(*grid)));
}

proof fn lemma_step(
    start: Seq<OverlayItem>,
    done: Seq<OverlayItem>,
    on: bool,
    items: Seq<OverlayItem>,
)
    ensures
        start + (done + items_if(on, items)) == (if on {
            start + done + items
        } else {
            start + done
        }),
{
    assert(start + (done + items_if(on, items)) =~= (if on {
        start + done + items
    } else {
        start + done
    }));
}

/// Adds what the overlays draw to `draw`: the ground grid, then the colliders, the
/// cameras, the lights, the sound sources and the navigation grid, each where it is on.
pub fn build(
    world: &SceneWorld,
    lights: &Lights,
    nav: &Option<NavGrid>,
    toggles: OverlayToggles,
    draw: &mut Vec<OverlayItem>,
)
    requires
        world.wf(),
    ensures
        final(draw)@ == old(draw)@ + overlay(world@, *lights, *nav, toggles),
{
    proof {
        law_no_overlay_draws_nothing(world@, *lights, *nav);
        assert(draw@ + Seq::<OverlayItem>::empty() =~= draw@);
    }
    let ghost start = draw@;
    if !toggles.any() {
        return;
    }
    let ghost grid = items_if(toggles.grid, seq![OverlayItem::Grid]);
    let ghost colliders = grid + items_if(toggles.colliders, all_colliders(world@));
    let ghost cameras = colliders + items_if(toggles.cameras, all_cameras(world@));
    let ghost lit = cameras + items_if(toggles.lights, light_items(*lights));
    let ghost heard = lit + items_if(toggles.audio, all_emitters(world@));
    proof {
        lemma_step(start, grid, toggles.colliders, all_colliders(world@));
        lemma_step(start, colliders, toggles.cameras, all_cameras(world@));
        lemma_step(start, cameras, toggles.lights, light_items(*lights));
        lemma_step(start, lit, toggles.audio, all_emitters(world@));
        lemma_step(start, heard, toggles.nav, nav_items(*nav));
    }
    if toggles.grid {
        draw.push(OverlayItem::Grid);
    }
    assert(draw@ =~= start + grid);
    if toggles.colliders {
        draw_colliders(world, draw);
    }
    if toggles.cameras {
        draw_cameras(world, draw);
    }
    if toggles.lights {
        draw_lights(lights, draw);
    }
    if toggles.audio {
        draw_audio_emitters(world, draw);
    }
    if toggles.nav {
        draw_nav_grid(nav, draw);
    }
}

/// Nothing is drawn where every overlay is off.
pub proof fn law_no_overlay_draws_nothing(world: WorldView, lights: Lights, nav: Option<NavGrid>)
    ensures
        overlay(world, lights, nav, no_overlays()) == Seq::<OverlayItem>::empty(),
{
    assert(overlay(world, lights, nav, no_overlays()) =~= Seq::<OverlayItem>::empty());
}

/// No overlay suppresses or repeats another: together they draw what each draws by
/// itself.
pub proof fn law_overlays_are_independent(
    world: WorldView,
    lights: Lights,
    nav: Option<NavGrid>,
    toggles: OverlayToggles,
)
    ensures
        overlay(world, lights, nav, toggles) == overlay(
            world,
            lights,
            nav,
            (OverlayToggles { grid: toggles.grid, ..no_overlays() }),
        ) + overlay(
            world,
            lights,
            nav,
            (OverlayToggles { colliders: toggles.colliders, ..no_overlays() }),
        ) + overlay(
            world,
            lights,
            nav,
            (OverlayToggles { cameras: toggles.cameras, ..no_overlays() }),
        ) + overlay(
            world,
            lights,
            nav,
            (OverlayToggles { lights: toggles.lights, ..no_overlays() }),
        ) + overlay(
            world,
            lights,
            nav,
            (OverlayToggles { audio: toggles.audio, ..no_overlays() }),
        ) + overlay(
            world,
            lights,
            nav,
            (OverlayToggles { nav: toggles.nav, ..no_overlays() }),
        ),
{
    let none = no_overlays();
    assert(overlay(world, lights, nav, OverlayToggles { grid: toggles.grid, ..none }) =~= items_if(
        toggles.grid,
        seq![OverlayItem::Grid],
    ));
    assert(overlay(world, lights, nav, OverlayToggles { colliders: toggles.colliders, ..none })
        =~= items_if(toggles.colliders, all_colliders(world)));
    assert(overlay(world, lights, nav, OverlayToggles { cameras: toggles.cameras, ..none })
        =~= items_if(toggles.cameras, all_cameras(world)));
    assert(overlay(world, lights, nav, OverlayToggles { lights: toggles.lights, ..none })
        =~= items_if(toggles.lights, light_items(lights)));
    assert(overlay(world, lights, nav, OverlayToggles { audio: toggles.audio, ..none })
        =~= items_if(toggles.audio, all_emitters(world)));
    assert(overlay(world, lights, nav, OverlayToggles { nav: toggles.nav, ..none }) =~= items_if(
        toggles.nav,
        nav_items(nav),
    ));
}

/// Where what is drawn for an entity stands: at its place in the world or, before it has
/// one, where its own transform puts it.
pub proof fn law_marks_stand_at_the_entity(components: Components)
    ensures
        components.global_transform is Some ==> placement(components)
            == (components.global_transform->0).0,
        components.global_transform is None && components.transform is Some ==> placement(
            components,
        ) == components.transform->0,
        components.global_transform is None && components.transform is None ==> placement(
            components,
        ).translation == (Vec3 {
            x: Scalar { bits: 0 },
            y: Scalar { bits: 0 },
            z: Scalar { bits: 0 },
        }),
{
}

/// What is drawn for an entity: with colliders shown, its collider's shape, or a mark where
/// that is a mesh; with cameras shown, what its camera sees, moved to where the entity is
/// unless that is the origin; with sounds shown, a mark for its sound and a ring as far as
/// it is heard.
pub proof fn law_entities_are_marked(
    world: WorldView,
    lights: Lights,
    nav: Option<NavGrid>,
    toggles: OverlayToggles,
    i: int,
)
    requires
        0 <= i < world.order.len(),
    ensures
        ({
            let own = world.table[world.order[i]];
            let at = placement(own);
            let drawn = overlay(world, lights, nav, toggles);
            let origin = Vec3 {
                x: Scalar { bits: 0 },
                y: Scalar { bits: 0 },
                z: Scalar { bits: 0 },
            };
            &&& toggles.colliders && own.collider is Some && own.collider->0.shape is TriMesh
                ==> drawn.contains(OverlayItem::MeshMarker { at })
            &&& toggles.colliders && own.collider is Some && !(own.collider->0.shape is TriMesh)
                ==> drawn.contains(OverlayItem::Shape { at, shape: own.collider->0.shape })
            &&& toggles.cameras && own.camera is Some && at.translation.same(origin)
                ==> drawn.contains(OverlayItem::Frustum { camera: own.camera->0, moved_to: None })
            &&& toggles.cameras && own.camera is Some && !at.translation.same(origin)
                ==> drawn.contains(
                OverlayItem::Frustum { camera: own.camera->0, moved_to: Some(at.translation) },
            )
            &&& toggles.audio && own.audio_emitter is Some ==> drawn.contains(
                OverlayItem::EmitterMarker { at },
            )
            &&& toggles.audio && own.audio_emitter is Some && (Scalar { bits: 0 }).less(
                own.audio_emitter->0.radius,
            ) ==> drawn.contains(
                OverlayItem::EmitterRing { at, radius: own.audio_emitter->0.radius },
            )
        }),
{
    let own = world.table[world.order[i]];
    let at = placement(own);
    let n = world.order.len();
    if own.collider is Some {
        let item = collider_items(own)[0];
        assert(collider_items(own).contains(item));
        lemma_entity_items(world, |c: Components| collider_items(c), n, item);
        lemma_overlay_has(world, lights, nav, toggles, item);
    }
    if own.camera is Some {
        let item = camera_items(own)[0];
        assert(camera_items(own).contains(item));
        lemma_entity_items(world, |c: Components| camera_items(c), n, item);
        lemma_overlay_has(world, lights, nav, toggles, item);
    }
    if own.audio_emitter is Some {
        let items = emitter_items(own);
        assert(items.contains(items[0]) && items.contains(items.last()));
        lemma_entity_items(world, |c: Components| emitter_items(c), n, items[0]);
        lemma_overlay_has(world, lights, nav, toggles, items[0]);
        lemma_entity_items(world, |c: Components| emitter_items(c), n, items.last());
        lemma_overlay_has(world, lights, nav, toggles, items.last());
    }
}

/// Nothing else is drawn: what is drawn for entities is drawn for one of the world that has
/// what is shown, at its place, and only while it is to be shown.
pub proof fn law_marks_belong_to_entities(
    world: WorldView,
    lights: Lights,
    nav: Option<NavGrid>,
    toggles: OverlayToggles,
    item: OverlayItem,
) -> (i: int)
    requires
        overlay(world, lights, nav, toggles).contains(item),
    ensures
        ({
            let own = world.table[world.order[i]];
            let at = placement(own);
            let there = 0 <= i < world.order.len();
            &&& item matches OverlayItem::Grid ==> toggles.grid
            &&& item matches OverlayItem::Shape { at: place, shape } ==> toggles.colliders && there
                && place == at && own.collider is Some && own.collider->0.shape == shape
                && !(shape is TriMesh)
            &&& item matches OverlayItem::MeshMarker { at: place } ==> toggles.colliders && there
                && place == at && own.collider is Some && own.collider->0.shape is TriMesh
            &&& item matches OverlayItem::Frustum { camera, moved_to } ==> toggles.cameras && there
                && own.camera == Some(camera) && (moved_to is Some ==> moved_to == Some(
                at.translation,
            )) && (moved_to is None <==> at.translation.same(
                Vec3 { x: Scalar { bits: 0 }, y: Scalar { bits: 0 }, z: Scalar { bits: 0 } },
            ))
            &&& item matches OverlayItem::EmitterMarker { at: place } ==> toggles.audio && there
                && place == at && own.audio_emitter is Some
            &&& item matches OverlayItem::EmitterRing { at: place, radius } ==> toggles.audio
                && there && place == at && own.audio_emitter is Some
                && own.audio_emitter->0.radius == radius && (Scalar { bits: 0 }).less(radius)
            &&& item matches OverlayItem::Heading { direction } ==> toggles.lights
                && lights.directions@.contains(direction)
            &&& item is LightMarker || item is LightRing ==> toggles.lights
            &&& item is NavColumn || item is NavRow || item is NavBlocked ==> toggles.nav
                && nav is Some && nav->0.well_formed()
        }),
{
    let n = world.order.len();
    lemma_overlay_has(world, lights, nav, toggles, item);
    lemma_light_items(lights, item);
    lemma_nav_items(nav, item);
    let i = lemma_entity_items(world, |c: Components| collider_items(c), n, item);
    let j = lemma_entity_items(world, |c: Components| camera_items(c), n, item);
    let k = lemma_entity_items(world, |c: Components| emitter_items(c), n, item);
    if item is Shape || item is MeshMarker {
        i
    } else if item is Frustum {
        j
    } else {
        k
    }
}

/// A light of the scene is drawn while lights are shown: a heading for one from afar, a mark
/// for one at a place, and a ring as far as that reaches.
pub proof fn law_lights_are_marked(
    world: WorldView,
    lights: Lights,
    nav: Option<NavGrid>,
    toggles: OverlayToggles,
    i: int,
)
    ensures
        ({
            let drawn = overlay(world, lights, nav, toggles);
            let light = lights.points@[i];
            &&& toggles.lights && 0 <= i < lights.directions@.len() ==> drawn.contains(
                OverlayItem::Heading { direction: lights.directions@[i] },
            )
            &&& toggles.lights && 0 <= i < lights.points@.len() ==> drawn.contains(
                OverlayItem::LightMarker { position: light.position },
            )
            &&& toggles.lights && 0 <= i < lights.points@.len() && (Scalar { bits: 0 }).less(
                light.range,
            ) ==> drawn.contains(
                OverlayItem::LightRing { position: light.position, range: light.range },
            )
        }),
{
    let light = lights.points@[i];
    let headings = lights.directions@.map_values(
        |direction: Vec3| OverlayItem::Heading { direction },
    );
    let points = point_items(lights.points@, lights.points@.len());
    if 0 <= i < lights.directions@.len() {
        let item = OverlayItem::Heading { direction: lights.directions@[i] };
        assert(headings[i] == item);
        lemma_in_sum(headings, points, item);
        lemma_overlay_has(world, lights, nav, toggles, item);
    }
    if 0 <= i < lights.points@.len() {
        let mark = OverlayItem::LightMarker { position: light.position };
        let ring = OverlayItem::LightRing { position: light.position, range: light.range };
        lemma_point_items(lights.points@, lights.points@.len(), i);
        lemma_in_sum(headings, points, mark);
        lemma_in_sum(headings, points, ring);
        lemma_overlay_has(world, lights, nav, toggles, mark);
        lemma_overlay_has(world, lights, nav, toggles, ring);
    }
}

/// The grid of ways is drawn, while it is to be shown and has a cell for every place in it,
/// by its lines, one more each way than there are cells, and by its blocked cells: the cells
/// are counted row by row.
pub proof fn law_ways_are_marked(
    world: WorldView,
    lights: Lights,
    grid: NavGrid,
    toggles: OverlayToggles,
    column: u64,
    row: u64,
)
    requires
        toggles.nav,
        grid.blocked@.len() == grid.width * grid.height,
    ensures
        ({
            let drawn = overlay(world, lights, Some(grid), toggles);
            &&& drawn.contains(OverlayItem::NavColumn { column }) <==> column <= grid.width
            &&& drawn.contains(OverlayItem::NavRow { row }) <==> row <= grid.height
            &&& drawn.contains(OverlayItem::NavBlocked { column, row }) <==> column < grid.width
                && row < grid.height && grid.blocked@[row * grid.width + column]
        }),
{
    let nav = Some(grid);
    let lines = OverlayItem::NavColumn { column };
    let across = OverlayItem::NavRow { row };
    let cell = OverlayItem::NavBlocked { column, row };
    lemma_overlay_has(world, lights, nav, toggles, lines);
    lemma_overlay_has(world, lights, nav, toggles, across);
    lemma_overlay_has(world, lights, nav, toggles, cell);
    let n = world.order.len();
    lemma_entity_items(world, |c: Components| collider_items(c), n, lines);
    lemma_entity_items(world, |c: Components| camera_items(c), n, lines);
    lemma_entity_items(world, |c: Components| emitter_items(c), n, lines);
    lemma_entity_items(world, |c: Components| collider_items(c), n, across);
    lemma_entity_items(world, |c: Components| camera_items(c), n, across);
    lemma_entity_items(world, |c: Components| emitter_items(c), n, across);
    lemma_entity_items(world, |c: Components| collider_items(c), n, cell);
    lemma_entity_items(world, |c: Components| camera_items(c), n, cell);
    lemma_entity_items(world, |c: Components| emitter_items(c), n, cell);
    lemma_light_items(lights, lines);
    lemma_light_items(lights, across);
    lemma_light_items(lights, cell);
    let columns = Seq::new(
        (grid.width + 1) as nat,
        |i: int| OverlayItem::NavColumn { column: i as u64 },
    );
    let rows = Seq::new(
        (grid.height + 1) as nat,
        |i: int| OverlayItem::NavRow { row: i as u64 },
    );
    let cells = blocked_items(grid.blocked@, grid.width as int, grid.blocked@.len());
    assert(nav_items(nav) =~= columns + rows + cells);
    lemma_in_sum(columns + rows, cells, lines);
    lemma_in_sum(columns, rows, lines);
    lemma_in_sum(columns + rows, cells, across);
    lemma_in_sum(columns, rows, across);
    lemma_in_sum(columns + rows, cells, cell);
    lemma_in_sum(columns, rows, cell);
    if column <= grid.width {
        assert(columns[column as int] == lines);
    }
    if row <= grid.height {
        assert(rows[row as int] == across);
    }
    lemma_blocked_items(grid.blocked@, grid.width, grid.height, grid.blocked@.len(), column, row);
    lemma_only_blocked(grid.blocked@, grid.width as int, grid.blocked@.len());
}

proof fn lemma_only_blocked(blocked: Seq<bool>, width: int, n: nat)
    ensures
        forall|k: int|
            0 <= k < blocked_items(blocked, width, n).len() ==> #[trigger] blocked_items(
                blocked,
                width,
                n,
            )[k] is NavBlocked,
    decreases n,
{
    if n > 0 {
        lemma_only_blocked(blocked, width, (n - 1) as nat);
    }
}

proof fn lemma_blocked_items(
    blocked: Seq<bool>,
    width: u32,
    height: u32,
    n: nat,
    column: u64,
    row: u64,
)
    requires
        n <= blocked.len(),
        blocked.len() == width * height,
    ensures
        blocked_items(blocked, width as int, n).contains(OverlayItem::NavBlocked { column, row })
            <==> column < width && row * width + column < n && blocked[row * width + column],
        column < width && row * width + column < blocked.len() ==> row < height,
        column < width && row < height ==> row * width + column < blocked.len(),
    decreases n,
{
    let w = width as int;
    let item = OverlayItem::NavBlocked { column, row };
    if column < width && row < height {
        assert(row * w + column < w * height) by (nonlinear_arith)
            requires
                0 <= column < w,
                0 <= row < height,
        ;
    }
    if column < width && row * width + column < blocked.len() {
        assert(row < height) by (nonlinear_arith)
            requires
                0 <= column < w,
                row * w + column < w * height,
                0 <= row,
                0 <= height,
        ;
    }
    if n > 0 {
        let m = (n - 1) as nat;
        lemma_blocked_items(blocked, width, height, m, column, row);
        let before = blocked_items(blocked, w, m);
        let all = blocked_items(blocked, w, n);
        assert(0 < w) by (nonlinear_arith)
            requires
                0 < w * height,
                0 <= height,
        ;
        lemma_cell(m as int, w, height as int);
        let own = OverlayItem::NavBlocked {
            column: (m as int % w) as u64,
            row: (m as int / w) as u64,
        };
        if column < width && row * width + column == m {
            assert(m as int / w == row && m as int % w == column) by (nonlinear_arith)
                requires
                    m == row * w + column,
                    0 <= column < w,
                    0 <= row,
            ;
        }
        if blocked[m as int] {
            assert(all =~= before.push(own));
            if before.contains(item) {
                assert(all[before.index_of(item)] == item);
            }
            assert(all[before.len() as int] == own);
            if all.contains(item) {
                let k = all.index_of(item);
                if k < before.len() {
                    assert(before[k] == item);
                }
            }
        }
    }
}

proof fn lemma_cell(m: int, w: int, h: int)
    requires
        0 < w <= u32::MAX,
        0 <= m < w * h,
        0 <= h <= u32::MAX,
    ensures
        0 <= m % w < w,
        0 <= m / w <= u32::MAX,
        m == (m / w) * w + m % w,
{
    vstd::arithmetic::div_mod::lemma_fundamental_div_mod(m, w);
    assert(w * (m / w) == (m / w) * w) by (nonlinear_arith);
    assert(0 <= m / w < h) by (nonlinear_arith)
        requires
            0 <= m < w * h,
            0 < w,
    ;
}

proof fn lemma_point_items(points: Seq<PointLight>, n: nat, i: int)
    requires
        0 <= i < n <= points.len(),
    ensures
        point_items(points, n).contains(OverlayItem::LightMarker { position: points[i].position }),
        zero().less(points[i].range) ==> point_items(points, n).contains(
            OverlayItem::LightRing { position: points[i].position, range: points[i].range },
        ),
    decreases n,
{
    let m = (n - 1) as nat;
    let before = point_items(points, m);
    let all = point_items(points, n);
    let mark = OverlayItem::LightMarker { position: points[i].position };
    let ring = OverlayItem::LightRing { position: points[i].position, range: points[i].range };
    if i < m {
        lemma_point_items(points, m, i);
        assert(all[before.index_of(mark)] == mark);
        if zero().less(points[i].range) {
            assert(all[before.index_of(ring)] == ring);
        }
    } else {
        assert(all[before.len() as int] == mark);
        if zero().less(points[i].range) {
            assert(all[before.len() as int + 1] == ring);
        }
    }
}

proof fn lemma_light_items(lights: Lights, item: OverlayItem)
    ensures
        light_items(lights).contains(item) ==> item is Heading || item is LightMarker
            || item is LightRing,
        light_items(lights).contains(item) && item is Heading ==> lights.directions@.contains(
            item->direction,
        ),
{
    let headings = lights.directions@.map_values(
        |direction: Vec3| OverlayItem::Heading { direction },
    );
    let points = point_items(lights.points@, lights.points@.len());
    lemma_in_sum(headings, points, item);
    lemma_only_points(lights.points@, lights.points@.len());
    if headings.contains(item) {
        let k = headings.index_of(item);
        assert(lights.directions@[k] == item->direction);
    }
}

proof fn lemma_only_points(points: Seq<PointLight>, n: nat)
    ensures
        forall|k: int|
            0 <= k < point_items(points, n).len() ==> (#[trigger] point_items(points, n)[k]
                is LightMarker || point_items(points, n)[k] is LightRing),
    decreases n,
{
    if n > 0 {
        lemma_only_points(points, (n - 1) as nat);
    }
}

proof fn lemma_nav_items(nav: Option<NavGrid>, item: OverlayItem)
    ensures
        nav_items(nav).contains(item) ==> nav is Some && nav->0.well_formed() && (item is NavColumn
            || item is NavRow || item is NavBlocked),
{
    if let Some(grid) = nav {
        if grid.well_formed() {
            lemma_only_blocked(grid.blocked@, grid.width as int, grid.blocked@.len());
            let items = nav_items(nav);
            if items.contains(item) {
                let k = items.index_of(item);
                assert(items[k] == item);
                let lines = grid.width + 1 + grid.height + 1;
                let cells = blocked_items(
                    grid.blocked@,
                    grid.width as int,
                    grid.blocked@.len(),
                );
                if k >= lines {
                    assert(items[k] == cells[k - lines]);
                }
            }
        }
    }
}

proof fn lemma_entity_items(
    world: WorldView,
    of: spec_fn(Components) -> Seq<OverlayItem>,
    n: nat,
    item: OverlayItem,
) -> (i: int)
    requires
        n <= world.order.len(),
    ensures
        entity_items(world, of, n).contains(item) ==> 0 <= i < n && of(
            world.table[world.order[i]],
        ).contains(item),
        forall|k: int|
            0 <= k < n && of(world.table[#[trigger] world.order[k]]).contains(item)
                ==> entity_items(world, of, n).contains(item),
    decreases n,
{
    if n == 0 {
        0
    } else {
        let i = lemma_entity_items(world, of, (n - 1) as nat, item);
        let front = entity_items(world, of, (n - 1) as nat);
        lemma_in_sum(front, of(world.table[world.order[n - 1]]), item);
        if front.contains(item) {
            i
        } else {
            n - 1
        }
    }
}

proof fn lemma_overlay_has(
    world: WorldView,
    lights: Lights,
    nav: Option<NavGrid>,
    toggles: OverlayToggles,
    item: OverlayItem,
)
    ensures
        overlay(world, lights, nav, toggles).contains(item) <==> {
            ||| toggles.grid && item is Grid
            ||| toggles.colliders && all_colliders(world).contains(item)
            ||| toggles.cameras && all_cameras(world).contains(item)
            ||| toggles.lights && light_items(lights).contains(item)
            ||| toggles.audio && all_emitters(world).contains(item)
            ||| toggles.nav && nav_items(nav).contains(item)
        },
{
    let a = items_if(toggles.grid, seq![OverlayItem::Grid]);
    let b = items_if(toggles.colliders, all_colliders(world));
    let c = items_if(toggles.cameras, all_cameras(world));
    let d = items_if(toggles.lights, light_items(lights));
    let e = items_if(toggles.audio, all_emitters(world));
    let f = items_if(toggles.nav, nav_items(nav));
    lemma_in_sum(a + b + c + d + e, f, item);
    lemma_in_sum(a + b + c + d, e, item);
    lemma_in_sum(a + b + c, d, item);
    lemma_in_sum(a + b, c, item);
    lemma_in_sum(a, b, item);
    if toggles.grid {
        assert(a[0] == OverlayItem::Grid);
    }
}

proof fn lemma_in_sum(a: Seq<OverlayItem>, b: Seq<OverlayItem>, x: OverlayItem)
    ensures
        (a + b).contains(x) <==> a.contains(x) || b.contains(x),
{
    if a.contains(x) {
        assert((a + b)[a.index_of(x)] == x);
    }
    if b.contains(x) {
        assert((a + b)[a.len() + b.index_of(x)] == x);
    }
    if (a + b).contains(x) {
        let k = (a + b).index_of(x);
        assert(if k < a.len() {
            a[k] == x
        } else {
            b[k - a.len()] == x
        });
    }
}

/// What is drawn for lights is drawn for one of the scene: a mark at its place, and a ring
/// only where it reaches somewhere, as far as it does.
pub proof fn law_light_marks_belong_to_lights(
    world: WorldView,
    lights: Lights,
    nav: Option<NavGrid>,
    toggles: OverlayToggles,
    item: OverlayItem,
) -> (k: int)
    requires
        overlay(world, lights, nav, toggles).contains(item),
        item is LightMarker || item is LightRing,
    ensures
        toggles.lights,
        0 <= k < lights.points@.len(),
        item matches OverlayItem::LightMarker { position } ==> position
            == lights.points@[k].position,
        item matches OverlayItem::LightRing { position, range } ==> position
            == lights.points@[k].position && range == lights.points@[k].range && (Scalar {
            bits: 0,
        }).less(range),
{
    let n = world.order.len();
    lemma_overlay_has(world, lights, nav, toggles, item);
    lemma_nav_items(nav, item);
    lemma_entity_items(world, |c: Components| collider_items(c), n, item);
    lemma_entity_items(world, |c: Components| camera_items(c), n, item);
    lemma_entity_items(world, |c: Components| emitter_items(c), n, item);
    let headings = lights.directions@.map_values(
        |direction: Vec3| OverlayItem::Heading { direction },
    );
    let points = point_items(lights.points@, lights.points@.len());
    lemma_in_sum(headings, points, item);
    if headings.contains(item) {
        let h = headings.index_of(item);
        assert(headings[h] is Heading);
    }
    let at = points.index_of(item);
    lemma_point_of(lights.points@, lights.points@.len(), at)
}

proof fn lemma_point_of(points: Seq<PointLight>, n: nat, at: int) -> (k: int)
    requires
        n <= points.len(),
        0 <= at < point_items(points, n).len(),
    ensures
        0 <= k < n,
        ({
            let item = point_items(points, n)[at];
            ||| item == (OverlayItem::LightMarker { position: points[k].position })
            ||| item == (OverlayItem::LightRing {
                position: points[k].position,
                range: points[k].range,
            }) && zero().less(points[k].range)
        }),
    decreases n,
{
    if n == 0 {
        0
    } else {
        let before = point_items(points, (n - 1) as nat);
        if at < before.len() {
            let k = lemma_point_of(points, (n - 1) as nat, at);
            assert(point_items(points, n)[at] == before[at]);
            k
        } else {
            n - 1
        }
    }
}

} // verus!
