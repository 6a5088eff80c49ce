//! Tests of editing a scene: the entity tree, the inspector, history, play mode and
//! templates.

use std::collections::HashSet;

use vge_studio::ecs::components::{
    BodyKind, Camera, ColliderShape, Components, Name, Projection, Quat, Rgba, SceneAudioEmitter,
    SceneCollider, Sprite, Transform, UvRect, Vec2, Vec3,
};
use vge_studio::ecs::entities::Entity;
use vge_studio::ecs::scalar::Scalar;
use vge_studio::ecs::world::SceneWorld;
use vge_studio::editor::assets::AssetKind;
use vge_studio::editor::duplicate::duplicate_entity;
use vge_studio::editor::gizmo::{axes_for, pick_axis, Axis, GizmoMode, HandleDistance};
use vge_studio::editor::hierarchy::{
    children_of, despawn_entity, display_name, is_descendant, is_disabled, is_locked, rename,
    reparent, roots, select_only, select_range, select_toggle, selection_list, set_disabled,
    spawn_entity, world_transform, HierarchyState,
};
use vge_studio::editor::hierarchy_panel::{
    begin_rename, delete_row, delete_selection, drop_on_root, drop_on_row, duplicate_selection,
    is_renaming, rename_frame, row_clicked, toggle_lock, RenameInput,
};
use vge_studio::editor::history::{find_named, History, HISTORY_LIMIT};
use vge_studio::editor::inspect::{
    edit_camera, edit_sprite, edit_transform, lens_label, CameraEdits, SpriteEdits, TransformEdits,
};
use vge_studio::editor::inspector::{
    accepts_asset_kind, accepts_drop, addable, collider_shape_summary, default_components,
    edit_asset_source, edit_collider, edit_emitter, edit_identity, edit_script, finish_section,
    has_marker, name_of, registry, sections, selection_notice, set_name, set_transform, shown,
    toggle_marker, transform_of, valid_script_path, warns_of_script, ColliderEdits, ComponentKind,
    EmitterEdits, IdentityEdits, Marker, Shown,
};
use vge_studio::editor::play::{EditorMode, PlayState};
use vge_studio::editor::tree_view::{collect_matches, visible_order};

fn s(value: f32) -> Scalar {
    Scalar { bits: value.to_bits() }
}

fn f(value: Scalar) -> f32 {
    f32::from_bits(value.bits)
}

fn v3(x: f32, y: f32, z: f32) -> Vec3 {
    Vec3 { x: s(x), y: s(y), z: s(z) }
}

fn zero() -> Vec3 {
    v3(0.0, 0.0, 0.0)
}

fn at(place: Vec3) -> Transform {
    Transform::from_translation(place)
}

fn named(name: &str) -> Components {
    Components { name: Some(Name::new(name)), ..Components::default() }
}

fn placed(name: &str, place: Vec3) -> Components {
    Components { transform: Some(at(place)), ..named(name) }
}

fn child_of(world: &mut SceneWorld, components: Components, parent: Entity) -> Entity {
    let child = world.spawn(components);
    world.set_parent(child, parent);
    child
}

/// The sum of the translations along a chain of transforms.
fn total(locals: &[Transform]) -> [f32; 3] {
    let mut sum = [0.0; 3];
    for local in locals {
        sum[0] += f(local.translation.x);
        sum[1] += f(local.translation.y);
        sum[2] += f(local.translation.z);
    }
    sum
}

/// The local transform that keeps an entity where it is under another parent.
fn relocate(own: &Vec<Transform>, parent: &Vec<Transform>) -> Transform {
    let (a, b) = (total(own), total(parent));
    at(v3(a[0] - b[0], a[1] - b[1], a[2] - b[2]))
}

#[test]
fn spawn_entity_sets_name_and_transform() {
    let mut world = SceneWorld::new();
    let entity = spawn_entity(&mut world, "Cube", v3(1.0, 2.0, 3.0));
    assert_eq!(display_name(&world, entity), "Cube");
    assert_eq!(transform_of(&world, entity).unwrap().translation, v3(1.0, 2.0, 3.0));
}

#[test]
fn spawn_entity_becomes_a_root() {
    let mut world = SceneWorld::new();
    let entity = spawn_entity(&mut world, "Cube", zero());
    assert_eq!(roots(&world), vec![entity]);
}

#[test]
fn despawn_entity_removes_it() {
    let mut world = SceneWorld::new();
    let entity = spawn_entity(&mut world, "Cube", zero());
    despawn_entity(&mut world, entity);
    assert!(roots(&world).is_empty());
}

#[test]
fn despawn_entity_on_an_already_despawned_entity_is_a_harmless_no_op() {
    let mut world = SceneWorld::new();
    let entity = spawn_entity(&mut world, "Cube", zero());
    despawn_entity(&mut world, entity);
    despawn_entity(&mut world, entity);
}

#[test]
fn roots_excludes_children() {
    let mut world = SceneWorld::new();
    let parent = world.spawn(named("Parent"));
    child_of(&mut world, named("Child"), parent);
    assert_eq!(roots(&world), vec![parent]);
}

#[test]
fn roots_are_sorted_and_include_multiple_independent_entities() {
    let mut world = SceneWorld::new();
    let a = world.spawn(named("A"));
    let b = world.spawn(named("B"));
    let result = roots(&world);
    assert_eq!(result.len(), 2);
    assert!(result.contains(&a) && result.contains(&b));
}

#[test]
fn children_of_returns_empty_for_a_leaf() {
    let mut world = SceneWorld::new();
    let entity = world.spawn(named("Leaf"));
    assert!(children_of(&world, entity).is_empty());
}

#[test]
fn children_of_returns_direct_children_sorted() {
    let mut world = SceneWorld::new();
    let parent = world.spawn(named("Parent"));
    let first = child_of(&mut world, Components::default(), parent);
    let second = child_of(&mut world, Components::default(), parent);
    let children = children_of(&world, parent);
    let mut expected = vec![
        bevy_ecs::entity::Entity::from_bits(first),
        bevy_ecs::entity::Entity::from_bits(second),
    ];
    expected.sort();
    let expected: Vec<Entity> = expected.iter().map(|entity| entity.to_bits()).collect();
    assert_eq!(children, expected);
}

#[test]
fn display_name_uses_the_name_component_when_present() {
    let mut world = SceneWorld::new();
    let entity = world.spawn(named("Camera"));
    assert_eq!(display_name(&world, entity), "Camera");
}

#[test]
fn display_name_falls_back_to_entity_id_when_unnamed() {
    let mut world = SceneWorld::new();
    let entity = world.spawn(Components::default());
    let shown = bevy_ecs::entity::Entity::from_bits(entity);
    assert_eq!(display_name(&world, entity), format!("Entity {shown:?}"));
}

#[test]
fn set_and_query_disabled() {
    let mut world = SceneWorld::new();
    let entity = spawn_entity(&mut world, "Prop", zero());
    assert!(!is_disabled(&world, entity));
    set_disabled(&mut world, entity, true);
    assert!(is_disabled(&world, entity));
    set_disabled(&mut world, entity, false);
    assert!(!is_disabled(&world, entity));
}

#[test]
fn rename_sets_or_inserts_the_name() {
    let mut world = SceneWorld::new();
    let old = world.spawn(named("Old"));
    rename(&mut world, old, "New");
    assert_eq!(display_name(&world, old), "New");
    let bare = world.spawn(Components::default());
    rename(&mut world, bare, "Fresh");
    assert_eq!(display_name(&world, bare), "Fresh");
}

#[test]
fn duplicate_entity_deep_copies_subtree_and_suffixes_the_root() {
    let mut world = SceneWorld::new();
    let parent = spawn_entity(&mut world, "Parent", v3(1.0, 0.0, 0.0));
    let child = child_of(&mut world, placed("Child", v3(0.0, 1.0, 0.0)), parent);
    set_disabled(&mut world, child, true);
    let order = |world: &SceneWorld| -> Vec<Entity> {
        (0..world.len()).map(|i| world.entity_at(i)).collect()
    };
    let before = order(&world);
    let copy = duplicate_entity(&mut world, parent);
    assert_eq!(order(&world)[..before.len()], before[..]);
    assert_ne!(copy, parent);
    assert_eq!(display_name(&world, copy), "Parent Copy");
    assert_eq!(transform_of(&world, copy).unwrap().translation, v3(1.0, 0.0, 0.0));
    let copied_children = children_of(&world, copy);
    assert_eq!(copied_children.len(), 1);
    assert_ne!(copied_children[0], child);
    assert_eq!(display_name(&world, copied_children[0]), "Child");
    assert!(is_disabled(&world, copied_children[0]));
    assert_eq!(display_name(&world, parent), "Parent");
    assert_eq!(children_of(&world, parent), vec![child]);
}

#[test]
fn collect_matches_includes_ancestors_of_a_match() {
    let mut world = SceneWorld::new();
    let root = world.spawn(named("World"));
    let mid = child_of(&mut world, named("Vehicles"), root);
    let leaf = child_of(&mut world, named("Player Car"), mid);
    let other = child_of(&mut world, named("Tree"), root);
    let mut visible: HashSet<Entity> = HashSet::new();
    collect_matches(&world, root, "car", &mut visible);
    assert!(visible.contains(&root));
    assert!(visible.contains(&mid));
    assert!(visible.contains(&leaf));
    assert!(!visible.contains(&other));
    let (order, shown) = visible_order(&world, "CAR");
    assert_eq!(order, vec![root, mid, leaf]);
    assert!(shown.is_some());
    assert!(visible_order(&world, "").1.is_none());
}

#[test]
fn collect_matches_is_case_insensitive() {
    let mut world = SceneWorld::new();
    let entity = world.spawn(named("MainCamera"));
    let mut visible: HashSet<Entity> = HashSet::new();
    assert!(collect_matches(&world, entity, "maincamera", &mut visible));
    assert!(visible.contains(&entity));
}

#[test]
fn hierarchy_state_starts_empty() {
    let state = HierarchyState::default();
    assert!(state.search.is_empty());
    assert!(state.renaming.is_none());
    assert!(state.prefab_request.is_none());
    assert!(state.flat_order.is_empty());
}

#[test]
fn world_transform_composes_the_parent_chain() {
    let mut world = SceneWorld::new();
    let a = world.spawn(placed("A", v3(10.0, 0.0, 0.0)));
    let c = child_of(&mut world, placed("C", v3(1.0, 0.0, 0.0)), a);
    let locals = world_transform(&world, c);
    assert_eq!(locals.len(), 2);
    assert_eq!(total(&locals), [11.0, 0.0, 0.0]);
}

#[test]
fn is_descendant_walks_the_chain() {
    let mut world = SceneWorld::new();
    let a = world.spawn(placed("A", zero()));
    let b = child_of(&mut world, placed("B", zero()), a);
    let c = child_of(&mut world, placed("C", zero()), b);
    assert!(is_descendant(&world, c, a));
    assert!(is_descendant(&world, a, a));
    assert!(!is_descendant(&world, a, c));
}

#[test]
fn reparent_preserves_world_position() {
    let mut world = SceneWorld::new();
    let a = world.spawn(placed("A", v3(10.0, 0.0, 0.0)));
    let b = world.spawn(placed("B", v3(0.0, 5.0, 0.0)));
    let c = child_of(&mut world, placed("C", v3(1.0, 0.0, 0.0)), a);
    assert!(reparent(&mut world, c, Some(b), &relocate));
    assert_eq!(world.parent(c), Some(b));
    assert_eq!(total(&world_transform(&world, c)), [11.0, 0.0, 0.0]);
}

#[test]
fn reparent_to_root_keeps_world_position() {
    let mut world = SceneWorld::new();
    let a = world.spawn(placed("A", v3(10.0, 2.0, 0.0)));
    let c = child_of(&mut world, placed("C", v3(1.0, 0.0, 0.0)), a);
    assert!(reparent(&mut world, c, None, &relocate));
    assert!(world.parent(c).is_none());
    assert_eq!(total(&world_transform(&world, c)), [11.0, 2.0, 0.0]);
}

#[test]
fn reparent_rejects_self_and_descendants_without_mutating() {
    let mut world = SceneWorld::new();
    let a = world.spawn(placed("A", zero()));
    let b = child_of(&mut world, placed("B", zero()), a);
    assert!(!reparent(&mut world, a, Some(a), &relocate));
    assert!(!reparent(&mut world, a, Some(b), &relocate));
    assert!(world.parent(a).is_none());
    assert_eq!(world.parent(b), Some(a));
}

#[test]
fn reparent_on_a_despawned_entity_is_a_harmless_no_op() {
    let mut world = SceneWorld::new();
    let a = world.spawn(placed("A", zero()));
    let c = world.spawn(placed("C", zero()));
    world.despawn(c);
    assert!(!reparent(&mut world, c, Some(a), &relocate));
}

fn entities(n: u32) -> Vec<Entity> {
    let mut world = SceneWorld::new();
    (0..n).map(|_| world.spawn(Components::default())).collect()
}

#[test]
fn select_only_replaces_and_empties_secondary() {
    let e = entities(3);
    let mut primary = Some(e[0]);
    let mut secondary = vec![e[1], e[2]];
    select_only(&mut primary, &mut secondary, e[2]);
    assert_eq!(primary, Some(e[2]));
    assert!(secondary.is_empty());
}

#[test]
fn select_toggle_adds_removes_and_promotes() {
    let e = entities(3);
    let mut primary = Some(e[0]);
    let mut secondary = vec![];
    select_toggle(&mut primary, &mut secondary, e[1]);
    assert_eq!(secondary, vec![e[1]]);
    select_toggle(&mut primary, &mut secondary, e[1]);
    assert!(secondary.is_empty());
    select_toggle(&mut primary, &mut secondary, e[2]);
    select_toggle(&mut primary, &mut secondary, e[0]);
    assert_eq!(primary, Some(e[2]));
    assert!(secondary.is_empty());
    select_toggle(&mut primary, &mut secondary, e[2]);
    assert_eq!(primary, None);
}

#[test]
fn selection_list_is_primary_then_secondary() {
    let e = entities(3);
    assert_eq!(selection_list(Some(e[0]), &[e[1], e[2]]), vec![e[0], e[1], e[2]]);
    assert_eq!(selection_list(None, &[e[1]]), vec![e[1]]);
    assert!(selection_list(None, &[]).is_empty());
}

#[test]
fn select_range_covers_the_run_between_anchor_and_target() {
    let order = entities(5);
    let mut primary = Some(order[1]);
    let mut secondary = vec![];
    select_range(&mut primary, &mut secondary, &order, order[3]);
    assert_eq!(primary, Some(order[1]));
    assert_eq!(secondary, vec![order[2], order[3]]);
    let mut primary = Some(order[3]);
    let mut secondary = vec![order[4]];
    select_range(&mut primary, &mut secondary, &order, order[1]);
    assert_eq!(primary, Some(order[3]));
    assert_eq!(secondary, vec![order[1], order[2]]);
}

#[test]
fn select_range_without_an_anchor_falls_back_to_select_only() {
    let order = entities(3);
    let mut primary = None;
    let mut secondary = vec![order[0]];
    select_range(&mut primary, &mut secondary, &order, order[2]);
    assert_eq!(primary, Some(order[2]));
    assert!(secondary.is_empty());
}

#[test]
fn clicking_rows_follows_the_modifiers() {
    let order = entities(4);
    let mut primary = None;
    let mut secondary = vec![];
    row_clicked(&mut primary, &mut secondary, &order, order[0], false, false);
    assert_eq!(primary, Some(order[0]));
    row_clicked(&mut primary, &mut secondary, &order, order[2], false, true);
    assert_eq!(secondary, vec![order[1], order[2]]);
    row_clicked(&mut primary, &mut secondary, &order, order[1], true, false);
    assert_eq!(secondary, vec![order[2]]);
}

#[test]
fn a_rename_is_applied_on_enter_and_dropped_on_escape() {
    let mut world = SceneWorld::new();
    let entity = world.spawn(named("Old"));
    let mut state = HierarchyState::default();
    begin_rename(&world, &mut state, entity);
    assert!(is_renaming(&state, entity));
    state.renaming.as_mut().unwrap().draft = "New".to_string();
    let enter = RenameInput { lost_focus: true, enter_pressed: true, escape_pressed: false };
    rename_frame(&mut world, &mut state, enter);
    assert_eq!(display_name(&world, entity), "New");
    assert!(state.renaming.is_none());
    begin_rename(&world, &mut state, entity);
    state.renaming.as_mut().unwrap().draft = "Other".to_string();
    let escape = RenameInput { lost_focus: true, enter_pressed: false, escape_pressed: true };
    rename_frame(&mut world, &mut state, escape);
    assert_eq!(display_name(&world, entity), "New");
}

#[test]
fn dropping_rows_moves_entities_in_the_tree() {
    let mut world = SceneWorld::new();
    let a = world.spawn(placed("A", v3(1.0, 0.0, 0.0)));
    let b = world.spawn(placed("B", v3(2.0, 0.0, 0.0)));
    let mut primary = None;
    let mut secondary = vec![];
    assert!(drop_on_row(&mut world, &mut primary, &mut secondary, a, b, &relocate));
    assert_eq!(world.parent(a), Some(b));
    assert_eq!(transform_of(&world, a).unwrap().translation, v3(-1.0, 0.0, 0.0));
    assert!(drop_on_root(&mut world, &mut primary, &mut secondary, a, &relocate));
    assert_eq!(world.parent(a), None);
    assert_eq!(transform_of(&world, a).unwrap().translation, v3(1.0, 0.0, 0.0));
}

#[test]
fn a_locked_row_is_not_moved_by_a_drop() {
    let mut world = SceneWorld::new();
    let parent = world.spawn(placed("Parent", v3(2.0, 0.0, 0.0)));
    let child = child_of(&mut world, placed("Child", v3(1.0, 0.0, 0.0)), parent);
    toggle_lock(&mut world, Some(child), &[]);
    let mut primary = None;
    let mut secondary = vec![];
    assert!(!drop_on_root(&mut world, &mut primary, &mut secondary, child, &relocate));
    assert_eq!(world.parent(child), Some(parent));
    assert_eq!(transform_of(&world, child).unwrap().translation, v3(1.0, 0.0, 0.0));
    assert_eq!(primary, None);
}

#[test]
fn deleting_locking_and_duplicating_act_on_the_selection() {
    let mut world = SceneWorld::new();
    let a = world.spawn(named("A"));
    let b = world.spawn(named("B"));
    let c = world.spawn(named("C"));
    let mut primary = Some(a);
    let mut secondary = vec![b];
    let mut state = HierarchyState::default();
    toggle_lock(&mut world, primary, &secondary);
    assert!(is_locked(&world, a) && is_locked(&world, b) && !is_locked(&world, c));
    duplicate_selection(&mut world, &mut primary, &mut secondary);
    assert_eq!(world.len(), 5);
    assert_eq!(display_name(&world, primary.unwrap()), "B Copy");
    assert!(secondary.is_empty());
    select_toggle(&mut primary, &mut secondary, a);
    delete_selection(&mut world, &mut primary, &mut secondary, &mut state);
    assert_eq!(primary, None);
    assert!(secondary.is_empty());
    assert_eq!(world.len(), 3);
    delete_row(&mut world, &mut primary, &mut secondary, &mut state, c);
    assert!(!world.contains(c));
}

type Scene = Vec<Components>;

fn take(world: &SceneWorld) -> Scene {
    (0..world.len()).map(|i| world.components_at(i).clone()).collect()
}

fn rebuild(scene: &Scene) -> SceneWorld {
    let mut world = SceneWorld::new();
    for components in scene {
        world.spawn(components.clone());
    }
    world
}

fn alike(a: &Scene, b: &Scene) -> bool {
    a == b
}

fn world_with(name: &str, x: f32) -> SceneWorld {
    let mut world = SceneWorld::new();
    world.spawn(placed(name, v3(x, 0.0, 0.0)));
    world
}

fn only_x(world: &SceneWorld) -> f32 {
    f(world.components_at(0).transform.unwrap().translation.x)
}

fn move_to(world: &mut SceneWorld, x: f32) {
    let entity = world.entity_at(0);
    set_transform(world, entity, at(v3(x, 0.0, 0.0)));
}

#[test]
fn undo_restores_the_pre_edit_state() {
    let mut history: History<Scene> = History::new();
    let mut world = world_with("Cube", 0.0);
    let mut selected = None;
    history.begin_frame(&world, selected, &take);
    move_to(&mut world, 5.0);
    assert!(history.settle(&world, &take, &alike));
    assert!(history.can_undo());
    assert!(history.undo(&mut world, &mut selected, &take, &rebuild));
    assert_eq!(only_x(&world), 0.0);
}

#[test]
fn redo_reapplies_an_undone_edit() {
    let mut history: History<Scene> = History::new();
    let mut world = world_with("Cube", 0.0);
    let mut selected = None;
    history.begin_frame(&world, selected, &take);
    move_to(&mut world, 5.0);
    history.settle(&world, &take, &alike);
    history.undo(&mut world, &mut selected, &take, &rebuild);
    assert!(history.can_redo());
    assert!(history.redo(&mut world, &mut selected, &take, &rebuild));
    assert_eq!(only_x(&world), 5.0);
}

#[test]
fn settle_without_a_change_records_nothing() {
    let mut history: History<Scene> = History::new();
    let world = world_with("Cube", 0.0);
    history.begin_frame(&world, None, &take);
    history.settle(&world, &take, &alike);
    assert!(!history.can_undo());
}

#[test]
fn a_new_edit_clears_the_redo_stack() {
    let mut history: History<Scene> = History::new();
    let mut world = world_with("Cube", 0.0);
    let mut selected = None;
    history.begin_frame(&world, selected, &take);
    move_to(&mut world, 5.0);
    history.settle(&world, &take, &alike);
    history.undo(&mut world, &mut selected, &take, &rebuild);
    assert!(history.can_redo());
    history.begin_frame(&world, selected, &take);
    move_to(&mut world, 9.0);
    history.settle(&world, &take, &alike);
    assert!(!history.can_redo());
}

#[test]
fn undo_reselects_the_previously_selected_entity_by_name() {
    let mut history: History<Scene> = History::new();
    let mut world = SceneWorld::new();
    let cube = world.spawn(named("Cube"));
    let mut selected = Some(cube);
    history.begin_frame(&world, selected, &take);
    world.spawn(named("Extra"));
    history.settle(&world, &take, &alike);
    history.undo(&mut world, &mut selected, &take, &rebuild);
    assert_eq!(name_of(&world, selected.unwrap()).as_deref(), Some("Cube"));
    assert_eq!(find_named(&world, "Cube"), selected);
    assert_eq!(find_named(&world, "Extra"), None);
}

#[test]
fn undo_on_empty_history_is_a_no_op() {
    let mut history: History<Scene> = History::new();
    let mut world = world_with("Cube", 0.0);
    let mut selected = None;
    assert!(!history.undo(&mut world, &mut selected, &take, &rebuild));
}

#[test]
fn history_forgets_the_oldest_steps() {
    let mut history: History<Scene> = History::new();
    let mut world = world_with("Cube", 0.0);
    let mut selected = None;
    for i in 0..HISTORY_LIMIT + 3 {
        history.begin_frame(&world, selected, &take);
        move_to(&mut world, i as f32 + 1.0);
        assert!(history.settle(&world, &take, &alike));
    }
    let mut steps = 0;
    while history.undo(&mut world, &mut selected, &take, &rebuild) {
        steps += 1;
    }
    assert_eq!(steps, HISTORY_LIMIT);
    assert_eq!(only_x(&world), 3.0);
}

#[test]
fn start_then_stop_restores_the_pre_play_world_exactly() {
    let mut world = world_with("Box", 0.0);
    let mut play: PlayState<Scene> = PlayState::new();
    play.start(&world, &take);
    assert_eq!(play.mode(), EditorMode::Building);
    move_to(&mut world, 42.0);
    world.spawn(placed("Runtime only", zero()));
    play.stop(&mut world, &rebuild);
    assert_eq!(play.mode(), EditorMode::Edit);
    assert_eq!(world.len(), 1);
    assert_eq!(only_x(&world), 0.0);
}

#[test]
fn successful_launch_moves_building_to_play() {
    let world = SceneWorld::new();
    let mut play: PlayState<Scene> = PlayState::new();
    play.start(&world, &take);
    play.mark_running();
    assert_eq!(play.mode(), EditorMode::Play);
    assert!(play.is_playing());
}

#[test]
fn double_start_keeps_the_first_snapshot() {
    let mut world = world_with("Box", 1.0);
    let mut play: PlayState<Scene> = PlayState::new();
    play.start(&world, &take);
    move_to(&mut world, 9.0);
    play.start(&world, &take);
    play.stop(&mut world, &rebuild);
    assert_eq!(only_x(&world), 1.0);
}

#[test]
fn late_launch_after_stop_is_ignored() {
    let mut world = SceneWorld::new();
    let mut play: PlayState<Scene> = PlayState::new();
    play.start(&world, &take);
    play.stop(&mut world, &rebuild);
    play.mark_running();
    assert_eq!(play.mode(), EditorMode::Edit);
}

fn camera() -> Camera {
    Camera {
        eye: v3(0.0, 2.0, 6.0),
        target: zero(),
        up: v3(0.0, 1.0, 0.0),
        projection: Projection::Perspective { fov_y_radians: s(1.0) },
        aspect_ratio: s(16.0 / 9.0),
        near: s(0.1),
        far: s(100.0),
    }
}

fn radians(degrees: Scalar) -> Scalar {
    s(f(degrees).to_radians())
}

#[test]
fn hand_impl_for_transform_runs() {
    let mut transform = Transform::identity();
    let none = TransformEdits { translation: None, rotation: None, scale: None };
    assert!(!edit_transform(&mut transform, none));
    assert_eq!(transform, Transform::identity());
    let moved = TransformEdits { translation: Some(v3(1.0, 2.0, 3.0)), ..none };
    assert!(edit_transform(&mut transform, moved));
    assert_eq!(transform.translation, v3(1.0, 2.0, 3.0));
}

#[test]
fn hand_impl_for_camera_runs_without_change() {
    let mut view = camera();
    let none =
        CameraEdits { eye: None, target: None, up: None, lens: None, near: None, far: None };
    assert!(!edit_camera(&mut view, none, &radians));
    assert_eq!(view, camera());
    assert!(edit_camera(&mut view, CameraEdits { lens: Some(s(90.0)), ..none }, &radians));
    assert_eq!(
        view.projection,
        Projection::Perspective { fov_y_radians: s(90.0f32.to_radians()) }
    );
    assert_ne!(
        lens_label(&view.projection),
        lens_label(&Projection::Orthographic { height: s(1.0) })
    );
}

#[test]
fn quat_field_round_trips_an_unchanged_rotation_without_drift() {
    let mut transform = Transform::identity();
    transform.rotation = Quat { x: s(0.0), y: s(0.3), z: s(0.0), w: s(0.9) };
    let before = transform;
    let none = TransformEdits { translation: None, rotation: None, scale: None };
    edit_transform(&mut transform, none);
    assert_eq!(transform, before);
}

fn quad() -> Sprite {
    Sprite::new(
        Vec2 { x: s(2.0), y: s(2.0) },
        UvRect { min: Vec2 { x: s(0.1), y: s(0.1) }, max: Vec2 { x: s(0.9), y: s(0.9) } },
    )
}

#[test]
fn sprite_inspectable_runs_and_reports_no_change() {
    let mut sprite = quad();
    let none = SpriteEdits { size: None, uv_min: None, uv_max: None, color: None };
    assert!(!edit_sprite(&mut sprite, none));
    assert_eq!(sprite, quad());
    let size = Vec2 { x: s(3.0), y: s(4.0) };
    assert!(edit_sprite(&mut sprite, SpriteEdits { size: Some(size), ..none }));
    assert_eq!(sprite.size, size);
}

#[test]
fn name_of_returns_none_when_absent() {
    let mut world = SceneWorld::new();
    let entity = world.spawn(Components::default());
    assert_eq!(name_of(&world, entity), None);
}

#[test]
fn set_name_adds_the_component_when_absent() {
    let mut world = SceneWorld::new();
    let entity = world.spawn(Components::default());
    set_name(&mut world, entity, "Camera");
    assert_eq!(name_of(&world, entity), Some("Camera".to_string()));
}

#[test]
fn set_name_overwrites_an_existing_name() {
    let mut world = SceneWorld::new();
    let entity = world.spawn(named("Old"));
    set_name(&mut world, entity, "New");
    assert_eq!(name_of(&world, entity), Some("New".to_string()));
}

#[test]
fn set_name_on_a_despawned_entity_is_a_harmless_no_op() {
    let mut world = SceneWorld::new();
    let entity = world.spawn(Components::default());
    world.despawn(entity);
    set_name(&mut world, entity, "Ghost");
    assert_eq!(name_of(&world, entity), None);
}

#[test]
fn transform_of_returns_none_when_absent() {
    let mut world = SceneWorld::new();
    let entity = world.spawn(Components::default());
    assert_eq!(transform_of(&world, entity), None);
}

#[test]
fn set_transform_adds_the_component_when_absent() {
    let mut world = SceneWorld::new();
    let entity = world.spawn(Components::default());
    set_transform(&mut world, entity, at(v3(1.0, 2.0, 3.0)));
    assert_eq!(transform_of(&world, entity), Some(at(v3(1.0, 2.0, 3.0))));
}

#[test]
fn set_transform_overwrites_an_existing_transform() {
    let mut world = SceneWorld::new();
    let entity = world.spawn(placed("A", zero()));
    let mut transform = Transform::identity();
    transform.scale = v3(2.0, 2.0, 2.0);
    set_transform(&mut world, entity, transform);
    assert_eq!(transform_of(&world, entity), Some(transform));
}

#[test]
fn set_transform_on_a_despawned_entity_is_a_harmless_no_op() {
    let mut world = SceneWorld::new();
    let entity = world.spawn(Components::default());
    world.despawn(entity);
    set_transform(&mut world, entity, Transform::identity());
}

fn emitter() -> SceneAudioEmitter {
    SceneAudioEmitter {
        sound: String::new(),
        autoplay: true,
        looping: false,
        gain: s(1.0),
        radius: s(10.0),
    }
}

fn defaults() -> Components {
    default_components(camera(), emitter())
}

#[test]
fn has_and_strip_track_a_component() {
    let mut world = SceneWorld::new();
    let entity = world.spawn(placed("A", zero()));
    assert!(ComponentKind::Transform.present(&world, entity));
    ComponentKind::Transform.remove(&mut world, entity);
    assert!(!ComponentKind::Transform.present(&world, entity));
}

#[test]
fn every_registry_entry_adds_and_removes_cleanly() {
    for kind in registry() {
        let mut world = SceneWorld::new();
        let entity = world.spawn(Components::default());
        assert!(!kind.present(&world, entity), "{} should start absent", kind.name());
        kind.insert_default(&mut world, entity, &defaults());
        assert!(kind.present(&world, entity), "{} should be present", kind.name());
        assert_eq!(sections(&world, entity), vec![kind]);
        assert!(!addable(&world, entity).contains(&kind));
        kind.remove(&mut world, entity);
        assert!(!kind.present(&world, entity), "{} should be gone", kind.name());
    }
}

#[test]
fn copy_to_transfers_a_value_only_to_entities_that_have_the_component() {
    let mut world = SceneWorld::new();
    let from = world.spawn(placed("From", v3(5.0, 0.0, 0.0)));
    let has = world.spawn(placed("Has", zero()));
    let hasnt = world.spawn(Components::default());
    ComponentKind::Transform.copy_to(&mut world, from, has);
    ComponentKind::Transform.copy_to(&mut world, from, hasnt);
    assert_eq!(transform_of(&world, has).unwrap().translation, v3(5.0, 0.0, 0.0));
    assert!(transform_of(&world, hasnt).is_none());
}

#[test]
fn registry_entries_have_unique_names() {
    let kinds = registry();
    for (i, a) in kinds.iter().enumerate() {
        for b in &kinds[i + 1..] {
            assert_ne!(a.name(), b.name());
        }
    }
}

#[test]
fn toggle_marker_adds_and_removes() {
    let mut world = SceneWorld::new();
    let entity = world.spawn(Components::default());
    assert!(!has_marker(&world, entity, Marker::Static));
    toggle_marker(&mut world, entity, Marker::Static, true);
    assert!(has_marker(&world, entity, Marker::Static));
    toggle_marker(&mut world, entity, Marker::Static, false);
    assert!(!has_marker(&world, entity, Marker::Static));
}

#[test]
fn toggle_marker_on_a_despawned_entity_is_a_harmless_no_op() {
    let mut world = SceneWorld::new();
    let entity = world.spawn(Components::default());
    world.despawn(entity);
    toggle_marker(&mut world, entity, Marker::Static, true);
}

#[test]
fn registry_type_names_are_valid_rust_identifiers() {
    for kind in registry() {
        let name = kind.rust_name();
        assert!(!name.is_empty() && name.chars().all(|c| c.is_alphanumeric() || c == '_'));
    }
}

#[test]
fn sprite_default_is_a_unit_quad_full_atlas() {
    let mut world = SceneWorld::new();
    let entity = world.spawn(Components::default());
    ComponentKind::Sprite.insert_default(&mut world, entity, &defaults());
    let sprite = world.get(entity).unwrap().sprite.unwrap();
    assert_eq!(sprite.size, Vec2 { x: s(1.0), y: s(1.0) });
    assert_eq!(sprite.uv.min, Vec2 { x: s(0.0), y: s(0.0) });
    assert_eq!(sprite.uv.max, Vec2 { x: s(1.0), y: s(1.0) });
    assert_eq!(sprite.color, Rgba { r: s(1.0), g: s(1.0), b: s(1.0), a: s(1.0) });
}

#[test]
fn the_inspector_says_what_it_shows() {
    let mut world = SceneWorld::new();
    let entity = world.spawn(named("A"));
    let other = world.spawn(named("B"));
    assert_eq!(shown(&world, None, &[], false), Shown::Nothing);
    assert_eq!(
        shown(&world, Some(entity), &[other], true),
        Shown::Sections { apply_to_all: true }
    );
    assert!(selection_notice(&[other]).contains('2'));
    world.despawn(entity);
    assert_eq!(shown(&world, Some(entity), &[], false), Shown::Gone);
}

#[test]
fn a_section_edit_is_copied_to_the_other_entities() {
    let mut world = SceneWorld::new();
    let a = world.spawn(placed("A", v3(3.0, 0.0, 0.0)));
    let b = world.spawn(placed("B", zero()));
    finish_section(&mut world, ComponentKind::Transform, a, &[b], true, false, true);
    assert_eq!(transform_of(&world, b).unwrap().translation, v3(3.0, 0.0, 0.0));
    finish_section(&mut world, ComponentKind::Transform, a, &[b], false, true, false);
    assert!(transform_of(&world, a).is_none());
    assert!(transform_of(&world, b).is_some());
}

#[test]
fn identity_edits_set_the_name_and_the_markers() {
    let mut world = SceneWorld::new();
    let entity = world.spawn(named("A"));
    let edits = IdentityEdits {
        name: Some("B".to_string()),
        is_static: Some(true),
        disabled: None,
        locked: Some(true),
    };
    edit_identity(&mut world, entity, edits);
    assert_eq!(name_of(&world, entity).as_deref(), Some("B"));
    assert!(has_marker(&world, entity, Marker::Static));
    assert!(!has_marker(&world, entity, Marker::Disabled));
    assert!(has_marker(&world, entity, Marker::Locked));
}

#[test]
fn component_edits_report_changes() {
    let mut world = SceneWorld::new();
    let entity = world.spawn(Components::default());
    for kind in [
        ComponentKind::AssetSource,
        ComponentKind::Script,
        ComponentKind::AudioEmitter,
        ComponentKind::Collider,
    ] {
        kind.insert_default(&mut world, entity, &defaults());
    }
    assert!(!edit_asset_source(&mut world, entity, None, None));
    assert!(edit_asset_source(&mut world, entity, Some("a.png".to_string()), None));
    assert_eq!(world.get(entity).unwrap().asset_source.as_ref().unwrap().path, "a.png");
    assert!(edit_script(&mut world, entity, Some("src/a.rs".to_string())));
    assert_eq!(world.get(entity).unwrap().script.as_ref().unwrap().path, "src/a.rs");
    assert!(warns_of_script("a.txt"));
    let edits = EmitterEdits {
        sound: None,
        autoplay: None,
        looping: Some(true),
        gain: None,
        radius: Some(s(2.0)),
    };
    assert!(edit_emitter(&mut world, entity, edits));
    let changed = world.get(entity).unwrap().audio_emitter.clone().unwrap();
    assert!(changed.looping);
    assert_eq!(f(changed.radius), 2.0);
    let none = ColliderEdits { body: None, first: None, second: None, third: None };
    assert!(!edit_collider(&mut world, entity, none));
    let dynamic = ColliderEdits { body: Some(BodyKind::Dynamic), ..none };
    assert!(edit_collider(&mut world, entity, dynamic));
    let loud = EmitterEdits {
        sound: None,
        autoplay: None,
        looping: None,
        gain: Some(s(9.0)),
        radius: Some(s(-1.0)),
    };
    assert!(edit_emitter(&mut world, entity, loud));
    let changed = world.get(entity).unwrap().audio_emitter.clone().unwrap();
    assert_eq!((f(changed.gain), f(changed.radius)), (4.0, 0.0));
    let far = EmitterEdits {
        sound: None,
        autoplay: None,
        looping: None,
        gain: None,
        radius: Some(s(5000.0)),
    };
    assert!(edit_emitter(&mut world, entity, far));
    let changed = world.get(entity).unwrap().audio_emitter.clone().unwrap();
    assert_eq!((f(changed.gain), f(changed.radius)), (4.0, 1000.0));
    let tiny = ColliderEdits { first: Some(s(0.0)), second: Some(s(20_000.0)), ..none };
    assert!(edit_collider(&mut world, entity, tiny));
    let sizes: SceneCollider = world.get(entity).unwrap().collider.clone().unwrap();
    match sizes.shape {
        ColliderShape::Cuboid { half_extents } => {
            assert_eq!(f(half_extents.x), 0.001);
            assert_eq!(f(half_extents.y), 10_000.0);
        },
        other => panic!("the default shape is a box, not {other:?}"),
    }
    let collider: SceneCollider = world.get(entity).unwrap().collider.clone().unwrap();
    assert_eq!(collider.body, BodyKind::Dynamic);
}

#[test]
fn script_paths_are_project_relative_rust_files() {
    assert!(valid_script_path("src/player.rs"));
    assert!(!valid_script_path("src/player.ron"));
    assert!(!valid_script_path("../player.rs"));
    assert!(!valid_script_path("/tmp/player.rs"));
}

#[test]
fn typed_asset_targets_reject_mismatched_kinds() {
    assert!(accepts_asset_kind(AssetKind::Audio, AssetKind::Audio));
    assert!(!accepts_asset_kind(AssetKind::Texture, AssetKind::Audio));
    assert!(!accepts_asset_kind(AssetKind::Other, AssetKind::Mesh));
    assert!(accepts_drop("a/hit.wav", AssetKind::Audio));
}

#[test]
fn collider_summary_covers_dimensions_without_live_physics_handles() {
    let shape = ColliderShape::Cuboid { half_extents: v3(1.0, 2.0, 3.0) };
    let number = |value: Scalar| format!("{:.3}", f(value));
    assert_eq!(
        collider_shape_summary(&shape, &number),
        "Cuboid (half-extents [1.000, 2.000, 3.000])"
    );
}

fn near(axis: Axis, distance: f32) -> HandleDistance {
    HandleDistance { axis, distance: s(distance) }
}

#[test]
fn pick_axis_finds_the_handle_within_range() {
    assert_eq!(pick_axis(&[near(Axis::X, 2.0), near(Axis::Y, 50.0)]), Some(Axis::X));
    assert_eq!(pick_axis(&[near(Axis::X, 50.0), near(Axis::Y, 2.0)]), Some(Axis::Y));
}

#[test]
fn pick_axis_returns_none_when_nothing_is_close_enough() {
    assert_eq!(pick_axis(&[near(Axis::X, 500.0)]), None);
}

#[test]
fn pick_axis_prefers_the_closer_handle_when_several_are_in_range() {
    assert_eq!(pick_axis(&[near(Axis::X, 1.0), near(Axis::Y, 4.0)]), Some(Axis::X));
}

#[test]
fn axes_for_follows_2d_conventions() {
    for mode in GizmoMode::ALL {
        assert_eq!(axes_for(mode, false), Axis::ALL);
    }
    assert_eq!(axes_for(GizmoMode::Translate, true), [Axis::X, Axis::Y]);
    assert_eq!(axes_for(GizmoMode::Scale, true), [Axis::X, Axis::Y]);
    assert_eq!(axes_for(GizmoMode::Rotate, true), [Axis::Z]);
}

#[test]
fn gizmo_mode_default_is_translate() {
    assert_eq!(GizmoMode::default(), GizmoMode::Translate);
    assert_eq!(GizmoMode::ALL.len(), 3);
}

#[test]
fn axes_point_and_are_colored_apart() {
    assert_eq!(Axis::X.direction(), v3(1.0, 0.0, 0.0));
    assert_eq!(Axis::Y.direction(), v3(0.0, 1.0, 0.0));
    assert_eq!(Axis::Z.direction(), v3(0.0, 0.0, 1.0));
    assert_eq!(f(Axis::X.color().r), 0.9);
    assert_eq!(f(Axis::Y.color().g), 0.85);
    assert_eq!(f(Axis::Z.color().b), 0.95);
}
