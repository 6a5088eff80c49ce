//! Tests of the entity layer.

use std::cell::RefCell;

use vge_studio::asset_id::{parse_asset_id, AssetId};
use vge_studio::ecs::animation::{
    update_animations, Animated, AnimationEvent, AnimationEvents, AnimationPlayer,
};
use vge_studio::ecs::audio::{
    sync_listener, update_audio, AudioAction, AudioEmitter, AudioListener, ListenerUpdate,
};
use vge_studio::ecs::components::{
    AssetSource, Camera, Components, GlobalTransform, Name, Projection, Quat, RenderHandles, Rgba,
    Sprite, Transform, UvRect, Vec2, Vec3,
};
use vge_studio::ecs::entities::Entity;
use vge_studio::ecs::error::EcsError;
use vge_studio::ecs::extract::{
    entities_drawn, extract_frame, instanced_inputs, mesh_inputs, skinned_inputs, sprite_inputs,
    Drawn, MeshLook,
};
use vge_studio::ecs::particles::{
    extract_particles, update_particles, BlendMode, Particle, ParticleEmitter,
    ParticleEmitterConfig, PlacedEmitter,
};
use vge_studio::ecs::physics::{sync_rigid_bodies, Pose, RigidBody};
use vge_studio::ecs::propagate::propagate_transforms;
use vge_studio::ecs::render::{
    despawn_instanced_mesh_renderer, despawn_mesh_renderer, despawn_skinned_mesh_renderer,
    despawn_vegetation_renderer, extract_sprites, plan_auto_batches, plan_frame, BatchPlan,
    InstancedInput, MeshInput, RenderStats, SkinnedInput, SpriteInput, MIN_AUTO_BATCH_SIZE,
};
use vge_studio::ecs::scalar::Scalar;
use vge_studio::ecs::stages::{stage_result, RenderExtract, Update};
use vge_studio::ecs::world::SceneWorld;

fn s(value: f32) -> Scalar {
    Scalar { bits: value.to_bits() }
}

fn f(value: Scalar) -> f32 {
    f32::from_bits(value.bits)
}

fn v3(x: f32, y: f32, z: f32) -> Vec3 {
    Vec3 { x: s(x), y: s(y), z: s(z) }
}

fn at(x: f32, y: f32, z: f32) -> Transform {
    Transform::from_translation(v3(x, y, z))
}

fn with_transform(transform: Transform) -> Components {
    Components { transform: Some(transform), ..Components::default() }
}

/// Adds the translations, which is how transforms without rotation and scale compose.
fn compose(parent: Transform, local: Transform) -> Transform {
    Transform {
        translation: v3(
            f(parent.translation.x) + f(local.translation.x),
            f(parent.translation.y) + f(local.translation.y),
            f(parent.translation.z) + f(local.translation.z),
        ),
        ..local
    }
}

fn run_clock(time: Scalar, dt: Scalar, speed: Scalar) -> Scalar {
    s(f(time) + f(dt) * f(speed))
}

fn wrap_clock(time: Scalar, duration: Scalar) -> Scalar {
    s(f(time).rem_euclid(f(duration)))
}

fn advance(player: &mut AnimationPlayer, dt: f32) -> Vec<String> {
    player.advance(s(dt), &run_clock, &wrap_clock)
}

fn player_with_events(events: Vec<AnimationEvent>) -> AnimationPlayer {
    AnimationPlayer::new(s(1.0)).with_events(events)
}

fn event(time: f32, name: &str) -> AnimationEvent {
    AnimationEvent::new(s(time), name)
}

#[test]
fn player_advances_and_wraps_time() {
    let mut player = AnimationPlayer::new(s(1.0));
    advance(&mut player, 0.4);
    assert!((f(player.time) - 0.4).abs() < 1e-5);
    advance(&mut player, 0.8);
    assert!((f(player.time) - 0.2).abs() < 1e-5);
    assert!(player.playing);
}

#[test]
fn non_looping_player_clamps_and_stops() {
    let mut player = AnimationPlayer::new(s(1.0)).once();
    advance(&mut player, 5.0);
    assert!((f(player.time) - 1.0).abs() < 1e-5);
    assert!(!player.playing);
    advance(&mut player, 1.0);
    assert!((f(player.time) - 1.0).abs() < 1e-5);
}

#[test]
fn zero_speed_freezes_and_negative_plays_backwards() {
    let mut player = AnimationPlayer::new(s(1.0));
    player.time = s(0.5);
    player.speed = s(0.0);
    advance(&mut player, 0.25);
    assert!((f(player.time) - 0.5).abs() < 1e-5);
    player.speed = s(-1.0);
    advance(&mut player, 0.2);
    assert!((f(player.time) - 0.3).abs() < 1e-5);
}

#[test]
fn negative_speed_wraps_backwards_past_zero() {
    let mut player = AnimationPlayer::new(s(1.0));
    player.time = s(0.1);
    player.speed = s(-1.0);
    advance(&mut player, 0.3);
    assert!((f(player.time) - 0.8).abs() < 1e-5);
}

#[test]
fn event_fires_once_when_dt_overshoots_it() {
    let mut player = player_with_events(vec![event(0.5, "footstep")]);
    let fired = advance(&mut player, 0.9);
    assert_eq!(fired, vec!["footstep".to_string()]);
    assert!(advance(&mut player, 0.05).is_empty());
}

#[test]
fn event_does_not_fire_before_it_is_reached() {
    let mut player = player_with_events(vec![event(0.5, "footstep")]);
    assert!(advance(&mut player, 0.2).is_empty());
    assert!(advance(&mut player, 0.2).is_empty());
}

#[test]
fn event_refires_after_loop_wrap() {
    let mut player = player_with_events(vec![event(0.5, "footstep")]);
    assert_eq!(advance(&mut player, 0.6), vec!["footstep".to_string()]);
    assert_eq!(advance(&mut player, 1.0), vec!["footstep".to_string()]);
}

#[test]
fn an_event_near_the_clip_end_survives_the_wrap() {
    let mut player = player_with_events(vec![event(0.95, "late")]);
    advance(&mut player, 0.9);
    let fired = advance(&mut player, 0.2);
    assert_eq!(fired, vec!["late".to_string()]);
}

#[test]
fn multiple_events_in_one_step_all_fire() {
    let mut player = player_with_events(vec![event(0.2, "a"), event(0.4, "b"), event(0.6, "c")]);
    let fired = advance(&mut player, 0.7);
    assert_eq!(fired.len(), 3);
    assert_eq!(fired, vec!["a".to_string(), "b".to_string(), "c".to_string()]);
}

#[test]
fn a_paused_player_fires_nothing() {
    let mut player = player_with_events(vec![event(0.5, "footstep")]);
    player.playing = false;
    assert!(advance(&mut player, 1.0).is_empty());
    assert_eq!(f(player.time), 0.0);
}

#[test]
fn a_zero_length_clip_is_skipped_rather_than_dividing_by_zero() {
    let mut player = AnimationPlayer::new(s(0.0));
    assert!(advance(&mut player, 0.5).is_empty());
    assert!(f(player.time).is_finite());
}

#[test]
fn a_non_finite_dt_is_ignored() {
    let mut player = AnimationPlayer::new(s(1.0));
    player.time = s(0.25);
    advance(&mut player, f32::NAN);
    advance(&mut player, f32::INFINITY);
    assert!((f(player.time) - 0.25).abs() < 1e-5);
}

#[test]
fn restart_rewinds_and_lets_events_fire_again() {
    let mut player = player_with_events(vec![event(0.5, "footstep")]);
    assert_eq!(advance(&mut player, 0.6).len(), 1);
    player.restart();
    assert_eq!(f(player.time), 0.0);
    assert_eq!(advance(&mut player, 0.6).len(), 1);
}

#[test]
fn events_component_reports_by_name() {
    let events = AnimationEvents(vec!["footstep".into(), "swing".into()]);
    assert!(events.fired("footstep"));
    assert!(!events.fired("jump"));
}

#[test]
fn an_event_outside_the_clip_never_fires() {
    let mut player = player_with_events(vec![event(-0.1, "before"), event(1.5, "after")]);
    assert!(advance(&mut player, 0.9).is_empty());
    assert!(advance(&mut player, 0.9).is_empty());
}

#[test]
fn updating_animations_notes_events_and_orders_poses() {
    let mut world = SceneWorld::new();
    let skinned = || Components {
        skinned_mesh_renderer: Some(RenderHandles { mesh: AssetId { value: 1 }, material: AssetId { value: 2 } }),
        ..Components::default()
    };
    let walker = world.spawn(skinned());
    let prop = world.spawn(Components::default());
    let faller = world.spawn(skinned());
    let gone = world.spawn(skinned());
    world.despawn(gone);
    let mut entities = vec![
        Animated {
            entity: walker,
            player: player_with_events(vec![event(0.5, "step")]),
            events: Some(AnimationEvents(vec!["stale".into()])),
        },
        Animated { entity: prop, player: AnimationPlayer::new(s(1.0)), events: None },
        Animated {
            entity: faller,
            player: AnimationPlayer::new(s(1.0)).once(),
            events: Some(AnimationEvents::default()),
        },
        Animated { entity: gone, player: AnimationPlayer::new(s(1.0)), events: None },
    ];
    let orders = update_animations(&world, &mut entities, s(0.75), &run_clock, &wrap_clock);
    assert_eq!(orders.len(), 2);
    assert_eq!(orders[0].index, 0);
    assert!(orders[0].looping);
    assert_eq!(f(orders[0].time), 0.75);
    assert_eq!(orders[1].index, 2);
    assert!(!orders[1].looping);
    let noted = entities[0].events.as_ref().unwrap();
    assert!(noted.fired("step"));
    assert!(!noted.fired("stale"));
    assert_eq!(f(entities[1].player.time), 0.75);
    assert_eq!(f(entities[3].player.time), 0.0);
}

#[test]
fn a_step_of_a_whole_lap_reports_every_event_inside_the_clip() {
    let mut player = player_with_events(vec![event(0.5, "footstep"), event(1.5, "outside")]);
    assert_eq!(advance(&mut player, 0.6), vec!["footstep".to_string()]);
    assert_eq!(advance(&mut player, 1.5), vec!["footstep".to_string()]);
    assert!((f(player.time) - 0.1).abs() < 1e-5);
    let mut backwards = player_with_events(vec![event(0.5, "footstep")]);
    backwards.speed = s(-1.0);
    assert_eq!(advance(&mut backwards, 2.0), vec!["footstep".to_string()]);
}

fn quat() -> Quat {
    Transform::default().rotation
}

fn placed_at(transform: Transform) -> Components {
    Components { global_transform: Some(GlobalTransform(transform)), ..Components::default() }
}

fn placed_world() -> (SceneWorld, Entity) {
    let mut world = SceneWorld::new();
    let entity = world.spawn(placed_at(at(0.0, 0.0, 0.0)));
    (world, entity)
}

fn listener(entity: Entity) -> AudioListener<u32> {
    AudioListener { entity, handle: None }
}

fn make_listener(_: Vec3, _: Quat) -> Option<u32> {
    Some(7)
}

fn make_track(_: Vec3) -> Option<u32> {
    Some(3)
}

#[test]
fn emitter_defaults_to_spatial_autoplay() {
    let (_, entity) = placed_world();
    let emitter = AudioEmitter::<u32>::new(entity);
    assert!(emitter.autoplay);
    assert!(emitter.bus.is_none());
    assert!(!emitter.has_started());
}

#[test]
fn silent_emitter_does_not_autoplay() {
    let (_, entity) = placed_world();
    assert!(!AudioEmitter::<u32>::silent(entity).autoplay);
}

#[test]
fn on_bus_switches_off_spatial_playback() {
    let (_, entity) = placed_world();
    let emitter = AudioEmitter::<u32>::new(entity).on_bus(2);
    assert_eq!(emitter.bus, Some(2));
}

#[test]
fn play_marks_the_emitter_pending() {
    let (_, entity) = placed_world();
    let mut emitter = AudioEmitter::<u32>::silent(entity);
    assert!(!emitter.pending);
    emitter.play();
    assert!(emitter.pending);
}

#[test]
fn update_activates_the_listener_once() {
    let made = RefCell::new(0u32);
    let make = |_: Vec3, _: Quat| {
        *made.borrow_mut() += 1;
        Some(7u32)
    };
    let mut world = SceneWorld::new();
    let entity = world.spawn(placed_at(at(1.0, 2.0, 3.0)));
    let mut listeners = vec![listener(entity)];
    let sync = sync_listener(&world, &mut listeners, &make);
    assert_eq!((sync.chosen, sync.others), (Some(0), 0));
    assert_eq!(sync.update, ListenerUpdate::Made);
    assert!(listeners[0].is_active());
    let sync = sync_listener(&world, &mut listeners, &make);
    assert_eq!(
        sync.update,
        ListenerUpdate::Move { position: v3(1.0, 2.0, 3.0), rotation: quat() }
    );
    assert!(listeners[0].is_active());
    assert_eq!(*made.borrow(), 1);
}

#[test]
fn a_refused_listener_stays_inactive() {
    let (world, entity) = placed_world();
    let mut listeners = vec![listener(entity)];
    let sync = sync_listener(&world, &mut listeners, &|_: Vec3, _: Quat| None::<u32>);
    assert_eq!(sync.update, ListenerUpdate::Missing);
    assert!(!listeners[0].is_active());
    let mut none: Vec<AudioListener<u32>> = Vec::new();
    let sync = sync_listener(&world, &mut none, &make_listener);
    assert_eq!((sync.chosen, sync.others), (None, 0));
    assert_eq!(sync.update, ListenerUpdate::Missing);
}

#[test]
fn of_several_listeners_the_first_placed_one_is_used_and_the_rest_are_counted() {
    let mut world = SceneWorld::new();
    let nowhere = world.spawn(Components::default());
    let first = world.spawn(placed_at(at(1.0, 0.0, 0.0)));
    let second = world.spawn(placed_at(at(2.0, 0.0, 0.0)));
    let mut listeners = vec![listener(nowhere), listener(first), listener(second)];
    let sync = sync_listener(&world, &mut listeners, &make_listener);
    assert_eq!(sync.chosen, Some(1));
    assert_eq!(sync.others, 1);
    assert!(!listeners[0].is_active() && listeners[1].is_active() && !listeners[2].is_active());
}

fn hear(
    world: &SceneWorld,
    listeners: &mut Vec<AudioListener<u32>>,
    emitters: &mut Vec<AudioEmitter<u32>>,
    buses: usize,
) -> Vec<AudioAction> {
    update_audio(world, listeners, emitters, buses, &make_listener, &make_track).actions
}

#[test]
fn autoplay_emitter_starts_exactly_once() {
    let (mut world, ear) = placed_world();
    let source = world.spawn(placed_at(at(1.0, 2.0, 3.0)));
    let mut listeners = vec![listener(ear)];
    let mut emitters = vec![AudioEmitter::<u32>::new(source)];
    let actions = hear(&world, &mut listeners, &mut emitters, 0);
    assert_eq!(
        actions,
        vec![
            AudioAction::MoveTrack { index: 0, position: v3(1.0, 2.0, 3.0) },
            AudioAction::PlayOnTrack { index: 0 },
        ]
    );
    assert!(emitters[0].has_started());
    for _ in 0..10 {
        let actions = hear(&world, &mut listeners, &mut emitters, 0);
        assert_eq!(
            actions,
            vec![AudioAction::MoveTrack { index: 0, position: v3(1.0, 2.0, 3.0) }]
        );
    }
    assert!(emitters[0].has_started());
}

#[test]
fn emitter_without_a_listener_defers_rather_than_dropping_the_play() {
    let (mut world, ear) = placed_world();
    let source = world.spawn(placed_at(at(0.0, 0.0, 0.0)));
    let mut none: Vec<AudioListener<u32>> = Vec::new();
    let mut emitters = vec![AudioEmitter::<u32>::new(source)];
    assert!(hear(&world, &mut none, &mut emitters, 0).is_empty());
    assert!(!emitters[0].has_started());
    assert!(emitters[0].pending);
    let mut listeners = vec![listener(ear)];
    let actions = hear(&world, &mut listeners, &mut emitters, 0);
    assert!(actions.contains(&AudioAction::PlayOnTrack { index: 0 }));
    assert!(emitters[0].has_started());
    let actions = hear(&world, &mut listeners, &mut emitters, 0);
    assert!(!actions.contains(&AudioAction::PlayOnTrack { index: 0 }));
    emitters[0].track = None;
    emitters[0].play();
    assert!(hear(&world, &mut none, &mut emitters, 0).is_empty());
    assert!(emitters[0].has_started(), "a play that is put off leaves the mark");
    let actions = hear(&world, &mut listeners, &mut emitters, 0);
    assert!(actions.contains(&AudioAction::PlayOnTrack { index: 0 }));
}

#[test]
fn emitter_naming_a_missing_bus_is_skipped_not_fatal() {
    let (mut world, ear) = placed_world();
    let source = world.spawn(placed_at(at(0.0, 0.0, 0.0)));
    let mut listeners = vec![listener(ear)];
    let mut emitters = vec![
        AudioEmitter::<u32>::new(source).on_bus(7),
        AudioEmitter::<u32>::new(source).on_bus(1),
    ];
    let actions = hear(&world, &mut listeners, &mut emitters, 2);
    assert_eq!(
        actions,
        vec![
            AudioAction::MissingBus { index: 0, bus: 7 },
            AudioAction::PlayOnBus { index: 1, bus: 1 },
        ]
    );
    assert!(emitters[0].track.is_none());
    assert!(!emitters[0].has_started());
    assert!(emitters[1].has_started());
    assert!(hear(&world, &mut listeners, &mut emitters, 2).is_empty());
}

#[test]
fn transform_default_is_identity() {
    assert_eq!(Transform::default(), Transform::identity());
    assert_eq!(f(Transform::default().scale.x), 1.0);
    assert_eq!(f(Transform::default().rotation.w), 1.0);
}

#[test]
fn global_transform_default_is_identity() {
    assert_eq!(GlobalTransform::default().0, Transform::identity());
}

fn camera(aspect: f32) -> Camera {
    Camera {
        eye: v3(0.0, 1.0, 5.0),
        target: v3(0.0, 0.0, 0.0),
        up: v3(0.0, 1.0, 0.0),
        projection: Projection::Perspective { fov_y_radians: s(1.0) },
        aspect_ratio: s(aspect),
        near: s(0.1),
        far: s(100.0),
    }
}

#[test]
fn transform_and_camera_spawn_and_query_together() {
    let mut world = SceneWorld::new();
    let entity = world.spawn(Components {
        transform: Some(at(5.0, 0.0, 0.0)),
        camera: Some(camera(1.0)),
        ..Components::default()
    });
    let found = world.get(entity).unwrap();
    assert_eq!(found.transform.unwrap().translation, v3(5.0, 0.0, 0.0));
    assert_eq!(f(found.camera.unwrap().aspect_ratio), 1.0);
}

#[test]
fn query_finds_no_entities_when_none_spawned() {
    let world = SceneWorld::new();
    assert_eq!(world.len(), 0);
}

#[test]
fn name_new_wraps_the_given_string() {
    assert_eq!(Name::new("Player").0, "Player");
}

#[test]
fn name_default_is_empty() {
    assert_eq!(Name::default().0, "");
}

#[test]
fn name_display_matches_inner_string() {
    assert_eq!(Name::new("Camera").text(), "Camera");
}

#[test]
fn name_from_str_and_string_round_trip() {
    assert_eq!(Name::from("Light"), Name::new("Light"));
    assert_eq!(Name::from(String::from("Light")), Name::new("Light"));
}

#[test]
fn name_spawns_and_queries_as_a_component() {
    let mut world = SceneWorld::new();
    let entity = world.spawn(Components { name: Some(Name::new("Root")), ..Components::default() });
    assert_eq!(world.get(entity).unwrap().name.as_ref().unwrap().0, "Root");
}

fn uv() -> UvRect {
    UvRect { min: Vec2 { x: s(0.0), y: s(0.0) }, max: Vec2 { x: s(1.0), y: s(1.0) } }
}

#[test]
fn sprite_new_has_white_tint() {
    let size = Vec2 { x: s(2.0), y: s(3.0) };
    let sprite = Sprite::new(size, uv());
    assert_eq!(sprite.size, size);
    assert_eq!(sprite.uv, uv());
    assert_eq!(sprite.color, Rgba { r: s(1.0), g: s(1.0), b: s(1.0), a: s(1.0) });
}

#[test]
fn with_z_order_sets_the_layer() {
    let size = Vec2 { x: s(1.0), y: s(1.0) };
    let sprite = Sprite::new(size, uv()).with_z_order(s(-2.0));
    assert_eq!(f(sprite.z_order), -2.0);
    assert_eq!(f(Sprite::new(size, uv()).z_order), 0.0);
}

#[test]
fn sprite_spawns_and_queries_as_a_component() {
    let mut world = SceneWorld::new();
    let part = UvRect {
        min: Vec2 { x: s(0.25), y: s(0.0) },
        max: Vec2 { x: s(0.5), y: s(1.0) },
    };
    let sprite = Sprite::new(Vec2 { x: s(1.0), y: s(1.0) }, part);
    let entity = world.spawn(Components { sprite: Some(sprite), ..Components::default() });
    assert_eq!(world.get(entity).unwrap().sprite.unwrap().uv, part);
}

#[test]
fn asset_source_carries_a_path_and_optional_id() {
    let bare = AssetSource::new("props/barrel.gltf");
    assert_eq!(bare.path, "props/barrel.gltf");
    assert_eq!(bare.id, None);
    let identified =
        AssetSource::with_id("props/barrel.gltf", "3fa00000-0000-0000-0000-000000000000");
    assert_eq!(identified.path, "props/barrel.gltf");
    assert_eq!(identified.id.as_deref(), Some("3fa00000-0000-0000-0000-000000000000"));
    assert_eq!(AssetSource::default(), AssetSource { path: String::new(), id: None });
}

fn step_particle(particle: Particle, acceleration: Vec3, dt: Scalar) -> Particle {
    let dt = f(dt);
    let velocity = v3(
        f(particle.velocity.x) + f(acceleration.x) * dt,
        f(particle.velocity.y) + f(acceleration.y) * dt,
        f(particle.velocity.z) + f(acceleration.z) * dt,
    );
    Particle {
        position: v3(
            f(particle.position.x) + f(velocity.x) * dt,
            f(particle.position.y) + f(velocity.y) * dt,
            f(particle.position.z) + f(velocity.z) * dt,
        ),
        velocity,
        age: s(f(particle.age) + dt),
        lifetime: particle.lifetime,
        rotation: s(f(particle.rotation) + f(particle.rotation_speed) * dt),
        rotation_speed: particle.rotation_speed,
    }
}

fn count_up(due: Scalar, rate: Scalar, dt: Scalar) -> Scalar {
    s(f(due) + f(rate) * f(dt))
}

fn less_one(due: Scalar) -> Scalar {
    s(f(due) - 1.0)
}

fn make_particle(config: &ParticleEmitterConfig, origin: Vec3, random: u64) -> (Particle, u64) {
    (
        Particle {
            position: origin,
            velocity: v3(0.0, f(config.initial_speed), 0.0),
            age: s(0.0),
            lifetime: config.lifetime,
            rotation: s(0.0),
            rotation_speed: s(0.0),
        },
        random.wrapping_add(1),
    )
}

fn update_emitter(emitter: &mut ParticleEmitter, dt: f32) {
    emitter.update(
        v3(0.0, 0.0, 0.0),
        s(dt),
        &step_particle,
        &count_up,
        &less_one,
        &make_particle,
    );
}

fn rgba(value: f32) -> Rgba {
    Rgba { r: s(value), g: s(value), b: s(value), a: s(value) }
}

fn particle_config() -> ParticleEmitterConfig {
    ParticleEmitterConfig {
        spawn_rate: s(10.0),
        lifetime: s(1.0),
        lifetime_jitter: s(0.0),
        initial_speed: s(2.0),
        speed_jitter: s(0.5),
        direction: v3(0.0, 1.0, 0.0),
        spread: s(0.2),
        acceleration: v3(0.0, 0.0, 0.0),
        start_size: s(1.0),
        end_size: s(0.0),
        start_color: rgba(1.0),
        end_color: rgba(0.0),
        max_particles: 100,
        blend: BlendMode::Alpha,
        seed: 123,
    }
}

#[test]
fn particle_is_dead_at_or_past_its_lifetime() {
    let young = Particle {
        position: v3(0.0, 0.0, 0.0),
        velocity: v3(0.0, 0.0, 0.0),
        age: s(0.9),
        lifetime: s(1.0),
        rotation: s(0.0),
        rotation_speed: s(0.0),
    };
    assert!(!young.is_dead());
    let old = step_particle(young, v3(0.0, 0.0, 0.0), s(0.1));
    assert!(old.is_dead());
    assert_eq!(life_fraction(&old), 1.0);
}

#[test]
fn emitter_update_spawns_at_the_configured_rate() {
    let mut emitter = ParticleEmitter::new(particle_config(), 123);
    for _ in 0..10 {
        update_emitter(&mut emitter, 0.1);
    }
    assert_eq!(emitter.len(), 10);
}

#[test]
fn emitter_update_removes_dead_particles() {
    let mut emitter = ParticleEmitter::new(particle_config(), 123);
    for _ in 0..5 {
        update_emitter(&mut emitter, 0.1);
    }
    let mid = emitter.len();
    assert!(mid > 0);
    emitter.config.spawn_rate = s(0.0);
    update_emitter(&mut emitter, 2.0);
    assert_eq!(emitter.len(), 0);
    assert!(emitter.is_empty());
}

#[test]
fn emitter_update_never_exceeds_max_particles() {
    let mut config = particle_config();
    config.spawn_rate = s(10_000.0);
    config.max_particles = 50;
    config.lifetime = s(100.0);
    let mut emitter = ParticleEmitter::new(config, 123);
    for _ in 0..20 {
        update_emitter(&mut emitter, 0.1);
    }
    assert_eq!(emitter.len(), 50);
    assert_eq!(f(emitter.spawn_accumulator), 0.0);
    assert_eq!(emitter.random_state, 123 + 50);
}

#[test]
fn emitter_update_ignores_nonpositive_and_nonfinite_dt() {
    let mut emitter = ParticleEmitter::new(particle_config(), 123);
    update_emitter(&mut emitter, 0.0);
    update_emitter(&mut emitter, -1.0);
    update_emitter(&mut emitter, f32::NAN);
    update_emitter(&mut emitter, f32::INFINITY);
    assert_eq!(emitter.len(), 0);
}

fn life_fraction(particle: &Particle) -> f32 {
    (f(particle.age) / f(particle.lifetime)).clamp(0.0, 1.0)
}

/// The size and the opacity with which the particle is drawn.
fn drawn(config: &ParticleEmitterConfig, particle: &Particle) -> (f32, f32) {
    let t = life_fraction(particle);
    (
        f(config.start_size) + (f(config.end_size) - f(config.start_size)) * t,
        f(config.start_color.a) + (f(config.end_color.a) - f(config.start_color.a)) * t,
    )
}

#[test]
fn extract_into_interpolates_size_and_colour_over_life() {
    let mut emitter = ParticleEmitter::new(particle_config(), 123);
    update_emitter(&mut emitter, 0.1);
    let mut fresh: Vec<(f32, f32)> = Vec::new();
    emitter.extract_into(&mut fresh, &drawn);
    assert_eq!(fresh.len(), 1);
    assert!((fresh[0].0 - 1.0).abs() < 1e-5);
    assert!((fresh[0].1 - 1.0).abs() < 1e-5);
    emitter.config.spawn_rate = s(0.0);
    update_emitter(&mut emitter, 0.1);
    let mut aged: Vec<(f32, f32)> = Vec::new();
    emitter.extract_into(&mut aged, &drawn);
    assert_eq!(aged.len(), 1);
    assert!((aged[0].0 - 0.9).abs() < 1e-5);
    assert!((aged[0].1 - 0.9).abs() < 1e-5);
}

#[test]
fn extract_particles_splits_by_blend_mode() {
    let mut alpha_emitter = ParticleEmitter::new(particle_config(), 123);
    update_emitter(&mut alpha_emitter, 0.25);
    let mut additive_config = particle_config();
    additive_config.blend = BlendMode::Additive;
    additive_config.seed = 999;
    let mut additive_emitter = ParticleEmitter::new(additive_config, 999);
    update_emitter(&mut additive_emitter, 0.55);
    let alpha_len = alpha_emitter.len();
    let additive_len = additive_emitter.len();
    assert_eq!((alpha_len, additive_len), (2, 5));
    let mut world = SceneWorld::new();
    let smoke = world.spawn(Components::default());
    let sparks = world.spawn(Components::default());
    let emitters = [
        PlacedEmitter { entity: smoke, emitter: alpha_emitter },
        PlacedEmitter { entity: sparks, emitter: additive_emitter },
    ];
    let (alpha, additive) = extract_particles(&world, &emitters, &drawn);
    assert_eq!(alpha.len(), alpha_len);
    assert_eq!(additive.len(), additive_len);
    world.despawn(sparks);
    let (alpha, additive) = extract_particles(&world, &emitters, &drawn);
    assert_eq!(alpha.len(), alpha_len);
    assert!(additive.is_empty());
}

#[test]
fn extract_particles_on_an_empty_world_is_empty() {
    let (alpha, additive) = extract_particles(&SceneWorld::new(), &[], &drawn);
    assert!(alpha.is_empty() && additive.is_empty());
}

#[test]
fn updating_particles_uses_each_sources_place() {
    let mut world = SceneWorld::new();
    let parent = world.spawn(with_transform(at(4.0, 5.0, 6.0)));
    let source = world.spawn(with_transform(at(1.0, 1.0, 1.0)));
    world.set_parent(source, parent);
    let mut emitters = vec![PlacedEmitter {
        entity: source,
        emitter: ParticleEmitter::new(particle_config(), 1),
    }];
    update_particles(
        &mut world,
        &mut emitters,
        s(0.1),
        &compose,
        &step_particle,
        &count_up,
        &less_one,
        &make_particle,
    );
    assert_eq!(emitters[0].emitter.len(), 1);
    assert_eq!(emitters[0].emitter.particles[0].position, v3(5.0, 6.0, 7.0));
}

#[test]
fn default_particles_are_embers() {
    let config = ParticleEmitterConfig::default();
    assert_eq!(f(config.spawn_rate), 60.0);
    assert_eq!(f(config.lifetime), 1.6);
    assert_eq!(f(config.lifetime_jitter), 0.4);
    assert_eq!(f(config.initial_speed), 1.4);
    assert_eq!(f(config.speed_jitter), 0.5);
    assert_eq!(f(config.spread), 0.35);
    assert_eq!(f(config.acceleration.y), -0.6);
    assert_eq!(f(config.start_size), 0.09);
    assert_eq!(f(config.end_size), 0.02);
    assert_eq!(f(config.start_color.g), 0.55);
    assert_eq!(f(config.start_color.b), 0.15);
    assert_eq!(f(config.end_color.g), 0.06);
    assert_eq!(config.max_particles, 200);
    assert_eq!(config.blend, BlendMode::Additive);
}

#[test]
fn sync_copies_simulated_translation_into_transform() {
    let mut world = SceneWorld::new();
    let mut start = at(0.0, 10.0, 0.0);
    start.scale = v3(2.0, 2.0, 2.0);
    let entity = world.spawn(with_transform(start));
    let turned = Quat { x: s(0.0), y: s(1.0), z: s(0.0), w: s(0.0) };
    let pose_of = |body: u64| {
        if body == 4 {
            Some(Pose { translation: v3(0.0, 9.5, 0.0), rotation: turned })
        } else {
            None
        }
    };
    sync_rigid_bodies(&mut world, &[RigidBody { entity, body: 4 }], &pose_of);
    let moved = world.get(entity).unwrap().transform.unwrap();
    assert!(f(moved.translation.y) < 10.0);
    assert_eq!(moved.rotation, turned);
    assert_eq!(moved.scale, v3(2.0, 2.0, 2.0));
}

#[test]
fn sync_leaves_transform_untouched_for_a_stale_handle() {
    let mut world = SceneWorld::new();
    let entity = world.spawn(with_transform(at(1.0, 2.0, 3.0)));
    sync_rigid_bodies(&mut world, &[RigidBody { entity, body: 9 }], &|_: u64| None);
    assert_eq!(world.get(entity).unwrap().transform.unwrap().translation, v3(1.0, 2.0, 3.0));
}

#[test]
fn sync_with_no_rigid_body_entities_is_a_harmless_no_op() {
    let mut world = SceneWorld::new();
    let entity = world.spawn(with_transform(at(1.0, 2.0, 3.0)));
    let bare = world.spawn(Components::default());
    let pose_of =
        |_: u64| Some(Pose { translation: v3(1.0, 1.0, 1.0), rotation: quat() });
    sync_rigid_bodies(&mut world, &[], &pose_of);
    assert_eq!(world.get(entity).unwrap().transform.unwrap().translation, v3(1.0, 2.0, 3.0));
    sync_rigid_bodies(&mut world, &[RigidBody { entity: bare, body: 1 }], &pose_of);
    assert!(world.get(bare).unwrap().transform.is_none());
}

#[test]
fn root_global_transform_equals_local_transform() {
    let mut world = SceneWorld::new();
    let entity = world.spawn(with_transform(at(1.0, 2.0, 3.0)));
    propagate_transforms(&mut world, &compose);
    assert_eq!(world.get(entity).unwrap().global_transform.unwrap().0, at(1.0, 2.0, 3.0));
}

#[test]
fn child_global_transform_is_composed_with_parent() {
    let mut world = SceneWorld::new();
    let parent = world.spawn(with_transform(at(10.0, 0.0, 0.0)));
    let child = world.spawn(with_transform(at(1.0, 0.0, 0.0)));
    world.set_parent(child, parent);
    propagate_transforms(&mut world, &compose);
    let global = world.get(child).unwrap().global_transform.unwrap();
    assert_eq!(global.0.translation, v3(11.0, 0.0, 0.0));
}

#[test]
fn grandchild_composes_through_two_ancestors() {
    let mut world = SceneWorld::new();
    let grandparent = world.spawn(with_transform(at(100.0, 0.0, 0.0)));
    let parent = world.spawn(with_transform(at(10.0, 0.0, 0.0)));
    world.set_parent(parent, grandparent);
    let child = world.spawn(with_transform(at(1.0, 0.0, 0.0)));
    world.set_parent(child, parent);
    propagate_transforms(&mut world, &compose);
    let global = world.get(child).unwrap().global_transform.unwrap();
    assert_eq!(global.0.translation, v3(111.0, 0.0, 0.0));
}

#[test]
fn child_without_own_transform_still_inherits_parent_global() {
    let mut world = SceneWorld::new();
    let parent = world.spawn(with_transform(at(5.0, 0.0, 0.0)));
    let child = world.spawn(Components::default());
    world.set_parent(child, parent);
    propagate_transforms(&mut world, &compose);
    let global = world.get(child).unwrap().global_transform.unwrap();
    assert_eq!(global.0.translation, v3(5.0, 0.0, 0.0));
}

#[test]
fn re_running_propagate_updates_existing_global_transform() {
    let mut world = SceneWorld::new();
    let entity = world.spawn(with_transform(at(1.0, 0.0, 0.0)));
    propagate_transforms(&mut world, &compose);
    let global = world.get(entity).unwrap().global_transform.unwrap();
    assert_eq!(global.0.translation, v3(1.0, 0.0, 0.0));
    let mut components = world.get(entity).unwrap().clone();
    components.transform = Some(at(9.0, 0.0, 0.0));
    world.set(entity, components);
    propagate_transforms(&mut world, &compose);
    let global = world.get(entity).unwrap().global_transform.unwrap();
    assert_eq!(global.0.translation, v3(9.0, 0.0, 0.0));
}

#[test]
fn entity_with_no_transform_at_all_is_untouched() {
    let mut world = SceneWorld::new();
    let entity = world.spawn(Components::default());
    propagate_transforms(&mut world, &compose);
    assert!(world.get(entity).unwrap().global_transform.is_none());
}

/// Sprites at depths as a camera at 5 on the axis sees them: the smaller the position,
/// the deeper.
fn sprites(list: &[(f32, f32)]) -> Vec<SpriteInput> {
    list.iter()
        .enumerate()
        .map(|(i, &(z_order, z))| SpriteInput {
            z_order: s(z_order),
            depth: s(5.0 - z),
            entity: i as u64,
        })
        .collect()
}

#[test]
fn transparent_sort_is_back_to_front() {
    let meshes: Vec<MeshInput> = [5.0f32, 50.0, 20.0]
        .iter()
        .map(|&depth| MeshInput {
            mesh: AssetId { value: 1 },
            material: AssetId { value: 2 },
            mesh_registered: true,
            material_registered: true,
            visible: true,
            transparent: true,
            depth: s(depth),
        })
        .collect();
    let plan = plan_frame(&meshes, &[], &[], None, None);
    assert_eq!(plan.transparent, vec![1, 2, 0]);
    assert!(plan.opaque.is_empty());
}

#[test]
fn sprite_batch_sorts_back_to_front() {
    let order = extract_sprites(&sprites(&[(0.0, 2.0), (0.0, -4.0), (0.0, 0.0)]));
    assert_eq!(order, vec![1, 2, 0]);
}

#[test]
fn z_order_outranks_view_depth() {
    let order = extract_sprites(&sprites(&[(1.0, -4.0), (0.0, 4.0)]));
    assert_eq!(order, vec![1, 0]);
}

#[test]
fn z_order_breaks_ties_deterministically() {
    let input = sprites(&[(0.0, 0.0), (0.0, 0.0), (0.0, 0.0)]);
    let first = extract_sprites(&input);
    let second = extract_sprites(&input);
    assert_eq!(first, second);
    assert_eq!(first, vec![0, 1, 2]);
}

#[test]
fn empty_sprite_set_skips_the_pass() {
    let order = extract_sprites(&[]);
    assert!(order.is_empty());
}

#[test]
fn a_nan_z_order_does_not_panic_the_sort() {
    let order = extract_sprites(&sprites(&[(f32::NAN, 0.0), (0.0, 1.0), (1.0, -1.0)]));
    assert_eq!(order.len(), 3);
    assert_eq!(order, vec![1, 2, 0]);
}

#[test]
fn despawn_mesh_renderer_without_the_component_just_despawns() {
    let mut world = SceneWorld::new();
    let entity = world.spawn(Components::default());
    let despawned = despawn_mesh_renderer(&mut world, entity);
    assert!(despawned.existed);
    assert_eq!(despawned.released, None);
    assert!(!world.contains(entity));
}

#[test]
fn despawn_mesh_renderer_on_a_missing_entity_returns_false() {
    let mut world = SceneWorld::new();
    let entity = world.spawn(Components::default());
    world.despawn(entity);
    assert!(!despawn_mesh_renderer(&mut world, entity).existed);
}

#[test]
fn despawn_skinned_mesh_renderer_without_the_component_just_despawns() {
    let mut world = SceneWorld::new();
    let entity = world.spawn(Components::default());
    assert!(despawn_skinned_mesh_renderer(&mut world, entity).existed);
    assert!(!world.contains(entity));
}

#[test]
fn despawn_skinned_mesh_renderer_on_a_missing_entity_returns_false() {
    let mut world = SceneWorld::new();
    let entity = world.spawn(Components::default());
    world.despawn(entity);
    assert!(!despawn_skinned_mesh_renderer(&mut world, entity).existed);
}

#[test]
fn despawn_instanced_mesh_renderer_without_the_component_just_despawns() {
    let mut world = SceneWorld::new();
    let entity = world.spawn(Components::default());
    assert!(despawn_instanced_mesh_renderer(&mut world, entity).existed);
    assert!(!world.contains(entity));
}

#[test]
fn despawn_instanced_mesh_renderer_on_a_missing_entity_returns_false() {
    let mut world = SceneWorld::new();
    let entity = world.spawn(Components::default());
    world.despawn(entity);
    assert!(!despawn_instanced_mesh_renderer(&mut world, entity).existed);
}

#[test]
fn despawn_vegetation_renderer_without_the_component_just_despawns() {
    let mut world = SceneWorld::new();
    let entity = world.spawn(Components::default());
    assert!(despawn_vegetation_renderer(&mut world, entity).existed);
    assert!(!world.contains(entity));
}

#[test]
fn despawn_vegetation_renderer_on_a_missing_entity_returns_false() {
    let mut world = SceneWorld::new();
    let entity = world.spawn(Components::default());
    world.despawn(entity);
    assert!(!despawn_vegetation_renderer(&mut world, entity).existed);
}

#[test]
fn despawning_a_drawn_entity_releases_its_handles_and_takes_its_children() {
    let handles = RenderHandles { mesh: AssetId { value: 8 }, material: AssetId { value: 9 } };
    let mut world = SceneWorld::new();
    let parent = world.spawn(Components { mesh_renderer: Some(handles), ..Components::default() });
    let child = world.spawn(Components::default());
    world.set_parent(child, parent);
    let despawned = despawn_mesh_renderer(&mut world, parent);
    assert_eq!(despawned.released, Some(handles));
    assert!(!world.contains(child));
    assert_eq!(world.len(), 0);
}

fn instanced(in_view: &[bool]) -> InstancedInput {
    InstancedInput {
        mesh_registered: true,
        material_registered: true,
        in_view: in_view.to_vec(),
    }
}

#[test]
fn visible_instances_keeps_all_when_all_in_view() {
    let plan = plan_frame(&[], &[], &[instanced(&[true, true, true])], None, None);
    assert_eq!(plan.instanced[0].instances.len(), 3);
    assert_eq!(plan.stats.instances_total, 3);
    assert_eq!(plan.stats.instances_drawn, 3);
}

#[test]
fn visible_instances_drops_the_ones_outside_the_frustum() {
    let plan = plan_frame(&[], &[], &[instanced(&[true, false, false])], None, None);
    assert_eq!(plan.instanced[0].instances, vec![0]);
    assert_eq!(plan.stats.instances_total, 3);
    assert_eq!(plan.stats.instances_drawn, 1);
}

#[test]
fn visible_instances_of_an_empty_set_is_empty() {
    let plan = plan_frame(&[], &[], &[instanced(&[])], None, None);
    assert_eq!(plan.stats.instances_drawn, 0);
    assert!(plan.instanced.iter().all(|draw| draw.instances.is_empty()));
}

#[test]
fn vegetation_and_sprites_are_drawn_only_with_their_pipelines() {
    let plants = [instanced(&[true, false])];
    let layers = sprites(&[(1.0, 0.0), (0.0, 0.0)]);
    let plan = plan_frame(&[], &[], &[], Some(&plants), Some(&layers));
    assert_eq!(plan.stats.vegetation_total, 2);
    assert_eq!(plan.stats.vegetation_drawn, 1);
    assert_eq!(plan.stats.sprites_drawn, 2);
    assert_eq!(plan.sprites, vec![1, 0]);
    let plan = plan_frame(&[], &[], &[], None, None);
    assert_eq!(plan.stats, RenderStats::default());
}

#[test]
fn unregistered_meshes_are_not_drawn() {
    let mesh = MeshInput {
        mesh: AssetId { value: 1 },
        material: AssetId { value: 2 },
        mesh_registered: false,
        material_registered: true,
        visible: true,
        transparent: false,
        depth: s(1.0),
    };
    let skinned = SkinnedInput { mesh_registered: true, material_registered: true };
    let plan = plan_frame(&[mesh, mesh], &[skinned], &[], None, None);
    assert!(plan.opaque.is_empty());
    assert_eq!(plan.stats.meshes_total, 0);
    assert_eq!(plan.stats.skinned_drawn, 1);
}

#[test]
fn meshes_that_share_a_key_are_merged_and_counted() {
    let mesh = |value: u128, visible: bool| MeshInput {
        mesh: AssetId { value },
        material: AssetId { value },
        mesh_registered: true,
        material_registered: true,
        visible,
        transparent: false,
        depth: s(1.0),
    };
    let plan = plan_frame(&[mesh(1, true), mesh(2, true), mesh(1, true), mesh(1, false)], &[], &[], None, None);
    assert_eq!(plan.opaque, vec![0, 1, 2]);
    assert_eq!(plan.shadow_casters, vec![0, 1, 2, 3]);
    assert_eq!(plan.batching.batches, vec![vec![0, 2]]);
    assert_eq!(plan.stats.meshes_total, 4);
    assert_eq!(plan.stats.meshes_drawn, 3);
    assert_eq!(plan.stats.auto_batches, 1);
    assert_eq!(plan.stats.auto_batched_drawn, 2);
}

/// How a mesh looks to a camera that sees everything.
fn seen_mesh(place: Transform, _: RenderHandles) -> MeshLook {
    MeshLook {
        mesh_registered: true,
        material_registered: true,
        visible: true,
        transparent: false,
        depth: place.translation.z,
    }
}

fn seen_skin(_: RenderHandles) -> SkinnedInput {
    SkinnedInput { mesh_registered: true, material_registered: true }
}

fn two_copies(_: Entity, _: RenderHandles) -> InstancedInput {
    instanced(&[true, false])
}

fn depth_of(position: Vec3) -> Scalar {
    position.z
}

#[test]
fn a_frame_is_drawn_from_the_world_after_its_transforms_are_propagated() {
    let handles = RenderHandles { mesh: id(1), material: id(2) };
    let mut world = SceneWorld::new();
    let parent = world.spawn(with_transform(at(0.0, 0.0, 10.0)));
    let mesh = world.spawn(Components {
        mesh_renderer: Some(handles),
        ..with_transform(at(0.0, 0.0, 1.0))
    });
    world.set_parent(mesh, parent);
    let skin = world.spawn(Components {
        skinned_mesh_renderer: Some(handles),
        ..with_transform(at(0.0, 0.0, 0.0))
    });
    let grove = world.spawn(Components {
        instanced_mesh_renderer: Some(handles),
        ..with_transform(at(0.0, 0.0, 0.0))
    });
    let grass = world.spawn(Components {
        vegetation_renderer: Some(handles),
        ..with_transform(at(0.0, 0.0, 0.0))
    });
    let icon = world.spawn(Components {
        sprite: Some(Sprite::new(Vec2 { x: s(1.0), y: s(1.0) }, uv()).with_z_order(s(3.0))),
        ..with_transform(at(0.0, 0.0, 4.0))
    });
    assert!(entities_drawn(&world, Drawn::Mesh).is_empty(), "it has no place in the world yet");
    let frame = extract_frame(
        &mut world,
        true,
        true,
        &compose,
        &seen_mesh,
        &seen_skin,
        &two_copies,
        &depth_of,
    );
    assert_eq!(entities_drawn(&world, Drawn::Mesh), vec![mesh]);
    assert_eq!(entities_drawn(&world, Drawn::Skinned), vec![skin]);
    assert_eq!(entities_drawn(&world, Drawn::Instanced), vec![grove]);
    assert_eq!(entities_drawn(&world, Drawn::Vegetation), vec![grass]);
    assert_eq!(entities_drawn(&world, Drawn::Sprite), vec![icon]);
    assert_eq!(frame.inputs.meshes.len(), 1);
    assert_eq!(f(frame.inputs.meshes[0].depth), 11.0);
    assert_eq!(frame.inputs.skinned.len(), 1);
    assert_eq!(frame.inputs.instanced.len(), 1);
    let sprite = &frame.inputs.sprites.as_ref().unwrap()[0];
    assert_eq!((f(sprite.z_order), f(sprite.depth)), (3.0, 4.0));
    let plan = frame.plan.unwrap();
    assert_eq!(plan.stats.instances_total, 2);
    assert_eq!(plan.stats.instances_drawn, 1);
    assert_eq!(plan.sprites, vec![0]);
    let without = extract_frame(
        &mut world,
        false,
        false,
        &compose,
        &seen_mesh,
        &seen_skin,
        &two_copies,
        &depth_of,
    );
    assert!(without.inputs.vegetation.is_none() && without.inputs.sprites.is_none());
    assert!(without.plan.unwrap().sprites.is_empty());
}

#[test]
fn only_what_has_a_place_is_drawn() {
    let mut world = SceneWorld::new();
    world.spawn(Components {
        sprite: Some(Sprite::new(Vec2 { x: s(1.0), y: s(1.0) }, uv())),
        ..Components::default()
    });
    propagate_transforms(&mut world, &compose);
    assert!(sprite_inputs(&world, &depth_of).is_empty());
    assert!(mesh_inputs(&world, &seen_mesh).is_empty());
    assert!(skinned_inputs(&world, &seen_skin).is_empty());
    assert!(instanced_inputs(&world, Drawn::Vegetation, &two_copies).is_empty());
}

fn id(value: u128) -> AssetId {
    AssetId { value }
}

#[test]
fn plan_auto_batches_of_nothing_is_an_empty_plan() {
    assert_eq!(plan_auto_batches(&[]), BatchPlan::default());
}

#[test]
fn plan_auto_batches_all_distinct_keys_are_all_individual() {
    let (a, b, c) = (id(1), id(2), id(3));
    let plan = plan_auto_batches(&[(a, a), (b, b), (c, c)]);
    assert_eq!(plan.individuals, vec![0, 1, 2]);
    assert!(plan.batches.is_empty());
}

#[test]
fn plan_auto_batches_one_shared_key_becomes_a_single_batch() {
    let key = (id(1), id(2));
    let plan = plan_auto_batches(&[key, key, key, key]);
    assert!(plan.individuals.is_empty());
    assert_eq!(plan.batches, vec![vec![0, 1, 2, 3]]);
}

#[test]
fn plan_auto_batches_threshold_is_exactly_two() {
    assert_eq!(MIN_AUTO_BATCH_SIZE, 2);
    let solo = (id(1), id(1));
    let pair = (id(2), id(2));
    let plan = plan_auto_batches(&[solo, pair, pair]);
    assert_eq!(plan.individuals, vec![0]);
    assert_eq!(plan.batches, vec![vec![1, 2]]);
}

#[test]
fn plan_auto_batches_needs_both_mesh_and_material_to_match() {
    let (mesh_a, mesh_b, mat_a, mat_b) = (id(1), id(2), id(3), id(4));
    let same_mesh = plan_auto_batches(&[(mesh_a, mat_a), (mesh_a, mat_b)]);
    assert_eq!(same_mesh.individuals, vec![0, 1]);
    assert!(same_mesh.batches.is_empty());
    let same_material = plan_auto_batches(&[(mesh_a, mat_a), (mesh_b, mat_a)]);
    assert_eq!(same_material.individuals, vec![0, 1]);
    assert!(same_material.batches.is_empty());
}

#[test]
fn plan_auto_batches_keeps_first_seen_order_for_groups_and_members() {
    let (a, b, c, d) = (id(1), id(2), id(3), id(4));
    let crate_key = (a, b);
    let barrel_key = (c, d);
    let lone_1 = (a, a);
    let lone_2 = (b, b);
    let plan = plan_auto_batches(&[
        crate_key, barrel_key, lone_1, crate_key, barrel_key, lone_2, crate_key,
    ]);
    assert_eq!(plan.batches, vec![vec![0, 3, 6], vec![1, 4]]);
    assert_eq!(plan.individuals, vec![2, 5]);
}

#[test]
fn render_stats_default_has_zero_vegetation_counts() {
    let stats = RenderStats::default();
    assert_eq!(stats.vegetation_total, 0);
    assert_eq!(stats.vegetation_drawn, 0);
    let copy = stats;
    assert_eq!(stats, copy);
}

#[test]
fn a_new_world_leaves_room_for_entities() {
    let mut world = SceneWorld::new();
    let first = world.spawn(Components::default());
    let second = world.spawn(Components::default());
    assert_ne!(first, second);
    assert_eq!(world.len(), 2);
    assert_eq!(world.entity_at(0), first);
    assert_eq!(world.entity_at(1), second);
    assert!(world.parent(second).is_none());
    world.set_parent(second, first);
    assert_eq!(world.parent(second), Some(first));
    assert_eq!(world.children(first), vec![second]);
    world.clear_parent(second);
    assert!(world.parent(second).is_none());
    assert!(world.children(first).is_empty());
}

#[test]
fn identifiers_read_back_what_they_write() {
    let id = AssetId { value: 0x3fa0_0000_0000_0000_0000_0000_0000_00ff };
    assert_eq!(id.text(), "3fa00000-0000-0000-0000-0000000000ff");
    assert_eq!(parse_asset_id(&id.text()), Some(id));
    assert_eq!(parse_asset_id("not an id"), None);
}

#[test]
fn an_unknown_stage_is_reported_by_name() {
    let error = stage_result(Err("Late".to_string())).unwrap_err();
    assert!(matches!(error, EcsError::UnknownStage(_)));
    assert_eq!(error.message(), "no schedule registered for stage Late");
    assert!(stage_result(Ok(())).is_ok());
    assert_ne!(format!("{:?}", Update), format!("{:?}", RenderExtract));
}
