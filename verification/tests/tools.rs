//! Tests of previews, profiling, searching, sessions, overlays and the shell.

use std::cell::RefCell;
use std::collections::BTreeMap;

use vge_studio::asset_id::AssetId;
use vge_studio::ecs::components::{
    AssetSource, BodyKind, Camera, ColliderShape, Components, MeshSource, Name, Projection,
    RenderHandles, Rgba, SceneAudioEmitter, SceneCollider, SpriteSource, Static, Transform, Vec2,
    Vec3,
};
use vge_studio::ecs::scalar::Scalar;
use vge_studio::ecs::world::SceneWorld;
use vge_studio::editor::asset_browser::AssetView;
use vge_studio::editor::assets::{AssetEntry, AssetKind};
use vge_studio::editor::chrome::{BottomTab, PanelVisibility, Workspace};
use vge_studio::editor::dirty::{DirtyState, PendingAction};
use vge_studio::editor::error::EditorError;
use vge_studio::editor::gizmo::{Axis, HandleDistance};
use vge_studio::editor::guard::{
    question, saved_text, Choice, Guard, GuardAnswer, SceneEffect,
};
use vge_studio::editor::history::History;
use vge_studio::editor::import::{AssetImporter, ImportOutcome, ImportRecord};
use vge_studio::editor::inspector::{set_transform, toggle_marker, transform_of, Marker};
use vge_studio::editor::overlays::{
    build, Lights, NavGrid, OverlayItem, OverlayToggles, PointLight,
};
use vge_studio::editor::play::{EditorMode, PlayState};
use vge_studio::editor::prefab::{capture, prefab_path, sanitize_stem, unique_path};
use vge_studio::editor::preview::{
    audio_summary, downscale_rgba, failure_message, human_bytes, mesh_lines, mesh_summary,
    preview, texture_line, texture_summary, thumbnail, waveform_bins, MeshSize, ModelSize,
    PreviewKey, PreviewShown, WaveBin,
};
use vge_studio::editor::profiler::{bar_color, FrameProfiler, HISTORY_LEN};
use vge_studio::editor::project_swap::{ProjectRequest, RecentProjects, MAX_RECENT_PROJECTS};
use vge_studio::editor::resolve::{
    asset_id, pending_meshes, pending_sprites, resolve_pending, resolve_sprite_uv, DecodedKind,
    EditorResolver, MeshAction, ResolveError,
};
use vge_studio::editor::search::{
    run_text_search, search_input, starts_file, symbol_clicked, symbol_kind_label, symbol_row,
    text_hit_clicked, text_row, word_bounded, Jump, SearchInput, SearchItem, SearchMode,
    SearchQuery, SearchState, SymbolHit, TextResults,
};
use vge_studio::editor::session::{
    restore_configuration, restore_layouts, EditorSession, SESSION_FILE, SESSION_VERSION,
};
use vge_studio::editor::shell::{
    accept_drop, bottom_tab_label, can_export, chat_line, cursor_text, drag_gizmo, drag_selection,
    export_label, is_prefab, mode_badge, open_frame, play_label, queue_prompt, recent_entry,
    scene_cursor_icon, settle_frame, shortcut, shown_log_entries, take_step, toggle_play, ChatRole,
    CodePanel, CursorIcon, DragInput, Handle, ScreenRect, Shortcut,
};

fn s(value: f32) -> Scalar {
    Scalar { bits: value.to_bits() }
}

fn f(value: Scalar) -> f32 {
    f32::from_bits(value.bits)
}

fn v3(x: f32, y: f32, z: f32) -> Vec3 {
    Vec3 { x: s(x), y: s(y), z: s(z) }
}

fn at(x: f32) -> Transform {
    Transform::from_translation(v3(x, 0.0, 0.0))
}

fn named(name: &str) -> Components {
    Components { name: Some(Name::new(name)), ..Components::default() }
}

fn placed(name: &str, x: f32) -> Components {
    Components { transform: Some(at(x)), ..named(name) }
}

#[test]
fn capture_includes_renderable_references() {
    let mut world = SceneWorld::new();
    let mesh = "3fa85f64-5717-4562-b3fc-2c963f66afa6";
    let material = "9c858901-8a57-4791-81fe-4c455b099bc9";
    let entity = world.spawn(Components {
        mesh_source: Some(MeshSource::new(mesh, material)),
        ..named("Crate")
    });
    let prefab = capture(&world, entity).unwrap();
    let renderer = prefab.mesh_renderer.as_ref().unwrap();
    assert_eq!(renderer.mesh, mesh);
    assert_eq!(renderer.material, material);
}

#[test]
fn capture_copies_name_transform_and_asset_source() {
    let mut world = SceneWorld::new();
    let entity = world.spawn(Components {
        transform: Some(Transform::from_translation(v3(1.0, 2.0, 3.0))),
        asset_source: Some(AssetSource::with_id("props/turret.gltf", "abc")),
        is_static: Some(Static),
        ..named("Turret")
    });
    let data = capture(&world, entity).unwrap();
    assert_eq!(data.name.as_deref(), Some("Turret"));
    assert_eq!(data.transform.unwrap().translation, v3(1.0, 2.0, 3.0));
    assert_eq!(data.asset_source.as_deref(), Some("props/turret.gltf"));
    assert_eq!(data.asset_id.as_deref(), Some("abc"));
    assert!(data.is_static);
    assert!(!data.disabled);
}

#[test]
fn capture_on_a_despawned_entity_errors() {
    let mut world = SceneWorld::new();
    let entity = world.spawn(named("Gone"));
    world.despawn(entity);
    assert!(matches!(capture(&world, entity), Err(EditorError::PrefabEntityMissing)));
}

#[test]
fn sanitize_stem_strips_separators_and_trims() {
    assert_eq!(sanitize_stem("Player/Body"), "Player_Body");
    assert_eq!(sanitize_stem("  Enemy 01  "), "Enemy 01");
    assert_eq!(sanitize_stem("***"), "___");
    assert_eq!(sanitize_stem("   "), "Prefab");
    assert_eq!(sanitize_stem(""), "Prefab");
    for name in ["Player/Body", "  Enemy 01  ", "***", "   ", "\u{e9}t\u{e9}"] {
        assert_eq!(sanitize_stem(&sanitize_stem(name)), sanitize_stem(name));
    }
}

#[test]
fn unique_path_increments_past_existing_files() {
    let files: RefCell<Vec<String>> = RefCell::new(Vec::new());
    let taken = |path: &str| files.borrow().iter().any(|file| file == path);
    assert_eq!(unique_path("dir", "Crate", &taken), "dir/Crate.prefab");
    files.borrow_mut().push("dir/Crate.prefab".to_string());
    assert_eq!(unique_path("dir", "Crate", &taken), "dir/Crate 1.prefab");
    files.borrow_mut().push("dir/Crate 1.prefab".to_string());
    assert_eq!(unique_path("dir", "Crate", &taken), "dir/Crate 2.prefab");
}

#[test]
fn write_prefab_creates_the_file_under_the_prefabs_dir() {
    let mut world = SceneWorld::new();
    let entity = world.spawn(placed("Barrel", 0.0));
    let prefab = capture(&world, entity).unwrap();
    assert_eq!(prefab_path("assets", &prefab, &|_: &str| false), "assets/prefabs/Barrel.prefab");
}

#[test]
fn write_prefab_on_a_nameless_entity_uses_the_default_stem() {
    let mut world = SceneWorld::new();
    let entity = world.spawn(Components { transform: Some(at(0.0)), ..Components::default() });
    let prefab = capture(&world, entity).unwrap();
    assert_eq!(prefab_path("assets", &prefab, &|_: &str| false), "assets/prefabs/Prefab.prefab");
}

fn model(meshes: Vec<MeshSize>) -> ModelSize {
    ModelSize { meshes, materials: 1, images: 2, skeletons: 3, animations: 4, cameras: 5 }
}

#[test]
fn mesh_summary_counts_primitives_and_triangles() {
    let summary = mesh_summary(&model(vec![
        MeshSize { vertices: 3, indices: 3 },
        MeshSize { vertices: 6, indices: 6 },
    ]));
    assert_eq!(summary.meshes, 2);
    assert_eq!(summary.vertices, 9);
    assert_eq!(summary.triangles, 3);
    let (first, second, third) = mesh_lines(&summary);
    assert_eq!(first, "2 meshes \u{b7} 9 verts \u{b7} 3 tris");
    assert_eq!(second, "1 materials \u{b7} 2 images \u{b7} 3 skeletons");
    assert_eq!(third, "4 animations \u{b7} 5 cameras");
}

fn seconds(frames: usize, rate: u32) -> Scalar {
    s(frames as f32 / rate as f32)
}

#[test]
fn audio_summary_computes_duration_and_guards_zero_rate() {
    let summary = audio_summary(8_000, 2, 8_000 * 2, &seconds);
    assert_eq!(summary.frames, 8_000);
    assert!((f(summary.duration_secs) - 1.0).abs() < 1e-6);
    assert_eq!(f(audio_summary(0, 1, 10, &seconds).duration_secs), 0.0);
}

#[test]
fn audio_summary_treats_zero_channels_as_mono() {
    assert_eq!(audio_summary(100, 0, 50, &seconds).frames, 50);
}

fn samples(values: &[f32]) -> Vec<Scalar> {
    values.iter().map(|&value| s(value)).collect()
}

fn bin(low: f32, high: f32) -> WaveBin {
    WaveBin { low: s(low), high: s(high) }
}

#[test]
fn waveform_bins_finds_per_column_min_max() {
    let wave = samples(&[-1.0, -0.5, 0.0, 0.5, 1.0, 0.5, 0.0, -0.5]);
    assert_eq!(waveform_bins(&wave, 1, 2), vec![bin(-1.0, 0.5), bin(-0.5, 1.0)]);
}

#[test]
fn waveform_bins_reads_channel_zero_only() {
    let wave = samples(&[1.0, -1.0, 1.0, -1.0]);
    assert_eq!(waveform_bins(&wave, 2, 1), vec![bin(1.0, 1.0)]);
}

#[test]
fn waveform_bins_handles_empty_and_overlong_columns() {
    assert!(waveform_bins(&[], 2, 100).is_empty());
    assert_eq!(waveform_bins(&samples(&[0.1, 0.2, 0.3]), 1, 999).len(), 3);
    assert!(waveform_bins(&samples(&[0.1, 0.2]), 1, 0).is_empty());
}

#[test]
fn downscale_rgba_caps_the_long_side_and_keeps_aspect() {
    let src = vec![255u8; 8 * 4 * 4];
    let (out, w, h) = downscale_rgba(&src, 8, 4, 4);
    assert_eq!((w, h), (4, 2));
    assert_eq!(out.len(), 4 * 2 * 4);
}

#[test]
fn downscale_rgba_passes_through_when_small_or_malformed() {
    let src = vec![1u8; 2 * 2 * 4];
    assert_eq!(downscale_rgba(&src, 2, 2, 64), (src.clone(), 2, 2));
    assert_eq!(downscale_rgba(&src, 9, 9, 4), (src.clone(), 9, 9));
    assert_eq!(downscale_rgba(&src, 2, 2, 0), (src.clone(), 2, 2));
}

/// The side as double-precision arithmetic gives it.
fn double_side(side: u32, longest: u32, max: u32) -> u32 {
    let scale = max as f64 / longest as f64;
    ((side as f64 * scale).round() as u32).max(1)
}

#[test]
fn downscaled_sides_are_those_of_double_precision() {
    for (width, height, max) in [(97u32, 41u32, 13u32), (1000, 3, 7), (5, 640, 255), (333, 333, 100)] {
        let src = vec![7u8; (width * height * 4) as usize];
        let (out, w, h) = downscale_rgba(&src, width, height, max);
        let longest = width.max(height);
        assert_eq!(w, double_side(width, longest, max));
        assert_eq!(h, double_side(height, longest, max));
        assert_eq!(out.len() as u32, w * h * 4);
        assert!(w <= max && h <= max);
        assert_eq!(w.max(h), max, "the longer side is scaled to the limit");
        for (new, side) in [(w, width), (h, height)] {
            let exact = side as f64 * max as f64 / longest as f64;
            assert!((new as f64 - exact).abs() <= 0.500_01 || (new == 1 && exact < 1.0));
        }
    }
}

#[test]
fn letters_and_digits_stay_in_a_stem() {
    for c in ('0'..='9').chain('A'..='Z').chain('a'..='z') {
        assert_eq!(sanitize_stem(&c.to_string()), c.to_string());
    }
}

#[test]
fn downscaling_takes_the_nearest_pixels() {
    let src: Vec<u8> = (0..4 * 2 * 4).map(|i| i as u8).collect();
    let (out, w, h) = downscale_rgba(&src, 4, 2, 2);
    assert_eq!((w, h), (2, 1));
    assert_eq!(out, vec![0, 1, 2, 3, 8, 9, 10, 11]);
}

#[test]
fn a_thumbnail_needs_as_many_bytes_as_its_sides_say() {
    assert!(thumbnail(&[0; 15], 2, 2).is_none());
    assert_eq!(thumbnail(&[3; 16], 2, 2), Some((vec![3; 16], 2, 2)));
}

#[test]
fn texture_summary_reports_dims_and_mips() {
    let summary = texture_summary(4, 2, &[32, 8, 4]);
    assert_eq!(
        (summary.width, summary.height, summary.mip_levels, summary.level0_bytes),
        (4, 2, 3, 32)
    );
    assert_eq!(texture_line(&summary), "4\u{d7}2 \u{b7} 3 mips \u{b7} 32 B");
}

#[test]
fn human_bytes_scales_units() {
    assert_eq!(human_bytes(512), "512 B");
    assert_eq!(human_bytes(2048), "2.0 KiB");
    assert_eq!(human_bytes(5 * 1024 * 1024), "5.0 MiB");
}

#[test]
fn human_bytes_rounds_as_formatting_does() {
    for bytes in [
        0usize, 1023, 1024, 1075, 1076, 1280, 1331, 1_048_575, 1_048_576, 1_572_864, 1_073_741_823,
        1_073_741_824, 3_221_225_472, 1 << 52, usize::MAX,
    ] {
        let mut value = bytes as f64;
        let mut unit = 0;
        while value >= 1024.0 && unit < 3 {
            value /= 1024.0;
            unit += 1;
        }
        let expected = match unit {
            0 => format!("{bytes} B"),
            1 => format!("{value:.1} KiB"),
            2 => format!("{value:.1} MiB"),
            _ => format!("{value:.1} GiB"),
        };
        assert_eq!(human_bytes(bytes), expected);
    }
}

#[test]
fn the_preview_follows_the_selection_and_the_pass() {
    let mut importer: AssetImporter<u8> = AssetImporter::new();
    let mut entries = vec![
        AssetEntry { relative_path: "a.png".to_string(), kind: AssetKind::Texture, id: None },
        AssetEntry { relative_path: "b.png".to_string(), kind: AssetKind::Texture, id: None },
        AssetEntry { relative_path: "c.txt".to_string(), kind: AssetKind::Other, id: None },
    ];
    importer.run(
        "root",
        &mut entries,
        &|path: &str| Ok((AssetId { value: path.len() as u128 + path.as_bytes()[5] as u128 }, true)),
        &|_: AssetKind, path: &str| {
            if path.ends_with("b.png") {
                Err("broken".to_string())
            } else {
                Ok(1)
            }
        },
    );
    assert_eq!(preview(None, &importer, &None), PreviewShown::Nothing);
    assert_eq!(
        preview(None, &importer, &None).notice().as_deref(),
        Some("Select an asset.")
    );
    assert_eq!(preview(Some(&entries[0]), &importer, &None), PreviewShown::Asset { rebuild: true });
    let key = Some(PreviewKey { path: "a.png".to_string(), pass_id: importer.pass_id() });
    assert_eq!(preview(Some(&entries[0]), &importer, &key), PreviewShown::Asset { rebuild: false });
    assert_eq!(preview(Some(&entries[0]), &importer, &key).notice(), None);
    let failed = preview(Some(&entries[1]), &importer, &None);
    assert!(failed.notice().unwrap().contains("broken"));
    assert_eq!(preview(Some(&entries[2]), &importer, &None), PreviewShown::Unavailable);
    let record = ImportRecord {
        id: None,
        relative_path: "x.png".to_string(),
        kind: AssetKind::Texture,
        outcome: ImportOutcome::Failed("why".to_string()),
    };
    assert_eq!(failure_message(&[record], "x.png").as_deref(), Some("why"));
}

/// The mean of the recorded totals; zero where there are none.
fn average(profiler: &FrameProfiler) -> f32 {
    let totals = profiler.totals();
    if totals.is_empty() {
        return 0.0;
    }
    totals.iter().map(|ms| f(*ms)).sum::<f32>() / totals.len() as f32
}

#[test]
fn new_profiler_is_empty() {
    let profiler = FrameProfiler::new();
    assert!(profiler.is_empty());
    assert_eq!(average(&profiler), 0.0);
    assert_eq!(f(profiler.max_ms()), 0.0);
    assert!(profiler.latest().is_none());
}

#[test]
fn end_frame_records_a_sample_with_its_spans() {
    let mut profiler = FrameProfiler::new();
    profiler.begin_frame();
    profiler.record_span("ui", s(2.0));
    profiler.record_span("render", s(3.0));
    profiler.end_frame(s(6.0));
    let latest = profiler.latest().unwrap();
    assert_eq!(latest.spans.len(), 2);
    assert_eq!(latest.spans[0].name, "ui");
    assert!((f(latest.spans[1].ms) - 3.0).abs() < 1.0);
}

#[test]
fn begin_frame_clears_the_previous_frames_spans() {
    let mut profiler = FrameProfiler::new();
    profiler.begin_frame();
    profiler.record_span("a", s(1.0));
    profiler.end_frame(s(1.0));
    profiler.begin_frame();
    profiler.record_span("b", s(1.0));
    profiler.end_frame(s(1.0));
    assert_eq!(profiler.latest().unwrap().spans.len(), 1);
    assert_eq!(profiler.latest().unwrap().spans[0].name, "b");
}

#[test]
fn history_is_capped_at_history_len() {
    let mut profiler = FrameProfiler::new();
    for _ in 0..(HISTORY_LEN + 50) {
        profiler.begin_frame();
        profiler.end_frame(s(1.0));
    }
    assert_eq!(profiler.len(), HISTORY_LEN);
}

#[test]
fn average_and_max_reflect_recorded_totals() {
    let mut profiler = FrameProfiler::new();
    for ms in [1.0, 5.0, 3.0] {
        profiler.begin_frame();
        profiler.end_frame(s(ms));
    }
    assert_eq!(profiler.totals(), vec![s(1.0), s(5.0), s(3.0)]);
    assert!(average(&profiler) >= 0.0 && average(&profiler) < 100.0);
    assert_eq!(average(&profiler), 3.0);
    assert!(f(profiler.max_ms()) >= average(&profiler));
    assert_eq!(f(profiler.max_ms()), 5.0);
    assert_ne!(bar_color(s(10.0)), bar_color(s(20.0)));
    assert_ne!(bar_color(s(20.0)), bar_color(s(50.0)));
}

#[test]
fn gpu_results_are_async_and_invalid_values_are_ignored() {
    let mut profiler = FrameProfiler::new();
    profiler.record_gpu_ms(s(f32::NAN));
    profiler.begin_frame();
    profiler.end_frame(s(1.0));
    assert_eq!(profiler.latest().unwrap().gpu_ms, None);
    profiler.record_gpu_ms(s(4.5));
    profiler.begin_frame();
    profiler.end_frame(s(1.0));
    assert_eq!(profiler.latest().unwrap().gpu_ms, Some(s(4.5)));
}

#[test]
fn push_moves_a_repeat_to_the_front_without_duplicating() {
    let mut recent = RecentProjects::new();
    recent.push("/tmp/a");
    recent.push("/tmp/b");
    recent.push("/tmp/a");
    assert_eq!(recent.paths.len(), 2);
    assert_eq!(recent.paths[0], "/tmp/a");
    assert_eq!(recent.paths[1], "/tmp/b");
}

#[test]
fn the_list_is_capped() {
    let mut recent = RecentProjects::new();
    for index in 0..MAX_RECENT_PROJECTS + 5 {
        recent.push(&format!("/tmp/project-{index}"));
    }
    assert_eq!(recent.paths.len(), MAX_RECENT_PROJECTS);
    assert_eq!(recent.paths[0], format!("/tmp/project-{}", MAX_RECENT_PROJECTS + 4));
}

#[test]
fn remove_forgets_an_entry() {
    let mut recent = RecentProjects::new();
    recent.push("/tmp/a");
    recent.push("/tmp/b");
    recent.remove("/tmp/a");
    assert_eq!(recent.paths, vec!["/tmp/b".to_string()]);
}

#[test]
fn a_request_records_what_it_is_for() {
    assert!(!ProjectRequest::open("/tmp/a").create);
    assert!(ProjectRequest::create("/tmp/b").create);
}

#[test]
fn malformed_asset_id_is_an_error_not_a_panic() {
    let result = asset_id("not-a-uuid");
    assert!(matches!(result, Err(ResolveError::BadId { .. })));
    assert!(result.unwrap_err().message().contains("not-a-uuid"));
}

#[test]
fn well_formed_asset_id_parses() {
    assert!(asset_id("3fa85f64-5717-4562-b3fc-2c963f66afa6").is_ok());
}

#[test]
fn empty_asset_id_is_rejected() {
    assert!(asset_id("").is_err());
}

#[test]
fn an_upload_is_made_once_and_shared() {
    let id = AssetId { value: 5 };
    let handles = RenderHandles { mesh: AssetId { value: 6 }, material: AssetId { value: 7 } };
    let mut resolver = EditorResolver::new();
    assert_eq!(resolver.resolve_mesh(id, false, None), Ok(MeshAction::Wait));
    let decoded = Some(DecodedKind::Mesh { primitives: 1 });
    assert_eq!(resolver.resolve_mesh(id, false, decoded), Ok(MeshAction::Upload(id)));
    resolver.remember(id, handles);
    assert_eq!(resolver.uploaded_count(), 1);
    assert_eq!(resolver.upload_of(id), Some(handles));
    assert_eq!(resolver.resolve_mesh(id, true, decoded), Ok(MeshAction::Share(handles)));
    let texture = resolver.resolve_mesh(AssetId { value: 8 }, false, Some(DecodedKind::Texture));
    assert_eq!(texture, Err(ResolveError::NotAMesh { id: AssetId { value: 8 } }));
    let empty = resolver.resolve_mesh(
        AssetId { value: 8 },
        false,
        Some(DecodedKind::Mesh { primitives: 0 }),
    );
    assert_eq!(empty, Err(ResolveError::NoPrimitives { id: AssetId { value: 8 } }));
    assert!(resolve_sprite_uv(id, Some(DecodedKind::Audio)).is_err());
    assert_eq!(resolve_sprite_uv(id, None), Ok(None));
    let uv = resolve_sprite_uv(id, Some(DecodedKind::Texture)).unwrap().unwrap();
    assert_eq!((f(uv.max.x), f(uv.max.y)), (1.0, 1.0));
}

fn mesh_of(id: u128) -> Components {
    let text = AssetId { value: id }.text();
    Components { mesh_source: Some(MeshSource::new(&text, "m")), ..Components::default() }
}

fn sprite_of(id: u128) -> Components {
    Components {
        sprite_source: Some(SpriteSource {
            atlas: AssetId { value: id }.text(),
            region: "whole".to_string(),
            size: Vec2 { x: s(2.0), y: s(3.0) },
            color: Rgba { r: s(1.0), g: s(0.5), b: s(0.25), a: s(1.0) },
            z_order: s(4.0),
        }),
        ..Components::default()
    }
}

/// What assets 1 to 4 are decoded to: two meshes, one without geometry, a texture.
fn decoded_kind(id: AssetId) -> Option<DecodedKind> {
    match id.value {
        1 | 2 => Some(DecodedKind::Mesh { primitives: 1 }),
        3 => Some(DecodedKind::Mesh { primitives: 0 }),
        4 => Some(DecodedKind::Texture),
        _ => None,
    }
}

#[test]
fn pending_meshes_are_resolved_one_by_one() {
    let mut world = SceneWorld::new();
    let ready = world.spawn(mesh_of(1));
    let twin = world.spawn(mesh_of(1));
    world.spawn(mesh_of(9));
    world.spawn(mesh_of(2));
    world.spawn(mesh_of(3));
    world.spawn(Components {
        mesh_source: Some(MeshSource::new("broken", "m")),
        ..Components::default()
    });
    assert_eq!(pending_meshes(&world).len(), 6);
    let handles = RenderHandles { mesh: AssetId { value: 11 }, material: AssetId { value: 12 } };
    let uploads = RefCell::new(Vec::new());
    let upload = |id: AssetId| {
        uploads.borrow_mut().push(id.value);
        if id.value == 1 {
            Ok(handles)
        } else {
            Err("full".to_string())
        }
    };
    let report = resolve_pending(&mut world, &decoded_kind, &|_: RenderHandles| true, &upload);
    assert_eq!((report.resolved, report.pending, report.failed), (2, 1, 3));
    assert!(report.changed());
    assert_eq!(world.get(ready).unwrap().mesh_renderer, Some(handles));
    assert_eq!(world.get(twin).unwrap().mesh_renderer, Some(handles));
    assert_eq!(*uploads.borrow(), vec![1, 2], "an asset is uploaded once a pass");
    assert_eq!(pending_meshes(&world).len(), 4);
}

#[test]
fn pending_sprites_are_resolved_with_their_meshes() {
    let mut world = SceneWorld::new();
    let icon = world.spawn(sprite_of(4));
    let later = world.spawn(sprite_of(9));
    world.spawn(sprite_of(1));
    assert_eq!(pending_sprites(&world).len(), 3);
    let report = resolve_pending(
        &mut world,
        &decoded_kind,
        &|_: RenderHandles| true,
        &|_: AssetId| Err("unused".to_string()),
    );
    assert_eq!((report.resolved, report.pending, report.failed), (1, 1, 1));
    let sprite = world.get(icon).unwrap().sprite.unwrap();
    assert_eq!((f(sprite.size.x), f(sprite.size.y)), (2.0, 3.0));
    assert_eq!(f(sprite.color.g), 0.5);
    assert_eq!(f(sprite.z_order), 4.0);
    assert_eq!((f(sprite.uv.max.x), f(sprite.uv.max.y)), (1.0, 1.0));
    assert!(world.get(later).unwrap().sprite.is_none());
    assert_eq!(pending_sprites(&world).len(), 2);
}

/// Searches files given by their paths.
fn find(files: &[(&str, &str)], query: &SearchQuery, limit: usize) -> TextResults {
    let files: BTreeMap<&str, &str> = files.iter().copied().collect();
    run_text_search(
        query,
        limit,
        &|dir: &str| {
            let prefix = if dir.is_empty() { String::new() } else { format!("{dir}/") };
            let mut items: Vec<SearchItem> = Vec::new();
            for path in files.keys() {
                if let Some(rest) = path.strip_prefix(prefix.as_str()) {
                    let (name, is_dir) = match rest.split_once('/') {
                        Some((name, _)) => (name, true),
                        None => (rest, false),
                    };
                    if !items.iter().any(|item| item.name == name) {
                        items.push(SearchItem { name: name.to_string(), is_dir });
                    }
                }
            }
            items
        },
        &|path: &str| files.get(path).map(|text| text.as_bytes().to_vec()),
    )
}

fn query(text: &str) -> SearchQuery {
    SearchQuery { text: text.to_string(), case_sensitive: false, whole_word: false }
}

#[test]
fn finds_matches_with_line_column_and_preview() {
    let files = [("a.rs", "fn main() {}\n    let needle = 1;\nfn other() {}\n")];
    let results = find(&files, &query("needle"), 100);
    assert_eq!(results.hits.len(), 1);
    let hit = &results.hits[0];
    assert_eq!(hit.path, "a.rs");
    assert_eq!(hit.line, 2);
    assert_eq!(hit.col, 9);
    assert_eq!(hit.preview, "let needle = 1;");
    assert!(!results.truncated);
    assert!(starts_file(&results, 0));
    assert!(text_row(hit).contains("needle"));
}

#[test]
fn results_that_are_not_cut_off_hold_every_matching_line() {
    let files = [
        ("b/two.rs", "hit\nmiss\na hit, and a hit\n"),
        ("a.md", "miss\nhit\n"),
        ("b/c/three.txt", "hit\n"),
        ("b/notes.bin", "hit\n"),
    ];
    let results = find(&files, &query("hit"), 100);
    assert!(!results.truncated);
    let places: Vec<(&str, u32)> =
        results.hits.iter().map(|hit| (hit.path.as_str(), hit.line)).collect();
    assert_eq!(places, vec![("a.md", 2), ("b/c/three.txt", 1), ("b/two.rs", 1), ("b/two.rs", 3)]);
    let cut = find(&files, &query("hit"), 2);
    assert!(cut.truncated);
    assert_eq!(cut.hits, results.hits[..2]);
}

#[test]
fn case_and_whole_word_options_apply() {
    let files = [("a.rs", "Foo\nfoobar\nFOO\nsome foo here\n")];
    assert_eq!(find(&files, &query("foo"), 100).hits.len(), 4);
    let cased =
        SearchQuery { text: "Foo".into(), case_sensitive: true, whole_word: false };
    assert_eq!(find(&files, &cased, 100).hits.len(), 1);
    let word = SearchQuery { text: "foo".into(), case_sensitive: false, whole_word: true };
    assert_eq!(find(&files, &word, 100).hits.len(), 3);
}

#[test]
fn skips_target_dir_binary_and_unknown_extensions() {
    let files = [
        ("keep.rs", "hit here\n"),
        ("image.png", "hit but wrong ext\n"),
        ("binary.rs", "hit\0with nul\n"),
        ("target/gen.rs", "hit in target\n"),
    ];
    let results = find(&files, &query("hit"), 100);
    assert_eq!(results.hits.len(), 1);
    assert_eq!(results.hits[0].path, "keep.rs");
}

#[test]
fn caps_at_the_limit_and_marks_truncated() {
    let body: String = (0..50).map(|_| "x\n").collect();
    let results = find(&[("a.rs", body.as_str())], &query("x"), 10);
    assert_eq!(results.hits.len(), 10);
    assert!(results.truncated);
}

#[test]
fn empty_query_or_missing_root_is_empty() {
    assert!(find(&[("a.rs", "x\n")], &query(""), 100).hits.is_empty());
    assert!(find(&[], &query("x"), 100).hits.is_empty());
}

#[test]
fn bytes_that_are_no_text_are_not_searched() {
    let results = run_text_search(
        &query("hit"),
        100,
        &|_: &str| vec![SearchItem { name: "a.rs".to_string(), is_dir: false }],
        &|_: &str| Some(vec![b'h', b'i', b't', 0xff, 0xfe]),
    );
    assert!(results.hits.is_empty());
}

#[test]
fn words_are_bounded_by_what_is_no_letter() {
    let text: Vec<char> = "a foo_bar-baz".chars().collect();
    assert!(!word_bounded(&text, 2, 5));
    assert!(word_bounded(&text, 10, 13));
}

#[test]
fn symbol_kind_label_covers_the_common_rust_kinds() {
    assert_eq!(symbol_kind_label(12), "fn");
    assert_eq!(symbol_kind_label(23), "struct");
    assert_eq!(symbol_kind_label(11), "trait");
    assert_eq!(symbol_kind_label(99), "symbol");
}

#[test]
fn a_clicked_hit_becomes_a_jump() {
    let mut state = SearchState::default();
    let input = SearchInput {
        mode: SearchMode::Text,
        text: "needle".to_string(),
        changed: true,
        entered: true,
        clicked: false,
        case_sensitive: false,
        whole_word: false,
    };
    search_input(&mut state, input);
    assert!(state.run_text_requested);
    state.text_results = find(&[("a.rs", "x\n needle\n")], &state.query, 10);
    text_hit_clicked(&mut state, 0);
    assert_eq!(state.jump, Some(Jump { path: "a.rs".to_string(), line: 2, col: 2 }));
    state.symbol_results = vec![SymbolHit {
        name: "main".to_string(),
        kind: 12,
        container: None,
        path: "b.rs".to_string(),
        line: 4,
        col: 1,
    }];
    assert!(symbol_row(&state.symbol_results[0]).contains("main"));
    symbol_clicked(&mut state, 0);
    assert_eq!(state.jump.as_ref().unwrap().path, "b.rs");
}

#[test]
fn default_is_the_world_workspace_with_no_last_scene() {
    let session = EditorSession::default();
    assert_eq!(session.version, SESSION_VERSION);
    assert_eq!(session.workspace, Workspace::World);
    assert_eq!(session.panels, PanelVisibility::default());
    assert!(session.last_scene.is_none());
    assert_eq!(session.asset_view, AssetView::Folders);
    assert_eq!(SESSION_FILE, "session.ron");
}

#[test]
fn load_missing_file_is_default() {
    assert_eq!(EditorSession::accept(None), EditorSession::default());
}

#[test]
fn load_garbage_is_default() {
    let session = || EditorSession { workspace: Workspace::Debug, ..EditorSession::default() };
    let read = ron::from_str::<ron::Value>("not ron at all {{{").ok().map(|_| session());
    assert_eq!(EditorSession::accept(read), EditorSession::default());
    let read = ron::from_str::<ron::Value>("(version: 1)").ok().map(|_| session());
    assert_eq!(EditorSession::accept(read).workspace, Workspace::Debug);
}

#[test]
fn load_future_version_is_default() {
    let session = EditorSession { version: SESSION_VERSION + 1, ..EditorSession::default() };
    assert_eq!(EditorSession::accept(Some(session)), EditorSession::default());
}

#[test]
fn a_session_that_was_read_is_kept() {
    let session = EditorSession {
        workspace: Workspace::Debug,
        panels: PanelVisibility { ai: true, ..PanelVisibility::default() },
        last_scene: Some("scenes/level2.ron".to_string()),
        ..EditorSession::default()
    };
    let kept = EditorSession::accept(Some(session));
    assert_eq!(kept.workspace, Workspace::Debug);
    assert!(kept.panels.ai);
    assert_eq!(kept.last_scene.as_deref(), Some("scenes/level2.ron"));
}

#[test]
fn layouts_are_padded_and_cut_to_the_workspaces() {
    let odd = PanelVisibility { ai: true, hierarchy: false, ..PanelVisibility::default() };
    let layouts = restore_layouts(&[odd]);
    assert_eq!(layouts.len(), 4);
    assert_eq!(layouts[0], odd);
    assert_eq!(layouts[1], Workspace::Code.visibility());
    assert_eq!(restore_layouts(&[odd; 9]).len(), 4);
    assert_eq!(restore_configuration(3, 2), Some(1));
    assert_eq!(restore_configuration(1, 2), Some(1));
    assert_eq!(restore_configuration(0, 0), None);
}

fn boxes(count: usize) -> SceneWorld {
    let mut world = SceneWorld::new();
    for index in 0..count {
        world.spawn(Components {
            collider: Some(SceneCollider {
                shape: ColliderShape::Cuboid { half_extents: v3(1.0, 1.0, 1.0) },
                body: BodyKind::Fixed,
            }),
            ..placed("Body", index as f32)
        });
    }
    world
}

fn lit() -> Lights {
    Lights {
        directions: vec![v3(0.0, -1.0, 0.0)],
        points: vec![PointLight { position: v3(0.0, 2.0, 0.0), range: s(5.0) }],
    }
}

fn no_lights() -> Lights {
    Lights { directions: Vec::new(), points: Vec::new() }
}

fn drawn(world: &SceneWorld, lights: &Lights, nav: &Option<NavGrid>, toggles: OverlayToggles) -> Vec<OverlayItem> {
    let mut draw = Vec::new();
    build(world, lights, nav, toggles, &mut draw);
    draw
}

#[test]
fn disabled_overlay_emits_nothing() {
    let world = boxes(4);
    assert!(drawn(&world, &lit(), &None, OverlayToggles::default()).is_empty());
    assert!(!OverlayToggles::default().any());
}

/// The ends of the lines that outline boxes and views: a box has twelve edges.
fn line_ends(items: &[OverlayItem]) -> usize {
    items
        .iter()
        .map(|item| match item {
            OverlayItem::Shape { shape: ColliderShape::Cuboid { .. }, .. } => 24,
            OverlayItem::Frustum { .. } => 24,
            _ => 0,
        })
        .sum()
}

#[test]
fn each_overlay_toggles_independently() {
    let mut world = boxes(2);
    world.spawn(Components {
        camera: Some(Camera {
            eye: v3(0.0, 2.0, 5.0),
            target: v3(0.0, 0.0, 0.0),
            up: v3(0.0, 1.0, 0.0),
            projection: Projection::Perspective { fov_y_radians: s(1.0) },
            aspect_ratio: s(16.0 / 9.0),
            near: s(0.1),
            far: s(100.0),
        }),
        ..placed("Camera", 0.0)
    });
    let off = OverlayToggles::default();
    let count = |toggles: OverlayToggles| drawn(&world, &lit(), &None, toggles).len();
    let colliders = count(OverlayToggles { colliders: true, ..off });
    let cameras = count(OverlayToggles { cameras: true, ..off });
    let lights_only = count(OverlayToggles { lights: true, ..off });
    let grid = count(OverlayToggles { grid: true, ..off });
    assert!(colliders > 0 && cameras > 0 && lights_only > 0 && grid > 0);
    assert_eq!((colliders, cameras, lights_only, grid), (2, 1, 3, 1));
    assert_eq!(count(off), 0);
    let ends = |toggles: OverlayToggles| line_ends(&drawn(&world, &lit(), &None, toggles));
    assert_eq!(ends(OverlayToggles { colliders: true, ..off }), 2 * 24);
    assert_eq!(ends(OverlayToggles { cameras: true, ..off }), 24);
    let all = count(OverlayToggles {
        colliders: true,
        cameras: true,
        lights: true,
        grid: true,
        ..off
    });
    assert_eq!(all, colliders + cameras + lights_only + grid);
}

fn nav_grid(width: u32, height: u32) -> NavGrid {
    NavGrid {
        width,
        height,
        cell_size: s(1.0),
        origin: Vec2 { x: s(0.0), y: s(0.0) },
        blocked: vec![false; (width * height) as usize],
    }
}

#[test]
fn audio_and_nav_overlays_draw_what_the_scene_authored() {
    let mut world = SceneWorld::new();
    world.spawn(Components {
        audio_emitter: Some(SceneAudioEmitter {
            sound: "a".to_string(),
            autoplay: true,
            looping: true,
            gain: s(1.0),
            radius: s(4.0),
        }),
        ..placed("Waterfall", 3.0)
    });
    let off = OverlayToggles::default();
    let audio = drawn(&world, &no_lights(), &None, OverlayToggles { audio: true, ..off });
    assert_eq!(
        audio,
        vec![
            OverlayItem::EmitterMarker { at: at(3.0) },
            OverlayItem::EmitterRing { at: at(3.0), radius: s(4.0) },
        ]
    );
    let mut grid = nav_grid(3, 3);
    grid.blocked[4] = true;
    let nav = drawn(&world, &no_lights(), &Some(grid), OverlayToggles { nav: true, ..off });
    assert_eq!(nav.len(), 4 + 4 + 1);
    assert_eq!(nav[8], OverlayItem::NavBlocked { column: 1, row: 1 });
}

#[test]
fn a_malformed_nav_grid_draws_nothing_rather_than_reading_past_its_cells() {
    let mut grid = nav_grid(4, 4);
    grid.blocked.truncate(3);
    let toggles = OverlayToggles { nav: true, ..OverlayToggles::default() };
    assert!(drawn(&SceneWorld::new(), &no_lights(), &Some(grid), toggles).is_empty());
}

#[test]
fn a_thousand_colliders_stay_in_one_buffer() {
    let toggles = OverlayToggles { colliders: true, ..OverlayToggles::default() };
    assert_eq!(drawn(&boxes(1000), &no_lights(), &None, toggles).len(), 1000);
}

#[test]
fn a_collider_is_drawn_where_its_entity_is() {
    let toggles = OverlayToggles { colliders: true, ..OverlayToggles::default() };
    let items = drawn(&boxes(1), &no_lights(), &None, toggles);
    assert_eq!(
        items,
        vec![OverlayItem::Shape {
            at: at(0.0),
            shape: ColliderShape::Cuboid { half_extents: v3(1.0, 1.0, 1.0) },
        }]
    );
}

#[test]
fn scene_is_neutral_until_a_gizmo_drag_is_active() {
    assert_eq!(scene_cursor_icon(false, false), CursorIcon::Default);
    assert_eq!(scene_cursor_icon(true, false), CursorIcon::Default);
    assert_eq!(scene_cursor_icon(true, true), CursorIcon::Grabbing);
}

#[test]
fn unsaved_work_is_asked_about_before_it_is_lost() {
    let mut guard = Guard::default();
    let mut dirty = DirtyState::default();
    assert_eq!(guard.request_guarded(&dirty, PendingAction::NewScene), SceneEffect::NewScene);
    dirty.mark_scene();
    assert_eq!(guard.request_guarded(&dirty, PendingAction::Quit), SceneEffect::Unchanged);
    assert!(!guard.exit_requested);
    assert_eq!(guard.pending, Some(PendingAction::Quit));
    assert_eq!(
        question(&dirty, guard.pending.as_ref().unwrap()),
        "Save changes to scene before closing?"
    );
    let nothing = GuardAnswer { save: false, discard: false, cancel: false, dismissed: false };
    assert_eq!(nothing.choice(), Choice::Wait);
    guard.answer(nothing);
    assert!(guard.pending.is_some());
    guard.answer(GuardAnswer { dismissed: true, ..nothing });
    assert!(guard.pending.is_none());
    assert!(!guard.exit_requested);
    guard.request_guarded(&dirty, PendingAction::Quit);
    guard.answer(GuardAnswer { save: true, ..nothing });
    assert!(guard.exit_requested);
    guard.request_guarded(&dirty, PendingAction::OpenProject("/p".to_string()));
    guard.answer(GuardAnswer { discard: true, ..nothing });
    assert_eq!(guard.project_request, Some(ProjectRequest::open("/p")));
    assert_eq!(saved_text(&dirty), "\u{25cf} Unsaved: scene");
    assert_eq!(saved_text(&DirtyState::default()), "Saved");
}

type Scene = Vec<Components>;

fn take(world: &SceneWorld) -> Scene {
    (0..world.len()).map(|i| world.components_at(i).clone()).collect()
}

fn rebuild(scene: &Scene) -> SceneWorld {
    let mut world = SceneWorld::new();
    for components in scene {
        world.spawn(components.clone());
    }
    world
}

fn alike(a: &Scene, b: &Scene) -> bool {
    a == b
}

#[test]
fn a_frame_settles_only_when_nothing_is_held() {
    assert_eq!(shortcut(true, false, true, false), Some(Shortcut::Undo));
    assert_eq!(shortcut(true, true, true, false), Some(Shortcut::Redo));
    assert_eq!(shortcut(true, false, false, true), Some(Shortcut::Redo));
    assert_eq!(shortcut(false, false, true, false), None);
    let mut world = SceneWorld::new();
    let entity = world.spawn(placed("Cube", 0.0));
    let mut history: History<Scene> = History::new();
    let mut dirty = DirtyState::default();
    open_frame(&mut history, &world, Some(entity), false, &take);
    set_transform(&mut world, entity, at(5.0));
    assert!(!settle_frame(&mut history, &world, &mut dirty, false, true, false, &take, &alike));
    assert!(!settle_frame(&mut history, &world, &mut dirty, true, false, false, &take, &alike));
    assert!(!dirty.any());
    assert!(settle_frame(&mut history, &world, &mut dirty, false, false, false, &take, &alike));
    assert!(dirty.scene());
    let mut primary = Some(entity);
    let mut secondary = vec![entity];
    let mut dragging = Some(Axis::X);
    assert!(take_step(
        Shortcut::Undo,
        &mut history,
        &mut world,
        &mut primary,
        &mut secondary,
        &mut dragging,
        &take,
        &rebuild,
    ));
    assert!(secondary.is_empty());
    assert_eq!(dragging, None);
    assert_eq!(f(world.components_at(0).transform.unwrap().translation.x), 0.0);
}

fn handle(axis: Axis, distance: f32, length: f32) -> Handle {
    Handle { near: HandleDistance { axis, distance: s(distance) }, length: s(length) }
}

#[test]
fn a_gizmo_drag_starts_on_a_handle_and_ends_on_release() {
    let handles = [handle(Axis::X, 50.0, 80.0), handle(Axis::Y, 2.0, 80.0)];
    let idle = DragInput { started: false, pointer_known: true, dragged: false, stopped: false };
    let mut dragging = None;
    let start = DragInput { started: true, dragged: true, ..idle };
    assert_eq!(drag_gizmo(&mut dragging, true, &handles, start, true), Some(1));
    assert_eq!(dragging, Some(Axis::Y));
    let drag = DragInput { dragged: true, ..idle };
    assert_eq!(drag_gizmo(&mut dragging, true, &handles, drag, false), None);
    let flat = [handle(Axis::Y, 2.0, 0.0)];
    assert_eq!(drag_gizmo(&mut dragging, true, &flat, drag, true), None);
    let stop = DragInput { stopped: true, ..idle };
    assert_eq!(drag_gizmo(&mut dragging, true, &handles, stop, true), None);
    assert_eq!(dragging, None);
    dragging = Some(Axis::X);
    assert_eq!(drag_gizmo(&mut dragging, false, &handles, drag, true), None);
    assert_eq!(dragging, None);
}

#[test]
fn a_drag_moves_what_is_selected_and_not_locked() {
    let mut world = SceneWorld::new();
    let a = world.spawn(placed("A", 0.0));
    let b = world.spawn(placed("B", 1.0));
    let c = world.spawn(placed("C", 2.0));
    let bare = world.spawn(named("Bare"));
    toggle_marker(&mut world, b, Marker::Locked, true);
    let moved = |transform: Transform| Transform {
        translation: v3(f(transform.translation.x) + 10.0, 0.0, 0.0),
        ..transform
    };
    drag_selection(&mut world, Some(a), &[b, bare], &moved);
    assert_eq!(transform_of(&world, a), Some(at(10.0)));
    assert_eq!(transform_of(&world, b), Some(at(1.0)));
    assert_eq!(transform_of(&world, c), Some(at(2.0)));
    assert_eq!(transform_of(&world, bare), None);
}

#[test]
fn the_play_button_starts_and_stops() {
    let mut world = SceneWorld::new();
    let entity = world.spawn(placed("Box", 0.0));
    let mut play: PlayState<Scene> = PlayState::new();
    let mut primary = Some(entity);
    toggle_play(&mut play, &mut world, &mut primary, &take, &rebuild);
    assert_eq!(play.mode(), EditorMode::Building);
    assert_eq!(primary, Some(entity));
    set_transform(&mut world, entity, at(9.0));
    toggle_play(&mut play, &mut world, &mut primary, &take, &rebuild);
    assert_eq!(primary, None);
    assert_eq!(f(world.components_at(0).transform.unwrap().translation.x), 0.0);
    assert_ne!(play_label(true), play_label(false));
    assert_eq!(mode_badge(EditorMode::Edit), None);
    assert_eq!(mode_badge(EditorMode::Building).unwrap().1, "BUILDING");
    assert_eq!(mode_badge(EditorMode::Play).unwrap().1, "PLAYING");
}

#[test]
fn menus_and_bars_say_what_they_stand_for() {
    assert_eq!(export_label(Some("Release"), true), "Building Release\u{2026}");
    assert_eq!(export_label(Some("Release"), false), "Build & Export (Release)\u{2026}");
    assert_eq!(export_label(None, true), "Build & Export\u{2026}");
    assert!(can_export(true, false, false));
    assert!(!can_export(true, true, false));
    assert!(!can_export(true, false, true));
    assert!(!can_export(false, false, false));
    assert_eq!(recent_entry("/home/me/game", "/home/me/other"), ("game".to_string(), true));
    assert_eq!(recent_entry("/", "/"), ("/".to_string(), false));
    assert_eq!(cursor_text(3, 14), "Ln 3, Col 14");
    assert_eq!(bottom_tab_label(BottomTab::Problems, 0), "Problems");
    assert_eq!(bottom_tab_label(BottomTab::Problems, 2), "Problems (2)");
    assert_eq!(bottom_tab_label(BottomTab::Output, 2), "Output");
    assert!(is_prefab("a/b.PREFAB"));
    assert!(!is_prefab("a/prefab"));
}

#[test]
fn a_dropped_file_selects_what_it_spawned() {
    let mut primary = Some(1);
    let mut secondary = vec![2];
    let mut dirty = DirtyState::default();
    accept_drop(None, &mut primary, &mut secondary, &mut dirty);
    assert_eq!((primary, secondary.len(), dirty.any()), (Some(1), 1, false));
    accept_drop(Some(7), &mut primary, &mut secondary, &mut dirty);
    assert_eq!((primary, secondary.len(), dirty.scene()), (Some(7), 0, true));
}

#[test]
fn the_code_editor_hides_behind_questions() {
    let rect = ScreenRect { x: s(0.0), y: s(1.0), width: s(2.0), height: s(3.0) };
    let wider = ScreenRect { width: s(4.0), ..rect };
    let mut panel = CodePanel { rect: None, visible: false, resizing: false };
    panel.place(Some(rect), true, false);
    assert!(panel.visible && !panel.resizing);
    panel.place(Some(wider), true, false);
    assert!(panel.resizing);
    panel.place(Some(wider), true, true);
    assert!(!panel.visible && !panel.resizing);
    panel.place(None, false, false);
    assert!(!panel.visible && !panel.resizing);
}

#[test]
fn prompts_are_queued_only_with_words_in_them() {
    let mut input = "  \n".to_string();
    assert!(queue_prompt(true, &mut input).is_none());
    assert_eq!(input, "  \n");
    let mut input = " fix it ".to_string();
    assert!(queue_prompt(false, &mut input).is_none());
    let queued = queue_prompt(true, &mut input).unwrap();
    assert_eq!(queued.prompt, " fix it ");
    assert_eq!(queued.plan, "chat:  fix it ");
    assert!(input.is_empty());
    assert_eq!(chat_line(ChatRole::User, "hi"), "You: hi");
    assert_eq!(shown_log_entries(3), vec![2, 1, 0]);
    assert_eq!(shown_log_entries(20), vec![19, 18, 17, 16, 15, 14, 13, 12]);
}
