//! Tests of the panels' state: workspaces, logs, problems, unsaved work and docking.

use vge_studio::ecs::components::{Components, MeshSource, Name, SceneAudioEmitter};
use vge_studio::ecs::scalar::Scalar;
use vge_studio::ecs::world::SceneWorld;
use vge_studio::editor::assets::AssetIndex;
use vge_studio::editor::chrome::{
    BottomTab, EditorDimension, InspectorTab, PanelVisibility, TransformSpace, Workspace,
};
use vge_studio::editor::console::{
    copy_text, count_text, short_target, shown, ConsoleFilter, ConsoleLayer, ConsoleLine,
    ConsoleLog, Level, LevelFilter, MessageParts, MAX_LINES,
};
use vge_studio::editor::crash::{bounded, crash_report, MAX_REPORT_BYTES};
use vge_studio::editor::dependencies::{missing, scan};
use vge_studio::editor::diagnostics::{
    clear_clicked, line_cell, row_clicked, Diagnostic, Diagnostics, Severity,
};
use vge_studio::editor::dirty::{DirtyState, PendingAction};
use vge_studio::editor::dock::{
    bounded_layout, layout_fits, FrameBudget, Tab, MAX_LAYOUT_BYTES, MAX_SOAK_FRAMES,
};
use vge_studio::editor::error::EditorError;
use vge_studio::editor::i18n::{Locale, TextKey};
use vge_studio::editor::output::{self, OutputLog};
use vge_studio::editor::perf_budget;

#[test]
fn world_workspace_shows_the_wired_panels() {
    let v = Workspace::World.visibility();
    assert!(v.hierarchy && v.inspector && v.asset_browser && v.code && v.console);
}

#[test]
fn ai_and_profiler_panels_appear_only_in_their_own_presets() {
    assert!(Workspace::Ai.visibility().ai);
    assert!(Workspace::Debug.visibility().profiler);
    for workspace in [Workspace::World, Workspace::Code] {
        let v = workspace.visibility();
        assert!(!v.ai && !v.profiler, "{workspace:?} keeps them hidden");
    }
}

#[test]
fn default_visibility_matches_the_world_workspace() {
    assert_eq!(PanelVisibility::default(), Workspace::World.visibility());
}

#[test]
fn workspace_presets_match_their_documented_shape() {
    let code = Workspace::Code.visibility();
    assert!(!code.inspector);
    assert!(code.code && code.console && code.hierarchy);
    let ai = Workspace::Ai.visibility();
    assert!(ai.ai && ai.hierarchy && ai.inspector && ai.code);
    let debug = Workspace::Debug.visibility();
    assert!(!debug.code && !debug.asset_browser);
    assert!(debug.console && debug.profiler);
}

fn check_labels<T: Copy>(all: &[T], label: impl Fn(T) -> &'static str) {
    let labels: Vec<&str> = all.iter().map(|&v| label(v)).collect();
    assert!(labels.iter().all(|l| !l.is_empty()), "no empty labels");
    for (i, a) in labels.iter().enumerate() {
        for b in &labels[i + 1..] {
            assert_ne!(a, b, "labels must be unique");
        }
    }
}

#[test]
fn all_arrays_cover_every_variant_with_unique_non_empty_labels() {
    check_labels(&Workspace::ALL, Workspace::label);
    check_labels(&TransformSpace::ALL, TransformSpace::label);
    check_labels(&BottomTab::ALL, BottomTab::label);
    check_labels(&InspectorTab::ALL, InspectorTab::label);
    check_labels(&EditorDimension::ALL, EditorDimension::label);
}

#[test]
fn selector_defaults_are_the_first_variant() {
    assert_eq!(Workspace::default(), Workspace::ALL[0]);
    assert_eq!(TransformSpace::default(), TransformSpace::ALL[0]);
    assert_eq!(BottomTab::default(), BottomTab::ALL[0]);
    assert_eq!(InspectorTab::default(), InspectorTab::ALL[0]);
    assert_eq!(EditorDimension::default(), EditorDimension::ALL[0]);
    assert!(!EditorDimension::Mode3D.is_2d());
    assert!(EditorDimension::Mode2D.is_2d());
}

#[test]
fn workspaces_stand_at_their_indices() {
    for (i, workspace) in Workspace::ALL.iter().enumerate() {
        assert_eq!(workspace.index(), i);
    }
}

fn line(message: &str) -> ConsoleLine {
    ConsoleLine { level: Level::Info, target: String::new(), message: message.to_string() }
}

fn line_at(level: Level, target: &str, message: &str) -> ConsoleLine {
    ConsoleLine { level, target: target.to_string(), message: message.to_string() }
}

#[test]
fn new_log_starts_empty() {
    assert!(ConsoleLog::new().snapshot().is_empty());
}

#[test]
fn push_appends_in_order() {
    let mut log = ConsoleLog::new();
    log.push(line("first"));
    log.push(line("second"));
    assert_eq!(log.snapshot(), vec![line("first"), line("second")]);
}

#[test]
fn push_evicts_the_oldest_line_once_over_capacity() {
    let mut log = ConsoleLog::new();
    for i in 0..MAX_LINES + 10 {
        log.push(line(&i.to_string()));
    }
    let snapshot = log.snapshot();
    assert_eq!(snapshot.len(), MAX_LINES);
    assert_eq!(snapshot.first(), Some(&line("10")));
    assert_eq!(snapshot.last(), Some(&line(&(MAX_LINES + 9).to_string())));
}

#[test]
fn console_clear_empties_the_log() {
    let mut log = ConsoleLog::new();
    log.push(line("hello"));
    log.clear();
    assert!(log.snapshot().is_empty());
}

fn parts(fields: &[(&str, &str)]) -> MessageParts {
    let mut parts = MessageParts::default();
    for (name, value) in fields {
        parts.record(name, value);
    }
    parts
}

#[test]
fn console_layer_captures_an_events_message() {
    let mut layer = ConsoleLayer::new(ConsoleLog::new());
    layer.on_event(Level::Info, "console", &parts(&[("message", "hello console")]));
    let snapshot = layer.log().snapshot();
    assert_eq!(snapshot.len(), 1);
    assert_eq!(snapshot[0].level, Level::Info);
    assert_eq!(snapshot[0].message, "hello console");
}

#[test]
fn console_layer_captures_structured_fields_alongside_the_message() {
    let mut layer = ConsoleLayer::new(ConsoleLog::new());
    layer.on_event(Level::Warn, "console", &parts(&[("code", "42"), ("message", "trouble")]));
    layer.on_event(Level::Warn, "console", &parts(&[("message", "trouble"), ("code", "42")]));
    let snapshot = layer.log().snapshot();
    assert_eq!(snapshot.len(), 2);
    assert_eq!(snapshot[0].level, Level::Warn);
    assert_eq!(snapshot[0].message, "trouble code=42");
    assert_eq!(snapshot[1].message, "trouble code=42");
}

#[test]
fn console_layer_captures_the_event_target() {
    let mut layer = ConsoleLayer::new(ConsoleLog::new());
    layer.on_event(Level::Info, "studio::console::tests", &parts(&[("message", "hi")]));
    assert!(layer.log().snapshot()[0].target.contains("console"));
    layer.clear();
    assert!(layer.log().snapshot().is_empty());
}

#[test]
fn level_filter_allows_by_rank() {
    assert!(LevelFilter::Error.allows(Level::Error));
    assert!(!LevelFilter::Error.allows(Level::Warn));
    assert!(LevelFilter::Info.allows(Level::Error));
    assert!(LevelFilter::Info.allows(Level::Info));
    assert!(!LevelFilter::Info.allows(Level::Debug));
    assert!(LevelFilter::Trace.allows(Level::Trace));
}

#[test]
fn console_filter_combines_level_and_case_insensitive_search() {
    let mut filter = ConsoleFilter::default();
    let err = line_at(Level::Error, "engine_editor::shell", "boom happened");
    let debug = line_at(Level::Debug, "engine_editor::shell", "boom happened");
    let info_other = line_at(Level::Info, "engine_editor::assets", "loaded fine");
    assert!(filter.matches(&err));
    assert!(!filter.matches(&debug));
    filter.search = "BOOM".to_string();
    assert!(filter.matches(&err));
    assert!(!filter.matches(&info_other));
    filter.search = "assets".to_string();
    assert!(filter.matches(&info_other));
}

#[test]
fn searching_the_console_folds_case_beyond_ascii() {
    let mut filter = ConsoleFilter::default();
    filter.search = "GR\u{dc}N".to_string();
    assert!(filter.matches(&line("gr\u{fc}n")));
}

#[test]
fn console_rows_can_be_counted_and_copied() {
    let lines = [
        line_at(Level::Warn, "a::b", "one"),
        line_at(Level::Debug, "a::b", "two"),
        line_at(Level::Error, "c", "three"),
    ];
    let rows = shown(&lines, &ConsoleFilter::default());
    assert_eq!(rows, vec![0, 2]);
    assert!(count_text(2, 3).contains('2'));
    let copied = copy_text(&lines, &rows);
    assert!(copied.contains("one") && copied.contains("three") && !copied.contains("two"));
    assert_eq!(short_target("a::b::c"), "b::c");
    assert_eq!(short_target("a::b"), "a::b");
}

#[test]
fn report_writer_creates_a_bounded_file() {
    let report = bounded(&"x".repeat(MAX_REPORT_BYTES + 10));
    assert_eq!(report.len(), MAX_REPORT_BYTES);
}

#[test]
fn a_report_is_never_cut_within_a_character() {
    let report = bounded(&format!("x{}", "\u{e9}".repeat(MAX_REPORT_BYTES)));
    assert_eq!(report.len(), MAX_REPORT_BYTES - 1);
    assert_eq!(bounded("short"), "short");
    let text = crash_report("1.0", "linux", "x86_64", "it broke");
    assert!(text.contains("1.0") && text.contains("linux") && text.contains("it broke"));
}

#[test]
fn scan_finds_unique_component_users_and_ignores_invalid_ids() {
    let mut world = SceneWorld::new();
    let id = "b8d5d33b-086e-4494-b2bd-0cb556828369";
    let entity = world.spawn(Components {
        name: Some(Name::new("Tree")),
        mesh_source: Some(MeshSource::new(id, id)),
        ..Components::default()
    });
    world.spawn(Components {
        audio_emitter: Some(SceneAudioEmitter {
            sound: "bad".to_string(),
            autoplay: true,
            looping: false,
            gain: Scalar::one(),
            radius: Scalar::zero(),
        }),
        ..Components::default()
    });
    let report = scan(&world, &AssetIndex::new());
    assert_eq!(report.len(), 1);
    assert!(report[0].is_missing());
    assert_eq!(report[0].users.len(), 2);
    assert!(report[0].users.iter().all(|user| user.entity == entity));
    assert_eq!(missing(&world, &AssetIndex::new()).len(), 1);
    let mut index = AssetIndex::new();
    index.insert(vge_studio::asset_id::parse_asset_id(id).unwrap(), "tree.gltf");
    assert!(missing(&world, &index).is_empty());
    assert_eq!(scan(&world, &index)[0].path.as_deref(), Some("tree.gltf"));
}

fn diag(severity: Severity, message: &str) -> Diagnostic {
    Diagnostic { severity, code: None, message: message.to_string(), file: None, line: None }
}

#[test]
fn new_set_is_empty() {
    let diagnostics = Diagnostics::new();
    assert!(diagnostics.is_empty());
    assert_eq!(diagnostics.len(), 0);
    assert!(diagnostics.snapshot().is_empty());
}

#[test]
fn push_then_set_then_clear() {
    let mut diagnostics = Diagnostics::new();
    diagnostics.push(diag(Severity::Warning, "one"));
    diagnostics.push(diag(Severity::Error, "two"));
    assert_eq!(diagnostics.len(), 2);
    diagnostics.set(vec![diag(Severity::Info, "only")]);
    assert_eq!(diagnostics.snapshot(), vec![diag(Severity::Info, "only")]);
    diagnostics.clear();
    assert!(diagnostics.is_empty());
}

#[test]
fn severity_orders_worst_first() {
    let mut severities = [Severity::Info, Severity::Error, Severity::Warning];
    severities.sort();
    assert_eq!(severities, [Severity::Error, Severity::Warning, Severity::Info]);
}

#[test]
fn diagnostic_carries_optional_location() {
    let d = Diagnostic {
        severity: Severity::Error,
        code: Some("E0599".to_string()),
        message: "no method named `foo`".to_string(),
        file: Some("src/player.rs".to_string()),
        line: Some(42),
    };
    assert_eq!(d.code.as_deref(), Some("E0599"));
    assert_eq!(d.line, Some(42));
    assert_eq!(line_cell(&d), "42");
    assert_eq!(d.file.unwrap(), "src/player.rs");
}

#[test]
fn a_problem_with_a_place_can_be_selected() {
    let mut placed = diag(Severity::Error, "one");
    placed.file = Some("src/a.rs".to_string());
    let items = [diag(Severity::Error, "nowhere"), placed];
    let mut selected = None;
    row_clicked(&items, 1, &mut selected);
    assert_eq!(selected, Some(1));
    let mut diagnostics = Diagnostics::new();
    diagnostics.push(diag(Severity::Info, "x"));
    clear_clicked(&mut diagnostics, &mut selected);
    assert_eq!(selected, None);
    assert!(diagnostics.is_empty());
}

#[test]
fn default_is_clean() {
    let dirty = DirtyState::default();
    assert!(!dirty.any());
    assert!(dirty.summary().is_none());
}

#[test]
fn each_source_flips_any_independently() {
    let mut dirty = DirtyState::default();
    dirty.mark_scene();
    assert!(dirty.any() && dirty.scene());
    dirty.clear_scene();
    assert!(!dirty.any());
    dirty.mark_settings();
    assert!(dirty.any() && dirty.settings());
    dirty.clear_settings();
    assert!(!dirty.any());
    dirty.mark_document("src/player.rs");
    assert!(dirty.any());
    dirty.clear_document("src/player.rs");
    assert!(!dirty.any());
}

#[test]
fn dirty_documents_are_sorted_and_deduplicated() {
    let mut dirty = DirtyState::default();
    dirty.mark_document("src/b.rs");
    dirty.mark_document("src/a.rs");
    dirty.mark_document("src/b.rs");
    assert_eq!(*dirty.dirty_documents(), vec!["src/a.rs".to_string(), "src/b.rs".to_string()]);
}

#[test]
fn summary_wording() {
    let mut dirty = DirtyState::default();
    assert_eq!(dirty.summary(), None);
    dirty.mark_scene();
    assert_eq!(dirty.summary().as_deref(), Some("scene"));
    dirty.mark_document("a.rs");
    assert_eq!(dirty.summary().as_deref(), Some("scene + 1 file"));
    dirty.mark_document("b.rs");
    dirty.mark_settings();
    assert_eq!(dirty.summary().as_deref(), Some("scene + settings + 2 files"));
    dirty.clear_scene();
    assert_eq!(dirty.summary().as_deref(), Some("settings + 2 files"));
}

#[test]
fn pending_action_verbs_cover_every_variant() {
    for action in PendingAction::ALL {
        assert!(!action.verb().is_empty());
    }
    assert_eq!(PendingAction::OpenProject("x".to_string()).verb(), "opening another project");
    assert_eq!(PendingAction::NewProject("x".to_string()).verb(), "creating a new project");
}

#[test]
fn oversized_layout_is_rejected() {
    assert!(!layout_fits(&"x".repeat(MAX_LAYOUT_BYTES + 1)));
    assert!(layout_fits(&"x".repeat(MAX_LAYOUT_BYTES)));
    assert!(bounded_layout(Some("x".repeat(MAX_LAYOUT_BYTES + 1))).is_none());
    assert_eq!(bounded_layout(Some("x".to_string())).as_deref(), Some("x"));
    assert!(bounded_layout(None).is_none());
}

#[test]
fn soak_budget_is_bounded() {
    let mut budget = FrameBudget::new();
    budget.frames = MAX_SOAK_FRAMES;
    budget.count_frame();
    assert_eq!(budget.frames, 1);
    budget.frames = u64::MAX;
    budget.count_frame();
    assert_eq!(budget.frames, 1, "a count beyond the limit starts over too");
    budget.reset_frame_budget();
    assert_eq!(budget.frames, 0);
}

#[test]
fn every_docked_panel_has_a_title() {
    check_labels(&Tab::ALL, Tab::title);
}

#[test]
fn english_catalog_has_non_empty_stable_labels() {
    for key in [
        TextKey::Window,
        TextKey::AssetBrowser,
        TextKey::Inspector,
        TextKey::Hierarchy,
        TextKey::Scene,
        TextKey::Console,
    ] {
        assert!(!key.label(Locale::English).is_empty());
    }
}

#[test]
fn new_log_is_empty() {
    let log = OutputLog::new();
    assert!(log.is_empty());
    assert!(log.snapshot().is_empty());
}

#[test]
fn write_line_trims_trailing_newlines() {
    let mut log = OutputLog::new();
    log.write_line("compiling\n");
    log.write_line("done\r\n");
    assert_eq!(log.snapshot(), vec!["compiling".to_string(), "done".to_string()]);
}

#[test]
fn write_line_evicts_the_oldest_once_over_capacity() {
    let mut log = OutputLog::new();
    for i in 0..output::MAX_LINES + 5 {
        log.write_line(&i.to_string());
    }
    let snapshot = log.snapshot();
    assert_eq!(snapshot.len(), output::MAX_LINES);
    assert_eq!(snapshot.first(), Some(&"5".to_string()));
    assert_eq!(snapshot.last(), Some(&(output::MAX_LINES + 4).to_string()));
}

#[test]
fn output_clear_empties_the_log() {
    let mut log = OutputLog::new();
    log.write_line("something");
    log.clear();
    assert!(log.is_empty());
    assert!(!output::count_text(1).is_empty());
}

#[test]
fn errors_say_what_failed() {
    let errors = [
        EditorError::Renderer { message: "no device".to_string() },
        EditorError::AssetScan { path: "assets".to_string(), message: "denied".to_string() },
        EditorError::Session { path: "session.ron".to_string(), message: "full".to_string() },
        EditorError::Prefab { message: "broken".to_string() },
        EditorError::PrefabEntityMissing,
    ];
    for error in &errors {
        assert!(!error.message().is_empty());
    }
    assert!(errors[1].message().contains("assets") && errors[1].message().contains("denied"));
}

#[test]
fn budgets_are_positive_and_explicit() {
    assert!(perf_budget::TERRAIN_BRUSH_BUDGET > 0);
    assert!(perf_budget::DEPENDENCY_SCAN_BUDGET > 0);
}

#[test]
fn work_is_measured_against_its_budget() {
    let (_, within) = perf_budget::within_budget(u128::MAX, || ());
    assert!(within);
    let (taken, within) = perf_budget::within_budget(0, || {
        let mut total: u64 = 0;
        for i in 0..200_000u64 {
            total = total.wrapping_mul(31).wrapping_add(i);
        }
        assert_ne!(total, 1);
    });
    assert_eq!(within, taken == 0);
}
