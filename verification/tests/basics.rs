//! Tests of what the library's modules share: texts, paths, orders, numbers and the world.

use std::cell::RefCell;

use vge_studio::ecs::components::{Components, Name, Quat, Rgba, Transform, Vec2, Vec3};
use vge_studio::ecs::entities::Entity;
use vge_studio::ecs::scalar::Scalar;
use vge_studio::ecs::tree::is_acyclic;
use vge_studio::ecs::world::SceneWorld;
use vge_studio::editor::asset_import::{import_file, CopyOrder, ImportOutcome};
use vge_studio::editor::dirty::PendingAction;
use vge_studio::editor::guard::{Guard, SceneEffect};
use vge_studio::editor::hierarchy_panel::despawn_all;
use vge_studio::editor::history::Snapshot;
use vge_studio::editor::inspector::ComponentKind;
use vge_studio::editor::overlays::NavGrid;
use vge_studio::editor::project_swap::{ProjectRequest, RecentProjects};
use vge_studio::editor::search::{search_file, SearchQuery, TextResults};
use vge_studio::editor::shell::ScreenRect;
use vge_studio::editor::tree_view::flatten_visible;
use vge_studio::{order, paths, rounding, text};

fn s(value: f32) -> Scalar {
    Scalar { bits: value.to_bits() }
}

fn chars(text: &str) -> Vec<char> {
    text.chars().collect()
}

fn named(name: &str) -> Components {
    Components { name: Some(Name::new(name)), ..Components::default() }
}

fn trio(world: &mut SceneWorld) -> (Entity, Entity, Entity) {
    let top = world.spawn(named("top"));
    let middle = world.spawn(named("middle"));
    let low = world.spawn(named("low"));
    world.set_parent(middle, top);
    world.set_parent(low, middle);
    (top, middle, low)
}

const NUMBERS: [f32; 14] = [
    f32::NEG_INFINITY,
    f32::MIN,
    -2.5,
    -1.0,
    -f32::MIN_POSITIVE,
    -0.0,
    0.0,
    1.0e-45,
    f32::MIN_POSITIVE,
    0.5,
    1.0,
    3.0,
    f32::MAX,
    f32::INFINITY,
];

#[test]
fn encodings_compare_as_the_numbers_do() {
    let mut all = NUMBERS.to_vec();
    all.push(f32::NAN);
    all.push(-f32::NAN);
    for a in &all {
        for b in &all {
            assert_eq!(s(*a).is_less(&s(*b)), a < b, "{a} < {b}");
            assert_eq!(s(*a).is_same(&s(*b)), a == b, "{a} == {b}");
            assert_eq!(s(*a).is_at_most(&s(*b)), a <= b, "{a} <= {b}");
            assert_eq!(s(*a).place_of().cmp(&s(*b).place_of()), a.total_cmp(b), "{a} and {b}");
        }
        assert_eq!(s(*a).is_not_a_number(), a.is_nan());
        assert_eq!(s(*a).is_finite(), a.is_finite());
    }
}

#[test]
fn encodings_are_clamped_as_the_numbers_are() {
    for a in NUMBERS {
        let clamped = f32::from_bits(s(a).clamp(&s(-1.0), &s(3.0)).bits);
        assert_eq!(clamped, a.clamp(-1.0, 3.0));
        for b in NUMBERS {
            assert_eq!(f32::from_bits(s(a).min(&s(b)).bits), a.min(b));
            assert_eq!(f32::from_bits(s(a).max(&s(b)).bits), a.max(b));
        }
    }
    assert_eq!(s(f32::NAN).min(&s(1.0)), s(1.0));
    assert_eq!(s(1.0).max(&s(f32::NAN)), s(1.0));
    assert!(s(f32::NAN).clamp(&s(0.0), &s(1.0)).is_not_a_number());
}

#[test]
fn vectors_are_the_same_where_their_numbers_are() {
    let zero = Vec2 { x: s(0.0), y: s(1.0) };
    let minus = Vec2 { x: s(-0.0), y: s(1.0) };
    assert!(zero.is_same(&minus));
    assert!(zero != minus);
    let odd = Vec3 { x: s(f32::NAN), y: s(0.0), z: s(0.0) };
    assert!(!odd.is_same(&odd));
    let turn = Quat { x: s(0.0), y: s(0.0), z: s(0.0), w: s(1.0) };
    assert!(turn.is_same(&turn));
    let red = Rgba { r: s(1.0), g: s(0.0), b: s(0.0), a: s(1.0) };
    let green = Rgba { r: s(0.0), g: s(1.0), b: s(0.0), a: s(1.0) };
    assert!(!red.is_same(&green));
    assert!(Transform::identity().is_same(&Transform::default()));
    assert!(!Transform::from_translation(odd).is_same(&Transform::from_translation(odd)));
    let place = ScreenRect { x: s(0.0), y: s(1.0), width: s(2.0), height: s(3.0) };
    assert!(place.is_same(&place));
    assert!(!place.is_same(&ScreenRect { height: s(4.0), ..place }));
}

#[test]
fn texts_are_taken_apart_and_put_together() {
    assert_eq!(text::to_chars("h\u{e9}"), vec!['h', '\u{e9}']);
    assert_eq!(text::from_chars(&['a', 'b']), "ab");
    assert_eq!(text::slice(&chars("abcd"), 1, 3), chars("bc"));
    assert!(text::same_chars(&chars("ab"), &chars("ab")));
    assert!(!text::same_chars(&chars("ab"), &chars("abc")));
    assert_eq!(text::join2("a", "b"), "ab");
    assert_eq!(text::join3("a", "-", "b"), "a-b");
    assert_eq!(text::decimal(0), "0");
    assert_eq!(text::decimal(u64::MAX), "18446744073709551615");
    assert_eq!(text::ascii_lowercase("A\u{c4}z"), "a\u{c4}z");
    assert_eq!(text::trim(" \t a b \u{a0}"), "a b");
    assert_eq!(text::trim_chars(&chars("  ")), chars(""));
    assert!(text::stands_at(&chars("abc"), &chars("bc"), 1));
    assert!(!text::stands_at(&chars("abc"), &chars("bcd"), 1));
    assert_eq!(text::find_from(&chars("abab"), &chars("ab"), 1), Some(2));
    assert_eq!(text::find_from(&chars("abab"), &chars("ba"), 2), None);
    assert!(text::starts_with("engine_ecs", "engine"));
    assert!(text::holds_char(&chars("a/b"), '/'));
    assert_eq!(text::split(&chars("a//b"), '/'), vec![chars("a"), chars(""), chars("b")]);
    assert_eq!(text::pad_left("7", 3), "  7");
    assert_eq!(text::pad_right("ab", 4), "ab  ");
    assert_eq!(text::pad_right("abcde", 4), "abcde");
}

#[test]
fn paths_are_read_as_std_reads_them() {
    let all = [
        "a/b.tar.gz", "/a/b", "a/", ".hidden", "a/..", "..", ".", "", "/", "a//b/./c", "x.", "./x",
    ];
    for path in all {
        let known = std::path::Path::new(path);
        let name = known.file_name().map(|part| part.to_string_lossy().into_owned());
        let stem = known.file_stem().map(|part| part.to_string_lossy().into_owned());
        let extension = known.extension().map(|part| part.to_string_lossy().into_owned());
        assert_eq!(paths::is_absolute(path), known.is_absolute(), "{path}");
        assert_eq!(paths::file_name(path), name, "{path}");
        assert_eq!(paths::file_stem(path), stem, "{path}");
        assert_eq!(paths::extension(path), extension, "{path}");
        let parts: Vec<String> =
            known.components().map(|c| c.as_os_str().to_string_lossy().into_owned()).collect();
        let found: Vec<String> =
            paths::components(path).iter().map(|part| part.iter().collect()).collect();
        assert_eq!(found, parts, "{path}");
        let joined = known.join("n.png").to_string_lossy().into_owned();
        assert_eq!(paths::join(path, "n.png"), joined, "{path}");
        for other in all {
            assert_eq!(paths::same(path, other), known == std::path::Path::new(other));
            assert_eq!(
                order::is_path_before(path, other),
                known < std::path::Path::new(other),
                "{path} and {other}"
            );
            assert_eq!(order::is_text_before(path, other), path < other);
        }
    }
    assert!(paths::climbs("a/../b"));
    assert!(!paths::climbs("a/..b"));
    assert_eq!(paths::file_name_chars("a/b"), Some(chars("b")));
}

#[test]
fn numbers_are_sorted() {
    assert_eq!(order::sort_numbers(vec![5, 1, 3]), vec![1, 3, 5]);
    assert!(order::chars_before(&chars("a"), &chars("b")));
    assert!(!order::chars_before(&chars("b"), &chars("ab")));
}

#[test]
fn quotients_are_rounded_as_floating_point_rounds() {
    for (num, den) in [(1u32, 3u32), (2, 3), (1, 2), (7, 2), (5, 2), (999, 7), (0, 9)] {
        let exact = rounding::divide_to_nearest(u128::from(num), u128::from(den));
        let close = f64::from(num) / f64::from(den);
        assert_eq!(exact as f64, close.round_ties_even(), "{num}/{den}");
    }
    for value in [1u128, (1 << 53) - 1, (1 << 53) + 1, (1 << 60) + 129, (1 << 80) + 12_345] {
        assert_eq!(rounding::round_53(value), value as f64 as u128);
    }
}

#[test]
fn population_counts_every_entity() {
    let mut world = SceneWorld::new();
    let start = world.population();
    assert!(start < 0x1_0000);
    let (top, middle, low) = trio(&mut world);
    assert_eq!(world.population(), start + 3);
    world.clear_parent(low);
    world.set_parent(low, top);
    assert_eq!(world.population(), start + 3);
    assert!(world.despawn(middle));
    assert_eq!(world.population(), start + 2);
    assert!(world.despawn(top));
    assert_eq!(world.population(), start);
    assert!(!world.despawn(low));
    assert_eq!(world.len(), 0);
}

#[test]
fn a_tree_has_no_cycle_and_a_ring_has_one() {
    let mut world = SceneWorld::new();
    assert!(is_acyclic(&world));
    let (top, _, low) = trio(&mut world);
    assert!(is_acyclic(&world));
    world.set_parent(top, low);
    assert!(!is_acyclic(&world));
    world.clear_parent(low);
    assert!(is_acyclic(&world));
}

#[test]
fn a_ring_is_removed_as_a_whole() {
    let mut world = SceneWorld::new();
    let start = world.population();
    let (top, middle, low) = trio(&mut world);
    let other = world.spawn(named("other"));
    world.set_parent(top, low);
    assert!(world.despawn(middle));
    assert!(!world.contains(top) && !world.contains(middle) && !world.contains(low));
    assert!(world.contains(other));
    assert_eq!(world.population(), start + 1);
}

#[test]
fn removing_several_removes_what_is_below_them() {
    let mut world = SceneWorld::new();
    let (top, middle, low) = trio(&mut world);
    let other = world.spawn(named("other"));
    let start = world.population();
    despawn_all(&mut world, &[low, middle, low]);
    assert!(world.contains(top) && world.contains(other));
    assert!(!world.contains(middle) && !world.contains(low));
    assert_eq!(world.population(), start - 2);
}

#[test]
fn a_branch_is_listed_from_the_top_down() {
    let mut world = SceneWorld::new();
    let (top, middle, low) = trio(&mut world);
    let mut rows: Vec<Entity> = Vec::new();
    flatten_visible(&world, top, &None, &mut rows);
    assert_eq!(rows, vec![top, middle, low]);
    let mut rows: Vec<Entity> = Vec::new();
    let visible = [top, low].into_iter().collect();
    flatten_visible(&world, top, &Some(visible), &mut rows);
    assert_eq!(rows, vec![top], "below a hidden row nothing is shown");
}

#[test]
fn a_snapshot_selects_by_name() {
    let mut world = SceneWorld::new();
    let (_, middle, _) = trio(&mut world);
    let capture = |world: &SceneWorld| world.len();
    let snapshot = Snapshot::capture(&world, Some(middle), &capture);
    assert_eq!(snapshot.selected_name.as_deref(), Some("middle"));
    let mut selected: Option<Entity> = None;
    let mut restored = SceneWorld::new();
    snapshot.restore(&mut restored, &mut selected, &|_: &usize| {
        let mut world = SceneWorld::new();
        world.spawn(named("first"));
        world.spawn(named("middle"));
        world
    });
    assert_eq!(restored.len(), 2);
    assert_eq!(selected, Some(restored.entity_at(1)));
}

#[test]
fn a_kind_is_held_where_its_component_is() {
    let components = Components { transform: Some(Transform::identity()), ..Components::default() };
    assert!(ComponentKind::Transform.is_held_by(&components));
    assert!(!ComponentKind::Camera.is_held_by(&components));
}

#[test]
fn a_grid_has_a_flag_for_each_cell() {
    let grid = |width: u32, blocked: Vec<bool>| NavGrid {
        width,
        height: 2,
        cell_size: s(1.0),
        origin: Vec2 { x: s(0.0), y: s(0.0) },
        blocked,
    };
    assert!(grid(1, vec![true, false]).is_well_formed());
    assert!(!grid(2, vec![true, false]).is_well_formed());
}

#[test]
fn the_list_of_projects_lies_in_the_users_settings() {
    assert_eq!(
        RecentProjects::default_path(Some("/home/a"), false).as_deref(),
        Some("/home/a/.config/rustyengine/recent-projects.ron")
    );
    assert_eq!(
        RecentProjects::default_path(Some("/Users/a"), true).as_deref(),
        Some("/Users/a/Library/Application Support/RustyEngine/recent-projects.ron")
    );
    assert_eq!(RecentProjects::default_path(None, false), None);
}

#[test]
fn a_cleared_action_is_carried_out() {
    let mut guard = Guard::default();
    assert_eq!(guard.apply_pending(PendingAction::NewScene), SceneEffect::NewScene);
    assert_eq!(guard.apply_pending(PendingAction::RevertScene), SceneEffect::RevertScene);
    assert_eq!(guard.apply_pending(PendingAction::Quit), SceneEffect::Unchanged);
    assert!(guard.exit_requested);
    let action = PendingAction::NewProject("/p".to_owned());
    assert_eq!(guard.apply_pending(action), SceneEffect::Unchanged);
    assert_eq!(guard.project_request, Some(ProjectRequest::create("/p")));
}

#[test]
fn one_file_is_imported_under_a_free_name() {
    let asked = RefCell::new(Vec::new());
    let made = |path: &str| -> Result<(), String> {
        asked.borrow_mut().push(path.to_owned());
        Ok(())
    };
    let taken = |path: &str| path == "assets/cat.png";
    let copy = |order: &CopyOrder| -> Result<(), String> {
        assert_eq!(order.destination, "assets/cat_1.png");
        Ok(())
    };
    let outcome = import_file("assets", "/home/cat.png", &made, &taken, &copy);
    assert!(outcome.succeeded());
    let broken = |_: &CopyOrder| -> Result<(), String> { Err("disk full".to_owned()) };
    let outcome = import_file("assets", "/home/cat.png", &made, &taken, &broken);
    assert!(matches!(outcome, ImportOutcome::Failed { .. }));
    assert_eq!(*asked.borrow(), vec!["assets", "assets"]);
    let outcome = import_file("assets", "/home/notes.xyz", &made, &taken, &copy);
    assert!(matches!(outcome, ImportOutcome::Unsupported { .. }));
    assert_eq!(asked.borrow().len(), 2);
    let refused = |_: &str| -> Result<(), String> { Err("read only".to_owned()) };
    let outcome = import_file("assets", "/home/cat.png", &refused, &taken, &copy);
    assert!(matches!(
        outcome,
        ImportOutcome::Failed { reason, .. }
            if reason == "could not create the assets directory: read only"
    ));
}

#[test]
fn one_file_is_searched() {
    let mut results = TextResults::default();
    let query =
        SearchQuery { text: "cube".to_owned(), case_sensitive: false, whole_word: false };
    search_file(&mut results, "a.rs", b"// none\nlet Cube = cube;\n".to_vec(), &query, 10);
    let places: Vec<(u32, u32)> = results.hits.iter().map(|hit| (hit.line, hit.col)).collect();
    assert_eq!(places, vec![(2, 5)], "the first place in each line");
    search_file(&mut results, "b.bin", vec![0, 99, 117, 98, 101], &query, 10);
    assert_eq!(results.hits.len(), 1);
}
