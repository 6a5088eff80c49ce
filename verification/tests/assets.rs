//! Tests of the project's files: scanning, arranging, importing and decoding them.

use std::cell::RefCell;
use std::collections::BTreeMap;

use vge_studio::asset_id::AssetId;
use vge_studio::editor::asset_browser::{
    asset_row, entries_of_kind, folder_clicked, import_summary, is_selected, is_target,
    kinds_present, new_folder_prompt, row_text, shows_nothing, AssetBrowser, AssetView,
    PromptInput, RowLabel,
};
use vge_studio::editor::asset_import::{
    import_files, is_importable, sidecar_path, unique_destination, unique_name, CopyOrder,
    ImportOutcome, IMPORTABLE_EXTENSIONS,
};
use vge_studio::editor::asset_tree::build_tree;
use vge_studio::editor::assets::{
    is_text_file, resolve_ids, AssetEntry, AssetIndex, AssetKind, DirItem, FileKind, Scanner,
};
use vge_studio::editor::import::{AssetImporter, ImportOutcome as PassOutcome, ImportStats};

/// Files by path, with what they hold.
#[derive(Default)]
struct Disk {
    files: RefCell<BTreeMap<String, String>>,
    made: RefCell<Vec<String>>,
}

impl Disk {
    fn write(&self, path: &str, contents: &str) {
        self.files.borrow_mut().insert(path.to_string(), contents.to_string());
    }

    fn read(&self, path: &str) -> Option<String> {
        self.files.borrow().get(path).cloned()
    }

    fn import(&self, directory: &str, sources: &[&str]) -> Vec<ImportOutcome> {
        let sources: Vec<String> = sources.iter().map(|path| path.to_string()).collect();
        import_files(
            directory,
            &sources,
            &|path: &str| {
                self.made.borrow_mut().push(path.to_string());
                Ok(())
            },
            &|path: &str| self.files.borrow().contains_key(path),
            &|order: &CopyOrder| {
                let contents =
                    self.read(&order.source).ok_or_else(|| "no such file".to_string())?;
                self.write(&order.destination, &contents);
                if let Some(side) = self.read(&order.source_sidecar) {
                    self.write(&order.destination_sidecar, &side);
                }
                Ok(())
            },
        )
    }
}

#[test]
fn recognises_importable_kinds() {
    assert!(is_importable("model.gltf"));
    assert!(is_importable("model.GLB"));
    assert!(is_importable("albedo.png"));
    assert!(is_importable("step.wav"));
}

#[test]
fn rejects_kinds_the_editor_produces_or_cannot_read() {
    assert!(!is_importable("level.ron"));
    assert!(!is_importable("barrel.prefab"));
    assert!(!is_importable("notes.txt"));
    assert!(!is_importable("noextension"));
}

#[test]
fn every_listed_extension_is_importable() {
    for extension in IMPORTABLE_EXTENSIONS {
        assert!(is_importable(&format!("file.{extension}")));
    }
}

#[test]
fn unique_destination_keeps_a_free_name() {
    let chosen = unique_destination("dir", "barrel.gltf", &|_: &str| false);
    assert_eq!(chosen, "dir/barrel.gltf");
}

#[test]
fn unique_destination_avoids_clobbering() {
    let disk = Disk::default();
    disk.write("dir/barrel.gltf", "existing");
    let taken = |path: &str| disk.read(path).is_some();
    assert_eq!(unique_destination("dir", "barrel.gltf", &taken), "dir/barrel_1.gltf");
    disk.write("dir/barrel_1.gltf", "also existing");
    assert_eq!(unique_destination("dir", "barrel.gltf", &taken), "dir/barrel_2.gltf");
}

#[test]
fn a_name_is_chosen_even_when_all_are_taken() {
    assert_eq!(unique_name("dir", "a.png", &|_: &str| true), "a_9999.png");
    assert_eq!(unique_name("dir", "plain", &|path: &str| path == "dir/plain"), "plain_1");
}

#[test]
fn importing_never_overwrites_an_existing_asset() {
    let disk = Disk::default();
    disk.write("assets/barrel.gltf", "ORIGINAL");
    disk.write("elsewhere/barrel.gltf", "INCOMING");
    let outcomes = disk.import("assets", &["elsewhere/barrel.gltf"]);
    assert!(outcomes[0].succeeded());
    assert!(matches!(&outcomes[0], ImportOutcome::Copied { renamed: true, .. }));
    assert_eq!(disk.read("assets/barrel.gltf").unwrap(), "ORIGINAL");
    assert_eq!(disk.read("assets/barrel_1.gltf").unwrap(), "INCOMING");
    assert_eq!(outcomes[0].summary(), "imported as barrel_1.gltf (that name was taken)");
}

#[test]
fn copy_creates_the_assets_dir() {
    let disk = Disk::default();
    disk.write("thing.png", "data");
    let outcomes = disk.import("assets", &["thing.png"]);
    assert!(outcomes[0].succeeded());
    assert_eq!(*disk.made.borrow(), vec!["assets".to_string()]);
    assert!(disk.read("assets/thing.png").is_some());
    assert_eq!(outcomes[0].summary(), "imported thing.png");
}

#[test]
fn a_directory_that_cannot_be_made_fails_every_file() {
    let sources = vec!["a.png".to_string(), "b.png".to_string()];
    let outcomes = import_files(
        "assets",
        &sources,
        &|_: &str| Err("read only".to_string()),
        &|_: &str| false,
        &|_: &CopyOrder| Ok(()),
    );
    assert_eq!(outcomes.len(), 2);
    for outcome in &outcomes {
        assert!(matches!(outcome, ImportOutcome::Failed { .. }));
        assert!(outcome
            .summary()
            .contains("could not create the assets directory: read only"));
    }
}

#[test]
fn unsupported_extension_is_reported_not_ignored() {
    let disk = Disk::default();
    disk.write("scene.blend", "data");
    let outcomes = disk.import("assets", &["scene.blend"]);
    assert!(matches!(outcomes[0], ImportOutcome::Unsupported { .. }));
    assert!(outcomes[0].summary().contains("no importer"));
    assert!(!outcomes[0].succeeded());
}

#[test]
fn a_missing_source_fails_without_stopping_the_others() {
    let disk = Disk::default();
    disk.write("good.png", "data");
    let outcomes = disk.import("assets", &["gone.png", "good.png"]);
    assert!(matches!(outcomes[0], ImportOutcome::Failed { .. }));
    assert!(outcomes[1].succeeded());
}

#[test]
fn a_meta_sidecar_travels_with_its_asset() {
    let disk = Disk::default();
    disk.write("barrel.gltf", "model");
    disk.write(
        "barrel.gltf.meta",
        "(id: \"b8d5d33b-086e-4494-b2bd-0cb556828369\", source_hash: 1,)",
    );
    disk.import("assets", &["barrel.gltf"]);
    assert!(disk.read("assets/barrel.gltf.meta").unwrap().contains("b8d5d33b"));
    assert_eq!(sidecar_path("assets/barrel.gltf"), "assets/barrel.gltf.meta");
}

#[test]
fn an_asset_without_a_sidecar_imports_fine() {
    let disk = Disk::default();
    disk.write("plain.wav", "audio");
    let outcomes = disk.import("assets", &["plain.wav"]);
    assert!(outcomes[0].succeeded());
    assert!(disk.read("assets/plain.wav.meta").is_none());
}

#[test]
fn outcomes_are_returned_in_input_order() {
    let disk = Disk::default();
    disk.write("a.png", "1");
    disk.write("b.txt", "2");
    let outcomes = disk.import("assets", &["a.png", "b.txt"]);
    assert!(outcomes[0].succeeded());
    assert!(matches!(outcomes[1], ImportOutcome::Unsupported { .. }));
}

fn entry(path: &str, kind: AssetKind) -> AssetEntry {
    AssetEntry { relative_path: path.to_string(), kind, id: None }
}

#[test]
fn asset_row_click_selects_without_a_grab_cursor() {
    let row = entry("scripts/player.rs", AssetKind::from_path("scripts/player.rs"));
    let mut selected = None;
    let mut open_request = None;
    asset_row(&row, true, false, &mut selected, &mut open_request);
    assert_eq!(selected.as_deref(), Some("scripts/player.rs"));
    assert_eq!(open_request, None);
    assert!(is_selected(&row, &selected));
    asset_row(&row, false, true, &mut selected, &mut open_request);
    assert_eq!(open_request.as_deref(), Some("scripts/player.rs"));
}

#[test]
fn build_tree_mirrors_the_directory_layout() {
    let entries = vec![
        entry("models/rock.gltf", AssetKind::Mesh),
        entry("textures/terrain/grass.png", AssetKind::Texture),
        entry("textures/props/bark.png", AssetKind::Texture),
        entry("readme.md", AssetKind::Other),
    ];
    let root = build_tree(&entries);
    assert_eq!(root.files, vec![3]);
    assert_eq!(root.folders.len(), 2);
    assert_eq!(root.folders[0].name, "models");
    assert_eq!(root.folders[0].files, vec![0]);
    let textures = &root.folders[1];
    assert_eq!(textures.name, "textures");
    assert!(textures.files.is_empty());
    assert_eq!(textures.folders.len(), 2);
    assert_eq!(textures.folders[0].path, "textures/terrain");
    assert_eq!(textures.file_count(), 2);
    assert_eq!(root.file_count(), entries.len());
}

#[test]
fn ensure_makes_a_folder_visible_before_it_holds_anything() {
    let entries = vec![entry("models/rock.gltf", AssetKind::Mesh)];
    let mut root = build_tree(&entries);
    assert_eq!(root.folders.len(), 1);
    root.ensure("textures/terrain");
    assert_eq!(root.folders.len(), 2);
    let textures = root.folders.iter().find(|folder| folder.name == "textures").unwrap();
    assert_eq!(textures.folders[0].path, "textures/terrain");
    assert_eq!(textures.file_count(), 0);
    root.ensure("textures/terrain");
    assert_eq!(root.folders.len(), 2);
}

#[test]
fn ensured_folders_stand_in_the_order_of_their_names() {
    let mut root = build_tree(&[entry("models/rock.gltf", AssetKind::Mesh)]);
    root.ensure("textures");
    root.ensure("audio");
    let names: Vec<&str> = root.folders.iter().map(|folder| folder.name.as_str()).collect();
    assert_eq!(names, vec!["audio", "models", "textures"]);
    assert_eq!(root.folders[0].path, "audio");
    assert_eq!(root.folders[1].files.len(), 1);
    assert_eq!(root.file_count(), 1);
    let listed = build_tree(&[
        entry("textures/a.png", AssetKind::Texture),
        entry("audio/b.wav", AssetKind::Audio),
    ]);
    let names: Vec<&str> = listed.folders.iter().map(|folder| folder.name.as_str()).collect();
    assert_eq!(names, vec!["textures", "audio"], "entries keep the order they come in");
}

/// Scans files given by their paths, as a walk over directories finds them.
fn scan(files: &[&str]) -> Vec<AssetEntry> {
    let mut scanner = Scanner::new(true);
    while let Some(dir) = scanner.next_dir() {
        let prefix = if dir.is_empty() { String::new() } else { format!("{dir}/") };
        let mut items: Vec<DirItem> = Vec::new();
        for file in files {
            if let Some(rest) = file.strip_prefix(&prefix) {
                let (name, kind) = match rest.split_once('/') {
                    Some((name, _)) => (name, FileKind::Directory),
                    None => (rest, FileKind::File),
                };
                if !items.iter().any(|item| item.name == name) {
                    items.push(DirItem { name: name.to_string(), kind });
                }
            }
        }
        scanner.listed(&items);
    }
    scanner.finish()
}

fn paths(entries: &[AssetEntry]) -> Vec<&str> {
    entries.iter().map(|entry| entry.relative_path.as_str()).collect()
}

#[test]
fn scan_hides_meta_sidecars_and_hidden_files() {
    let entries = scan(&["brick.png", "brick.png.meta", ".DS_Store", ".cache/stale.png"]);
    assert_eq!(paths(&entries), vec!["brick.png"]);
}

#[test]
fn is_text_file_matches_editable_extensions() {
    assert!(is_text_file("src/player.rs"));
    assert!(is_text_file("Cargo.TOML"));
    assert!(is_text_file("scenes/main.ron"));
    assert!(is_text_file("shaders/pbr.wgsl"));
    assert!(!is_text_file("models/house.glb"));
    assert!(!is_text_file("textures/grass.png"));
    assert!(!is_text_file("noextension"));
}

#[test]
fn scan_of_a_nonexistent_directory_returns_empty() {
    let scanner = Scanner::new(false);
    assert!(scanner.next_dir().is_none());
    assert_eq!(scanner.finish(), Vec::new());
}

#[test]
fn scan_of_an_empty_directory_returns_empty() {
    assert_eq!(scan(&[]), Vec::new());
}

#[test]
fn scan_finds_top_level_files_and_classifies_by_extension() {
    let entries = scan(&["cube.gltf", "brick.png", "notes.txt"]);
    assert_eq!(
        entries,
        vec![
            entry("brick.png", AssetKind::Texture),
            entry("cube.gltf", AssetKind::Mesh),
            entry("notes.txt", AssetKind::Other),
        ]
    );
}

#[test]
fn scan_recurses_into_subdirectories() {
    let entries = scan(&["audio/hit.wav"]);
    assert_eq!(entries, vec![entry("audio/hit.wav", AssetKind::Audio)]);
}

#[test]
fn scan_results_are_sorted_by_relative_path() {
    let entries = scan(&["b.png", "a.png"]);
    assert_eq!(paths(&entries), vec!["a.png", "b.png"]);
}

#[test]
fn scan_goes_no_deeper_than_its_limit() {
    let deep = format!("{}deep.png", "d/".repeat(40));
    let entries = scan(&["top.png", &deep]);
    assert_eq!(paths(&entries), vec!["top.png"]);
}

#[test]
fn asset_entry_name_is_the_final_path_component() {
    assert_eq!(entry("audio/hit.wav", AssetKind::Audio).name(), "hit.wav");
}

#[test]
fn asset_kind_label_is_non_empty_for_every_kind() {
    for kind in [
        AssetKind::Mesh,
        AssetKind::Texture,
        AssetKind::Audio,
        AssetKind::Scene,
        AssetKind::Prefab,
        AssetKind::Other,
    ] {
        assert!(!kind.label().is_empty());
    }
}

#[test]
fn dot_prefab_classifies_as_prefab_and_is_not_referenceable() {
    assert_eq!(AssetKind::from_extension("prefab"), AssetKind::Prefab);
    assert!(!AssetKind::Prefab.is_referenceable());
}

/// An identifier for a file, made of its name.
fn id_for_file(name: &str) -> AssetId {
    let mut value: u128 = 1;
    for byte in name.bytes() {
        value = value.wrapping_mul(257).wrapping_add(byte as u128);
    }
    AssetId { value }
}

#[test]
fn resolve_ids_writes_meta_for_referenceable_kinds_only() {
    let mut entries = scan(&["brick.png", "hit.wav", "notes.txt", "main.ron"]);
    let written: RefCell<Vec<String>> = RefCell::new(Vec::new());
    let index = resolve_ids("/assets", &mut entries, &|path: &str| {
        written.borrow_mut().push(sidecar_path(path));
        Ok(id_for_file(path))
    });
    let id_of =
        |name: &str| entries.iter().find(|entry| entry.relative_path == name).unwrap().id;
    assert!(id_of("brick.png").is_some());
    assert!(id_of("hit.wav").is_some());
    assert!(id_of("notes.txt").is_none());
    assert!(id_of("main.ron").is_none());
    assert!(written.borrow().contains(&"/assets/brick.png.meta".to_string()));
    assert!(!written.borrow().contains(&"/assets/notes.txt.meta".to_string()));
    assert_eq!(*written.borrow(), vec!["/assets/brick.png.meta", "/assets/hit.wav.meta"]);
    let brick_id = id_of("brick.png").unwrap();
    assert_eq!(index.path_for(brick_id), Some("brick.png"));
    assert_eq!(index.id_for("brick.png"), Some(brick_id));
    assert_eq!(index.len(), 2);
}

#[test]
fn asset_id_survives_a_rename_and_resolve_falls_back() {
    let mut entries = scan(&["old.png"]);
    let original = id_for_file("the same side file");
    resolve_ids("assets", &mut entries, &|_: &str| Ok(original));
    assert_eq!(entries[0].id, Some(original));
    let mut entries = scan(&["new.png"]);
    let index = resolve_ids("assets", &mut entries, &|_: &str| Ok(original));
    assert_eq!(entries[0].relative_path, "new.png");
    assert_eq!(entries[0].id, Some(original));
    assert_eq!(index.path_for(original), Some("new.png"));
    let stray = AssetId { value: 4 };
    assert_eq!(index.resolve(stray, "stale/old.png"), "stale/old.png");
    assert_eq!(index.resolve(original, "stale/old.png"), "new.png");
}

#[test]
fn a_file_whose_side_file_fails_is_left_without_an_identifier() {
    let mut entries = scan(&["brick.png", "hit.wav"]);
    let index = resolve_ids("assets", &mut entries, &|path: &str| {
        if path == "assets/hit.wav" {
            Ok(id_for_file(path))
        } else {
            Err("read only".to_string())
        }
    });
    assert_eq!(entries[0].id, None);
    assert_eq!(index.id_for("brick.png"), None);
    assert_eq!(index.id_for("hit.wav"), entries[1].id);
    assert_eq!(index.len(), 1);
}

#[test]
fn an_empty_index_knows_nothing() {
    let mut index = AssetIndex::new();
    assert!(index.is_empty());
    assert_eq!(index.id_for("a.png"), None);
    index.insert(AssetId { value: 1 }, "dir//a.png");
    assert_eq!(index.id_for("dir/a.png"), Some(AssetId { value: 1 }));
    assert!(!index.is_empty());
}

/// Runs a pass over files, each with its contents; a file whose contents are new has
/// changed, and one that holds `bad` cannot be decoded.
struct Project {
    files: BTreeMap<&'static str, &'static str>,
    seen: RefCell<BTreeMap<String, String>>,
    importer: AssetImporter<String>,
    entries: Vec<AssetEntry>,
}

impl Project {
    fn new(files: &[(&'static str, &'static str)]) -> Project {
        Project {
            files: files.iter().copied().collect(),
            seen: RefCell::new(BTreeMap::new()),
            importer: AssetImporter::new(),
            entries: Vec::new(),
        }
    }

    fn contents(&self, path: &str) -> String {
        self.files.get(path.strip_prefix("root/").unwrap()).unwrap().to_string()
    }

    fn run(&mut self) -> AssetIndex {
        let names: Vec<&str> = self.files.keys().copied().collect();
        let mut entries = scan(&names);
        let mut importer = std::mem::replace(&mut self.importer, AssetImporter::new());
        let index = importer.run(
            "root",
            &mut entries,
            &|path: &str| {
                let contents = self.contents(path);
                let old = self.seen.borrow_mut().insert(path.to_string(), contents.clone());
                Ok((id_for_file(path), old.as_ref() != Some(&contents)))
            },
            &|_: AssetKind, path: &str| {
                let contents = self.contents(path);
                if contents == "bad" {
                    Err("cannot decode".to_string())
                } else {
                    Ok(contents)
                }
            },
        );
        self.importer = importer;
        self.entries = entries;
        index
    }

    fn outcome(&self, name: &str) -> &PassOutcome {
        let record =
            self.importer.records().iter().find(|record| record.relative_path == name).unwrap();
        &record.outcome
    }

    fn id(&self, name: &str) -> AssetId {
        self.entries.iter().find(|entry| entry.relative_path == name).unwrap().id.unwrap()
    }
}

#[test]
fn run_imports_referenceable_kinds_and_holds_the_data() {
    let mut project = Project::new(&[
        ("brick.png", "pixels"),
        ("hit.wav", "sound"),
        ("notes.txt", "text"),
        ("main.ron", "()"),
    ]);
    let index = project.run();
    assert_eq!(project.importer.records().len(), 2);
    assert!(project
        .importer
        .records()
        .iter()
        .all(|record| record.outcome == PassOutcome::Imported));
    assert_eq!(project.importer.get(project.id("brick.png")).unwrap(), "pixels");
    assert!(index.id_for("hit.wav").is_some());
    assert_eq!(project.importer.pass_id(), 1);
}

#[test]
fn second_run_reports_cached_and_skips_the_importer() {
    let mut project = Project::new(&[("brick.png", "pixels")]);
    project.run();
    assert_eq!(project.importer.stats().imported, 1);
    project.run();
    let stats = project.importer.stats();
    assert_eq!(stats.imported, 0);
    assert_eq!(stats.cached, 1);
    assert_eq!(project.importer.imported_count(), 1);
}

#[test]
fn editing_a_source_triggers_reimport() {
    let mut project = Project::new(&[("a.png", "one"), ("b.wav", "sound")]);
    project.run();
    project.files.insert("a.png", "two");
    project.run();
    assert_eq!(project.outcome("a.png"), &PassOutcome::Imported);
    assert_eq!(project.outcome("b.wav"), &PassOutcome::Cached);
}

#[test]
fn a_corrupt_source_is_failed_not_fatal() {
    let mut project = Project::new(&[("brick.png", "bad"), ("hit.wav", "sound")]);
    project.run();
    assert!(matches!(project.outcome("brick.png"), PassOutcome::Failed(_)));
    assert_eq!(project.outcome("hit.wav"), &PassOutcome::Imported);
}

#[test]
fn cold_start_with_a_warm_meta_still_imports_once() {
    let mut project = Project::new(&[("brick.png", "pixels")]);
    project.seen.borrow_mut().insert("root/brick.png".to_string(), "pixels".to_string());
    project.run();
    assert_eq!(project.importer.records()[0].outcome, PassOutcome::Imported);
    assert_eq!(project.importer.imported_count(), 1);
}

#[test]
fn run_builds_a_two_way_asset_index() {
    let mut project = Project::new(&[("brick.png", "pixels")]);
    let index = project.run();
    let id = project.entries[0].id.unwrap();
    assert_eq!(index.path_for(id), Some("brick.png"));
    assert_eq!(index.id_for("brick.png"), Some(id));
}

#[test]
fn stats_counts_each_outcome() {
    let mut project = Project::new(&[("ok.png", "pixels"), ("bad.png", "bad")]);
    project.run();
    assert_eq!(
        project.importer.stats(),
        ImportStats { total: 2, imported: 1, cached: 0, failed: 1 }
    );
}

#[test]
fn run_evicts_data_for_a_removed_asset() {
    let mut project = Project::new(&[("keep.png", "pixels"), ("drop.wav", "sound")]);
    project.run();
    assert_eq!(project.importer.imported_count(), 2);
    let dropped = project.id("drop.wav");
    project.files.remove("drop.wav");
    project.run();
    assert_eq!(project.importer.imported_count(), 1);
    assert!(project.importer.get(dropped).is_none());
    assert!(project.importer.get(project.id("keep.png")).is_some());
}

#[test]
fn a_failed_reimport_forgets_the_old_data() {
    let mut project = Project::new(&[("a.png", "pixels")]);
    project.run();
    let id = project.id("a.png");
    assert!(project.importer.get(id).is_some());
    project.files.insert("a.png", "bad");
    project.run();
    assert!(project.importer.get(id).is_none());
}

fn typed(text: &str, lost_focus: bool, enter: bool) -> PromptInput {
    PromptInput { opened: false, typed: text.to_string(), has_focus: true, lost_focus, enter }
}

#[test]
fn the_folder_prompt_asks_for_a_folder_on_enter() {
    let mut browser = AssetBrowser::default();
    folder_clicked(&mut browser, "textures");
    assert!(is_target(&browser, "textures/"));
    let opened =
        PromptInput { opened: true, typed: String::new(), has_focus: false, lost_focus: false, enter: false };
    assert!(new_folder_prompt(&mut browser, opened));
    assert!(!new_folder_prompt(&mut browser, typed(" rocks ", false, false)));
    assert_eq!(browser.new_folder.as_deref(), Some(" rocks "));
    new_folder_prompt(&mut browser, typed(" rocks ", true, true));
    assert_eq!(browser.new_folder, None);
    assert_eq!(browser.new_folder_request.as_deref(), Some("textures/rocks"));
    let mut browser = AssetBrowser::default();
    browser.new_folder = Some("x".to_string());
    new_folder_prompt(&mut browser, typed("   ", true, true));
    assert_eq!(browser.new_folder_request, None);
}

#[test]
fn the_browser_groups_by_kind() {
    let entries = vec![
        entry("a.png", AssetKind::Texture),
        entry("b.gltf", AssetKind::Mesh),
        entry("c/d.png", AssetKind::Texture),
    ];
    assert_eq!(entries_of_kind(&entries, AssetKind::Texture), vec![0, 2]);
    assert_eq!(kinds_present(&entries), vec![AssetKind::Mesh, AssetKind::Texture]);
    assert_eq!(row_text(&entries[2], RowLabel::Name), "d.png");
    assert_eq!(row_text(&entries[2], RowLabel::Path), "c/d.png");
    assert_eq!(import_summary(1, 2, 3), "1 imported \u{b7} 2 cached \u{b7} 3 failed");
    assert!(shows_nothing(&AssetBrowser::default(), &[]));
    assert!(!shows_nothing(&AssetBrowser::default(), &entries));
    assert_ne!(AssetView::Folders.label(), AssetView::Kinds.label());
}
