//! The asset files of a project.

use std::collections::HashMap;
use vstd::prelude::*;

use crate::asset_id::AssetId;
use crate::order::{in_order, is_path_before, lemma_path_order, path_before, sort, sorted, Ordered};
use crate::paths::{
    components_of, extension, extension_of, file_name, file_name_of, join, join_of, same_path,
};
use crate::text::{ascii_lowercase, ascii_lowercase_of, same, starts_with};

verus! {

broadcast use vstd::std_specs::hash::group_hash_axioms;

/// How deep a scan goes into subdirectories.
pub const MAX_SCAN_DEPTH: u32 = 16;

/// What kind of asset a file holds, guessed from its extension.
#[derive(Debug, Clone, Copy, PartialEq, Eq, Structural, PartialOrd, Ord)]
pub enum AssetKind {
    /// A model.
    Mesh,
    /// An image.
    Texture,
    /// A sound.
    Audio,
    /// A scene.
    Scene,
    /// A reusable entity.
    Prefab,
    /// Anything else.
    Other,
}

/// The kind of the files with the given extension, in any letter case.
pub open spec fn kind_of_extension(extension: Seq<char>) -> AssetKind {
    let lower = ascii_lowercase_of(extension);
    if lower == "gltf"@ || lower == "glb"@ {
        AssetKind::Mesh
    } else if lower == "png"@ || lower == "jpg"@ || lower == "jpeg"@ {
        AssetKind::Texture
    } else if lower == "wav"@ {
        AssetKind::Audio
    } else if lower == "ron"@ {
        AssetKind::Scene
    } else if lower == "prefab"@ {
        AssetKind::Prefab
    } else {
        AssetKind::Other
    }
}

/// The kind of the file at a path.
pub open spec fn kind_of_path(path: Seq<char>) -> AssetKind {
    match extension_of(path) {
        Some(extension) => kind_of_extension(extension),
        None => AssetKind::Other,
    }
}

impl AssetKind {
    /// The kind implied by the path's extension.
    pub fn from_path(path: &str) -> (kind: AssetKind)
        ensures
            kind == kind_of_path(path@),
    {
        match extension(path) {
            Some(extension) => AssetKind::from_extension(&extension),
            None => AssetKind::Other,
        }
    }

    /// The kind implied by an extension.
    pub fn from_extension(extension: &str) -> (kind: AssetKind)
        ensures
            kind == kind_of_extension(extension@),
    {
        let lower = ascii_lowercase(extension);
        if same(&lower, "gltf") || same(&lower, "glb") {
            AssetKind::Mesh
        } else if same(&lower, "png") || same(&lower, "jpg") || same(&lower, "jpeg") {
            AssetKind::Texture
        } else if same(&lower, "wav") {
            AssetKind::Audio
        } else if same(&lower, "ron") {
            AssetKind::Scene
        } else if same(&lower, "prefab") {
            AssetKind::Prefab
        } else {
            AssetKind::Other
        }
    }

    /// The kind's label.
    pub open spec fn label_text(self) -> Seq<char> {
        match self {
            AssetKind::Mesh => "Mesh"@,
            AssetKind::Texture => "Texture"@,
            AssetKind::Audio => "Audio"@,
            AssetKind::Scene => "Scene"@,
            AssetKind::Prefab => "Prefab"@,
            AssetKind::Other => "Other"@,
        }
    }

    /// A short label for display.
    pub fn label(self) -> (label: &'static str)
        ensures
            label@ == self.label_text(),
    {
        match self {
            AssetKind::Mesh => "Mesh",
            AssetKind::Texture => "Texture",
            AssetKind::Audio => "Audio",
            AssetKind::Scene => "Scene",
            AssetKind::Prefab => "Prefab",
            AssetKind::Other => "Other",
        }
    }

    /// Whether entities refer to files of this kind by a stable identifier.
    pub open spec fn referenceable(self) -> bool {
        self == AssetKind::Mesh || self == AssetKind::Texture || self == AssetKind::Audio
    }

    /// Whether entities refer to files of this kind by a stable identifier.
    pub fn is_referenceable(self) -> (answer: bool)
        ensures
            answer == self.referenceable(),
    {
        match self {
            AssetKind::Mesh | AssetKind::Texture | AssetKind::Audio => true,
            AssetKind::Scene | AssetKind::Prefab | AssetKind::Other => false,
        }
    }

    /// The kind's place in the browser.
    pub open spec fn place(self) -> int {
        match self {
            AssetKind::Mesh => 0,
            AssetKind::Texture => 1,
            AssetKind::Audio => 2,
            AssetKind::Scene => 3,
            AssetKind::Prefab => 4,
            AssetKind::Other => 5,
        }
    }
}

/// One file found in the assets directory.
#[derive(Debug, PartialEq, Eq)]
pub struct AssetEntry {
    /// The path relative to the assets directory.
    pub relative_path: String,
    /// Guessed from the file's extension.
    pub kind: AssetKind,
    /// The stable identifier, once known.
    pub id: Option<AssetId>,
}

impl AssetEntry {
    /// The last component of the path; the whole path where it names no file.
    pub fn name(&self) -> (name: String)
        ensures
            name@ == (match file_name_of(self.relative_path@) {
                Some(name) => name,
                None => self.relative_path@,
            }),
    {
        match file_name(&self.relative_path) {
            Some(name) => name,
            None => self.relative_path.clone(),
        }
    }
}

impl Clone for AssetEntry {
    fn clone(&self) -> (copy: AssetEntry)
        ensures
            copy == *self,
    {
        AssetEntry { relative_path: self.relative_path.clone(), kind: self.kind, id: self.id }
    }
}

impl Ordered for AssetEntry {
    /// Entries are ordered by their paths.
    open spec fn before(&self, other: &AssetEntry) -> bool {
        path_before(self.relative_path@, other.relative_path@)
    }

    proof fn before_is_asymmetric(a: &AssetEntry, b: &AssetEntry) {
        lemma_path_order(a.relative_path@, b.relative_path@, b.relative_path@);
    }

    proof fn not_before_is_transitive(a: &AssetEntry, b: &AssetEntry, c: &AssetEntry) {
        let (p, q, r) = (a.relative_path@, b.relative_path@, c.relative_path@);
        lemma_path_order(p, q, r);
        lemma_path_order(q, r, p);
        lemma_path_order(r, p, q);
    }

    fn precedes(&self, other: &AssetEntry) -> (answer: bool) {
        is_path_before(&self.relative_path, &other.relative_path)
    }
}

/// What a directory entry is.
#[derive(Debug, Clone, Copy, PartialEq, Eq, Structural)]
pub enum FileKind {
    /// A directory.
    Directory,
    /// A file.
    File,
    /// Neither, such as a symbolic link.
    Other,
}

/// One entry of a directory.
#[derive(Debug)]
pub struct DirItem {
    /// Its name.
    pub name: String,
    /// What it is.
    pub kind: FileKind,
}

/// A directory still to be listed.
#[derive(Debug)]
pub struct PendingDir {
    /// Its path relative to the assets directory.
    pub path: String,
    /// How many directories down it lies.
    pub depth: u32,
}

/// Whether the name is that of a hidden file or directory.
pub open spec fn hidden(name: Seq<char>) -> bool {
    name.len() > 0 && name[0] == '.'
}

/// Whether the path is that of an importer's side file.
pub open spec fn side_file(path: Seq<char>) -> bool {
    extension_of(path) matches Some(extension) && ascii_lowercase_of(extension) == "meta"@
}

/// Whether the item is a directory to be listed too.
pub open spec fn leads_on(item: DirItem, depth: u32) -> bool {
    !hidden(item.name@) && item.kind == FileKind::Directory && depth + 1 < MAX_SCAN_DEPTH
}

/// Whether the item is an asset file.
pub open spec fn is_asset(item: DirItem, dir: Seq<char>) -> bool {
    !hidden(item.name@) && item.kind == FileKind::File && !side_file(join_of(dir, item.name@))
}

/// The asset files among the items of a directory: path and kind.
pub open spec fn assets_among(items: Seq<DirItem>, dir: Seq<char>) -> Seq<(Seq<char>, AssetKind)>
    decreases items.len(),
{
    if items.len() == 0 {
        Seq::empty()
    } else {
        let rest = assets_among(items.drop_last(), dir);
        let path = join_of(dir, items.last().name@);
        if is_asset(items.last(), dir) {
            rest.push((path, kind_of_path(path)))
        } else {
            rest
        }
    }
}

/// The directories to be listed among the items of a directory: path and depth.
pub open spec fn directories_among(
    items: Seq<DirItem>,
    dir: Seq<char>,
    depth: u32,
) -> Seq<(Seq<char>, u32)>
    decreases items.len(),
{
    if items.len() == 0 {
        Seq::empty()
    } else {
        let rest = directories_among(items.drop_last(), dir, depth);
        if leads_on(items.last(), depth) {
            rest.push((join_of(dir, items.last().name@), (depth + 1) as u32))
        } else {
            rest
        }
    }
}

/// The paths and kinds of entries.
pub open spec fn entry_views(entries: Seq<AssetEntry>) -> Seq<(Seq<char>, AssetKind)> {
    entries.map_values(|entry: AssetEntry| (entry.relative_path@, entry.kind))
}

/// The paths and depths of directories.
pub open spec fn pending_views(pending: Seq<PendingDir>) -> Seq<(Seq<char>, u32)> {
    pending.map_values(|dir: PendingDir| (dir.path@, dir.depth))
}

/// A scan of the assets directory in progress. The host lists one directory
/// after the other and hands over what it found; which directories are listed,
/// and which files are assets, is decided here.
pub struct Scanner {
    pending: Vec<PendingDir>,
    entries: Vec<AssetEntry>,
}

impl Scanner {
    /// The directories still to be listed, the next one last.
    pub closed spec fn to_list(&self) -> Seq<(Seq<char>, u32)> {
        pending_views(self.pending@)
    }

    /// The assets found so far.
    pub closed spec fn found(&self) -> Seq<AssetEntry> {
        self.entries@
    }

    /// Begins a scan. Where the assets directory is no directory there is nothing
    /// to list.
    pub fn new(root_is_dir: bool) -> (scanner: Scanner)
        ensures
            scanner.found().len() == 0,
            scanner.to_list() == (if root_is_dir {
                seq![(Seq::<char>::empty(), 0u32)]
            } else {
                Seq::empty()
            }),
    {
        let mut pending: Vec<PendingDir> = Vec::new();
        if root_is_dir {
            pending.push(PendingDir { path: String::new(), depth: 0 });
        }
        let scanner = Scanner { pending, entries: Vec::new() };
        assert(scanner.to_list() =~= (if root_is_dir {
            seq![(Seq::<char>::empty(), 0u32)]
        } else {
            Seq::empty()
        }));
        scanner
    }

    /// The directory to list next, relative to the assets directory; `None` when
    /// the scan is complete.
    pub fn next_dir(&self) -> (dir: Option<String>)
        ensures
            match dir {
                Some(path) => self.to_list().len() > 0 && path@ == self.to_list().last().0,
                None => self.to_list().len() == 0,
            },
    {
        if self.pending.len() == 0 {
            None
        } else {
            Some(self.pending[self.pending.len() - 1].path.clone())
        }
    }

    /// Takes what was found in the directory that was to be listed next. Hidden
    /// files and directories, side files of importers, and what is neither a file
    /// nor a directory are left out; directories are gone into, down to
    /// [`MAX_SCAN_DEPTH`].
    pub fn listed(&mut self, items: &[DirItem])
        requires
            old(self).to_list().len() > 0,
            forall|i: int|
                #![trigger old(self).to_list()[i]]
                0 <= i < old(self).to_list().len() ==> old(self).to_list()[i].1 < MAX_SCAN_DEPTH,
        ensures
            ({
                let (dir, depth) = old(self).to_list().last();
                &&& final(self).to_list() == old(self).to_list().drop_last() + directories_among(
                    items@,
                    dir,
                    depth,
                )
                &&& entry_views(final(self).found()) == entry_views(old(self).found())
                    + assets_among(items@, dir)
                &&& forall|i: int|
                    #![trigger final(self).found()[i]]
                    0 <= i < final(self).found().len() ==> if i < old(self).found().len() {
                        final(self).found()[i] == old(self).found()[i]
                    } else {
                        final(self).found()[i].id is None
                    }
            }),
            forall|i: int|
                #![trigger final(self).to_list()[i]]
                0 <= i < final(self).to_list().len() ==> final(self).to_list()[i].1
                    < MAX_SCAN_DEPTH,
    {
        let ghost before = *self;
        let current = match self.pending.pop() {
            Some(dir) => dir,
            None => {
                return;
            },
        };
        let ghost rest = self.to_list();
        let ghost had = entry_views(self.found());
        let ghost old_entries = self.entries@;
        proof {
            assert(before.to_list().last() == (current.path@, current.depth));
            assert(rest =~= before.to_list().drop_last());
            assert forall|i: int|
                #![trigger self.to_list()[i]]
                0 <= i < self.to_list().len() implies self.to_list()[i].1 < MAX_SCAN_DEPTH by {
                assert(self.to_list()[i] == before.to_list()[i]);
            }
            assert(items@.take(0) =~= Seq::<DirItem>::empty());
            assert(self.to_list() =~= rest + directories_among(
                items@.take(0),
                current.path@,
                current.depth,
            ));
            assert(entry_views(self.found()) =~= had + assets_among(items@.take(0), current.path@));
        }
        for i in 0..items.len()
            invariant
                current.depth < MAX_SCAN_DEPTH,
                self.to_list() == rest + directories_among(
                    items@.take(i as int),
                    current.path@,
                    current.depth,
                ),
                entry_views(self.found()) == had + assets_among(
                    items@.take(i as int),
                    current.path@,
                ),
                self.entries@.len() >= old_entries.len(),
                forall|j: int|
                    #![trigger self.entries@[j]]
                    0 <= j < self.entries@.len() ==> if j < old_entries.len() {
                        self.entries@[j] == old_entries[j]
                    } else {
                        self.entries@[j].id is None
                    },
                forall|j: int|
                    #![trigger self.to_list()[j]]
                    0 <= j < self.to_list().len() ==> self.to_list()[j].1 < MAX_SCAN_DEPTH,
        {
            let item = &items[i];
            let ghost listed = self.to_list();
            let ghost entries = entry_views(self.found());
            proof {
                assert(items@.take(i + 1).drop_last() =~= items@.take(i as int));
                assert(items@.take(i + 1).last() == items@[i as int]);
            }
            let is_hidden: bool = starts_with(&item.name, ".");
            proof {
                reveal_strlit(".");
                if is_hidden {
                    assert("."@[0] == item.name@.subrange(0, 1)[0]);
                }
                if hidden(item.name@) {
                    assert(item.name@.subrange(0, 1) =~= "."@);
                }
            }
            if !is_hidden {
                match item.kind {
                    FileKind::Directory => {
                        if current.depth + 1 < MAX_SCAN_DEPTH {
                            let path = join(&current.path, &item.name);
                            self.pending.push(PendingDir { path, depth: current.depth + 1 });
                            assert(self.to_list() =~= listed.push((path@, (current.depth + 1) as u32)));
                            assert(self.to_list() =~= rest + directories_among(
                                items@.take(i + 1),
                                current.path@,
                                current.depth,
                            ));
                        }
                    },
                    FileKind::File => {
                        let path = join(&current.path, &item.name);
                        let is_side: bool = match extension(&path) {
                            Some(extension) => same(&ascii_lowercase(&extension), "meta"),
                            None => false,
                        };
                        if !is_side {
                            let kind = AssetKind::from_path(&path);
                            self.entries.push(AssetEntry { relative_path: path, kind, id: None });
                            assert(entry_views(self.found()) =~= entries.push((path@, kind)));
                            assert(entry_views(self.found()) =~= had + assets_among(
                                items@.take(i + 1),
                                current.path@,
                            ));
                        }
                    },
                    FileKind::Other => {},
                }
            }
        }
        assert(items@.take(items@.len() as int) =~= items@);
    }

    /// The assets found, in the order of their paths.
    pub fn finish(self) -> (entries: Vec<AssetEntry>)
        ensures
            entries@ == sorted(self.found()),
            in_order(entries@),
            entries@.to_multiset() == self.found().to_multiset(),
    {
        sort(self.entries)
    }
}

/// Whether the code editor opens files with the given extension.
pub open spec fn text_extension(extension: Seq<char>) -> bool {
    let lower = ascii_lowercase_of(extension);
    lower == "rs"@ || lower == "toml"@ || lower == "ron"@ || lower == "wgsl"@ || lower == "glsl"@
        || lower == "md"@ || lower == "txt"@ || lower == "json"@ || lower == "cfg"@
}

/// Whether the file at the path is a text file that the code editor opens.
pub fn is_text_file(path: &str) -> (answer: bool)
    ensures
        answer == (extension_of(path@) matches Some(extension) && text_extension(extension)),
{
    match extension(path) {
        Some(extension) => {
            let lower = ascii_lowercase(&extension);
            same(&lower, "rs") || same(&lower, "toml") || same(&lower, "ron") || same(
                &lower,
                "wgsl",
            ) || same(&lower, "glsl") || same(&lower, "md") || same(&lower, "txt") || same(
                &lower,
                "json",
            ) || same(&lower, "cfg")
        },
        None => false,
    }
}

/// A record of which asset is which file.
struct PathRecord {
    path: String,
    id: AssetId,
}

/// A two-way map between the stable identifiers of assets and their paths.
pub struct AssetIndex {
    by_id: HashMap<u128, String>,
    by_path: Vec<PathRecord>,
}

spec fn ids_by_path(records: Seq<PathRecord>) -> Map<Seq<Seq<char>>, AssetId>
    decreases records.len(),
{
    if records.len() == 0 {
        Map::empty()
    } else {
        ids_by_path(records.drop_last()).insert(
            components_of(records.last().path@),
            records.last().id,
        )
    }
}

impl AssetIndex {
    /// The path of each known identifier.
    pub closed spec fn paths(&self) -> Map<AssetId, Seq<char>> {
        Map::new(
            |id: AssetId| self.by_id@.contains_key(id.value),
            |id: AssetId| self.by_id@[id.value]@,
        )
    }

    /// The identifier of each known path, by the path's components.
    pub closed spec fn ids(&self) -> Map<Seq<Seq<char>>, AssetId> {
        ids_by_path(self.by_path@)
    }

    /// An empty index.
    pub fn new() -> (index: AssetIndex)
        ensures
            index.paths() == Map::<AssetId, Seq<char>>::empty(),
            index.ids() == Map::<Seq<Seq<char>>, AssetId>::empty(),
    {
        let index = AssetIndex { by_id: HashMap::new(), by_path: Vec::new() };
        assert(index.paths() =~= Map::<AssetId, Seq<char>>::empty());
        index
    }

    /// Records that the asset `id` is the file at `relative_path`.
    pub fn insert(&mut self, id: AssetId, relative_path: &str)
        ensures
            final(self).paths() == old(self).paths().insert(id, relative_path@),
            final(self).ids() == old(self).ids().insert(components_of(relative_path@), id),
    {
        let ghost before = *self;
        self.by_id.insert(id.value, relative_path.to_owned());
        self.by_path.push(PathRecord { path: relative_path.to_owned(), id });
        proof {
            assert(self.by_path@.drop_last() =~= before.by_path@);
            assert(self.paths() =~= before.paths().insert(id, relative_path@)) by {
                assert forall|other: AssetId| self.paths().contains_key(other)
                    <==> before.paths().insert(id, relative_path@).contains_key(other) by {
                    assert(other.value == id.value ==> other == id);
                }
            }
        }
    }

    /// The path of the asset, if known.
    pub fn path_for(&self, id: AssetId) -> (path: Option<&str>)
        ensures
            match path {
                Some(path) => self.paths().contains_key(id) && path@ == self.paths()[id],
                None => !self.paths().contains_key(id),
            },
    {
        match self.by_id.get(&id.value) {
            Some(path) => Some(path.as_str()),
            None => None,
        }
    }

    /// The identifier of the file at the path, if known.
    pub fn id_for(&self, relative_path: &str) -> (id: Option<AssetId>)
        ensures
            match id {
                Some(id) => self.ids().contains_key(components_of(relative_path@))
                    && self.ids()[components_of(relative_path@)] == id,
                None => !self.ids().contains_key(components_of(relative_path@)),
            },
    {
        let ghost key = components_of(relative_path@);
        let mut i: usize = self.by_path.len();
        assert(self.by_path@.take(i as int) =~= self.by_path@);
        while i > 0
            invariant
                i <= self.by_path@.len(),
                key == components_of(relative_path@),
                self.ids().contains_key(key) == ids_by_path(
                    self.by_path@.take(i as int),
                ).contains_key(key),
                self.ids().contains_key(key) ==> self.ids()[key] == ids_by_path(
                    self.by_path@.take(i as int),
                )[key],
            decreases i,
        {
            i -= 1;
            assert(self.by_path@.take(i + 1).drop_last() =~= self.by_path@.take(i as int));
            assert(self.by_path@.take(i + 1).last() == self.by_path@[i as int]);
            if crate::paths::same(&self.by_path[i].path, relative_path) {
                return Some(self.by_path[i].id);
            }
        }
        None
    }

    /// The path of the asset, or `fallback` if the asset is not known.
    pub fn resolve<'a>(&'a self, id: AssetId, fallback: &'a str) -> (path: &'a str)
        ensures
            path@ == (if self.paths().contains_key(id) {
                self.paths()[id]
            } else {
                fallback@
            }),
    {
        match self.path_for(id) {
            Some(path) => path,
            None => fallback,
        }
    }

    /// How many identifiers are known.
    pub fn len(&self) -> (count: usize)
        ensures
            count == self.paths().dom().len(),
            self.paths().dom().finite(),
    {
        proof {
            lemma_ids_and_values(self.by_id@.dom(), self.paths().dom());
        }
        self.by_id.len()
    }

    /// Whether no identifier is known.
    pub fn is_empty(&self) -> (answer: bool)
        ensures
            answer == (self.paths() == Map::<AssetId, Seq<char>>::empty()),
    {
        let count: usize = self.len();
        proof {
            if count == 0 {
                assert(self.paths().dom() =~= Set::<AssetId>::empty());
                assert(self.paths() =~= Map::<AssetId, Seq<char>>::empty());
            }
        }
        count == 0
    }
}

proof fn lemma_ids_and_values(values: Set<u128>, ids: Set<AssetId>)
    requires
        values.finite(),
        forall|id: AssetId| #[trigger] ids.contains(id) <==> values.contains(id.value),
    ensures
        ids.finite(),
        ids.len() == values.len(),
    decreases values.len(),
{
    if values.len() == 0 {
        assert(values =~= Set::empty());
        assert(ids =~= Set::empty());
    } else {
        let value = values.choose();
        let id = AssetId { value };
        assert(ids.contains(id));
        assert forall|other: AssetId| #[trigger] ids.remove(id).contains(other)
            <==> values.remove(value).contains(other.value) by {
            assert(other.value == value ==> other == id);
        }
        lemma_ids_and_values(values.remove(value), ids.remove(id));
        assert(ids =~= ids.remove(id).insert(id));
    }
}

/// The index read back: a recorded asset is found by its identifier and by its
/// path.
pub proof fn law_index_gives_back_what_was_recorded(
    paths: Map<AssetId, Seq<char>>,
    ids: Map<Seq<Seq<char>>, AssetId>,
    id: AssetId,
    path: Seq<char>,
    other: Seq<char>,
)
    ensures
        paths.insert(id, path)[id] == path,
        ids.insert(components_of(path), id)[components_of(path)] == id,
        same_path(other, path) ==> ids.insert(components_of(path), id)[components_of(other)] == id,
{
}

/// The identifiers that the side files of the first `n` entries gave, by path.
pub open spec fn resolved_paths(
    entries: Seq<AssetEntry>,
    loaded: Seq<Option<AssetId>>,
    n: nat,
) -> Map<AssetId, Seq<char>>
    decreases n,
{
    if n == 0 {
        Map::empty()
    } else {
        let rest = resolved_paths(entries, loaded, (n - 1) as nat);
        match loaded[n - 1] {
            Some(id) if entries[n - 1].kind.referenceable() => rest.insert(
                id,
                entries[n - 1].relative_path@,
            ),
            _ => rest,
        }
    }
}

/// The same, by the components of the path.
pub open spec fn resolved_ids(
    entries: Seq<AssetEntry>,
    loaded: Seq<Option<AssetId>>,
    n: nat,
) -> Map<Seq<Seq<char>>, AssetId>
    decreases n,
{
    if n == 0 {
        Map::empty()
    } else {
        let rest = resolved_ids(entries, loaded, (n - 1) as nat);
        match loaded[n - 1] {
            Some(id) if entries[n - 1].kind.referenceable() => rest.insert(
                components_of(entries[n - 1].relative_path@),
                id,
            ),
            _ => rest,
        }
    }
}

/// Whether the path is that of an entry that entities can refer to, below `root`.
pub open spec fn referable_file(
    root: Seq<char>,
    entries: Seq<AssetEntry>,
    path: Seq<char>,
) -> bool {
    exists|i: int|
        #![trigger entries[i]]
        0 <= i < entries.len() && entries[i].kind.referenceable() && path == join_of(
            root,
            entries[i].relative_path@,
        )
}

/// Whether the host may give the identifier, or none, when asked for that of the file.
pub open spec fn identified<L: Fn(&str) -> Result<AssetId, String>>(
    load: &L,
    path: Seq<char>,
    id: Option<AssetId>,
) -> bool {
    exists|text: &str, answer: Result<AssetId, String>|
        {
            &&& #[trigger] load.ensures((text,), answer)
            &&& text@ == path
            &&& id == (match answer {
                Ok(id) => Some(id),
                Err(_) => None,
            })
        }
}

/// Whether `loaded` holds for each of the first `n` entries what the host may say of it:
/// nothing of one that cannot be referred to, since it is not asked.
pub open spec fn all_identified<L: Fn(&str) -> Result<AssetId, String>>(
    root: Seq<char>,
    entries: Seq<AssetEntry>,
    loaded: Seq<Option<AssetId>>,
    n: nat,
    load: &L,
) -> bool {
    &&& loaded.len() == n
    &&& forall|i: int|
        #![trigger loaded[i]]
        0 <= i < n ==> if entries[i].kind.referenceable() {
            identified(load, join_of(root, entries[i].relative_path@), loaded[i])
        } else {
            loaded[i] is None
        }
}

/// Fills in the identifiers of the entries that can be referred to, and indexes them.
/// `load` reads the identifier of a file below `root` from its side file, or makes the
/// side file, and is asked for no other file. An entry of which it fails is left as it
/// is.
pub fn resolve_ids<L: Fn(&str) -> Result<AssetId, String>>(
    root: &str,
    entries: &mut Vec<AssetEntry>,
    load: &L,
) -> (index: AssetIndex)
    requires
        forall|path: &str|
            referable_file(root@, old(entries)@, path@) ==> #[trigger] load.requires((path,)),
    ensures
        final(entries)@.len() == old(entries)@.len(),
        exists|loaded: Seq<Option<AssetId>>|
            {
                let n = old(entries)@.len();
                &&& #[trigger] all_identified(
                    root@,
                    old(entries)@,
                    loaded,
                    old(entries)@.len(),
                    load,
                )
                &&& forall|i: int|
                    #![trigger final(entries)@[i]]
                    0 <= i < n ==> final(entries)@[i] == (AssetEntry {
                        id: if loaded[i] is Some {
                            loaded[i]
                        } else {
                            old(entries)@[i].id
                        },
                        ..old(entries)@[i]
                    })
                &&& index.paths() == resolved_paths(old(entries)@, loaded, n)
                &&& index.ids() == resolved_ids(old(entries)@, loaded, n)
            },
{
    let ghost before = entries@;
    let ghost mut loaded: Seq<Option<AssetId>> = Seq::empty();
    let mut index = AssetIndex::new();
    let count: usize = entries.len();
    for i in 0..count
        invariant
            count == before.len(),
            entries@.len() == before.len(),
            forall|path: &str|
                referable_file(root@, before, path@) ==> #[trigger] load.requires((path,)),
            all_identified(root@, before, loaded, i as nat, load),
            forall|j: int| #![trigger entries@[j]] i <= j < before.len() ==> entries@[j] == before[j],
            forall|j: int|
                #![trigger entries@[j]]
                0 <= j < i ==> entries@[j] == (AssetEntry {
                    id: if loaded[j] is Some {
                        loaded[j]
                    } else {
                        before[j].id
                    },
                    ..before[j]
                }),
            index.paths() == resolved_paths(before, loaded, i as nat),
            index.ids() == resolved_ids(before, loaded, i as nat),
    {
        let ghost earlier = loaded;
        let ghost mut found: Option<AssetId> = None;
        let kind = entries[i].kind;
        if kind.is_referenceable() {
            let path = entries[i].relative_path.clone();
            let absolute = join(root, &path);
            assert(before[i as int].kind.referenceable());
            let answer: Result<AssetId, String> = load(&absolute);
            match answer {
                Ok(id) => {
                    proof {
                        found = Some(id);
                    }
                    index.insert(id, &path);
                    entries[i] = AssetEntry { relative_path: path, kind, id: Some(id) };
                },
                Err(_) => {},
            }
            assert(identified(load, absolute@, found));
        }
        proof {
            loaded = earlier.push(found);
            lemma_resolved_by_a_prefix(before, loaded, earlier, i as nat);
            assert forall|j: int|
                #![trigger loaded[j]]
                0 <= j < i + 1 implies if before[j].kind.referenceable() {
                identified(load, join_of(root@, before[j].relative_path@), loaded[j])
            } else {
                loaded[j] is None
            } by {
                if j < i {
                    assert(loaded[j] == earlier[j]);
                }
            }
            assert forall|j: int|
                #![trigger entries@[j]]
                0 <= j < i implies entries@[j] == (AssetEntry {
                id: if loaded[j] is Some {
                    loaded[j]
                } else {
                    before[j].id
                },
                ..before[j]
            }) by {
                assert(loaded[j] == earlier[j]);
            }
        }
    }
    assert(all_identified(root@, before, loaded, before.len(), load));
    index
}

proof fn lemma_resolved_by_a_prefix(
    entries: Seq<AssetEntry>,
    a: Seq<Option<AssetId>>,
    b: Seq<Option<AssetId>>,
    n: nat,
)
    requires
        n <= a.len(),
        n <= b.len(),
        forall|i: int| #![trigger a[i]] 0 <= i < n ==> a[i] == b[i],
    ensures
        resolved_paths(entries, a, n) == resolved_paths(entries, b, n),
        resolved_ids(entries, a, n) == resolved_ids(entries, b, n),
    decreases n,
{
    if n > 0 {
        lemma_resolved_by_a_prefix(entries, a, b, (n - 1) as nat);
        assert(a[n - 1] == b[n - 1]);
    }
}

/// Every identified file is found again: with different identifiers, the index
/// made of the entries gives the path of each of them back.
pub proof fn law_resolved_index_knows_every_entry(
    entries: Seq<AssetEntry>,
    loaded: Seq<Option<AssetId>>,
    n: nat,
    i: int,
)
    requires
        entries.len() == loaded.len(),
        0 <= i < n <= entries.len(),
        entries[i].kind.referenceable(),
        loaded[i] is Some,
        forall|j: int|
            0 <= j < entries.len() && j != i ==> #[trigger] loaded[j] != loaded[i] && !same_path(
                entries[j].relative_path@,
                entries[i].relative_path@,
            ),
    ensures
        resolved_paths(entries, loaded, n).contains_key(loaded[i]->0),
        resolved_paths(entries, loaded, n)[loaded[i]->0] == entries[i].relative_path@,
        resolved_ids(entries, loaded, n).contains_key(components_of(entries[i].relative_path@)),
        resolved_ids(entries, loaded, n)[components_of(entries[i].relative_path@)] == loaded[i]->0,
    decreases n,
{
    if i < n - 1 {
        law_resolved_index_knows_every_entry(entries, loaded, (n - 1) as nat, i);
        assert(loaded[n - 1] != loaded[i]);
    }
}

/// What an asset is, told by the letters behind the last dot of its name, whatever their
/// case. Models, images and sounds can be referred to, and nothing else.
pub proof fn law_kinds_are_told_by_extensions(extension: Seq<char>, kind: AssetKind)
    ensures
        ({
            let low = ascii_lowercase_of(extension);
            let kind = kind_of_extension(extension);
            &&& kind is Mesh <==> low == seq!['g', 'l', 't', 'f'] || low == seq!['g', 'l', 'b']
            &&& kind is Texture <==> low == seq!['p', 'n', 'g'] || low == seq!['j', 'p', 'g'] || low
                == seq!['j', 'p', 'e', 'g']
            &&& kind is Audio <==> low == seq!['w', 'a', 'v']
            &&& kind is Scene <==> low == seq!['r', 'o', 'n']
            &&& kind is Prefab <==> low == seq!['p', 'r', 'e', 'f', 'a', 'b']
        }),
        kind.referenceable() <==> kind is Mesh || kind is Texture || kind is Audio,
{
    reveal_strlit("gltf");
    assert("gltf"@ =~= seq!['g', 'l', 't', 'f']);
    reveal_strlit("glb");
    assert("glb"@ =~= seq!['g', 'l', 'b']);
    reveal_strlit("png");
    assert("png"@ =~= seq!['p', 'n', 'g']);
    reveal_strlit("jpg");
    assert("jpg"@ =~= seq!['j', 'p', 'g']);
    reveal_strlit("jpeg");
    assert("jpeg"@ =~= seq!['j', 'p', 'e', 'g']);
    reveal_strlit("wav");
    assert("wav"@ =~= seq!['w', 'a', 'v']);
    reveal_strlit("ron");
    assert("ron"@ =~= seq!['r', 'o', 'n']);
    reveal_strlit("prefab");
    assert("prefab"@ =~= seq!['p', 'r', 'e', 'f', 'a', 'b']);
    let low = ascii_lowercase_of(extension);
    if low == "glb"@ {
        assert(low[0] == 'g');
    }
    if low == "png"@ || low == "prefab"@ {
        assert(low[0] == 'p');
        assert(low[1] == 'n' || low[1] == 'r');
    }
    if low == "jpg"@ || low == "jpeg"@ {
        assert(low[0] == 'j');
    }
    if low == "wav"@ {
        assert(low[0] == 'w');
    }
    if low == "ron"@ {
        assert(low[0] == 'r');
    }
    if low == "gltf"@ {
        assert(low[0] == 'g');
    }
}

/// What a scan takes from a directory, item by item: a file whose name does not begin with a
/// dot, and that is not the side file of another, is an asset of the kind that its name
/// tells; a directory like that is looked into if it lies less than sixteen deep. Anything
/// else is passed over.
pub proof fn law_scan_passes_over_hidden_items(
    items: Seq<DirItem>,
    item: DirItem,
    dir: Seq<char>,
    depth: u32,
)
    requires
        depth < 1000,
    ensures
        ({
            let path = join_of(dir, item.name@);
            let plain = item.name@.len() == 0 || item.name@[0] != '.';
            let side = extension_of(path) is Some && ascii_lowercase_of(extension_of(path)->0)
                == seq!['m', 'e', 't', 'a'];
            let files = assets_among(items, dir);
            let dirs = directories_among(items, dir, depth);
            &&& plain && item.kind is File && !side ==> assets_among(items.push(item), dir)
                == files.push((path, kind_of_path(path)))
            &&& !(plain && item.kind is File && !side) ==> assets_among(items.push(item), dir)
                == files
            &&& plain && item.kind is Directory && depth < 15 ==> directories_among(
                items.push(item),
                dir,
                depth,
            ) == dirs.push((path, (depth + 1) as u32))
            &&& !(plain && item.kind is Directory && depth < 15) ==> directories_among(
                items.push(item),
                dir,
                depth,
            ) == dirs
            &&& assets_among(Seq::empty(), dir).len() == 0
            &&& directories_among(Seq::empty(), dir, depth).len() == 0
        }),
{
    reveal_strlit("meta");
    assert("meta"@ =~= seq!['m', 'e', 't', 'a']);
    assert(items.push(item).drop_last() =~= items);
}

/// The files that are opened as text, told by the letters behind the last dot of the name.
pub proof fn law_text_files_are_told_by_extensions(extension: Seq<char>)
    ensures
        ({
            let low = ascii_lowercase_of(extension);
            text_extension(extension) <==> {
                ||| low == seq!['r', 's']
                ||| low == seq!['t', 'o', 'm', 'l']
                ||| low == seq!['r', 'o', 'n']
                ||| low == seq!['w', 'g', 's', 'l']
                ||| low == seq!['g', 'l', 's', 'l']
                ||| low == seq!['m', 'd']
                ||| low == seq!['t', 'x', 't']
                ||| low == seq!['j', 's', 'o', 'n']
                ||| low == seq!['c', 'f', 'g']
            }
        }),
{
    reveal_strlit("rs");
    assert("rs"@ =~= seq!['r', 's']);
    reveal_strlit("toml");
    assert("toml"@ =~= seq!['t', 'o', 'm', 'l']);
    reveal_strlit("ron");
    assert("ron"@ =~= seq!['r', 'o', 'n']);
    reveal_strlit("wgsl");
    assert("wgsl"@ =~= seq!['w', 'g', 's', 'l']);
    reveal_strlit("glsl");
    assert("glsl"@ =~= seq!['g', 'l', 's', 'l']);
    reveal_strlit("md");
    assert("md"@ =~= seq!['m', 'd']);
    reveal_strlit("txt");
    assert("txt"@ =~= seq!['t', 'x', 't']);
    reveal_strlit("json");
    assert("json"@ =~= seq!['j', 's', 'o', 'n']);
    reveal_strlit("cfg");
    assert("cfg"@ =~= seq!['c', 'f', 'g']);
}

/// The id of an asset, where one can be had, is what loading its file gives: the file at its
/// path under the root. Nothing else is loaded.
pub proof fn law_assets_are_loaded_from_the_root<L: Fn(&str) -> Result<AssetId, String>>(
    root: Seq<char>,
    entries: Seq<AssetEntry>,
    loaded: Seq<Option<AssetId>>,
    n: nat,
    load: &L,
    go: spec_fn(Seq<char>) -> Option<AssetId>,
    i: int,
)
    requires
        all_identified(root, entries, loaded, n, load),
        forall|path: &str, answer: Result<AssetId, String>| #[trigger]
            load.ensures((path,), answer) ==> go(path@) == (match answer {
                Ok(id) => Some(id),
                Err(_) => None,
            }),
        0 <= i < n,
    ensures
        ({
            let kind = entries[i].kind;
            let known = kind is Mesh || kind is Texture || kind is Audio;
            &&& known ==> loaded[i] == go(join_of(root, entries[i].relative_path@))
            &&& !known ==> loaded[i] is None
            &&& loaded.len() == n
        }),
{
    assert(loaded[i] == loaded[i]);
}

/// An id leads to the path of the last asset that has it, and a path to the id of the last
/// asset that lies there.
pub proof fn law_last_asset_is_indexed(
    entries: Seq<AssetEntry>,
    loaded: Seq<Option<AssetId>>,
    n: nat,
    i: int,
    id: AssetId,
)
    requires
        n <= entries.len(),
        n <= loaded.len(),
        0 <= i < n,
        loaded[i] == Some(id),
        entries[i].kind is Mesh || entries[i].kind is Texture || entries[i].kind is Audio,
    ensures
        resolved_paths(entries, loaded, n).contains_key(id),
        resolved_ids(entries, loaded, n).contains_key(components_of(entries[i].relative_path@)),
        (forall|j: int| i < j < n ==> #[trigger] loaded[j] != Some(id)) ==> resolved_paths(
            entries,
            loaded,
            n,
        )[id] == entries[i].relative_path@,
        (forall|j: int|
            i < j < n ==> components_of((#[trigger] entries[j]).relative_path@) != components_of(
                entries[i].relative_path@,
            )) ==> resolved_ids(entries, loaded, n)[components_of(entries[i].relative_path@)]
            == id,
    decreases n,
{
    if i < n - 1 {
        law_last_asset_is_indexed(entries, loaded, (n - 1) as nat, i, id);
        assert(loaded[n - 1] == loaded[n - 1] && entries[n - 1] == entries[n - 1]);
    }
}

/// Only assets that can be referred to, and whose id could be had, are indexed.
pub proof fn law_only_assets_with_an_id_are_indexed(
    entries: Seq<AssetEntry>,
    loaded: Seq<Option<AssetId>>,
    n: nat,
    id: AssetId,
) -> (i: int)
    requires
        n <= entries.len(),
        n <= loaded.len(),
        resolved_paths(entries, loaded, n).contains_key(id),
    ensures
        0 <= i < n,
        loaded[i] == Some(id),
        entries[i].kind is Mesh || entries[i].kind is Texture || entries[i].kind is Audio,
        resolved_paths(entries, loaded, n)[id] == entries[i].relative_path@,
    decreases n,
{
    if n == 0 {
        0
    } else if loaded[n - 1] == Some(id) && entries[n - 1].kind.referenceable() {
        n - 1
    } else {
        law_only_assets_with_an_id_are_indexed(entries, loaded, (n - 1) as nat, id)
    }
}

/// What the kinds of assets are called.
pub proof fn law_kinds_are_labelled(choice: AssetKind)
    ensures
        choice is Mesh ==> choice.label_text() == "Mesh"@,
        choice is Texture ==> choice.label_text() == "Texture"@,
        choice is Audio ==> choice.label_text() == "Audio"@,
        choice is Scene ==> choice.label_text() == "Scene"@,
        choice is Prefab ==> choice.label_text() == "Prefab"@,
        choice is Other ==> choice.label_text() == "Other"@,
{
}

} // verus!
