//! The asset browser: what its rows show and what a click on them does.

use vstd::prelude::*;

use crate::editor::assets::{is_text_file, text_extension, AssetEntry, AssetKind};
use crate::paths::{extension_of, file_name_of, join, join_of, same_path};
use crate::text::{decimal, decimal_text, join3, trim, trim_of};

verus! {

/// How the asset browser arranges its rows.
#[derive(Debug, Clone, Copy, PartialEq, Eq, Structural)]
pub enum AssetView {
    /// As the directories lie.
    Folders,
    /// By kind of asset.
    Kinds,
}

impl Default for AssetView {
    fn default() -> (view: AssetView)
        ensures
            view == AssetView::Folders,
    {
        AssetView::Folders
    }
}

impl AssetView {
    /// A short label for the view switcher.
    pub fn label(self) -> (label: &'static str)
        ensures
            label@ == (match self {
                AssetView::Folders => "Folders"@,
                AssetView::Kinds => "Kinds"@,
            }),
    {
        match self {
            AssetView::Folders => "Folders",
            AssetView::Kinds => "Kinds",
        }
    }
}

/// The asset browser's own state. The browser touches no file: it records what
/// was asked for, and the host carries it out.
#[derive(Debug, PartialEq, Eq)]
pub struct AssetBrowser {
    /// How rows are arranged.
    pub view: AssetView,
    /// The directory that imports and new folders go into; empty for the assets
    /// directory itself.
    pub target_dir: String,
    /// The name typed so far while the new-folder prompt is open.
    pub new_folder: Option<String>,
    /// A folder that the host is asked to create.
    pub new_folder_request: Option<String>,
    /// Whether the preview of the selected asset is visible.
    pub preview_open: bool,
}

impl Default for AssetBrowser {
    fn default() -> (browser: AssetBrowser)
        ensures
            browser.view == AssetView::Folders,
            browser.target_dir@.len() == 0,
            browser.new_folder is None,
            browser.new_folder_request is None,
            browser.preview_open,
    {
        AssetBrowser {
            view: AssetView::Folders,
            target_dir: String::new(),
            new_folder: None,
            new_folder_request: None,
            preview_open: true,
        }
    }
}

/// What the new-folder prompt saw in one frame.
#[derive(Debug)]
pub struct PromptInput {
    /// Whether the button that opens the prompt was clicked.
    pub opened: bool,
    /// The text in the prompt after this frame's typing.
    pub typed: String,
    /// Whether the prompt has the keyboard focus.
    pub has_focus: bool,
    /// Whether the prompt lost the focus in this frame.
    pub lost_focus: bool,
    /// Whether Enter was pressed.
    pub enter: bool,
}

/// The text of an optional string.
pub open spec fn optional_text(text: Option<String>) -> Option<Seq<char>> {
    match text {
        Some(text) => Some(text@),
        None => None,
    }
}

/// Runs the new-folder prompt for one frame and says whether it asks for the
/// focus. A prompt that is left closes; it asks for a folder only when it was
/// left with Enter and holds more than white space.
pub fn new_folder_prompt(browser: &mut AssetBrowser, input: PromptInput) -> (wants_focus: bool)
    ensures
        final(browser).view == old(browser).view,
        final(browser).target_dir == old(browser).target_dir,
        final(browser).preview_open == old(browser).preview_open,
        ({
            let open = input.opened || old(browser).new_folder is Some;
            let asks = open && input.lost_focus && input.enter && trim_of(input.typed@).len() > 0;
            &&& wants_focus == (open && !input.has_focus && input.typed@.len() == 0)
            &&& optional_text(final(browser).new_folder) == (if open && !input.lost_focus {
                Some(input.typed@)
            } else {
                None
            })
            &&& optional_text(final(browser).new_folder_request) == (if asks {
                Some(join_of(old(browser).target_dir@, trim_of(input.typed@)))
            } else {
                optional_text(old(browser).new_folder_request)
            })
        }),
{
    if !input.opened && browser.new_folder.is_none() {
        return false;
    }
    let empty: bool = input.typed.as_str().is_empty();
    let wants_focus: bool = !input.has_focus && empty;
    if input.lost_focus {
        let typed = trim(&input.typed);
        if input.enter && !typed.as_str().is_empty() {
            browser.new_folder_request = Some(join(&browser.target_dir, &typed));
        }
        browser.new_folder = None;
    } else {
        browser.new_folder = Some(input.typed);
    }
    wants_focus
}

/// Aims imports and new folders at the directory whose name was clicked.
pub fn folder_clicked(browser: &mut AssetBrowser, path: &str)
    ensures
        final(browser).target_dir@ == path@,
        final(browser).view == old(browser).view,
        final(browser).new_folder == old(browser).new_folder,
        final(browser).new_folder_request == old(browser).new_folder_request,
        final(browser).preview_open == old(browser).preview_open,
{
    browser.target_dir = path.to_owned();
}

/// Whether the directory at the path is the one that imports go into.
pub fn is_target(browser: &AssetBrowser, path: &str) -> (answer: bool)
    ensures
        answer == same_path(browser.target_dir@, path@),
{
    crate::paths::same(&browser.target_dir, path)
}

/// Whether the browser says that there is nothing to show.
pub fn shows_nothing(browser: &AssetBrowser, entries: &[AssetEntry]) -> (answer: bool)
    ensures
        answer == (entries@.len() == 0 && browser.target_dir@.len() == 0),
{
    entries.len() == 0 && browser.target_dir.as_str().is_empty()
}

/// What a row shows of its file.
#[derive(Debug, Clone, Copy, PartialEq, Eq, Structural)]
pub enum RowLabel {
    /// The file's name.
    Name,
    /// The whole relative path.
    Path,
}

/// The text of a row.
pub fn row_text(entry: &AssetEntry, label: RowLabel) -> (text: String)
    ensures
        text@ == (match (label, file_name_of(entry.relative_path@)) {
            (RowLabel::Name, Some(name)) => name,
            _ => entry.relative_path@,
        }),
{
    match label {
        RowLabel::Name => entry.name(),
        RowLabel::Path => entry.relative_path.clone(),
    }
}

/// Whether the row of the entry is the selected one.
pub fn is_selected(entry: &AssetEntry, selected: &Option<String>) -> (answer: bool)
    ensures
        answer == (selected matches Some(path) && same_path(path@, entry.relative_path@)),
{
    match selected {
        Some(path) => crate::paths::same(path, &entry.relative_path),
        None => false,
    }
}

/// Takes the clicks on a row: a click selects the file, and a double click on a
/// text file asks for it to be opened.
pub fn asset_row(
    entry: &AssetEntry,
    clicked: bool,
    double_clicked: bool,
    selected: &mut Option<String>,
    open_request: &mut Option<String>,
)
    ensures
        optional_text(*final(selected)) == (if clicked {
            Some(entry.relative_path@)
        } else {
            optional_text(*old(selected))
        }),
        optional_text(*final(open_request)) == (if double_clicked && (extension_of(
            entry.relative_path@,
        ) matches Some(extension) && text_extension(extension)) {
            Some(entry.relative_path@)
        } else {
            optional_text(*old(open_request))
        }),
{
    if clicked {
        *selected = Some(entry.relative_path.clone());
    }
    if double_clicked && is_text_file(&entry.relative_path) {
        *open_request = Some(entry.relative_path.clone());
    }
}

/// Whether some entry is of the kind.
pub open spec fn kind_present(entries: Seq<AssetEntry>, kind: AssetKind) -> bool {
    exists|i: int| #![trigger entries[i]] 0 <= i < entries.len() && entries[i].kind == kind
}

/// The positions of those of the first `n` entries that are of the kind.
pub open spec fn of_kind(entries: Seq<AssetEntry>, kind: AssetKind, n: nat) -> Seq<usize>
    decreases n,
{
    if n == 0 {
        Seq::empty()
    } else {
        let rest = of_kind(entries, kind, (n - 1) as nat);
        if entries[n - 1].kind == kind {
            rest.push((n - 1) as usize)
        } else {
            rest
        }
    }
}

/// The entries of one kind: their positions, in order.
pub fn entries_of_kind(entries: &[AssetEntry], kind: AssetKind) -> (rows: Vec<usize>)
    ensures
        rows@ == of_kind(entries@, kind, entries@.len()),
{
    let mut rows: Vec<usize> = Vec::new();
    for i in 0..entries.len()
        invariant
            rows@ == of_kind(entries@, kind, i as nat),
    {
        if entries[i].kind == kind {
            rows.push(i);
        }
    }
    rows
}

proof fn lemma_of_kind(entries: Seq<AssetEntry>, kind: AssetKind, n: nat)
    requires
        n <= entries.len(),
        entries.len() <= usize::MAX,
    ensures
        forall|i: int|
            0 <= i < of_kind(entries, kind, n).len() ==> {
                let row = #[trigger] of_kind(entries, kind, n)[i];
                row < n && entries[row as int].kind == kind
            },
        forall|k: int|
            #![trigger entries[k]]
            0 <= k < n && entries[k].kind == kind ==> of_kind(entries, kind, n).contains(
                k as usize,
            ),
    decreases n,
{
    if n > 0 {
        lemma_of_kind(entries, kind, (n - 1) as nat);
        let rest = of_kind(entries, kind, (n - 1) as nat);
        let rows = of_kind(entries, kind, n);
        assert forall|k: int| #![trigger entries[k]] 0 <= k < n && entries[k].kind == kind implies
            rows.contains(k as usize) by {
            if k == n - 1 {
                assert(rows[rows.len() - 1] == k as usize);
            } else {
                let at = choose|at: int| 0 <= at < rest.len() && rest[at] == k as usize;
                assert(rows[at] == k as usize);
            }
        }
    }
}

/// The section of a kind shows exactly the entries of that kind, so every entry is
/// shown in the section of its own kind and in no other.
pub proof fn law_every_entry_is_in_its_kinds_section(
    entries: Seq<AssetEntry>,
    kind: AssetKind,
    k: int,
)
    requires
        0 <= k < entries.len() <= usize::MAX,
    ensures
        of_kind(entries, kind, entries.len()).contains(k as usize) <==> entries[k].kind == kind,
{
    lemma_of_kind(entries, kind, entries.len());
    let rows = of_kind(entries, kind, entries.len());
    if rows.contains(k as usize) {
        let at = choose|at: int| 0 <= at < rows.len() && rows[at] == k as usize;
        assert(entries[rows[at] as int].kind == kind);
    }
}

fn holds_kind(entries: &[AssetEntry], kind: AssetKind) -> (answer: bool)
    ensures
        answer == kind_present(entries@, kind),
{
    for i in 0..entries.len()
        invariant
            forall|j: int| #![trigger entries@[j]] 0 <= j < i ==> entries@[j].kind != kind,
    {
        if entries[i].kind == kind {
            return true;
        }
    }
    false
}

/// The kinds that some entry has, each once, in the order in which the sections
/// stand.
pub fn kinds_present(entries: &[AssetEntry]) -> (kinds: Vec<AssetKind>)
    ensures
        forall|kind: AssetKind| #[trigger] kinds@.contains(kind) <==> kind_present(entries@, kind),
        forall|i: int, j: int|
            #![trigger kinds@[i], kinds@[j]]
            0 <= i < j < kinds@.len() ==> kinds@[i].place() < kinds@[j].place(),
{
    let mut kinds: Vec<AssetKind> = Vec::new();
    let mut place: u8 = 0;
    while place < 6
        invariant
            place <= 6,
            forall|kind: AssetKind| #[trigger]
                kinds@.contains(kind) <==> kind.place() < place && kind_present(entries@, kind),
            forall|i: int, j: int|
                #![trigger kinds@[i], kinds@[j]]
                0 <= i < j < kinds@.len() ==> kinds@[i].place() < kinds@[j].place(),
            forall|i: int| #![trigger kinds@[i]] 0 <= i < kinds@.len() ==> kinds@[i].place() < place,
        decreases 6 - place,
    {
        let kind: AssetKind = match place {
            0 => AssetKind::Mesh,
            1 => AssetKind::Texture,
            2 => AssetKind::Audio,
            3 => AssetKind::Scene,
            4 => AssetKind::Prefab,
            _ => AssetKind::Other,
        };
        let ghost before = kinds@;
        if holds_kind(entries, kind) {
            kinds.push(kind);
            assert(kinds@[before.len() as int] == kind);
            assert forall|other: AssetKind| #[trigger]
                kinds@.contains(other) <==> other.place() < place + 1 && kind_present(
                entries@,
                other,
            ) by {
                if before.contains(other) {
                    let at = choose|at: int| 0 <= at < before.len() && before[at] == other;
                    assert(kinds@[at] == other);
                }
                assert(other.place() == place ==> other == kind);
            }
        } else {
            assert forall|other: AssetKind| #[trigger]
                kinds@.contains(other) <==> other.place() < place + 1 && kind_present(
                entries@,
                other,
            ) by {
                assert(other.place() == place ==> other == kind);
            }
        }
        place += 1;
    }
    kinds
}

/// What an import pass did, in words.
pub open spec fn import_summary_text(imported: nat, cached: nat, failed: nat) -> Seq<char> {
    decimal_text(imported) + " imported \u{b7} "@ + decimal_text(cached) + (" cached \u{b7} "@
        + decimal_text(failed) + " failed"@)
}

/// What an import pass did, in words.
pub fn import_summary(imported: u64, cached: u64, failed: u64) -> (text: String)
    ensures
        text@ == import_summary_text(imported as nat, cached as nat, failed as nat),
{
    let left = join3(&decimal(imported), " imported \u{b7} ", &decimal(cached));
    let right = join3(" cached \u{b7} ", &decimal(failed), " failed");
    crate::text::join2(&left, &right)
}

/// The rows of a kind stand in the order of the entries, each once.
pub proof fn law_rows_of_a_kind_stay_in_order(
    entries: Seq<AssetEntry>,
    kind: AssetKind,
    n: nat,
    i: int,
    j: int,
)
    requires
        n <= entries.len() <= usize::MAX,
        0 <= i < j < of_kind(entries, kind, n).len(),
    ensures
        of_kind(entries, kind, n)[i] < of_kind(entries, kind, n)[j] < n,
    decreases n,
{
    lemma_rows_of_a_kind(entries, kind, n);
}

proof fn lemma_rows_of_a_kind(entries: Seq<AssetEntry>, kind: AssetKind, n: nat)
    requires
        n <= entries.len() <= usize::MAX,
    ensures
        forall|k: int|
            0 <= k < of_kind(entries, kind, n).len() ==> #[trigger] of_kind(entries, kind, n)[k]
                < n,
        forall|k: int, l: int|
            #![trigger of_kind(entries, kind, n)[k], of_kind(entries, kind, n)[l]]
            0 <= k < l < of_kind(entries, kind, n).len() ==> of_kind(entries, kind, n)[k]
                < of_kind(entries, kind, n)[l],
    decreases n,
{
    if n > 0 {
        lemma_rows_of_a_kind(entries, kind, (n - 1) as nat);
        let rest = of_kind(entries, kind, (n - 1) as nat);
        let all = of_kind(entries, kind, n);
        assert forall|k: int| 0 <= k < all.len() implies #[trigger] all[k] < n by {
            if k < rest.len() {
                assert(all[k] == rest[k]);
            }
        }
        assert forall|k: int, l: int|
            #![trigger all[k], all[l]]
            0 <= k < l < all.len() implies all[k] < all[l] by {
            assert(all[k] == rest[k]);
            if l < rest.len() {
                assert(all[l] == rest[l]);
            }
        }
    }
}

/// The summary of an import names each number by what it counts.
pub proof fn law_import_summary_names_its_numbers(imported: nat, cached: nat, failed: nat)
    ensures
        import_summary_text(imported, cached, failed) == decimal_text(imported)
            + " imported \u{b7} "@ + decimal_text(cached) + " cached \u{b7} "@ + decimal_text(
            failed,
        ) + " failed"@,
{
    assert(import_summary_text(imported, cached, failed) =~= decimal_text(imported)
        + " imported \u{b7} "@ + decimal_text(cached) + " cached \u{b7} "@ + decimal_text(failed)
        + " failed"@);
}

} // verus!
