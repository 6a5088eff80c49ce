//! The bounds of the docking layout.

use vstd::prelude::*;
use vstd::string::*;
use vstd::utf8::encode_utf8;

verus! {

/// The longest layout that is stored or read, in bytes.
pub const MAX_LAYOUT_BYTES: usize = 65_536;

/// How many frames are counted before the count starts over.
pub const MAX_SOAK_FRAMES: u64 = 10_000;

/// The panels that can be docked.
#[derive(Debug, Clone, Copy, PartialEq, Eq, Structural, Hash)]
pub enum Tab {
    /// The entity tree.
    Hierarchy,
    /// The scene.
    Scene,
    /// The asset browser.
    Assets,
    /// The code editor.
    Code,
    /// The console.
    Console,
    /// The component editor.
    Inspector,
    /// The assistant.
    Ai,
}

impl Tab {
    /// All panels, as they stand in a fresh layout.
    pub const ALL: [Tab; 7] = [
        Tab::Scene,
        Tab::Hierarchy,
        Tab::Assets,
        Tab::Code,
        Tab::Console,
        Tab::Inspector,
        Tab::Ai,
    ];

    /// The title of the panel.
    pub open spec fn text(self) -> Seq<char> {
        match self {
            Tab::Hierarchy => "Hierarchy"@,
            Tab::Scene => "Scene"@,
            Tab::Assets => "Asset Browser"@,
            Tab::Code => "Code"@,
            Tab::Console => "Console"@,
            Tab::Inspector => "Inspector"@,
            Tab::Ai => "AI Assistant"@,
        }
    }

    /// The title of the panel.
    pub fn title(self) -> (title: &'static str)
        ensures
            title@ == self.text(),
    {
        match self {
            Tab::Hierarchy => "Hierarchy",
            Tab::Scene => "Scene",
            Tab::Assets => "Asset Browser",
            Tab::Code => "Code",
            Tab::Console => "Console",
            Tab::Inspector => "Inspector",
            Tab::Ai => "AI Assistant",
        }
    }
}

/// Every panel stands in a fresh layout, and none twice.
pub proof fn law_fresh_layout_has_every_panel_once(tab: Tab)
    ensures
        Tab::ALL@.contains(tab),
        Tab::ALL@.no_duplicates(),
{
    let at: int = match tab {
        Tab::Scene => 0,
        Tab::Hierarchy => 1,
        Tab::Assets => 2,
        Tab::Code => 3,
        Tab::Console => 4,
        Tab::Inspector => 5,
        Tab::Ai => 6,
    };
    assert(Tab::ALL@[at] == tab);
}

/// A count of drawn frames that starts over at the limit, so that panels never stop
/// being drawn.
#[derive(Debug, Clone, Copy, PartialEq, Eq, Structural)]
pub struct FrameBudget {
    /// The frames since the count last started.
    pub frames: u64,
}

impl FrameBudget {
    /// No frames yet.
    pub fn new() -> (budget: FrameBudget)
        ensures
            budget.frames == 0,
    {
        FrameBudget { frames: 0 }
    }

    /// Counts one frame; a count that is at the limit or beyond it starts over.
    pub fn count_frame(&mut self)
        ensures
            final(self).frames == (if old(self).frames >= MAX_SOAK_FRAMES {
                1
            } else {
                old(self).frames + 1
            }),
            0 < final(self).frames <= MAX_SOAK_FRAMES,
    {
        if self.frames >= MAX_SOAK_FRAMES {
            self.frames = 0;
        }
        self.frames += 1;
    }

    /// Starts the count over.
    pub fn reset_frame_budget(&mut self)
        ensures
            final(self).frames == 0,
    {
        self.frames = 0;
    }
}

impl Default for FrameBudget {
    fn default() -> (budget: FrameBudget)
        ensures
            budget.frames == 0,
    {
        FrameBudget::new()
    }
}

/// Whether the text is short enough to be a layout.
pub open spec fn fits(encoded: Seq<char>) -> bool {
    encode_utf8(encoded).len() <= MAX_LAYOUT_BYTES
}

/// Whether the text is short enough to be stored or read as a layout.
pub fn layout_fits(encoded: &str) -> (answer: bool)
    ensures
        answer == fits(encoded@),
{
    encoded.as_bytes().len() <= MAX_LAYOUT_BYTES
}

/// The layout as it is stored: what was written, unless that is too long or could
/// not be written.
pub fn bounded_layout(written: Option<String>) -> (stored: Option<String>)
    ensures
        match written {
            Some(text) => stored == (if fits(text@) {
                Some(text)
            } else {
                None
            }),
            None => stored is None,
        },
{
    match written {
        Some(text) => if layout_fits(&text) {
            Some(text)
        } else {
            None
        },
        None => None,
    }
}

/// What stands on the tabs of the panels.
pub proof fn law_panels_are_titled(choice: Tab)
    ensures
        choice is Hierarchy ==> choice.text() == "Hierarchy"@,
        choice is Scene ==> choice.text() == "Scene"@,
        choice is Assets ==> choice.text() == "Asset Browser"@,
        choice is Code ==> choice.text() == "Code"@,
        choice is Console ==> choice.text() == "Console"@,
        choice is Inspector ==> choice.text() == "Inspector"@,
        choice is Ai ==> choice.text() == "AI Assistant"@,
{
}

/// A layout is stored if it takes sixty-four kibibytes at most; drawn frames are counted up
/// to ten thousand.
pub proof fn law_layouts_are_bounded(encoded: Seq<char>)
    ensures
        fits(encoded) <==> encode_utf8(encoded).len() <= 65_536,
        MAX_SOAK_FRAMES == 10_000,
{
}

} // verus!
