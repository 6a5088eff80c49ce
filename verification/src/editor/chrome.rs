//! The values behind the menu bar, the toolbar and the status bar.

use vstd::prelude::*;

verus! {

/// A named arrangement of panels. Switching it changes which panels are shown and
/// nothing else.
#[derive(Debug, Clone, Copy, PartialEq, Eq, Structural)]
pub enum Workspace {
    /// For building scenes.
    World,
    /// For writing code: without the inspector.
    Code,
    /// For working with the assistant: as for building scenes, with the assistant.
    Ai,
    /// For finding faults: without code and assets, with the profiler.
    Debug,
}

/// Which panels are shown.
#[derive(Debug, Clone, Copy, PartialEq, Eq, Structural)]
pub struct PanelVisibility {
    /// The entity tree.
    pub hierarchy: bool,
    /// The component editor.
    pub inspector: bool,
    /// The asset browser.
    pub asset_browser: bool,
    /// The code editor.
    pub code: bool,
    /// The assistant.
    pub ai: bool,
    /// The console, problems and output.
    pub console: bool,
    /// The profiler.
    pub profiler: bool,
}

impl Default for Workspace {
    fn default() -> (workspace: Workspace)
        ensures
            workspace == Workspace::World,
    {
        Workspace::World
    }
}

impl Workspace {
    /// All workspaces, in the order of the switcher.
    pub const ALL: [Workspace; 4] = [
        Workspace::World,
        Workspace::Code,
        Workspace::Ai,
        Workspace::Debug,
    ];

    /// The workspace's position among all.
    pub open spec fn place(self) -> int {
        match self {
            Workspace::World => 0,
            Workspace::Code => 1,
            Workspace::Ai => 2,
            Workspace::Debug => 3,
        }
    }

    /// The workspace's position in [`Workspace::ALL`].
    pub fn index(self) -> (index: usize)
        ensures
            index == self.place(),
            index < 4,
            Workspace::ALL[index as int] == self,
    {
        match self {
            Workspace::World => 0,
            Workspace::Code => 1,
            Workspace::Ai => 2,
            Workspace::Debug => 3,
        }
    }

    /// The workspace's label.
    pub open spec fn text(self) -> Seq<char> {
        match self {
            Workspace::World => "World"@,
            Workspace::Code => "Code"@,
            Workspace::Ai => "AI"@,
            Workspace::Debug => "Debug"@,
        }
    }

    /// A short label for the switcher.
    pub fn label(self) -> (label: &'static str)
        ensures
            label@ == self.text(),
    {
        match self {
            Workspace::World => "World",
            Workspace::Code => "Code",
            Workspace::Ai => "AI",
            Workspace::Debug => "Debug",
        }
    }

    /// The panels that the workspace shows.
    pub open spec fn panels(self) -> PanelVisibility {
        PanelVisibility {
            hierarchy: true,
            inspector: self != Workspace::Code,
            asset_browser: self != Workspace::Debug,
            code: self != Workspace::Debug,
            ai: self == Workspace::Ai,
            console: true,
            profiler: self == Workspace::Debug,
        }
    }

    /// The panels that the workspace shows.
    pub fn visibility(self) -> (panels: PanelVisibility)
        ensures
            panels == self.panels(),
    {
        match self {
            Workspace::World => PanelVisibility {
                hierarchy: true,
                inspector: true,
                asset_browser: true,
                code: true,
                ai: false,
                console: true,
                profiler: false,
            },
            Workspace::Ai => PanelVisibility {
                hierarchy: true,
                inspector: true,
                asset_browser: true,
                code: true,
                ai: true,
                console: true,
                profiler: false,
            },
            Workspace::Code => PanelVisibility {
                hierarchy: true,
                inspector: false,
                asset_browser: true,
                code: true,
                ai: false,
                console: true,
                profiler: false,
            },
            Workspace::Debug => PanelVisibility {
                hierarchy: true,
                inspector: true,
                asset_browser: false,
                code: false,
                ai: false,
                console: true,
                profiler: true,
            },
        }
    }
}

/// Every workspace has a position of its own, and stands there.
pub proof fn law_workspace_stands_at_its_index(workspace: Workspace, other: Workspace)
    ensures
        0 <= workspace.place() < 4,
        Workspace::ALL[workspace.place()] == workspace,
        workspace.place() == other.place() ==> workspace == other,
{
}

impl Default for PanelVisibility {
    fn default() -> (panels: PanelVisibility)
        ensures
            panels == Workspace::World.panels(),
    {
        Workspace::World.visibility()
    }
}

/// The coordinate space of the gizmo.
#[derive(Debug, Clone, Copy, PartialEq, Eq, Structural)]
pub enum TransformSpace {
    /// The world's axes.
    Global,
    /// The entity's own axes.
    Local,
}

impl Default for TransformSpace {
    fn default() -> (space: TransformSpace)
        ensures
            space == TransformSpace::Global,
    {
        TransformSpace::Global
    }
}

impl TransformSpace {
    /// Both, in the order of the toolbar.
    pub const ALL: [TransformSpace; 2] = [TransformSpace::Global, TransformSpace::Local];

    /// The label.
    pub open spec fn text(self) -> Seq<char> {
        match self {
            TransformSpace::Global => "Global"@,
            TransformSpace::Local => "Local"@,
        }
    }

    /// The label in the toolbar.
    pub fn label(self) -> (label: &'static str)
        ensures
            label@ == self.text(),
    {
        match self {
            TransformSpace::Global => "Global",
            TransformSpace::Local => "Local",
        }
    }
}

/// Whether scenes are built in three dimensions or in two.
#[derive(Debug, Clone, Copy, PartialEq, Eq, Structural)]
pub enum EditorDimension {
    /// In three.
    Mode3D,
    /// In two.
    Mode2D,
}

impl Default for EditorDimension {
    fn default() -> (dimension: EditorDimension)
        ensures
            dimension == EditorDimension::Mode3D,
    {
        EditorDimension::Mode3D
    }
}

impl EditorDimension {
    /// Both, in the order of the toolbar.
    pub const ALL: [EditorDimension; 2] = [EditorDimension::Mode3D, EditorDimension::Mode2D];

    /// The label.
    pub open spec fn text(self) -> Seq<char> {
        match self {
            EditorDimension::Mode3D => "3D"@,
            EditorDimension::Mode2D => "2D"@,
        }
    }

    /// The label in the toolbar.
    pub fn label(self) -> (label: &'static str)
        ensures
            label@ == self.text(),
    {
        match self {
            EditorDimension::Mode3D => "3D",
            EditorDimension::Mode2D => "2D",
        }
    }

    /// Whether scenes are built in two dimensions.
    pub fn is_2d(self) -> (answer: bool)
        ensures
            answer == (self == EditorDimension::Mode2D),
    {
        match self {
            EditorDimension::Mode2D => true,
            EditorDimension::Mode3D => false,
        }
    }
}

/// The tabs of the bottom panel.
#[derive(Debug, Clone, Copy, PartialEq, Eq, Structural)]
pub enum BottomTab {
    /// Log lines.
    Console,
    /// What compilers and language servers report.
    Problems,
    /// What builds and tasks print.
    Output,
    /// A shell.
    Terminal,
    /// Search in the project.
    Search,
}

impl Default for BottomTab {
    fn default() -> (tab: BottomTab)
        ensures
            tab == BottomTab::Console,
    {
        BottomTab::Console
    }
}

impl BottomTab {
    /// All tabs, from left to right.
    pub const ALL: [BottomTab; 5] = [
        BottomTab::Console,
        BottomTab::Problems,
        BottomTab::Output,
        BottomTab::Terminal,
        BottomTab::Search,
    ];

    /// The label.
    pub open spec fn text(self) -> Seq<char> {
        match self {
            BottomTab::Console => "Console"@,
            BottomTab::Problems => "Problems"@,
            BottomTab::Output => "Output"@,
            BottomTab::Terminal => "Terminal"@,
            BottomTab::Search => "Search"@,
        }
    }

    /// The tab's label.
    pub fn label(self) -> (label: &'static str)
        ensures
            label@ == self.text(),
    {
        match self {
            BottomTab::Console => "Console",
            BottomTab::Problems => "Problems",
            BottomTab::Output => "Output",
            BottomTab::Terminal => "Terminal",
            BottomTab::Search => "Search",
        }
    }
}

/// The tabs of the right panel.
#[derive(Debug, Clone, Copy, PartialEq, Eq, Structural)]
pub enum InspectorTab {
    /// The selected entity's components.
    Inspector,
    /// Light and environment.
    Lighting,
}

impl Default for InspectorTab {
    fn default() -> (tab: InspectorTab)
        ensures
            tab == InspectorTab::Inspector,
    {
        InspectorTab::Inspector
    }
}

impl InspectorTab {
    /// All tabs, from left to right.
    pub const ALL: [InspectorTab; 2] = [InspectorTab::Inspector, InspectorTab::Lighting];

    /// The label.
    pub open spec fn text(self) -> Seq<char> {
        match self {
            InspectorTab::Inspector => "Inspector"@,
            InspectorTab::Lighting => "Lighting"@,
        }
    }

    /// The tab's label.
    pub fn label(self) -> (label: &'static str)
        ensures
            label@ == self.text(),
    {
        match self {
            InspectorTab::Inspector => "Inspector",
            InspectorTab::Lighting => "Lighting",
        }
    }
}

/// No label is empty, and each selector's labels differ.
pub proof fn law_labels_tell_the_choices_apart(
    workspace: (Workspace, Workspace),
    space: (TransformSpace, TransformSpace),
    dimension: (EditorDimension, EditorDimension),
    bottom: (BottomTab, BottomTab),
    inspector: (InspectorTab, InspectorTab),
)
    ensures
        workspace.0.text().len() > 0,
        workspace.0.text() == workspace.1.text() ==> workspace.0 == workspace.1,
        space.0.text().len() > 0,
        space.0.text() == space.1.text() ==> space.0 == space.1,
        dimension.0.text().len() > 0,
        dimension.0.text() == dimension.1.text() ==> dimension.0 == dimension.1,
        bottom.0.text().len() > 0,
        bottom.0.text() == bottom.1.text() ==> bottom.0 == bottom.1,
        inspector.0.text().len() > 0,
        inspector.0.text() == inspector.1.text() ==> inspector.0 == inspector.1,
{
    reveal_strlit("World");
    reveal_strlit("Code");
    reveal_strlit("AI");
    reveal_strlit("Debug");
    reveal_strlit("Global");
    reveal_strlit("Local");
    reveal_strlit("3D");
    reveal_strlit("2D");
    reveal_strlit("Console");
    reveal_strlit("Problems");
    reveal_strlit("Output");
    reveal_strlit("Terminal");
    reveal_strlit("Search");
    reveal_strlit("Inspector");
    reveal_strlit("Lighting");
    assert("World"@.len() == 5 && "Code"@.len() == 4 && "AI"@.len() == 2 && "Debug"@.len() == 5);
    assert("World"@[0] != "Debug"@[0]);
    assert("Global"@.len() == 6 && "Local"@.len() == 5);
    assert("3D"@.len() == 2 && "2D"@.len() == 2 && "3D"@[0] != "2D"@[0]);
    assert("Console"@.len() == 7 && "Problems"@.len() == 8 && "Output"@.len() == 6);
    assert("Terminal"@.len() == 8 && "Search"@.len() == 6);
    assert("Problems"@[0] != "Terminal"@[0] && "Output"@[0] != "Search"@[0]);
    assert("Inspector"@.len() == 9 && "Lighting"@.len() == 8);
}

/// Which panels a workspace begins with: the entity tree and the console always; the
/// inspector everywhere but for code; assets and code everywhere but for finding faults,
/// which alone has the profiler; the assistant only where it is worked with.
pub proof fn law_workspaces_begin_with_their_panels(workspace: Workspace)
    ensures
        workspace.panels().hierarchy && workspace.panels().console,
        workspace.panels().inspector <==> workspace is World || workspace is Ai
            || workspace is Debug,
        workspace.panels().asset_browser <==> workspace is World || workspace is Code
            || workspace is Ai,
        workspace.panels().code <==> workspace is World || workspace is Code || workspace is Ai,
        workspace.panels().ai <==> workspace is Ai,
        workspace.panels().profiler <==> workspace is Debug,
{
}

/// What the workspaces are called.
pub proof fn law_workspaces_are_labelled(choice: Workspace)
    ensures
        choice is World ==> choice.text() == "World"@,
        choice is Code ==> choice.text() == "Code"@,
        choice is Ai ==> choice.text() == "AI"@,
        choice is Debug ==> choice.text() == "Debug"@,
{
}

/// What the spaces that things are moved in are called.
pub proof fn law_spaces_are_labelled(choice: TransformSpace)
    ensures
        choice is Global ==> choice.text() == "Global"@,
        choice is Local ==> choice.text() == "Local"@,
{
}

/// What the dimensions are called.
pub proof fn law_dimensions_are_labelled(choice: EditorDimension)
    ensures
        choice is Mode3D ==> choice.text() == "3D"@,
        choice is Mode2D ==> choice.text() == "2D"@,
{
}

/// What the tabs at the bottom are called.
pub proof fn law_bottom_tabs_are_labelled(choice: BottomTab)
    ensures
        choice is Console ==> choice.text() == "Console"@,
        choice is Problems ==> choice.text() == "Problems"@,
        choice is Output ==> choice.text() == "Output"@,
        choice is Terminal ==> choice.text() == "Terminal"@,
        choice is Search ==> choice.text() == "Search"@,
{
}

/// What the tabs of the inspector are called.
pub proof fn law_inspector_tabs_are_labelled(choice: InspectorTab)
    ensures
        choice is Inspector ==> choice.text() == "Inspector"@,
        choice is Lighting ==> choice.text() == "Lighting"@,
{
}

} // verus!
