//! The state of the editor that is kept for a project between two runs.

use vstd::prelude::*;

use crate::editor::asset_browser::AssetView;
use crate::editor::chrome::{PanelVisibility, Workspace};
use crate::editor::overlays::{no_overlays, OverlayToggles};

verus! {

/// The version of the session format.
pub const SESSION_VERSION: u32 = 1;

/// The name of the session file.
pub const SESSION_FILE: &'static str = "session.ron";

/// What is restored when a project is opened again.
#[derive(Debug, PartialEq, Eq)]
pub struct EditorSession {
    /// The version of the format.
    pub version: u32,
    /// The workspace the editor was in.
    pub workspace: Workspace,
    /// The panels that were shown.
    pub panels: PanelVisibility,
    /// The panels of each workspace, at its index.
    pub layouts: Vec<PanelVisibility>,
    /// The scene that was open, relative to the project.
    pub last_scene: Option<String>,
    /// How the asset browser arranged its rows.
    pub asset_view: AssetView,
    /// Whether the preview was shown.
    pub preview_open: bool,
    /// The build configuration that was chosen.
    pub configuration_index: usize,
    /// The overlays that were on.
    pub overlays: OverlayToggles,
}

impl EditorSession {
    /// Whether this is the session of a project that was never open.
    pub open spec fn fresh(self) -> bool {
        &&& self.version == SESSION_VERSION
        &&& self.workspace == Workspace::World
        &&& self.panels == Workspace::World.panels()
        &&& self.layouts@.len() == 0
        &&& self.last_scene is None
        &&& self.asset_view == AssetView::Folders
        &&& self.preview_open
        &&& self.configuration_index == 0
        &&& self.overlays == no_overlays()
    }

    /// The session that was read, unless nothing could be read or what was read is
    /// from a later version: a broken session never keeps a project from opening.
    pub fn accept(read: Option<EditorSession>) -> (session: EditorSession)
        ensures
            match read {
                Some(found) => if found.version <= SESSION_VERSION {
                    session == found
                } else {
                    session.fresh()
                },
                None => session.fresh(),
            },
    {
        match read {
            Some(found) => {
                if found.version <= SESSION_VERSION {
                    found
                } else {
                    EditorSession::default()
                }
            },
            None => EditorSession::default(),
        }
    }
}

impl Default for EditorSession {
    fn default() -> (session: EditorSession)
        ensures
            session.fresh(),
    {
        EditorSession {
            version: SESSION_VERSION,
            workspace: Workspace::default(),
            panels: PanelVisibility::default(),
            layouts: Vec::new(),
            last_scene: None,
            asset_view: AssetView::default(),
            preview_open: true,
            configuration_index: 0,
            overlays: OverlayToggles::default(),
        }
    }
}

/// The panels of each workspace: those kept, and its own where none were kept for it.
pub open spec fn layouts_of(kept: Seq<PanelVisibility>) -> Seq<PanelVisibility> {
    Seq::new(
        4,
        |i: int|
            if i < kept.len() {
                kept[i]
            } else {
                Workspace::ALL[i].panels()
            },
    )
}

/// The panels of each workspace: those kept, and its own where none were kept for it.
/// What was kept for more workspaces than there are is left out.
pub fn restore_layouts(kept: &[PanelVisibility]) -> (layouts: Vec<PanelVisibility>)
    ensures
        layouts@ == layouts_of(kept@),
{
    let mut layouts: Vec<PanelVisibility> = Vec::new();
    for i in 0..4usize
        invariant
            layouts@ == layouts_of(kept@).take(i as int),
    {
        if i < kept.len() {
            layouts.push(kept[i]);
        } else {
            layouts.push(Workspace::ALL[i].visibility());
        }
        assert(layouts@ =~= layouts_of(kept@).take(i + 1));
    }
    assert(layouts@ =~= layouts_of(kept@));
    layouts
}

/// Which of the project's configurations is chosen: the one kept, the last where there
/// are fewer by now, none where there are none.
pub fn restore_configuration(kept: usize, count: usize) -> (index: Option<usize>)
    ensures
        index is Some <==> count > 0,
        index matches Some(index) ==> index == (if kept < count {
            kept as int
        } else {
            count - 1
        }),
{
    if count == 0 {
        None
    } else if kept < count {
        Some(kept)
    } else {
        Some(count - 1)
    }
}

/// A restored layout is the one that was kept for its workspace; a workspace without one
/// gets the layout that it begins with. There are as many as there are workspaces.
pub proof fn law_kept_layouts_are_restored(kept: Seq<PanelVisibility>, i: int)
    requires
        0 <= i < 4,
    ensures
        layouts_of(kept).len() == 4,
        i < kept.len() ==> layouts_of(kept)[i] == kept[i],
        i >= kept.len() && i == 0 ==> layouts_of(kept)[i] == Workspace::World.panels(),
        i >= kept.len() && i == 1 ==> layouts_of(kept)[i] == Workspace::Code.panels(),
        i >= kept.len() && i == 2 ==> layouts_of(kept)[i] == Workspace::Ai.panels(),
        i >= kept.len() && i == 3 ==> layouts_of(kept)[i] == Workspace::Debug.panels(),
{
}

/// A fresh session shows the workspace for building scenes with the panels it begins with,
/// no kept layout and no scene, assets by folder, the preview open, the first configuration
/// and no overlay.
pub proof fn law_fresh_session_begins_with_the_world(session: EditorSession)
    requires
        session.fresh(),
    ensures
        session.version == 1,
        session.workspace is World,
        session.panels.hierarchy && session.panels.inspector && session.panels.asset_browser
            && session.panels.code && session.panels.console,
        !session.panels.ai && !session.panels.profiler,
        session.layouts@.len() == 0,
        session.last_scene is None,
        session.asset_view is Folders,
        session.preview_open,
        session.configuration_index == 0,
        !(session.overlays.colliders || session.overlays.lights || session.overlays.cameras
            || session.overlays.grid || session.overlays.audio || session.overlays.nav),
{
}

} // verus!
