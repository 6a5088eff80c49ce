//! The studio editor.

pub mod asset_browser;
pub mod asset_import;
pub mod asset_tree;
pub mod assets;
pub mod chrome;
pub mod console;
pub mod crash;
pub mod dependencies;
pub mod diagnostics;
pub mod dirty;
pub mod dock;
pub mod duplicate;
pub mod error;
pub mod gizmo;
pub mod guard;
pub mod hierarchy;
pub mod hierarchy_panel;
pub mod history;
pub mod i18n;
pub mod import;
pub mod inspect;
pub mod inspector;
pub mod output;
pub mod overlays;
pub mod perf_budget;
pub mod play;
pub mod prefab;
pub mod preview;
pub mod profiler;
pub mod project_swap;
pub mod resolve;
pub mod search;
pub mod session;
pub mod shell;
pub mod tree_view;
