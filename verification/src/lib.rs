//! The verified core of the Vibe Game Engine's entity layer and studio editor.

pub mod asset_id;
pub mod ecs;
pub mod editor;
pub mod order;
pub mod paths;
pub mod picks;
pub mod recent;
pub mod rounding;
pub mod text;
