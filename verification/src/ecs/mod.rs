//! The entity layer: worlds, components, and what a frame does with them.

pub mod animation;
pub mod audio;
pub mod components;
pub mod entities;
pub mod error;
pub mod extract;
pub mod particles;
pub mod physics;
pub mod propagate;
pub mod render;
pub mod scalar;
pub mod stages;
pub mod tree;
pub mod world;
