//! Sprite-atlas packing: animation-frame detection and strip synthesis,
//! deterministic sprite ordering, 2D bin packing across fixed-size pages,
//! pixel-level post-processing (trim, extrude, alpha bleed), atlas rendering
//! and manifest construction.

pub mod animation;
pub mod asset;
pub mod binpack;
pub mod config;
pub mod error;
pub mod geom;
pub mod image_io;
pub mod manifest;
pub mod migrate_config;
pub mod optimize;
pub mod pack;
pub mod pattern;
pub mod pixels;
pub mod sort;
pub mod text;
pub mod upload;
