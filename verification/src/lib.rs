//! Packs images into texture atlases and lays out glyph atlases.

pub mod allocator;
pub mod bitmap;
pub mod font;
pub mod gather;
pub mod layout;
pub mod order;
pub mod pack;
pub mod paint;
pub mod planner;
pub mod shelves;
pub mod strips;
pub mod text;

