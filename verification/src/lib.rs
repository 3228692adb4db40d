//! A runtime texture atlas: a growable two-dimensional rectangle allocator
//! together with an atlas manager that packs submitted images into a single
//! composite pixel buffer and publishes a stable, submission-ordered list of
//! placement records for a renderer.

pub mod allocator;
pub mod events;
pub mod game;
pub mod image;
pub mod input;
pub mod rect;
pub mod texture_atlas;
