//! Core of a sticky-note application: a persistent index that maps note
//! identities to backing files and window geometry, the registry operations
//! over it, the window-identity map, the single-instance launch router, and
//! the asset-name store.
//!
//! All file, window and process handling lives outside this crate; the
//! functions here work on plain values (strings, integers, vectors) and
//! state in their contracts exactly what they compute.

pub mod assets;
pub mod codec;
pub mod escape;
mod ids;
pub mod model;
pub mod num;
pub mod paths;
pub mod registry;
pub mod router;
pub mod text;
pub mod title;
pub mod windows;
