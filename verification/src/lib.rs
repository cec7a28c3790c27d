//! Runtime core of a retained-mode UI toolkit.
//!
//! The crate owns a hierarchy of UI entities, stores their data as typed
//! components, and drives a pipeline of processing passes (layout, render)
//! over that hierarchy once per frame.

pub mod geometry;
pub mod store;
pub mod layout;
pub mod tree;
pub mod pipeline;
pub mod manager;
