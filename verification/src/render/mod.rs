//! Rendering decisions: which drawers draw, how queued draw requests are
//! merged into batches, and how a camera view specializes the vertex
//! pipeline.

pub mod batch;
pub mod queue;
pub mod view;
