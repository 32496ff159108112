//! Per-instance generation of assignment packages from a template tree:
//! argument resolution, randomized choice points, a first rendering pass
//! over the chosen templates, output versioning and the final tree render.

pub mod error;
pub mod strmap;
pub mod config;
pub mod engine;
pub mod context;
pub mod target;
pub mod render;
