//! Verified integer core of a bushfire simulation engine: spatial hashing,
//! grid indexing, GPU profiling decisions, seasonal calendar, fuel maps and
//! deterministic noise hashing.

pub mod profiler;

pub use profiler::{DispatchStats, DispatchTimer, GpuProfiler, GpuStats, QualityPreset, TextureQuality};
pub mod calendar;
pub mod fuel;
mod fxmap;
pub mod grid;
pub mod noise;
pub mod raster;
pub mod spatial;

pub use spatial::{generate_neighbor_offsets, morton_encode, SpatialIndex};
