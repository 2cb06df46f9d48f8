//! Incremental escape-time rendering of quadratic Julia and Mandelbrot frames:
//! the escape decision, a cross-frame cache of escape iterations, cached frame
//! rendering and the distribution of work over a fixed pool of workers.
//!
//! The complex recurrence itself runs in floating point outside this library;
//! the library takes, for each sample, the breach flags of its orbit, and
//! decides everything else.
pub mod cache;
pub mod config;
pub mod escape;
pub mod render;
pub mod schedule;

pub use cache::FrameCache;
pub use config::{Config, ConfigError};
pub use escape::{evaluate, restrict, EscapeResult};
pub use render::{frame_at, misses, render_frame, RenderError};
pub use schedule::{assemble_grid, merge_timings, partition, worker_count, TimingRecord};
