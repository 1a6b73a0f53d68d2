//! Verified building blocks of an offline path tracer.
//!
//! - `interval`, `aabb`: ranges and axis-aligned boxes, their unions and the
//!   slab test.
//! - `bvh`, `builder`, `sah`: the bounding-volume hierarchy, its nearest-hit
//!   query, and its construction by the surface-area heuristic.
//! - `primitive`, `material`, `texture`, `noise`: the decisions of the
//!   intersection tests and of the scattering model, the checker pattern and
//!   the lattice tables of the noise texture.
//! - `sampler`: how samples are shared among workers and where a light path
//!   is cut off.
//! - `ppm`: the pixel-map file format, read and written.
//! - `axis`, `random`: the three axes, and the draws made from the random
//!   generator.
//!
//! Coordinates, distances and costs are computed by the caller in whatever
//! number type it renders with. The library sees each of them as a key: an
//! unsigned number that is ordered as the value it stands for. Everything
//! here depends on that order alone.

pub mod aabb;
pub mod axis;
pub mod builder;
pub mod bvh;
pub mod interval;
pub mod material;
pub mod noise;
pub mod ppm;
pub mod primitive;
pub mod random;
pub mod sah;
pub mod sampler;
pub mod texture;
