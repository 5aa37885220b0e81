//! Core of a software 3D renderer: the integer rasterization primitives.
//!
//! A host program transforms triangle meshes into screen-space pixel
//! coordinates (floating-point work that lives outside this crate) and then
//! relies on these primitives to decide exactly which pixels a line or a
//! filled triangle covers.  Everything here is plain integer arithmetic, and
//! every function carries a contract that pins its output down to the pixel.

pub mod fill;
pub mod line;
