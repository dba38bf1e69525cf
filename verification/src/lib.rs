//! A Mandelbrot renderer whose integer logic is verified: image sizes and
//! pixel addressing, the mapping from escape times to grey levels, the row
//! traversals of the sequential and SIMD renderers, and the tiling and
//! read-back arithmetic of the GPU renderer.
//!
//! The floating-point work (mapping pixels to points of the complex plane and
//! iterating `z * z + c`) is handed in by the caller as closures or results.

pub mod size;
pub mod image;
pub mod cpu;
pub mod gpu;
