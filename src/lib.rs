//! Colour reduction for palette-indexed images.
//!
//! A palette of at most `k` distinct colours is built from the pixels of an
//! image by one of three strategies (`octree`, `median_cut`, `kmeans`; one
//! entry point in `quantizer`), and the image is then dithered against that
//! palette by error diffusion (`diffusion`, with the published kernels in
//! `kernel`, and the two pixel layouts in `encoder` and `ditherer`).
//!
//! Every function states its result in its contract, over the spec functions
//! of its module.

pub mod color;
pub mod palette;
pub mod diffusion;
pub mod kernel;
pub mod ditherer;
pub mod encoder;
pub mod median_cut;
pub mod kmeans;
pub mod octree;
pub mod quantizer;
pub mod options;
