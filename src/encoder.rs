//! Dithering of RGBA pixels against an RGB palette. Every pixel is visited;
//! the alpha channel is passed through.
use vstd::prelude::*;
use crate::color::{Rgb, Rgba};
use crate::diffusion::{Boundary, DitherError, Kernel, diffuse, diffuse_result};
use crate::kernel::{
    atkinson, atkinson_taps, jjn, jjn_taps, sierra_lite, sierra_lite_taps, stucki, stucki_taps,
    ATKINSON_DIVISOR, JJN_DIVISOR, SIERRA_LITE_DIVISOR, STUCKI_DIVISOR,
};

pub use crate::diffusion::ErrorComponent;

verus! {

/// The published kernels.
#[derive(Clone, Copy, Debug, PartialEq, Eq, Structural)]
pub enum KernelKind {
    Atkinson,
    Jjn,
    SierraLite,
    Stucki,
}

/// The taps of a published kernel.
pub open spec fn kind_taps(kind: KernelKind) -> Seq<ErrorComponent> {
    match kind {
        KernelKind::Atkinson => atkinson_taps(),
        KernelKind::Jjn => jjn_taps(),
        KernelKind::SierraLite => sierra_lite_taps(),
        KernelKind::Stucki => stucki_taps(),
    }
}

/// The divisor of a published kernel.
pub open spec fn kind_divisor(kind: KernelKind) -> u32 {
    match kind {
        KernelKind::Atkinson => ATKINSON_DIVISOR,
        KernelKind::Jjn => JJN_DIVISOR,
        KernelKind::SierraLite => SIERRA_LITE_DIVISOR,
        KernelKind::Stucki => STUCKI_DIVISOR,
    }
}

/// What dithering `colors` with these taps returns in this layout.
pub open spec fn dithered(
    colors: Seq<Rgba>,
    width: i32,
    height: i32,
    palette: Seq<Rgb>,
    taps: Seq<ErrorComponent>,
    divisor: u32,
    r: Result<Vec<Rgba>, DitherError>,
) -> bool {
    diffuse_result(colors, width as int, height as int, palette, taps, divisor as int, 0, Boundary::Full, r)
}

/// Dithers an image of `width` by `height` RGBA pixels against `palette` with
/// `distribution`, visiting every pixel.
pub fn ditherer(colors: &[Rgba], width: i32, height: i32, palette: &[Rgb], distribution: &Kernel) -> (r: Result<Vec<Rgba>, DitherError>)
    requires
        distribution.divisor > 0,
    ensures
        dithered(colors@, width, height, palette@, distribution.taps@, distribution.divisor, r),
{
    diffuse(colors, width, height, palette, distribution, 0, Boundary::Full)
}

/// Dithers with the Atkinson kernel.
pub fn atkinson_ditherer(colors: &[Rgba], width: i32, height: i32, palette: &[Rgb]) -> (r: Result<Vec<Rgba>, DitherError>)
    ensures
        dithered(colors@, width, height, palette@, atkinson_taps(), ATKINSON_DIVISOR, r),
{
    ditherer(colors, width, height, palette, &atkinson())
}

/// Dithers with the Jarvis-Judice-Ninke kernel.
pub fn jjn_ditherer(colors: &[Rgba], width: i32, height: i32, palette: &[Rgb]) -> (r: Result<Vec<Rgba>, DitherError>)
    ensures
        dithered(colors@, width, height, palette@, jjn_taps(), JJN_DIVISOR, r),
{
    ditherer(colors, width, height, palette, &jjn())
}

/// Dithers with the Sierra Lite kernel.
pub fn sierra_lite_ditherer(colors: &[Rgba], width: i32, height: i32, palette: &[Rgb]) -> (r: Result<Vec<Rgba>, DitherError>)
    ensures
        dithered(colors@, width, height, palette@, sierra_lite_taps(), SIERRA_LITE_DIVISOR, r),
{
    ditherer(colors, width, height, palette, &sierra_lite())
}

/// Dithers with the Stucki kernel.
pub fn stucki_ditherer(colors: &[Rgba], width: i32, height: i32, palette: &[Rgb]) -> (r: Result<Vec<Rgba>, DitherError>)
    ensures
        dithered(colors@, width, height, palette@, stucki_taps(), STUCKI_DIVISOR, r),
{
    ditherer(colors, width, height, palette, &stucki())
}

/// Dithers an image of `width` by `height` RGBA pixels against `palette`
/// with a published kernel.
pub fn dither(colors: &[Rgba], width: i32, height: i32, palette: &[Rgb], kernel: KernelKind) -> (r: Result<Vec<Rgba>, DitherError>)
    ensures
        dithered(colors@, width, height, palette@, kind_taps(kernel), kind_divisor(kernel), r),
{
    match kernel {
        KernelKind::Atkinson => atkinson_ditherer(colors, width, height, palette),
        KernelKind::Jjn => jjn_ditherer(colors, width, height, palette),
        KernelKind::SierraLite => sierra_lite_ditherer(colors, width, height, palette),
        KernelKind::Stucki => stucki_ditherer(colors, width, height, palette),
    }
}

} // verus!
