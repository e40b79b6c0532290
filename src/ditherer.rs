//! Dithering of ARGB pixels against an ARGB palette. The last row and the last
//! column are not visited; the alpha channel is passed through and plays no
//! part in choosing a palette colour.
use vstd::prelude::*;
use crate::color::Rgb;
use crate::diffusion::{Boundary, DitherError, Kernel, color_at, diffuse, diffuse_result};
use crate::kernel::{
    atkinson, atkinson_taps, jjn, jjn_taps, sierra_lite, sierra_lite_taps, stucki, stucki_taps,
    ATKINSON_DIVISOR, JJN_DIVISOR, SIERRA_LITE_DIVISOR, STUCKI_DIVISOR,
};

pub use crate::diffusion::ErrorComponent;

verus! {

/// A pixel as alpha, red, green and blue channels.
pub type Argb = [u8; 4];

/// The colours of an ARGB palette.
pub open spec fn palette_colors(palette: Seq<Argb>) -> Seq<Rgb> {
    palette.map_values(|p: Argb| color_at(p, 1))
}

/// What dithering `colors` with these taps returns in this layout.
pub open spec fn dithered(
    colors: Seq<Argb>,
    width: i32,
    height: i32,
    palette: Seq<Argb>,
    taps: Seq<ErrorComponent>,
    divisor: u32,
    r: Result<Vec<Argb>, DitherError>,
) -> bool {
    diffuse_result(
        colors,
        width as int,
        height as int,
        palette_colors(palette),
        taps,
        divisor as int,
        1,
        Boundary::SkipLastRowAndColumn,
        r,
    )
}

fn colors_of(palette: &[Argb]) -> (r: Vec<Rgb>)
    ensures
        r@ == palette_colors(palette@),
{
    let mut r: Vec<Rgb> = Vec::with_capacity(palette.len());
    let mut i: usize = 0;
    while i < palette.len()
        invariant
            i <= palette@.len(),
            r@ == palette_colors(palette@.subrange(0, i as int)),
        decreases palette@.len() - i,
    {
        let p = palette[i];
        r.push([p[1], p[2], p[3]]);
        i = i + 1;
        assert(palette_colors(palette@.subrange(0, i as int)) =~= r@);
    }
    assert(palette@.subrange(0, palette@.len() as int) =~= palette@);
    r
}

/// Dithers an image of `width` by `height` ARGB pixels against `palette` with
/// `distribution`; the last row and column are not visited.
pub fn ditherer(colors: &[Argb], width: i32, height: i32, palette: &[Argb], distribution: &Kernel) -> (r: Result<Vec<Argb>, DitherError>)
    requires
        distribution.divisor > 0,
    ensures
        dithered(colors@, width, height, palette@, distribution.taps@, distribution.divisor, r),
{
    let rgb = colors_of(palette);
    diffuse(colors, width, height, rgb.as_slice(), distribution, 1, Boundary::SkipLastRowAndColumn)
}

/// Dithers with the Atkinson kernel.
pub fn atkinson_ditherer(colors: &[Argb], width: i32, height: i32, palette: &[Argb]) -> (r: Result<Vec<Argb>, DitherError>)
    ensures
        dithered(colors@, width, height, palette@, atkinson_taps(), ATKINSON_DIVISOR, r),
{
    ditherer(colors, width, height, palette, &atkinson())
}

/// Dithers with the Jarvis-Judice-Ninke kernel.
pub fn jjn_ditherer(colors: &[Argb], width: i32, height: i32, palette: &[Argb]) -> (r: Result<Vec<Argb>, DitherError>)
    ensures
        dithered(colors@, width, height, palette@, jjn_taps(), JJN_DIVISOR, r),
{
    ditherer(colors, width, height, palette, &jjn())
}

/// Dithers with the Sierra Lite kernel.
pub fn sierra_lite_ditherer(colors: &[Argb], width: i32, height: i32, palette: &[Argb]) -> (r: Result<Vec<Argb>, DitherError>)
    ensures
        dithered(colors@, width, height, palette@, sierra_lite_taps(), SIERRA_LITE_DIVISOR, r),
{
    ditherer(colors, width, height, palette, &sierra_lite())
}

/// Dithers with the Stucki kernel.
pub fn stucki_ditherer(colors: &[Argb], width: i32, height: i32, palette: &[Argb]) -> (r: Result<Vec<Argb>, DitherError>)
    ensures
        dithered(colors@, width, height, palette@, stucki_taps(), STUCKI_DIVISOR, r),
{
    ditherer(colors, width, height, palette, &stucki())
}

} // verus!
