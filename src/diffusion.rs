//! The error-diffusion engine. Pixels are visited in raster order; each one's
//! quantisation error against its nearest palette colour is spread over its
//! neighbours by a kernel of weighted taps.
//!
//! The result is an error-adjusted continuous-tone buffer: the visited pixel
//! itself is not replaced by its palette colour. A caller that needs an
//! index-mapped image maps the adjusted buffer onto the palette afterwards.
use vstd::prelude::*;
use crate::color::{Rgb, Rgba, nearest, nearest_index, lemma_nearest};

verus! {

/// One tap of a diffusion kernel: the neighbour at `(x + delta_x, y + delta_y)`
/// receives `weight / divisor` of the error, where `divisor` is the kernel's.
#[derive(Clone, Copy, Debug, PartialEq, Eq, Structural)]
pub struct ErrorComponent {
    pub delta_x: i32,
    pub delta_y: i32,
    pub weight: u32,
}

/// A diffusion kernel: its taps, and the divisor of their weights.
#[derive(Debug)]
pub struct Kernel {
    pub taps: Vec<ErrorComponent>,
    pub divisor: u32,
}

/// Which pixels are visited. `Full` visits every pixel; `SkipLastRowAndColumn`
/// leaves the last row and the last column unvisited (they still receive error).
#[derive(Clone, Copy, Debug, PartialEq, Eq, Structural)]
pub enum Boundary {
    Full,
    SkipLastRowAndColumn,
}

/// Why a dithering request was refused.
#[derive(Clone, Copy, Debug, PartialEq, Eq, Structural)]
pub enum DitherError {
    /// `width * height` differs from the number of pixels.
    InvalidDimensions,
    /// The palette holds no colour.
    EmptyPalette,
}

/// The three colour channels of a pixel, starting at channel `first`.
pub open spec fn color_at(p: Rgba, first: int) -> Rgb {
    [p[first], p[first + 1], p[first + 2]]
}

/// `p / d` rounded down, for `d > 0`.
pub open spec fn floor_div(p: int, d: int) -> int {
    if p >= 0 {
        p / d
    } else {
        -((-p + d - 1) / d)
    }
}

/// `floor_div(p, d)` is the greatest integer `q` with `q * d <= p`.
pub proof fn lemma_floor_div(p: int, d: int)
    requires
        d > 0,
    ensures
        floor_div(p, d) * d <= p < floor_div(p, d) * d + d,
{
    if p >= 0 {
        vstd::arithmetic::div_mod::lemma_fundamental_div_mod(p, d);
        vstd::arithmetic::div_mod::lemma_mod_bound(p, d);
        assert((p / d) * d == d * (p / d)) by (nonlinear_arith);
    } else {
        let m = -p + d - 1;
        vstd::arithmetic::div_mod::lemma_fundamental_div_mod(m, d);
        vstd::arithmetic::div_mod::lemma_mod_bound(m, d);
        let q = m / d;
        assert(q * d == d * q) by (nonlinear_arith);
        assert(-q * d == -(q * d)) by (nonlinear_arith);
    }
}

/// `v` held to the range of a channel.
pub open spec fn clamp_channel(v: int) -> u8 {
    if v < 0 {
        0
    } else if v > 255 {
        255
    } else {
        v as u8
    }
}

/// A channel after it receives `weight / divisor` of the error `e`.
pub open spec fn channel_after(v: u8, e: int, weight: int, divisor: int) -> u8 {
    clamp_channel(v + floor_div(e * weight, divisor))
}

/// Channel `i` of pixel `p` after the pixel receives `weight / divisor` of the
/// error `orig - chosen`: the colour channels, from channel `first` on, take
/// their share of the error; the other channel is kept.
pub open spec fn channel_of_pixel_after(p: Rgba, i: int, first: int, orig: Rgb, chosen: Rgb, weight: int, divisor: int) -> u8 {
    if first <= i < first + 3 {
        channel_after(p[i], orig[i - first] - chosen[i - first], weight, divisor)
    } else {
        p[i]
    }
}

/// A pixel after it receives `weight / divisor` of the error `orig - chosen`.
pub open spec fn pixel_after(p: Rgba, first: int, orig: Rgb, chosen: Rgb, weight: int, divisor: int) -> Rgba {
    [
        channel_of_pixel_after(p, 0, first, orig, chosen, weight, divisor),
        channel_of_pixel_after(p, 1, first, orig, chosen, weight, divisor),
        channel_of_pixel_after(p, 2, first, orig, chosen, weight, divisor),
        channel_of_pixel_after(p, 3, first, orig, chosen, weight, divisor),
    ]
}

/// A dithering task: the input image, its size, the palette, the kernel, where
/// the colour channels start in a pixel, and how many columns and rows are visited.
pub struct Diffusion {
    pub img: Seq<Rgba>,
    pub width: int,
    pub height: int,
    pub palette: Seq<Rgb>,
    pub taps: Seq<ErrorComponent>,
    pub divisor: int,
    pub first: int,
    pub cols: int,
    pub rows: int,
}

impl Diffusion {
    /// The colour of the input pixel at `(x, y)`.
    pub open spec fn orig(self, x: int, y: int) -> Rgb {
        color_at(self.img[y * self.width + x], self.first)
    }

    /// The palette colour chosen for the pixel at `(x, y)`.
    pub open spec fn chosen(self, x: int, y: int) -> Rgb {
        self.palette[nearest(self.palette, self.orig(x, y))]
    }

    /// `out` after the first `t` taps spread the error of the pixel at `(x, y)`.
    pub open spec fn spread(self, out: Seq<Rgba>, x: int, y: int, t: nat) -> Seq<Rgba>
        decreases t,
    {
        if t == 0 {
            out
        } else {
            let prev = self.spread(out, x, y, (t - 1) as nat);
            let tap = self.taps[t - 1];
            let tx = x + tap.delta_x;
            let ty = y + tap.delta_y;
            if 0 <= tx < self.width && 0 <= ty < self.height {
                let j = ty * self.width + tx;
                prev.update(
                    j,
                    pixel_after(prev[j], self.first, self.orig(x, y), self.chosen(x, y), tap.weight as int, self.divisor),
                )
            } else {
                prev
            }
        }
    }

    /// The buffer when the scan reaches column `x` of row `y`.
    pub open spec fn scan(self, y: nat, x: nat) -> Seq<Rgba>
        decreases y, x,
    {
        if x == 0 {
            if y == 0 {
                self.img
            } else {
                self.scan((y - 1) as nat, self.cols as nat)
            }
        } else {
            self.spread(self.scan(y, (x - 1) as nat), x - 1, y as int, self.taps.len())
        }
    }

    /// The buffer once every visited pixel has spread its error.
    pub open spec fn result(self) -> Seq<Rgba> {
        self.scan(self.rows as nat, 0)
    }
}

/// The sides of an image of `len` pixels are `width` and `height`.
pub open spec fn dims_ok(len: int, width: int, height: int) -> bool {
    width * height == len
}

/// The task that `diffuse` performs.
pub open spec fn diffusion_of(
    img: Seq<Rgba>,
    width: int,
    height: int,
    palette: Seq<Rgb>,
    taps: Seq<ErrorComponent>,
    divisor: int,
    first: int,
    boundary: Boundary,
) -> Diffusion {
    let skip = boundary == Boundary::SkipLastRowAndColumn;
    Diffusion {
        img,
        width,
        height,
        palette,
        taps,
        divisor,
        first,
        cols: if width <= 0 { 0 } else if skip { width - 1 } else { width },
        rows: if height <= 0 { 0 } else if skip { height - 1 } else { height },
    }
}

/// What dithering `img` returns: an error for a size that does not match or an
/// empty palette, in that order, and otherwise the diffused buffer.
pub open spec fn diffuse_result(
    img: Seq<Rgba>,
    width: int,
    height: int,
    palette: Seq<Rgb>,
    taps: Seq<ErrorComponent>,
    divisor: int,
    first: int,
    boundary: Boundary,
    r: Result<Vec<Rgba>, DitherError>,
) -> bool {
    if !dims_ok(img.len() as int, width, height) {
        r == Err::<Vec<Rgba>, DitherError>(DitherError::InvalidDimensions)
    } else if palette.len() == 0 {
        r == Err::<Vec<Rgba>, DitherError>(DitherError::EmptyPalette)
    } else {
        r.is_ok() && r.unwrap()@ == diffusion_of(img, width, height, palette, taps, divisor, first, boundary).result()
    }
}

fn floor_share(e: i32, weight: u32, divisor: u32) -> (r: i64)
    requires
        -255 <= e <= 255,
        divisor > 0,
    ensures
        r == floor_div(e * weight, divisor as int),
        -255 * (weight as int) <= r <= 255 * (weight as int),
{
    assert(-255 * 0x1_0000_0000 <= e * weight <= 255 * 0x1_0000_0000) by (nonlinear_arith)
        requires -255 <= e <= 255, 0 <= weight <= 0xffff_ffff;
    let p: i64 = e as i64 * weight as i64;
    assert(-255 * (weight as int) <= p <= 255 * (weight as int)) by (nonlinear_arith)
        requires p == e * weight, -255 <= e <= 255, weight >= 0;
    if p >= 0 {
        let q: u64 = p as u64 / divisor as u64;
        assert(q <= p) by (nonlinear_arith)
            requires q == (p as int) / (divisor as int), p >= 0, divisor > 0;
        q as i64
    } else {
        let m: u64 = (-p) as u64;
        let q: u64 = (m + divisor as u64 - 1) / divisor as u64;
        assert(q <= m) by (nonlinear_arith)
            requires q == (m + divisor - 1) / (divisor as int), m >= 1, divisor > 0;
        -(q as i64)
    }
}

fn shift_channel(v: u8, e: i32, weight: u32, divisor: u32) -> (r: u8)
    requires
        -255 <= e <= 255,
        divisor > 0,
    ensures
        r == channel_after(v, e as int, weight as int, divisor as int),
{
    let s: i64 = v as i64 + floor_share(e, weight, divisor);
    if s < 0 {
        0
    } else if s > 255 {
        255
    } else {
        s as u8
    }
}

fn shift_pixel(p: &Rgba, first: usize, orig: &Rgb, chosen: &Rgb, weight: u32, divisor: u32) -> (r: Rgba)
    requires
        first <= 1,
        divisor > 0,
    ensures
        r == pixel_after(*p, first as int, *orig, *chosen, weight as int, divisor as int),
{
    let e0: i32 = orig[0] as i32 - chosen[0] as i32;
    let e1: i32 = orig[1] as i32 - chosen[1] as i32;
    let e2: i32 = orig[2] as i32 - chosen[2] as i32;
    if first == 0 {
        [
            shift_channel(p[0], e0, weight, divisor),
            shift_channel(p[1], e1, weight, divisor),
            shift_channel(p[2], e2, weight, divisor),
            p[3],
        ]
    } else {
        [
            p[0],
            shift_channel(p[1], e0, weight, divisor),
            shift_channel(p[2], e1, weight, divisor),
            shift_channel(p[3], e2, weight, divisor),
        ]
    }
}

fn copy_pixels(colors: &[Rgba]) -> (r: Vec<Rgba>)
    ensures
        r@ == colors@,
{
    let mut r: Vec<Rgba> = Vec::with_capacity(colors.len());
    let mut i: usize = 0;
    while i < colors.len()
        invariant
            i <= colors@.len(),
            r@ == colors@.subrange(0, i as int),
        decreases colors@.len() - i,
    {
        r.push(colors[i]);
        i = i + 1;
    }
    assert(colors@.subrange(0, colors@.len() as int) =~= colors@);
    r
}

/// Dithers `colors`, an image of `width` by `height` pixels in raster order,
/// against `palette` with `kernel`. The colour channels of a pixel start at
/// channel `first`; the remaining channel is passed through. `boundary` says
/// which pixels are visited.
pub fn diffuse(
    colors: &[Rgba],
    width: i32,
    height: i32,
    palette: &[Rgb],
    kernel: &Kernel,
    first: usize,
    boundary: Boundary,
) -> (r: Result<Vec<Rgba>, DitherError>)
    requires
        first <= 1,
        kernel.divisor > 0,
    ensures
        diffuse_result(colors@, width as int, height as int, palette@, kernel.taps@, kernel.divisor as int, first as int, boundary, r),
        r.is_ok() ==> r.unwrap()@.len() == colors@.len(),
{
    assert(-0x4000_0000_0000_0000 <= width * height <= 0x4000_0000_0000_0000) by (nonlinear_arith)
        requires -0x8000_0000 <= width <= 0x8000_0000, -0x8000_0000 <= height <= 0x8000_0000;
    let area: i64 = (width as i64) * (height as i64);
    if area as i128 != colors.len() as i128 {
        return Err(DitherError::InvalidDimensions);
    }
    if palette.len() == 0 {
        return Err(DitherError::EmptyPalette);
    }
    if width < 0 || height < 0 {
        // A negative side with a matching area means no row is visited.
        assert(height <= 0) by (nonlinear_arith)
            requires width * height >= 0, width < 0 || height < 0;
        return Ok(copy_pixels(colors));
    }
    let n: usize = colors.len();
    let w: usize = width as usize;
    let h: usize = height as usize;
    let ghost job = diffusion_of(colors@, width as int, height as int, palette@, kernel.taps@, kernel.divisor as int, first as int, boundary);
    let (cols, rows): (usize, usize) = match boundary {
        Boundary::Full => (w, h),
        Boundary::SkipLastRowAndColumn => (
            if w > 0 { w - 1 } else { 0 },
            if h > 0 { h - 1 } else { 0 },
        ),
    };
    assert(cols == job.cols && rows == job.rows);
    let mut out: Vec<Rgba> = copy_pixels(colors);
    let mut y: usize = 0;
    while y < rows
        invariant
            job == diffusion_of(colors@, width as int, height as int, palette@, kernel.taps@, kernel.divisor as int, first as int, boundary),
            first <= 1,
            kernel.divisor > 0,
            palette@.len() > 0,
            w == width,
            h == height,
            w * h == n,
                n == colors@.len(),
            cols <= w,
            rows <= h,
            cols == job.cols,
            rows == job.rows,
            y <= rows,
            out@ == job.scan(y as nat, 0),
            out@.len() == colors@.len(),
        decreases rows - y,
    {
        let mut x: usize = 0;
        while x < cols
            invariant
                job == diffusion_of(colors@, width as int, height as int, palette@, kernel.taps@, kernel.divisor as int, first as int, boundary),
                first <= 1,
                kernel.divisor > 0,
                palette@.len() > 0,
                w == width,
                h == height,
                w * h == n,
                n == colors@.len(),
                cols <= w,
                rows <= h,
                cols == job.cols,
                y < rows,
                x <= cols,
                out@ == job.scan(y as nat, x as nat),
                out@.len() == colors@.len(),
            decreases cols - x,
        {
            assert(y * w + x < n) by (nonlinear_arith)
                requires y < h, x < w, w * h == n;
            let idx: usize = y * w + x;
            let p = colors[idx];
            let orig: Rgb = [p[first], p[first + 1], p[first + 2]];
            let k = nearest_index(palette, &orig);
            let chosen = palette[k];
            assert(orig == job.orig(x as int, y as int));
            assert(chosen == job.chosen(x as int, y as int));
            let ghost start = out@;
            let mut t: usize = 0;
            while t < kernel.taps.len()
                invariant
                    job == diffusion_of(colors@, width as int, height as int, palette@, kernel.taps@, kernel.divisor as int, first as int, boundary),
                    first <= 1,
                    kernel.divisor > 0,
                    w == width,
                    h == height,
                    w * h == n,
                n == colors@.len(),
                    x < w,
                    y < h,
                    t <= kernel.taps@.len(),
                    orig == job.orig(x as int, y as int),
                    chosen == job.chosen(x as int, y as int),
                    out@ == job.spread(start, x as int, y as int, t as nat),
                    out@.len() == colors@.len(),
                decreases kernel.taps@.len() - t,
            {
                let tap = kernel.taps[t];
                let tx: i64 = x as i64 + tap.delta_x as i64;
                let ty: i64 = y as i64 + tap.delta_y as i64;
                if 0 <= tx && tx < w as i64 && 0 <= ty && ty < h as i64 {
                    assert(ty * w + tx < n) by (nonlinear_arith)
                        requires 0 <= ty < h, 0 <= tx < w, w * h == n;
                    let j: usize = (ty as usize) * w + (tx as usize);
                    let q = out[j];
                    let np = shift_pixel(&q, first, &orig, &chosen, tap.weight, kernel.divisor);
                    out[j] = np;
                }
                t = t + 1;
            }
            x = x + 1;
        }
        y = y + 1;
    }
    Ok(out)
}

/// Law: dithering an image whose every pixel already has a palette colour
/// spreads no error: the result is the image unchanged.
pub proof fn lemma_dither_palette_image(
    img: Seq<Rgba>,
    width: int,
    height: int,
    palette: Seq<Rgb>,
    taps: Seq<ErrorComponent>,
    divisor: int,
    first: int,
    boundary: Boundary,
    r: Result<Vec<Rgba>, DitherError>,
)
    requires
        diffuse_result(img, width, height, palette, taps, divisor, first, boundary, r),
        dims_ok(img.len() as int, width, height),
        palette.len() > 0,
        0 <= first <= 1,
        divisor > 0,
        forall|i: int| 0 <= i < img.len() ==> palette.contains(#[trigger] color_at(img[i], first)),
    ensures
        r.is_ok(),
        r.unwrap()@ == img,
{
    let job = diffusion_of(img, width, height, palette, taps, divisor, first, boundary);
    if width < 0 || height < 0 {
        assert(height <= 0) by (nonlinear_arith)
            requires width * height >= 0, width < 0 || height < 0;
        assert(job.result() == job.scan(0, 0));
    } else {
        lemma_scan_unchanged(job, job.rows as nat, 0);
    }
}

proof fn lemma_scan_unchanged(job: Diffusion, y: nat, x: nat)
    requires
        job.palette.len() > 0,
        job.width >= 0,
        job.height >= 0,
        job.img.len() == job.width * job.height,
        0 <= job.first <= 1,
        job.divisor > 0,
        0 <= job.cols <= job.width,
        0 <= job.rows <= job.height,
        forall|i: int| 0 <= i < job.img.len() ==> job.palette.contains(#[trigger] color_at(job.img[i], job.first)),
        y <= job.rows,
        x <= job.cols,
        y == job.rows ==> x == 0,
    ensures
        job.scan(y, x) == job.img,
    decreases y, x,
{
    if x == 0 {
        if y > 0 {
            lemma_scan_unchanged(job, (y - 1) as nat, job.cols as nat);
        }
    } else {
        let px = x - 1;
        lemma_scan_unchanged(job, y, (x - 1) as nat);
        assert(0 <= y * job.width + px < job.width * job.height) by (nonlinear_arith)
            requires 0 <= px < job.width, 0 <= y < job.height;
        let i = y * job.width + px;
        assert(job.palette.contains(color_at(job.img[i], job.first)));
        lemma_nearest(job.palette, job.orig(px, y as int));
        lemma_spread_unchanged(job, px, y as int, job.taps.len());
    }
}

proof fn lemma_spread_unchanged(job: Diffusion, x: int, y: int, t: nat)
    requires
        job.chosen(x, y) == job.orig(x, y),
        job.img.len() == job.width * job.height,
        job.width >= 0,
        job.height >= 0,
        0 <= job.first <= 1,
        job.divisor > 0,
        t <= job.taps.len(),
    ensures
        job.spread(job.img, x, y, t) == job.img,
    decreases t,
{
    broadcast use vstd::array::group_array_axioms;

    if t > 0 {
        lemma_spread_unchanged(job, x, y, (t - 1) as nat);
        let tap = job.taps[t - 1];
        let tx = x + tap.delta_x;
        let ty = y + tap.delta_y;
        if 0 <= tx < job.width && 0 <= ty < job.height {
            let j = ty * job.width + tx;
            assert(0 <= j < job.width * job.height) by (nonlinear_arith)
                requires 0 <= tx < job.width, 0 <= ty < job.height, j == ty * job.width + tx;
            let p = job.img[j];
            let np = pixel_after(p, job.first, job.orig(x, y), job.chosen(x, y), tap.weight as int, job.divisor);
            assert(0int / job.divisor == 0);
            assert(np@ =~= p@);
            assert(np =~= p);
            assert(job.img.update(j, np) =~= job.img);
        }
    }
}

} // verus!
