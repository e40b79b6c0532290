//! Colour values: three-channel colours and four-channel pixels.
use vstd::prelude::*;

verus! {

/// A colour as its red, green and blue channels.
pub type Rgb = [u8; 3];

/// A pixel of four 8-bit channels (red, green, blue, alpha).
pub type Rgba = [u8; 4];

/// The colour channels of an `Rgba` pixel; the fourth channel is dropped.
pub open spec fn rgb_of(p: Rgba) -> Rgb {
    [p[0], p[1], p[2]]
}

/// The colours of a pixel sequence, channel triples only.
pub open spec fn rgb_seq(s: Seq<Rgba>) -> Seq<Rgb> {
    s.map_values(|p: Rgba| rgb_of(p))
}

/// How many different colours a pixel sequence holds.
pub open spec fn distinct_count(s: Seq<Rgba>) -> nat {
    rgb_seq(s).to_set().len()
}

/// Strict lexicographic order on channel triples.
pub open spec fn lex_lt(a: Rgb, b: Rgb) -> bool {
    a[0] < b[0] || (a[0] == b[0] && (a[1] < b[1] || (a[1] == b[1] && a[2] < b[2])))
}

/// Squared Euclidean distance over the three channels.
pub open spec fn sq_dist(a: Rgb, b: Rgb) -> int {
    (a[0] - b[0]) * (a[0] - b[0]) + (a[1] - b[1]) * (a[1] - b[1]) + (a[2] - b[2]) * (a[2] - b[2])
}

pub proof fn lemma_rgb_eq(a: Rgb, b: Rgb)
    ensures
        (a == b) <==> (a[0] == b[0] && a[1] == b[1] && a[2] == b[2]),
{
    broadcast use vstd::array::group_array_axioms;

    if a[0] == b[0] && a[1] == b[1] && a[2] == b[2] {
        assert(a@ =~= b@);
        assert(a =~= b);
    }
}

pub proof fn lemma_lex_total(a: Rgb, b: Rgb)
    ensures
        !lex_lt(a, a),
        lex_lt(a, b) ==> !lex_lt(b, a),
        a != b ==> lex_lt(a, b) || lex_lt(b, a),
{
    lemma_rgb_eq(a, b);
}

pub proof fn lemma_lex_trans(a: Rgb, b: Rgb, c: Rgb)
    requires
        lex_lt(a, b),
        lex_lt(b, c),
    ensures
        lex_lt(a, c),
{
}

pub proof fn lemma_sq_dist_zero(a: Rgb, b: Rgb)
    ensures
        sq_dist(a, b) >= 0,
        sq_dist(a, b) == 0 <==> a == b,
{
    lemma_rgb_eq(a, b);
    let d0 = a[0] - b[0];
    let d1 = a[1] - b[1];
    let d2 = a[2] - b[2];
    assert(d0 * d0 >= 0 && d1 * d1 >= 0 && d2 * d2 >= 0) by (nonlinear_arith);
    assert(d0 * d0 == 0 ==> d0 == 0) by (nonlinear_arith);
    assert(d1 * d1 == 0 ==> d1 == 0) by (nonlinear_arith);
    assert(d2 * d2 == 0 ==> d2 == 0) by (nonlinear_arith);
}

/// The index of the colour of `pal[0..n]` nearest to `c`; the first one on a tie.
pub open spec fn nearest_upto(pal: Seq<Rgb>, c: Rgb, n: nat) -> int
    decreases n,
{
    if n <= 1 {
        0
    } else {
        let k = nearest_upto(pal, c, (n - 1) as nat);
        if sq_dist(c, pal[n - 1]) < sq_dist(c, pal[k]) {
            n - 1
        } else {
            k
        }
    }
}

/// The index of the colour of `pal` nearest to `c`; the first one on a tie.
pub open spec fn nearest(pal: Seq<Rgb>, c: Rgb) -> int {
    nearest_upto(pal, c, pal.len())
}

pub proof fn lemma_nearest_upto(pal: Seq<Rgb>, c: Rgb, n: nat)
    requires
        1 <= n <= pal.len(),
    ensures
        0 <= nearest_upto(pal, c, n) < n,
        forall|j: int| 0 <= j < n ==> sq_dist(c, pal[nearest_upto(pal, c, n)]) <= sq_dist(c, #[trigger] pal[j]),
    decreases n,
{
    if n > 1 {
        lemma_nearest_upto(pal, c, (n - 1) as nat);
    }
}

/// The nearest colour is at least as near as every colour of the palette, and
/// is `c` itself when the palette holds `c`.
pub proof fn lemma_nearest(pal: Seq<Rgb>, c: Rgb)
    requires
        pal.len() > 0,
    ensures
        0 <= nearest(pal, c) < pal.len(),
        forall|j: int| 0 <= j < pal.len() ==> sq_dist(c, pal[nearest(pal, c)]) <= sq_dist(c, #[trigger] pal[j]),
        pal.contains(c) ==> pal[nearest(pal, c)] == c,
{
    lemma_nearest_upto(pal, c, pal.len());
    if pal.contains(c) {
        let j = choose|j: int| 0 <= j < pal.len() && pal[j] == c;
        lemma_sq_dist_zero(c, pal[j]);
        lemma_sq_dist_zero(c, pal[nearest(pal, c)]);
    }
}

/// The index of the palette colour nearest to `c`, the first one on a tie.
pub fn nearest_index(pal: &[Rgb], c: &Rgb) -> (r: usize)
    requires
        pal@.len() > 0,
    ensures
        r == nearest(pal@, *c),
        r < pal@.len(),
{
    let mut best: usize = 0;
    let mut best_dist: u32 = distance(c, &pal[0]);
    let mut i: usize = 1;
    while i < pal.len()
        invariant
            1 <= i <= pal@.len(),
            best == nearest_upto(pal@, *c, i as nat),
            best < i,
            best_dist == sq_dist(*c, pal@[best as int]),
        decreases pal@.len() - i,
    {
        let d = distance(c, &pal[i]);
        if d < best_dist {
            best = i;
            best_dist = d;
        }
        i = i + 1;
    }
    best
}

/// Exact equality of two colours.
pub fn same_rgb(a: &Rgb, b: &Rgb) -> (r: bool)
    ensures
        r == (*a == *b),
{
    proof {
        lemma_rgb_eq(*a, *b);
    }
    a[0] == b[0] && a[1] == b[1] && a[2] == b[2]
}

/// Lexicographic comparison of two colours.
pub fn rgb_less(a: &Rgb, b: &Rgb) -> (r: bool)
    ensures
        r == lex_lt(*a, *b),
{
    a[0] < b[0] || (a[0] == b[0] && (a[1] < b[1] || (a[1] == b[1] && a[2] < b[2])))
}

/// The colour channels of a pixel.
pub fn rgb_from_rgba(p: &Rgba) -> (r: Rgb)
    ensures
        r == rgb_of(*p),
{
    [p[0], p[1], p[2]]
}

/// Squared Euclidean distance of two colours.
pub fn distance(a: &Rgb, b: &Rgb) -> (r: u32)
    ensures
        r == sq_dist(*a, *b),
{
    let d0: i32 = a[0] as i32 - b[0] as i32;
    let d1: i32 = a[1] as i32 - b[1] as i32;
    let d2: i32 = a[2] as i32 - b[2] as i32;
    assert(0 <= d0 * d0 <= 65025) by (nonlinear_arith)
        requires -255 <= d0 <= 255;
    assert(0 <= d1 * d1 <= 65025) by (nonlinear_arith)
        requires -255 <= d1 <= 255;
    assert(0 <= d2 * d2 <= 65025) by (nonlinear_arith)
        requires -255 <= d2 <= 255;
    (d0 * d0 + d1 * d1 + d2 * d2) as u32
}

} // verus!
