//! Median-cut palettes: the colours are split again and again along the
//! channel of widest spread, at the median, and each part gives its mean.
use vstd::prelude::*;
use crate::color::{Rgb, Rgba, rgb_of, rgb_seq, rgb_from_rgba};
use crate::palette::{QuantizeError, quantized, finish_palette, ascending, lemma_palette_of, lemma_palette_of_single};

verus! {

/// The least value of channel `c` in `raw` (255 for no colours).
pub open spec fn ch_lo(raw: Seq<Rgb>, c: int) -> u8
    decreases raw.len(),
{
    if raw.len() == 0 {
        255
    } else {
        let m = ch_lo(raw.drop_last(), c);
        if raw.last()[c] < m { raw.last()[c] } else { m }
    }
}

/// The greatest value of channel `c` in `raw` (0 for no colours).
pub open spec fn ch_hi(raw: Seq<Rgb>, c: int) -> u8
    decreases raw.len(),
{
    if raw.len() == 0 {
        0
    } else {
        let m = ch_hi(raw.drop_last(), c);
        if raw.last()[c] > m { raw.last()[c] } else { m }
    }
}

/// How far the values of channel `c` in `raw` spread.
pub open spec fn spread(raw: Seq<Rgb>, c: int) -> int {
    if raw.len() == 0 { 0 } else { ch_hi(raw, c) - ch_lo(raw, c) }
}

/// The channel of widest spread; the lowest such channel on a tie.
pub open spec fn widest(raw: Seq<Rgb>) -> int {
    let s0 = spread(raw, 0);
    let s1 = spread(raw, 1);
    let s2 = spread(raw, 2);
    if s1 > s0 {
        if s2 > s1 { 2 } else { 1 }
    } else {
        if s2 > s0 { 2 } else { 0 }
    }
}

/// The widest spread of `raw`.
pub open spec fn widest_spread(raw: Seq<Rgb>) -> int {
    spread(raw, widest(raw))
}

/// The colours of `raw` whose channel `c` is `v`, in their order.
pub open spec fn with_key(raw: Seq<Rgb>, c: int, v: int) -> Seq<Rgb>
    decreases raw.len(),
{
    if raw.len() == 0 {
        Seq::empty()
    } else {
        let rest = with_key(raw.drop_last(), c, v);
        if raw.last()[c] == v { rest.push(raw.last()) } else { rest }
    }
}

/// The colours of `raw` whose channel `c` is below `v`, by that channel,
/// colours of one value in their order.
pub open spec fn bucketed(raw: Seq<Rgb>, c: int, v: nat) -> Seq<Rgb>
    decreases v,
{
    if v == 0 {
        Seq::empty()
    } else {
        bucketed(raw, c, (v - 1) as nat) + with_key(raw, c, v - 1)
    }
}

/// `raw` sorted by channel `c`; colours of one value keep their order.
pub open spec fn by_channel(raw: Seq<Rgb>, c: int) -> Seq<Rgb> {
    bucketed(raw, c, 256)
}

/// How many colours of `raw` have channel `c` below `v`.
pub open spec fn count_below(raw: Seq<Rgb>, c: int, v: int) -> nat
    decreases raw.len(),
{
    if raw.len() == 0 {
        0
    } else {
        count_below(raw.drop_last(), c, v) + if raw.last()[c] < v { 1nat } else { 0nat }
    }
}

/// The lower half of `raw` sorted along its widest channel.
pub open spec fn lower_half(raw: Seq<Rgb>) -> Seq<Rgb> {
    let s = by_channel(raw, widest(raw));
    s.subrange(0, (s.len() / 2) as int)
}

/// The upper half of `raw` sorted along its widest channel.
pub open spec fn upper_half(raw: Seq<Rgb>) -> Seq<Rgb> {
    let s = by_channel(raw, widest(raw));
    s.subrange((s.len() / 2) as int, s.len() as int)
}

/// The sum of channel `c` over `raw`.
pub open spec fn ch_sum(raw: Seq<Rgb>, c: int) -> int
    decreases raw.len(),
{
    if raw.len() == 0 { 0 } else { ch_sum(raw.drop_last(), c) + raw.last()[c] }
}

/// The mean colour of `raw`, each channel rounded down.
pub open spec fn mean(raw: Seq<Rgb>) -> Rgb {
    [
        (ch_sum(raw, 0) / raw.len() as int) as u8,
        (ch_sum(raw, 1) / raw.len() as int) as u8,
        (ch_sum(raw, 2) / raw.len() as int) as u8,
    ]
}

/// Among the first `n` clusters, the last one of widest spread.
pub open spec fn pick_upto(cl: Seq<Seq<Rgb>>, n: nat) -> int
    decreases n,
{
    if n <= 1 {
        0
    } else {
        let k = pick_upto(cl, (n - 1) as nat);
        if widest_spread(cl[n - 1]) >= widest_spread(cl[k]) { n - 1 } else { k }
    }
}

/// The cluster that is split next.
pub open spec fn pick(cl: Seq<Seq<Rgb>>) -> int {
    pick_upto(cl, cl.len())
}

/// One split: the picked cluster leaves, its two halves join at the end.
pub open spec fn cut_step(cl: Seq<Seq<Rgb>>) -> Seq<Seq<Rgb>> {
    let i = pick(cl);
    cl.remove(i).push(lower_half(cl[i])).push(upper_half(cl[i]))
}

/// Splits while there are fewer than `k` clusters and the picked one has a
/// spread, for at most `fuel` splits.
pub open spec fn cut(cl: Seq<Seq<Rgb>>, k: int, fuel: nat) -> Seq<Seq<Rgb>>
    decreases fuel,
{
    if fuel > 0 && cl.len() < k && widest_spread(cl[pick(cl)]) > 0 {
        cut(cut_step(cl), k, (fuel - 1) as nat)
    } else {
        cl
    }
}

/// The clusters that median cut ends with, for a palette of at most `k` colours.
pub open spec fn median_cut_clusters(colors: Seq<Rgba>, k: int) -> Seq<Seq<Rgb>> {
    cut(seq![rgb_seq(colors)], k, k as nat)
}

/// The representative colours of median cut: one mean per final cluster.
pub open spec fn median_cut_means(colors: Seq<Rgba>, k: int) -> Seq<Rgb> {
    median_cut_clusters(colors, k).map_values(|raw: Seq<Rgb>| mean(raw))
}

proof fn lemma_bounds(raw: Seq<Rgb>, c: int)
    requires
        raw.len() > 0,
        0 <= c < 3,
    ensures
        forall|i: int| 0 <= i < raw.len() ==> ch_lo(raw, c) <= (#[trigger] raw[i])[c] <= ch_hi(raw, c),
        raw.len() == 1 ==> ch_lo(raw, c) == ch_hi(raw, c),
    decreases raw.len(),
{
    if raw.len() > 1 {
        lemma_bounds(raw.drop_last(), c);
        assert forall|i: int| 0 <= i < raw.len() implies ch_lo(raw, c) <= (#[trigger] raw[i])[c] <= ch_hi(raw, c) by {
            if i < raw.len() - 1 {
                assert(raw.drop_last()[i] == raw[i]);
            }
        }
    } else {
        assert(ch_lo(raw.drop_last(), c) == 255);
        assert(ch_hi(raw.drop_last(), c) == 0);
    }
}

proof fn lemma_with_key_empty(raw: Seq<Rgb>, c: int, v: int)
    requires
        forall|i: int| 0 <= i < raw.len() ==> (#[trigger] raw[i])[c] != v,
    ensures
        with_key(raw, c, v) == Seq::<Rgb>::empty(),
    decreases raw.len(),
{
    if raw.len() > 0 {
        assert forall|i: int| 0 <= i < raw.drop_last().len() implies (#[trigger] raw.drop_last()[i])[c] != v by {
            assert(raw.drop_last()[i] == raw[i]);
        }
        lemma_with_key_empty(raw.drop_last(), c, v);
        assert(raw[raw.len() - 1][c] != v);
    }
}

proof fn lemma_count_step(raw: Seq<Rgb>, c: int, v: int)
    ensures
        count_below(raw, c, v + 1) == count_below(raw, c, v) + with_key(raw, c, v).len(),
    decreases raw.len(),
{
    if raw.len() > 0 {
        lemma_count_step(raw.drop_last(), c, v);
    }
}

proof fn lemma_count_all(raw: Seq<Rgb>, c: int)
    requires
        0 <= c < 3,
    ensures
        count_below(raw, c, 256) == raw.len(),
    decreases raw.len(),
{
    if raw.len() > 0 {
        lemma_count_all(raw.drop_last(), c);
    }
}

proof fn lemma_bucketed_len(raw: Seq<Rgb>, c: int, v: nat)
    ensures
        bucketed(raw, c, v).len() == count_below(raw, c, v as int),
    decreases v,
{
    if v == 0 {
        lemma_count_zero(raw, c);
    } else {
        lemma_bucketed_len(raw, c, (v - 1) as nat);
        lemma_count_step(raw, c, v - 1);
    }
}

proof fn lemma_count_zero(raw: Seq<Rgb>, c: int)
    ensures
        count_below(raw, c, 0) == 0,
    decreases raw.len(),
{
    if raw.len() > 0 {
        lemma_count_zero(raw.drop_last(), c);
    }
}

/// Sorting along a channel keeps the number of colours.
proof fn lemma_by_channel_len(raw: Seq<Rgb>, c: int)
    requires
        0 <= c < 3,
    ensures
        by_channel(raw, c).len() == raw.len(),
{
    lemma_bucketed_len(raw, c, 256);
    lemma_count_all(raw, c);
}

proof fn lemma_sum_bound(raw: Seq<Rgb>, c: int)
    requires
        0 <= c < 3,
    ensures
        0 <= ch_sum(raw, c) <= 255 * raw.len(),
    decreases raw.len(),
{
    if raw.len() > 0 {
        lemma_sum_bound(raw.drop_last(), c);
    }
}

/// A cluster of median cut: its colours, with duplicates, and its widest
/// channel and that channel's spread.
pub struct Cluster {
    pub raw: Vec<Rgb>,
    pub largest_spread: u8,
    pub component_with_largest_spread: usize,
}

impl Cluster {
    /// The cluster holds colours, and its widest channel is up to date.
    pub open spec fn wf(&self) -> bool {
        &&& self.raw@.len() > 0
        &&& self.component_with_largest_spread == widest(self.raw@)
        &&& self.largest_spread == widest_spread(self.raw@)
    }

    fn bounds(raw: &Vec<Rgb>, c: usize) -> (r: (u8, u8))
        requires
            c < 3,
        ensures
            r.0 == ch_lo(raw@, c as int),
            r.1 == ch_hi(raw@, c as int),
    {
        let mut lo: u8 = 255;
        let mut hi: u8 = 0;
        let mut i: usize = 0;
        while i < raw.len()
            invariant
                c < 3,
                i <= raw@.len(),
                lo == ch_lo(raw@.subrange(0, i as int), c as int),
                hi == ch_hi(raw@.subrange(0, i as int), c as int),
            decreases raw@.len() - i,
        {
            proof {
                assert(raw@.subrange(0, i + 1).drop_last() =~= raw@.subrange(0, i as int));
            }
            let v = raw[i][c];
            if v < lo {
                lo = v;
            }
            if v > hi {
                hi = v;
            }
            i = i + 1;
        }
        assert(raw@.subrange(0, raw@.len() as int) =~= raw@);
        (lo, hi)
    }

    fn new(raw: Vec<Rgb>) -> (r: Cluster)
        requires
            raw@.len() > 0,
        ensures
            r.wf(),
            r.raw@ == raw@,
    {
        let mut largest_spread: u8 = 0;
        let mut component_with_largest_spread: usize = 0;
        let mut component: usize = 0;
        while component < 3
            invariant
                raw@.len() > 0,
                component <= 3,
                component_with_largest_spread < 3,
                component == 0 ==> component_with_largest_spread == 0 && largest_spread == 0,
                component == 1 ==> component_with_largest_spread == 0 && largest_spread == spread(raw@, 0),
                component == 2 ==> component_with_largest_spread == (if spread(raw@, 1) > spread(raw@, 0) { 1int } else { 0int }),
                component >= 1 ==> largest_spread == spread(raw@, component_with_largest_spread as int),
                component == 3 ==> component_with_largest_spread == widest(raw@),
            decreases 3 - component,
        {
            let (lo, hi) = Cluster::bounds(&raw, component);
            proof {
                lemma_bounds(raw@, component as int);
                assert(raw@[0][component as int] <= hi);
            }
            let s: u8 = hi - lo;
            if component == 0 || s > largest_spread {
                largest_spread = s;
                component_with_largest_spread = component;
            }
            component = component + 1;
        }
        Cluster { raw, largest_spread, component_with_largest_spread }
    }

    /// The cluster of the colour channels of `colors`.
    fn form_rgba(colors: &[Rgba]) -> (r: Cluster)
        requires
            colors@.len() > 0,
        ensures
            r.wf(),
            r.raw@ == rgb_seq(colors@),
    {
        let mut raw: Vec<Rgb> = Vec::with_capacity(colors.len());
        let mut i: usize = 0;
        while i < colors.len()
            invariant
                i <= colors@.len(),
                raw@ == rgb_seq(colors@.subrange(0, i as int)),
            decreases colors@.len() - i,
        {
            raw.push(rgb_from_rgba(&colors[i]));
            i = i + 1;
            assert(rgb_seq(colors@.subrange(0, i as int)) =~= raw@);
        }
        assert(colors@.subrange(0, colors@.len() as int) =~= colors@);
        Cluster::new(raw)
    }

    /// The cluster of `colors[from..to]`.
    fn form_rgb(colors: &Vec<Rgb>, from: usize, to: usize) -> (r: Cluster)
        requires
            from < to <= colors@.len(),
        ensures
            r.wf(),
            r.raw@ == colors@.subrange(from as int, to as int),
    {
        let mut raw: Vec<Rgb> = Vec::with_capacity(to - from);
        let mut i: usize = from;
        while i < to
            invariant
                from <= i <= to,
                to <= colors@.len(),
                raw@ == colors@.subrange(from as int, i as int),
            decreases to - i,
        {
            raw.push(colors[i]);
            i = i + 1;
            assert(colors@.subrange(from as int, i as int) =~= raw@);
        }
        Cluster::new(raw)
    }

    /// The colours sorted along channel `c`, colours of one value in their order.
    fn sorted_by(&self, c: usize) -> (r: Vec<Rgb>)
        requires
            self.wf(),
            c < 3,
        ensures
            r@ == by_channel(self.raw@, c as int),
    {
        let raw = &self.raw;
        let (lo, hi) = Cluster::bounds(raw, c);
        proof {
            lemma_bounds(raw@, c as int);
        }
        let mut out: Vec<Rgb> = Vec::new();
        let mut v: u16 = 0;
        while v < 256
            invariant
                c < 3,
                v <= 256,
                lo == ch_lo(raw@, c as int),
                hi == ch_hi(raw@, c as int),
                forall|i: int| 0 <= i < raw@.len() ==> lo <= (#[trigger] raw@[i])[c as int] <= hi,
                out@ == bucketed(raw@, c as int, v as nat),
            decreases 256 - v,
        {
            if lo as u16 <= v && v <= hi as u16 {
                let mut i: usize = 0;
                while i < raw.len()
                    invariant
                        c < 3,
                        v < 256,
                        i <= raw@.len(),
                        out@ == bucketed(raw@, c as int, v as nat) + with_key(raw@.subrange(0, i as int), c as int, v as int),
                    decreases raw@.len() - i,
                {
                    proof {
                        assert(raw@.subrange(0, i + 1).drop_last() =~= raw@.subrange(0, i as int));
                    }
                    if raw[i][c] as u16 == v {
                        out.push(raw[i]);
                        proof {
                            assert(out@ =~= bucketed(raw@, c as int, v as nat) + with_key(raw@.subrange(0, i + 1), c as int, v as int));
                        }
                    }
                    i = i + 1;
                }
                assert(raw@.subrange(0, raw@.len() as int) =~= raw@);
            } else {
                proof {
                    lemma_with_key_empty(raw@, c as int, v as int);
                }
            }
            proof {
                assert(bucketed(raw@, c as int, (v + 1) as nat) == bucketed(raw@, c as int, v as nat) + with_key(raw@, c as int, v as int));
                assert(out@ =~= bucketed(raw@, c as int, (v + 1) as nat));
            }
            v = v + 1;
        }
        out
    }

    /// Splits the cluster at the median of its widest channel.
    fn split(&self) -> (r: (Cluster, Cluster))
        requires
            self.wf(),
            self.largest_spread > 0,
        ensures
            r.0.wf(),
            r.1.wf(),
            r.0.raw@ == lower_half(self.raw@),
            r.1.raw@ == upper_half(self.raw@),
    {
        proof {
            let raw = self.raw@;
            if raw.len() == 1 {
                lemma_bounds(raw, 0);
                lemma_bounds(raw, 1);
                lemma_bounds(raw, 2);
            }
            lemma_by_channel_len(raw, widest(raw));
        }
        let sorted = self.sorted_by(self.component_with_largest_spread);
        let median = sorted.len() / 2;
        (Cluster::form_rgb(&sorted, 0, median), Cluster::form_rgb(&sorted, median, sorted.len()))
    }

    /// The mean colour of the cluster, each channel rounded down.
    fn avg(&self) -> (r: Rgb)
        requires
            self.wf(),
        ensures
            r == mean(self.raw@),
    {
        let raw = &self.raw;
        let mut s0: u128 = 0;
        let mut s1: u128 = 0;
        let mut s2: u128 = 0;
        let mut i: usize = 0;
        while i < raw.len()
            invariant
                i <= raw@.len(),
                s0 == ch_sum(raw@.subrange(0, i as int), 0),
                s1 == ch_sum(raw@.subrange(0, i as int), 1),
                s2 == ch_sum(raw@.subrange(0, i as int), 2),
                s0 <= 255 * i,
                s1 <= 255 * i,
                s2 <= 255 * i,
            decreases raw@.len() - i,
        {
            proof {
                assert(raw@.subrange(0, i + 1).drop_last() =~= raw@.subrange(0, i as int));
            }
            s0 = s0 + raw[i][0] as u128;
            s1 = s1 + raw[i][1] as u128;
            s2 = s2 + raw[i][2] as u128;
            i = i + 1;
        }
        assert(raw@.subrange(0, raw@.len() as int) =~= raw@);
        let total: u128 = raw.len() as u128;
        assert(s0 / total <= 255 && s1 / total <= 255 && s2 / total <= 255) by (nonlinear_arith)
            requires s0 <= 255 * total, s1 <= 255 * total, s2 <= 255 * total, total > 0;
        [(s0 / total) as u8, (s1 / total) as u8, (s2 / total) as u8]
    }
}

/// The colours of the clusters.
pub open spec fn raws(cl: Seq<Cluster>) -> Seq<Seq<Rgb>> {
    cl.map_values(|c: Cluster| c.raw@)
}

fn pick_cluster(clusters: &Vec<Cluster>) -> (r: usize)
    requires
        clusters@.len() > 0,
        forall|i: int| 0 <= i < clusters@.len() ==> (#[trigger] clusters@[i]).wf(),
    ensures
        r == pick(raws(clusters@)),
        r < clusters@.len(),
{
    let ghost cl = raws(clusters@);
    let mut best: usize = 0;
    let mut i: usize = 1;
    while i < clusters.len()
        invariant
            1 <= i <= clusters@.len(),
            cl == raws(clusters@),
            forall|j: int| 0 <= j < clusters@.len() ==> (#[trigger] clusters@[j]).wf(),
            best == pick_upto(cl, i as nat),
            best < i,
        decreases clusters@.len() - i,
    {
        assert(clusters@[i as int].raw@ == cl[i as int]);
        assert(clusters@[best as int].raw@ == cl[best as int]);
        if clusters[i].largest_spread >= clusters[best].largest_spread {
            best = i;
        }
        i = i + 1;
    }
    best
}

/// Builds a palette of at most `max_color_count` colours by median cut. The
/// colours are split, largest spread first, until there are
/// `max_color_count` clusters or no cluster has two different colours.
pub fn mediancut_quantizer(colors: &[Rgba], max_color_count: usize, sort: bool) -> (r: Result<Vec<Rgb>, QuantizeError>)
    ensures
        quantized(colors@, max_color_count, sort, median_cut_means(colors@, max_color_count as int), r),
        r.is_ok() ==> r.unwrap()@.len() <= max_color_count,
        r.is_ok() ==> r.unwrap()@.no_duplicates(),
        r.is_ok() && sort ==> ascending(r.unwrap()@),
{
    if colors.len() == 0 || max_color_count == 0 {
        return Err(QuantizeError::InvalidInput);
    }
    let k = max_color_count;
    let mut clusters: Vec<Cluster> = Vec::new();
    clusters.push(Cluster::form_rgba(colors));
    let ghost target = median_cut_clusters(colors@, k as int);
    assert(raws(clusters@) =~= seq![rgb_seq(colors@)]);
    while clusters.len() < k
        invariant
            0 < clusters@.len() <= k,
            forall|i: int| 0 <= i < clusters@.len() ==> (#[trigger] clusters@[i]).wf(),
            target == cut(raws(clusters@), k as int, (k - clusters@.len() + 1) as nat),
        ensures
            0 < clusters@.len() <= k,
            forall|i: int| 0 <= i < clusters@.len() ==> (#[trigger] clusters@[i]).wf(),
            target == raws(clusters@),
        decreases k - clusters@.len(),
    {
        let i = pick_cluster(&clusters);
        assert(clusters@[i as int].raw@ == raws(clusters@)[i as int]);
        if clusters[i].largest_spread == 0 {
            assert(widest_spread(raws(clusters@)[pick(raws(clusters@))]) == 0);
            break;
        }
        let ghost before = raws(clusters@);
        let c = clusters.remove(i);
        let (a, b) = c.split();
        clusters.push(a);
        clusters.push(b);
        proof {
            assert(raws(clusters@) =~= cut_step(before));
        }
    }
    let mut means: Vec<Rgb> = Vec::with_capacity(clusters.len());
    let mut j: usize = 0;
    while j < clusters.len()
        invariant
            j <= clusters@.len(),
            forall|i: int| 0 <= i < clusters@.len() ==> (#[trigger] clusters@[i]).wf(),
            means@ == raws(clusters@).subrange(0, j as int).map_values(|raw: Seq<Rgb>| mean(raw)),
        decreases clusters@.len() - j,
    {
        means.push(clusters[j].avg());
        j = j + 1;
        assert(means@ =~= raws(clusters@).subrange(0, j as int).map_values(|raw: Seq<Rgb>| mean(raw)));
    }
    assert(raws(clusters@).subrange(0, clusters@.len() as int) =~= raws(clusters@));
    assert(target == raws(clusters@));
    let palette = finish_palette(&means, sort);
    proof {
        lemma_palette_of(means@, sort, palette@);
    }
    Ok(palette)
}

proof fn lemma_uniform(raw: Seq<Rgb>, c: Rgb, ch: int)
    requires
        raw.len() > 0,
        0 <= ch < 3,
        forall|i: int| 0 <= i < raw.len() ==> #[trigger] raw[i] == c,
    ensures
        ch_lo(raw, ch) == c[ch],
        ch_hi(raw, ch) == c[ch],
        ch_sum(raw, ch) == raw.len() * c[ch],
    decreases raw.len(),
{
    if raw.len() > 1 {
        assert forall|i: int| 0 <= i < raw.drop_last().len() implies #[trigger] raw.drop_last()[i] == c by {
            assert(raw.drop_last()[i] == raw[i]);
        }
        lemma_uniform(raw.drop_last(), c, ch);
        assert(raw.last() == c);
        assert(ch_sum(raw, ch) == (raw.len() - 1) * c[ch] + c[ch]);
        assert((raw.len() - 1) * c[ch] + c[ch] == raw.len() * c[ch]) by (nonlinear_arith);
    } else {
        assert(raw.last() == c);
        assert(ch_lo(raw.drop_last(), ch) == 255);
        assert(ch_hi(raw.drop_last(), ch) == 0);
        assert(ch_sum(raw.drop_last(), ch) == 0);
    }
}

/// Law: an image of one colour, with any bound on the palette, gives a
/// palette of that colour alone; the cluster of one colour is never split.
pub proof fn lemma_median_cut_single_color(
    colors: Seq<Rgba>,
    k: usize,
    sort: bool,
    c: Rgb,
    r: Result<Vec<Rgb>, QuantizeError>,
)
    requires
        quantized(colors, k, sort, median_cut_means(colors, k as int), r),
        colors.len() > 0,
        k > 0,
        forall|i: int| 0 <= i < colors.len() ==> rgb_of(#[trigger] colors[i]) == c,
    ensures
        r.is_ok(),
        r.unwrap()@ == seq![c],
{
    let raw = rgb_seq(colors);
    assert forall|i: int| 0 <= i < raw.len() implies #[trigger] raw[i] == c by {
        assert(raw[i] == rgb_of(colors[i]));
    }
    lemma_uniform(raw, c, 0);
    lemma_uniform(raw, c, 1);
    lemma_uniform(raw, c, 2);
    let cl = seq![raw];
    assert(pick(cl) == 0);
    assert(widest_spread(raw) == 0);
    assert(median_cut_clusters(colors, k as int) == cl);
    let n = raw.len() as int;
    assert forall|ch: int| 0 <= ch < 3 implies (n * c[ch]) / n == c[ch] by {
        vstd::arithmetic::div_mod::lemma_div_multiples_vanish(c[ch] as int, n);
        assert(n * c[ch] == c[ch] * n) by (nonlinear_arith);
    }
    assert(mean(raw) =~= c) by {
        broadcast use vstd::array::group_array_axioms;
        assert(mean(raw)[0] == c[0]);
        assert(mean(raw)[1] == c[1]);
        assert(mean(raw)[2] == c[2]);
    }
    let means = median_cut_means(colors, k as int);
    assert(means =~= seq![c]);
    lemma_palette_of_single(means, c, sort, r.unwrap()@);
}

} // verus!
