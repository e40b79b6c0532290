//! Weighted k-means palettes over the distinct colours of an image, each
//! weighted by how often it occurs.
use vstd::prelude::*;
use std::collections::HashMap;
use crate::color::{Rgb, Rgba, rgb_of, rgb_seq, distinct_count, nearest, nearest_index, lemma_nearest, lemma_rgb_eq, rgb_from_rgba};
use crate::palette::{QuantizeError, quantized, finish_palette, palette_of, dedup, ascending, lemma_dedup, lemma_palette_of, lemma_palette_of_single};

verus! {

/// How many rounds of reassignment k-means runs at most. A run that reaches
/// this bound without settling keeps the centroids it has, and says so.
pub const MAX_ROUNDS: u32 = 100;

/// How often `c` occurs in `s`.
pub open spec fn occurrences(s: Seq<Rgb>, c: Rgb) -> nat
    decreases s.len(),
{
    if s.len() == 0 {
        0
    } else {
        occurrences(s.drop_last(), c) + if s.last() == c { 1nat } else { 0nat }
    }
}

/// The sum of `w`.
pub open spec fn total(w: Seq<usize>) -> int
    decreases w.len(),
{
    if w.len() == 0 { 0 } else { total(w.drop_last()) + w.last() }
}

/// The distinct colours of `colors`, in order of first occurrence.
pub open spec fn distinct_colors(colors: Seq<Rgba>) -> Seq<Rgb> {
    dedup(rgb_seq(colors))
}

/// The weight of each distinct colour: how often it occurs.
pub open spec fn color_weights(colors: Seq<Rgba>) -> Seq<usize> {
    let keys = distinct_colors(colors);
    Seq::new(keys.len(), |i: int| occurrences(rgb_seq(colors), keys[i]) as usize)
}

/// The centroid that each colour of `keys` is assigned to: the nearest, the
/// first one on a tie.
pub open spec fn assign(cs: Seq<Rgb>, keys: Seq<Rgb>) -> Seq<usize> {
    Seq::new(keys.len(), |i: int| nearest(cs, keys[i]) as usize)
}

/// The weight of the first `n` colours assigned to centroid `j`.
pub open spec fn member_weight(w: Seq<usize>, a: Seq<usize>, j: int, n: nat) -> int
    decreases n,
{
    if n == 0 {
        0
    } else {
        member_weight(w, a, j, (n - 1) as nat) + if a[n - 1] == j { w[n - 1] as int } else { 0 }
    }
}

/// The weighted sum of channel `ch` over the first `n` colours assigned to centroid `j`.
pub open spec fn member_sum(keys: Seq<Rgb>, w: Seq<usize>, a: Seq<usize>, j: int, ch: int, n: nat) -> int
    decreases n,
{
    if n == 0 {
        0
    } else {
        member_sum(keys, w, a, j, ch, (n - 1) as nat) + if a[n - 1] == j { w[n - 1] * keys[n - 1][ch] } else { 0 }
    }
}

/// Centroid `j` moved to the weighted mean of its colours, each channel
/// rounded down; a centroid without colours stays where it is.
pub open spec fn moved(cs: Seq<Rgb>, keys: Seq<Rgb>, w: Seq<usize>, a: Seq<usize>, j: int) -> Rgb {
    let mw = member_weight(w, a, j, keys.len());
    if mw > 0 {
        [
            (member_sum(keys, w, a, j, 0, keys.len()) / mw) as u8,
            (member_sum(keys, w, a, j, 1, keys.len()) / mw) as u8,
            (member_sum(keys, w, a, j, 2, keys.len()) / mw) as u8,
        ]
    } else {
        cs[j]
    }
}

/// Every centroid moved to the mean of its colours.
pub open spec fn recenter(cs: Seq<Rgb>, keys: Seq<Rgb>, w: Seq<usize>, a: Seq<usize>) -> Seq<Rgb> {
    Seq::new(cs.len(), |j: int| moved(cs, keys, w, a, j))
}

/// At most `rounds` rounds of moving the centroids and reassigning the
/// colours, from centroids `cs` and assignment `a`; the flag says whether an
/// assignment came back unchanged.
pub open spec fn lloyd(cs: Seq<Rgb>, keys: Seq<Rgb>, w: Seq<usize>, a: Seq<usize>, rounds: nat) -> (Seq<Rgb>, bool)
    decreases rounds,
{
    if rounds == 0 {
        (cs, false)
    } else {
        let next = recenter(cs, keys, w, a);
        let b = assign(next, keys);
        if b == a {
            (next, true)
        } else {
            lloyd(next, keys, w, b, (rounds - 1) as nat)
        }
    }
}

/// The final centroids of k-means on `colors` with at most `k` of them, and
/// whether the run settled. With no more distinct colours than `k`, they are
/// the distinct colours themselves; otherwise the first `k` distinct colours
/// start the run.
pub open spec fn kmeans_centroids(colors: Seq<Rgba>, k: int) -> (Seq<Rgb>, bool) {
    let keys = distinct_colors(colors);
    let w = color_weights(colors);
    if keys.len() <= k {
        (keys, true)
    } else {
        let cs = keys.subrange(0, k);
        lloyd(cs, keys, w, assign(cs, keys), MAX_ROUNDS as nat)
    }
}

proof fn lemma_occurrences_absent(s: Seq<Rgb>, c: Rgb)
    requires
        !s.contains(c),
    ensures
        occurrences(s, c) == 0,
    decreases s.len(),
{
    if s.len() > 0 {
        assert(!s.drop_last().contains(c)) by {
            if s.drop_last().contains(c) {
                let i = choose|i: int| 0 <= i < s.drop_last().len() && s.drop_last()[i] == c;
                assert(s[i] == c);
            }
        }
        lemma_occurrences_absent(s.drop_last(), c);
        assert(s[s.len() - 1] != c);
    }
}

proof fn lemma_total_update(w: Seq<usize>, j: int, v: usize)
    requires
        0 <= j < w.len(),
    ensures
        total(w.update(j, v)) == total(w) - w[j] + v,
    decreases w.len(),
{
    if j < w.len() - 1 {
        assert(w.update(j, v).drop_last() =~= w.drop_last().update(j, v));
        lemma_total_update(w.drop_last(), j, v);
    } else {
        assert(w.update(j, v).drop_last() =~= w.drop_last());
    }
}

proof fn lemma_total_prefix(w: Seq<usize>, i: int)
    requires
        0 <= i <= w.len(),
    ensures
        0 <= total(w.subrange(0, i)) <= total(w),
    decreases w.len(),
{
    if i < w.len() {
        assert(w.drop_last().subrange(0, i) =~= w.subrange(0, i));
        lemma_total_prefix(w.drop_last(), i);
    } else {
        assert(w.subrange(0, i) =~= w);
        lemma_total_nonneg(w);
    }
}

proof fn lemma_total_nonneg(w: Seq<usize>)
    ensures
        total(w) >= 0,
    decreases w.len(),
{
    if w.len() > 0 {
        lemma_total_nonneg(w.drop_last());
    }
}

/// A colour as one number, red first.
pub open spec fn packed(c: Rgb) -> u32 {
    (c[0] * 65536 + c[1] * 256 + c[2]) as u32
}

proof fn lemma_packed_injective(a: Rgb, b: Rgb)
    requires
        packed(a) == packed(b),
    ensures
        a == b,
{
    lemma_rgb_eq(a, b);
    let (a0, a1, a2, b0, b1, b2) = (a[0] as int, a[1] as int, a[2] as int, b[0] as int, b[1] as int, b[2] as int);
    assert(a0 == b0 && a1 == b1 && a2 == b2) by (nonlinear_arith)
        requires
            a0 * 65536 + a1 * 256 + a2 == b0 * 65536 + b1 * 256 + b2,
            0 <= a0 < 256, 0 <= a1 < 256, 0 <= a2 < 256,
            0 <= b0 < 256, 0 <= b1 < 256, 0 <= b2 < 256;
}

fn pack(c: &Rgb) -> (r: u32)
    ensures
        r == packed(*c),
{
    c[0] as u32 * 65536 + c[1] as u32 * 256 + c[2] as u32
}

/// The distinct colours of `colors` in order of first occurrence, and how
/// often each occurs.
fn distinct_elements(colors: &[Rgba]) -> (r: (Vec<Rgb>, Vec<usize>))
    ensures
        r.0@ == distinct_colors(colors@),
        r.1@ == color_weights(colors@),
        total(r.1@) == colors@.len(),
{
    broadcast use vstd::std_specs::hash::group_hash_axioms;

    let mut keys: Vec<Rgb> = Vec::new();
    let mut weights: Vec<usize> = Vec::new();
    let mut index: HashMap<u32, usize> = HashMap::new();
    let mut i: usize = 0;
    while i < colors.len()
        invariant
            i <= colors@.len(),
            forall|key: u32| #[trigger] index@.contains_key(key) ==> index@[key] < keys@.len() && packed(keys@[index@[key] as int]) == key,
            forall|j: int| 0 <= j < keys@.len() ==> #[trigger] index@.contains_key(packed(keys@[j])),
            keys@ == dedup(rgb_seq(colors@.subrange(0, i as int))),
            weights@.len() == keys@.len(),
            forall|j: int| 0 <= j < keys@.len() ==> #[trigger] weights@[j] == occurrences(rgb_seq(colors@.subrange(0, i as int)), keys@[j]),
            total(weights@) == i,
        decreases colors@.len() - i,
    {
        let ghost s = rgb_seq(colors@.subrange(0, i as int));
        let ghost t = rgb_seq(colors@.subrange(0, i + 1));
        let c = rgb_from_rgba(&colors[i]);
        proof {
            assert(t.drop_last() =~= s);
            assert(t.last() == c);
            lemma_dedup(s);
        }
        let key = pack(&c);
        match index.get(&key) {
            Some(found) => {
                let m = *found;
                proof {
                    lemma_packed_injective(keys@[m as int], c);
                    lemma_total_update(weights@, m as int, (weights@[m as int] + 1) as usize);
                    assert(occurrences(s, c) <= i) by {
                        lemma_occurrences_bound(s, c);
                    }
                }
                let v = weights[m] + 1;
                weights.set(m, v);
                proof {
                    assert forall|j: int| 0 <= j < keys@.len() implies #[trigger] weights@[j] == occurrences(t, keys@[j]) by {
                        if j != m {
                            assert(keys@[j] != keys@[m as int]);
                        }
                    }
                }
            },
            None => {
                proof {
                    assert(!keys@.contains(c));
                    lemma_occurrences_absent(s, c);
                    assert(total(weights@.push(1)) == total(weights@) + 1) by {
                        assert(weights@.push(1).drop_last() =~= weights@);
                    }
                }
                index.insert(key, keys.len());
                keys.push(c);
                weights.push(1);
                proof {
                    assert forall|q: u32| #[trigger] index@.contains_key(q) implies index@[q] < keys@.len() && packed(keys@[index@[q] as int]) == q by {
                        if q != key {
                            assert(keys@[index@[q] as int] == keys@.drop_last()[index@[q] as int]);
                        }
                    }
                    assert forall|j: int| 0 <= j < keys@.len() implies #[trigger] index@.contains_key(packed(keys@[j])) by {
                        if j < keys@.len() - 1 {
                            assert(keys@[j] == keys@.drop_last()[j]);
                        }
                    }
                    assert forall|j: int| 0 <= j < keys@.len() implies #[trigger] weights@[j] == occurrences(t, keys@[j]) by {
                        if j < keys@.len() - 1 {
                            assert(keys@[j] != c);
                        }
                    }
                }
            },
        }
        i = i + 1;
    }
    assert(colors@.subrange(0, colors@.len() as int) =~= colors@);
    assert(weights@ =~= color_weights(colors@));
    (keys, weights)
}

proof fn lemma_occurrences_bound(s: Seq<Rgb>, c: Rgb)
    ensures
        occurrences(s, c) <= s.len(),
    decreases s.len(),
{
    if s.len() > 0 {
        lemma_occurrences_bound(s.drop_last(), c);
    }
}

/// The first `k` distinct colours, the starting centroids.
fn init_centroids(keys: &Vec<Rgb>, k: usize) -> (r: Vec<Rgb>)
    requires
        k <= keys@.len(),
    ensures
        r@ == keys@.subrange(0, k as int),
{
    let mut cs: Vec<Rgb> = Vec::with_capacity(k);
    let mut j: usize = 0;
    while j < k
        invariant
            k <= keys@.len(),
            j <= k,
            cs@ == keys@.subrange(0, j as int),
        decreases k - j,
    {
        cs.push(keys[j]);
        j = j + 1;
        assert(cs@ =~= keys@.subrange(0, j as int));
    }
    cs
}

fn assign_all(cs: &Vec<Rgb>, keys: &Vec<Rgb>) -> (r: Vec<usize>)
    requires
        cs@.len() > 0,
    ensures
        r@ == assign(cs@, keys@),
{
    let mut r: Vec<usize> = Vec::with_capacity(keys.len());
    let mut i: usize = 0;
    while i < keys.len()
        invariant
            cs@.len() > 0,
            i <= keys@.len(),
            r@ == assign(cs@, keys@).subrange(0, i as int),
        decreases keys@.len() - i,
    {
        let n = nearest_index(cs.as_slice(), &keys[i]);
        r.push(n);
        i = i + 1;
        assert(r@ =~= assign(cs@, keys@).subrange(0, i as int));
    }
    assert(assign(cs@, keys@).subrange(0, keys@.len() as int) =~= assign(cs@, keys@));
    r
}

fn same_assignment(a: &Vec<usize>, b: &Vec<usize>) -> (r: bool)
    ensures
        r == (a@ == b@),
{
    if a.len() != b.len() {
        return false;
    }
    let mut i: usize = 0;
    while i < a.len()
        invariant
            a@.len() == b@.len(),
            i <= a@.len(),
            forall|j: int| 0 <= j < i ==> a@[j] == b@[j],
        decreases a@.len() - i,
    {
        if a[i] != b[i] {
            return false;
        }
        i = i + 1;
    }
    assert(a@ =~= b@);
    true
}

fn recentered(cs: &Vec<Rgb>, keys: &Vec<Rgb>, w: &Vec<usize>, a: &Vec<usize>, n: usize) -> (r: Vec<Rgb>)
    requires
        w@.len() == keys@.len(),
        a@.len() == keys@.len(),
        forall|i: int| 0 <= i < a@.len() ==> #[trigger] a@[i] < cs@.len(),
        total(w@) == n,
    ensures
        r@ == recenter(cs@, keys@, w@, a@),
{
    let k = cs.len();
    let mut weight: Vec<u128> = Vec::with_capacity(k);
    let mut s0: Vec<u128> = Vec::with_capacity(k);
    let mut s1: Vec<u128> = Vec::with_capacity(k);
    let mut s2: Vec<u128> = Vec::with_capacity(k);
    let mut j: usize = 0;
    while j < k
        invariant
            k == cs@.len(),
            j <= k,
            weight@.len() == j && s0@.len() == j && s1@.len() == j && s2@.len() == j,
            forall|m: int| 0 <= m < j ==> #[trigger] weight@[m] == 0,
            forall|m: int| 0 <= m < j ==> #[trigger] s0@[m] == 0,
            forall|m: int| 0 <= m < j ==> #[trigger] s1@[m] == 0,
            forall|m: int| 0 <= m < j ==> #[trigger] s2@[m] == 0,
        decreases k - j,
    {
        weight.push(0);
        s0.push(0);
        s1.push(0);
        s2.push(0);
        j = j + 1;
    }
    let mut i: usize = 0;
    while i < keys.len()
        invariant
            k == cs@.len(),
            i <= keys@.len(),
            w@.len() == keys@.len(),
            a@.len() == keys@.len(),
            forall|m: int| 0 <= m < a@.len() ==> #[trigger] a@[m] < cs@.len(),
            total(w@) == n,
            weight@.len() == k && s0@.len() == k && s1@.len() == k && s2@.len() == k,
            forall|m: int| 0 <= m < k ==> #[trigger] weight@[m] == member_weight(w@, a@, m, i as nat),
            forall|m: int| 0 <= m < k ==> #[trigger] s0@[m] == member_sum(keys@, w@, a@, m, 0, i as nat),
            forall|m: int| 0 <= m < k ==> #[trigger] s1@[m] == member_sum(keys@, w@, a@, m, 1, i as nat),
            forall|m: int| 0 <= m < k ==> #[trigger] s2@[m] == member_sum(keys@, w@, a@, m, 2, i as nat),
            forall|m: int| 0 <= m < k ==> #[trigger] weight@[m] <= total(w@.subrange(0, i as int)),
            forall|m: int| 0 <= m < k ==> #[trigger] s0@[m] <= 255 * weight@[m],
            forall|m: int| 0 <= m < k ==> #[trigger] s1@[m] <= 255 * weight@[m],
            forall|m: int| 0 <= m < k ==> #[trigger] s2@[m] <= 255 * weight@[m],
        decreases keys@.len() - i,
    {
        let m = a[i];
        let wi = w[i];
        let c = keys[i];
        proof {
            assert(w@.subrange(0, i + 1).drop_last() =~= w@.subrange(0, i as int));
            lemma_total_prefix(w@, i + 1);
            assert(weight@[m as int] + wi <= total(w@.subrange(0, i + 1)));
            assert(wi * c[0] <= 255 * wi && wi * c[1] <= 255 * wi && wi * c[2] <= 255 * wi) by (nonlinear_arith)
                requires c[0] <= 255, c[1] <= 255, c[2] <= 255, wi >= 0;
        }
        let ghost before_w = weight@;
        weight.set(m, weight[m] + wi as u128);
        s0.set(m, s0[m] + wi as u128 * c[0] as u128);
        s1.set(m, s1[m] + wi as u128 * c[1] as u128);
        s2.set(m, s2[m] + wi as u128 * c[2] as u128);
        i = i + 1;
        proof {
            assert forall|q: int| 0 <= q < k implies #[trigger] weight@[q] <= total(w@.subrange(0, i as int)) by {
                assert(before_w[q] <= total(w@.subrange(0, i - 1)));
            }
        }
    }
    proof {
        lemma_total_prefix(w@, keys@.len() as int);
        assert(w@.subrange(0, keys@.len() as int) =~= w@);
    }
    let mut r: Vec<Rgb> = Vec::with_capacity(k);
    let mut j: usize = 0;
    while j < k
        invariant
            k == cs@.len(),
            j <= k,
            weight@.len() == k && s0@.len() == k && s1@.len() == k && s2@.len() == k,
            forall|m: int| 0 <= m < k ==> #[trigger] weight@[m] == member_weight(w@, a@, m, keys@.len() as nat),
            forall|m: int| 0 <= m < k ==> #[trigger] s0@[m] == member_sum(keys@, w@, a@, m, 0, keys@.len() as nat),
            forall|m: int| 0 <= m < k ==> #[trigger] s1@[m] == member_sum(keys@, w@, a@, m, 1, keys@.len() as nat),
            forall|m: int| 0 <= m < k ==> #[trigger] s2@[m] == member_sum(keys@, w@, a@, m, 2, keys@.len() as nat),
            forall|m: int| 0 <= m < k ==> #[trigger] s0@[m] <= 255 * weight@[m],
            forall|m: int| 0 <= m < k ==> #[trigger] s1@[m] <= 255 * weight@[m],
            forall|m: int| 0 <= m < k ==> #[trigger] s2@[m] <= 255 * weight@[m],
            r@ == recenter(cs@, keys@, w@, a@).subrange(0, j as int),
        decreases k - j,
    {
        let t = weight[j];
        if t > 0 {
            let (a0, a1, a2) = (s0[j], s1[j], s2[j]);
            assert(a0 / t <= 255 && a1 / t <= 255 && a2 / t <= 255) by (nonlinear_arith)
                requires a0 <= 255 * t, a1 <= 255 * t, a2 <= 255 * t, t > 0;
            r.push([(a0 / t) as u8, (a1 / t) as u8, (a2 / t) as u8]);
        } else {
            r.push(cs[j]);
        }
        j = j + 1;
        assert(r@ =~= recenter(cs@, keys@, w@, a@).subrange(0, j as int));
    }
    assert(recenter(cs@, keys@, w@, a@).subrange(0, k as int) =~= recenter(cs@, keys@, w@, a@));
    r
}

proof fn lemma_assign_in_range(cs: Seq<Rgb>, keys: Seq<Rgb>)
    requires
        cs.len() > 0,
    ensures
        forall|i: int| 0 <= i < keys.len() ==> #[trigger] assign(cs, keys)[i] < cs.len(),
{
    assert forall|i: int| 0 <= i < keys.len() implies #[trigger] assign(cs, keys)[i] < cs.len() by {
        lemma_nearest(cs, keys[i]);
    }
}

/// A k-means palette, and whether the clustering settled within
/// `MAX_ROUNDS` rounds. A run that did not settle still gives the centroids
/// of its last round.
pub struct KMeansPalette {
    pub palette: Vec<Rgb>,
    pub converged: bool,
}

/// Builds a palette of at most `max_color_count` colours by weighted k-means,
/// and tells whether the clustering settled.
pub fn kmeans_palette(colors: &[Rgba], max_color_count: usize, sort: bool) -> (r: Result<KMeansPalette, QuantizeError>)
    ensures
        match r {
            Err(e) => e == QuantizeError::InvalidInput && (colors@.len() == 0 || max_color_count == 0),
            Ok(p) => {
                &&& colors@.len() > 0 && max_color_count > 0
                &&& palette_of(kmeans_centroids(colors@, max_color_count as int).0, sort, p.palette@)
                &&& p.converged == kmeans_centroids(colors@, max_color_count as int).1
                &&& p.palette@.len() <= max_color_count
                &&& p.palette@.len() <= distinct_count(colors@)
                &&& p.palette@.no_duplicates()
                &&& sort ==> ascending(p.palette@)
            },
        },
{
    if colors.len() == 0 || max_color_count == 0 {
        return Err(QuantizeError::InvalidInput);
    }
    let k = max_color_count;
    let (keys, w) = distinct_elements(colors);
    proof {
        lemma_dedup(rgb_seq(colors@));
    }
    let ghost target = kmeans_centroids(colors@, k as int);
    let palette;
    let mut converged = true;
    if keys.len() <= k {
        palette = finish_palette(&keys, sort);
        proof {
            keys@.unique_seq_to_set();
        }
    } else {
        let mut cs = init_centroids(&keys, k);
        let mut a = assign_all(&cs, &keys);
        let mut rounds: u32 = 0;
        converged = false;
        while rounds < MAX_ROUNDS
            invariant_except_break
                a@ == assign(cs@, keys@),
                !converged,
                target == lloyd(cs@, keys@, w@, a@, (MAX_ROUNDS - rounds) as nat),
            invariant
                cs@.len() == k,
                k > 0,
                w@.len() == keys@.len(),
                total(w@) == colors@.len(),
                rounds <= MAX_ROUNDS,
            ensures
                cs@.len() == k,
                target == (cs@, converged),
            decreases MAX_ROUNDS - rounds,
        {
            proof {
                lemma_assign_in_range(cs@, keys@);
            }
            let next = recentered(&cs, &keys, &w, &a, colors.len());
            let b = assign_all(&next, &keys);
            if same_assignment(&b, &a) {
                cs = next;
                converged = true;
                break;
            }
            cs = next;
            a = b;
            rounds = rounds + 1;
        }
        palette = finish_palette(&cs, sort);
    }
    proof {
        lemma_palette_of(target.0, sort, palette@);
    }
    Ok(KMeansPalette { palette, converged })
}

/// Builds a palette of at most `max_color_count` colours by weighted k-means:
/// colours are assigned to their nearest centroid, centroids move to the
/// weighted mean of their colours, until the assignment settles or
/// `MAX_ROUNDS` rounds have run.
pub fn kmeans_quantizer(colors: &[Rgba], max_color_count: usize, sort: bool) -> (r: Result<Vec<Rgb>, QuantizeError>)
    ensures
        quantized(colors@, max_color_count, sort, kmeans_centroids(colors@, max_color_count as int).0, r),
        r.is_ok() ==> r.unwrap()@.len() <= max_color_count,
        r.is_ok() ==> r.unwrap()@.len() <= distinct_count(colors@),
        r.is_ok() ==> r.unwrap()@.no_duplicates(),
        r.is_ok() && sort ==> ascending(r.unwrap()@),
{
    match kmeans_palette(colors, max_color_count, sort) {
        Ok(p) => Ok(p.palette),
        Err(e) => Err(e),
    }
}

proof fn lemma_dedup_unique(s: Seq<Rgb>)
    requires
        s.no_duplicates(),
    ensures
        dedup(s) == s,
    decreases s.len(),
{
    if s.len() > 0 {
        lemma_dedup_unique(s.drop_last());
        assert(!s.drop_last().contains(s.last())) by {
            if s.drop_last().contains(s.last()) {
                let i = choose|i: int| 0 <= i < s.len() - 1 && s.drop_last()[i] == s.last();
                assert(s[i] == s[s.len() - 1]);
            }
        }
        assert(s.drop_last().push(s.last()) =~= s);
    }
}

/// Law: with no more distinct colours than the bound, the palette is exactly
/// the set of distinct colours, in order of first occurrence unless sorted.
pub proof fn lemma_kmeans_fast_path(colors: Seq<Rgba>, k: usize, sort: bool, r: Result<Vec<Rgb>, QuantizeError>)
    requires
        quantized(colors, k, sort, kmeans_centroids(colors, k as int).0, r),
        colors.len() > 0,
        k > 0,
        distinct_count(colors) <= k,
    ensures
        r.is_ok(),
        forall|c: Rgb| r.unwrap()@.contains(c) <==> rgb_seq(colors).contains(c),
        r.unwrap()@.len() == distinct_count(colors),
        !sort ==> r.unwrap()@ == distinct_colors(colors),
{
    let keys = distinct_colors(colors);
    lemma_dedup(rgb_seq(colors));
    lemma_palette_of(keys, sort, r.unwrap()@);
    keys.unique_seq_to_set();
    if !sort {
        lemma_dedup_unique(keys);
    }
}

/// Law: an image of one colour gives a palette of that colour alone.
pub proof fn lemma_kmeans_single_color(colors: Seq<Rgba>, k: usize, sort: bool, c: Rgb, r: Result<Vec<Rgb>, QuantizeError>)
    requires
        quantized(colors, k, sort, kmeans_centroids(colors, k as int).0, r),
        colors.len() > 0,
        k > 0,
        forall|i: int| 0 <= i < colors.len() ==> rgb_of(#[trigger] colors[i]) == c,
    ensures
        r.is_ok(),
        r.unwrap()@ == seq![c],
{
    let s = rgb_seq(colors);
    let keys = distinct_colors(colors);
    lemma_dedup(s);
    assert(s[0] == rgb_of(colors[0]));
    assert(s.contains(c));
    assert forall|i: int| 0 <= i < keys.len() implies #[trigger] keys[i] == c by {
        assert(keys.contains(keys[i]));
        assert(s.contains(keys[i]));
        let j = choose|j: int| 0 <= j < s.len() && s[j] == keys[i];
        assert(s[j] == rgb_of(colors[j]));
    }
    assert(keys.contains(c));
    if keys.len() > 1 {
        assert(keys[0] == keys[1]);
    }
    assert(keys.len() == 1);
    lemma_palette_of_single(keys, c, sort, r.unwrap()@);
}

} // verus!
