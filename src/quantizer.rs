//! One entry point for the three palette builders.
use vstd::prelude::*;
use crate::color::{Rgb, Rgba, distinct_count};
use crate::palette::{QuantizeError, quantized, palette_of, ascending};
use crate::octree::{octtree_quantizer, octree_means};
use crate::median_cut::{mediancut_quantizer, median_cut_means};
use crate::kmeans::{kmeans_quantizer, kmeans_palette, kmeans_centroids};

verus! {

/// The way a palette is built.
#[derive(Clone, Copy, Debug, PartialEq, Eq, Structural)]
pub enum Strategy {
    Octree,
    MedianCut,
    KMeans,
}

/// The representative colours that `strategy` gives for `colors` and the bound `k`.
pub open spec fn strategy_means(strategy: Strategy, colors: Seq<Rgba>, k: int) -> Seq<Rgb> {
    match strategy {
        Strategy::Octree => octree_means(colors, k),
        Strategy::MedianCut => median_cut_means(colors, k),
        Strategy::KMeans => kmeans_centroids(colors, k).0,
    }
}

/// Builds a palette of at most `max_colors` distinct colours from `colors`
/// with `strategy`, in ascending order when `sorted` holds.
pub fn quantize(colors: &[Rgba], max_colors: usize, sorted: bool, strategy: Strategy) -> (r: Result<Vec<Rgb>, QuantizeError>)
    ensures
        quantized(colors@, max_colors, sorted, strategy_means(strategy, colors@, max_colors as int), r),
        r.is_ok() ==> r.unwrap()@.len() <= max_colors,
        r.is_ok() && strategy != Strategy::MedianCut ==> r.unwrap()@.len() <= distinct_count(colors@),
        r.is_ok() ==> r.unwrap()@.no_duplicates(),
        r.is_ok() && sorted ==> ascending(r.unwrap()@),
{
    match strategy {
        Strategy::Octree => octtree_quantizer(colors, max_colors, sorted),
        Strategy::MedianCut => mediancut_quantizer(colors, max_colors, sorted),
        Strategy::KMeans => kmeans_quantizer(colors, max_colors, sorted),
    }
}

/// Whether `strategy` settled on `colors` with the bound `k`. Octree and
/// median cut always do; k-means may reach `MAX_ROUNDS` without settling.
pub open spec fn strategy_settled(strategy: Strategy, colors: Seq<Rgba>, k: int) -> bool {
    match strategy {
        Strategy::KMeans => kmeans_centroids(colors, k).1,
        _ => true,
    }
}

/// A palette, and whether the strategy that built it settled. A k-means run
/// that reached `MAX_ROUNDS` without settling still gives the centroids of
/// its last round, with `converged` false.
pub struct QuantizeOutcome {
    pub palette: Vec<Rgb>,
    pub converged: bool,
}

/// Builds the palette that `quantize` builds, and tells whether the strategy
/// settled before its round bound.
pub fn quantize_with_status(colors: &[Rgba], max_colors: usize, sorted: bool, strategy: Strategy) -> (r: Result<QuantizeOutcome, QuantizeError>)
    ensures
        match r {
            Err(e) => e == QuantizeError::InvalidInput && (colors@.len() == 0 || max_colors == 0),
            Ok(o) => {
                &&& colors@.len() > 0 && max_colors > 0
                &&& palette_of(strategy_means(strategy, colors@, max_colors as int), sorted, o.palette@)
                &&& o.converged == strategy_settled(strategy, colors@, max_colors as int)
                &&& o.palette@.len() <= max_colors
                &&& strategy != Strategy::MedianCut ==> o.palette@.len() <= distinct_count(colors@)
                &&& o.palette@.no_duplicates()
                &&& sorted ==> ascending(o.palette@)
            },
        },
{
    match strategy {
        Strategy::KMeans => match kmeans_palette(colors, max_colors, sorted) {
            Ok(p) => Ok(QuantizeOutcome { palette: p.palette, converged: p.converged }),
            Err(e) => Err(e),
        },
        _ => match quantize(colors, max_colors, sorted, strategy) {
            Ok(palette) => Ok(QuantizeOutcome { palette, converged: true }),
            Err(e) => Err(e),
        },
    }
}

} // verus!
