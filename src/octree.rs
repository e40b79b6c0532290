//! Octree palettes. Each colour walks down eight levels, one bit of each
//! channel per level, most significant first, and ends in a leaf that sums
//! the colours reaching it. Whenever there are more leaves than the palette
//! may hold, the deepest branch, the most recently registered on a tie, is
//! folded into a single leaf. Each leaf then gives the mean of its colours.
//!
//! A node is named by its `Cell`: its level and the channel bits that lead to
//! it, lower bits cleared. The tree is kept as its leaves and the list of
//! branches still standing, in order of registration.
use vstd::prelude::*;
use crate::color::{Rgb, Rgba, rgb_of, rgb_seq, distinct_count, rgb_from_rgba};
use crate::palette::{QuantizeError, quantized, finish_palette, palette_of, ascending, lemma_palette_of, lemma_palette_of_single};

verus! {

/// A node of the octree: its level (0 for the root, 8 for a single colour)
/// and the leading `level` bits of each channel, lower bits cleared.
#[derive(Clone, Copy, Debug, PartialEq, Eq, Structural)]
pub struct Cell {
    pub level: u8,
    pub r: u8,
    pub g: u8,
    pub b: u8,
}

/// A leaf: its node, the sums of the channels of the colours in it, and how
/// many colours it holds.
#[derive(Clone, Copy, Debug)]
pub struct Leaf {
    pub cell: Cell,
    pub red_sum: u128,
    pub green_sum: u128,
    pub blue_sum: u128,
    pub pixel_count: u64,
}

/// The leading `level` bits of a channel.
pub open spec fn mask(level: int) -> u8 {
    if level <= 0 {
        0x00
    } else if level == 1 {
        0x80
    } else if level == 2 {
        0xc0
    } else if level == 3 {
        0xe0
    } else if level == 4 {
        0xf0
    } else if level == 5 {
        0xf8
    } else if level == 6 {
        0xfc
    } else if level == 7 {
        0xfe
    } else {
        0xff
    }
}

/// The node at `level` on the path of colour `c`.
pub open spec fn cell_of(c: Rgb, level: int) -> Cell {
    Cell { level: level as u8, r: c[0] & mask(level), g: c[1] & mask(level), b: c[2] & mask(level) }
}

/// The root of the tree.
pub open spec fn root_cell() -> Cell {
    Cell { level: 0, r: 0, g: 0, b: 0 }
}

/// Colour `c` lies in node `cell`.
pub open spec fn covers(cell: Cell, c: Rgb) -> bool {
    cell == cell_of(c, cell.level as int)
}

/// Node `inner` lies in node `outer`, or is it.
pub open spec fn within(inner: Cell, outer: Cell) -> bool {
    &&& inner.level >= outer.level
    &&& inner.r & mask(outer.level as int) == outer.r
    &&& inner.g & mask(outer.level as int) == outer.g
    &&& inner.b & mask(outer.level as int) == outer.b
}

/// The leaves and the standing branches of an octree.
pub struct OctState {
    pub leaves: Seq<Leaf>,
    pub branches: Seq<Cell>,
}

/// The tree before any colour.
pub open spec fn empty_state() -> OctState {
    OctState { leaves: Seq::empty(), branches: Seq::empty() }
}

/// The first of the first `n` leaves that holds colour `c`, or -1.
pub open spec fn find_upto(leaves: Seq<Leaf>, c: Rgb, n: nat) -> int
    decreases n,
{
    if n == 0 {
        -1
    } else {
        let k = find_upto(leaves, c, (n - 1) as nat);
        if k >= 0 {
            k
        } else if covers(leaves[n - 1].cell, c) {
            n - 1
        } else {
            -1
        }
    }
}

/// The first leaf that holds colour `c`, or -1.
pub open spec fn find(leaves: Seq<Leaf>, c: Rgb) -> int {
    find_upto(leaves, c, leaves.len())
}

/// A leaf after colour `c` is added to it.
pub open spec fn with_color(l: Leaf, c: Rgb) -> Leaf {
    Leaf {
        cell: l.cell,
        red_sum: (l.red_sum + c[0]) as u128,
        green_sum: (l.green_sum + c[1]) as u128,
        blue_sum: (l.blue_sum + c[2]) as u128,
        pixel_count: (l.pixel_count + 1) as u64,
    }
}

/// The leaf of the single colour `c`.
pub open spec fn new_leaf(c: Rgb) -> Leaf {
    Leaf { cell: cell_of(c, 8), red_sum: c[0] as u128, green_sum: c[1] as u128, blue_sum: c[2] as u128, pixel_count: 1 }
}

/// The branches after the nodes of levels `0..l` on the path of `c` are
/// registered; a node already registered keeps its place.
pub open spec fn path_upto(branches: Seq<Cell>, c: Rgb, l: nat) -> Seq<Cell>
    decreases l,
{
    if l == 0 {
        branches
    } else {
        let b = path_upto(branches, c, (l - 1) as nat);
        let cell = cell_of(c, l - 1);
        if b.contains(cell) { b } else { b.push(cell) }
    }
}

/// The tree after colour `c` is inserted: added to the leaf that holds it, or
/// to a new leaf of its own under newly registered branches.
pub open spec fn inserted(s: OctState, c: Rgb) -> OctState {
    let i = find(s.leaves, c);
    if i >= 0 {
        OctState { leaves: s.leaves.update(i, with_color(s.leaves[i], c)), branches: s.branches }
    } else {
        OctState { leaves: s.leaves.push(new_leaf(c)), branches: path_upto(s.branches, c, 8) }
    }
}

/// Among the first `n` branches, the last one of the greatest level.
pub open spec fn pick_upto(branches: Seq<Cell>, n: nat) -> int
    decreases n,
{
    if n <= 1 {
        0
    } else {
        let k = pick_upto(branches, (n - 1) as nat);
        if branches[n - 1].level >= branches[k].level { n - 1 } else { k }
    }
}

/// The branch folded next: the deepest, the most recently registered on a tie.
pub open spec fn pick(branches: Seq<Cell>) -> int {
    pick_upto(branches, branches.len())
}

/// The leaves that do not lie in `b`.
pub open spec fn outside(leaves: Seq<Leaf>, b: Cell) -> Seq<Leaf>
    decreases leaves.len(),
{
    if leaves.len() == 0 {
        leaves
    } else {
        let rest = outside(leaves.drop_last(), b);
        if within(leaves.last().cell, b) { rest } else { rest.push(leaves.last()) }
    }
}

/// How many colours the leaves that lie in `b` hold.
pub open spec fn gathered_count(leaves: Seq<Leaf>, b: Cell) -> int
    decreases leaves.len(),
{
    if leaves.len() == 0 {
        0
    } else {
        gathered_count(leaves.drop_last(), b) + if within(leaves.last().cell, b) { leaves.last().pixel_count as int } else { 0 }
    }
}

/// The sum of channel `ch` over the leaves that lie in `b`.
pub open spec fn gathered_sum(leaves: Seq<Leaf>, b: Cell, ch: int) -> int
    decreases leaves.len(),
{
    if leaves.len() == 0 {
        0
    } else {
        let l = leaves.last();
        let v = if ch == 0 { l.red_sum } else if ch == 1 { l.green_sum } else { l.blue_sum };
        gathered_sum(leaves.drop_last(), b, ch) + if within(l.cell, b) { v as int } else { 0 }
    }
}

/// The leaves that lie in `b`, folded into one leaf at `b`.
pub open spec fn gathered(leaves: Seq<Leaf>, b: Cell) -> Leaf {
    Leaf {
        cell: b,
        red_sum: gathered_sum(leaves, b, 0) as u128,
        green_sum: gathered_sum(leaves, b, 1) as u128,
        blue_sum: gathered_sum(leaves, b, 2) as u128,
        pixel_count: gathered_count(leaves, b) as u64,
    }
}

/// The tree after one fold: the picked branch leaves the list, and the
/// leaves in it become one leaf in its place. With no branch left, the root
/// is folded.
pub open spec fn reduced(s: OctState) -> OctState {
    let some = s.branches.len() > 0;
    let b = if some { s.branches[pick(s.branches)] } else { root_cell() };
    let kept = outside(s.leaves, b);
    OctState {
        leaves: if gathered_count(s.leaves, b) > 0 { kept.push(gathered(s.leaves, b)) } else { kept },
        branches: if some { s.branches.remove(pick(s.branches)) } else { s.branches },
    }
}

/// Folds until there are at most `k` leaves.
pub open spec fn shrunk(s: OctState, k: int) -> OctState
    decreases s.branches.len() + s.leaves.len(),
{
    if k > 0 && s.leaves.len() > k {
        proof {
            lemma_reduced_measure(s, k);
        }
        shrunk(reduced(s), k)
    } else {
        s
    }
}

/// The tree after the first `n` colours are inserted, each insertion followed
/// by folding down to `k` leaves.
pub open spec fn built(colors: Seq<Rgba>, k: int, n: nat) -> OctState
    decreases n,
{
    if n == 0 {
        empty_state()
    } else {
        shrunk(inserted(built(colors, k, (n - 1) as nat), rgb_of(colors[n - 1])), k)
    }
}

/// The mean colour of a leaf, each channel rounded down.
pub open spec fn leaf_mean(l: Leaf) -> Rgb {
    [
        (l.red_sum / l.pixel_count as u128) as u8,
        (l.green_sum / l.pixel_count as u128) as u8,
        (l.blue_sum / l.pixel_count as u128) as u8,
    ]
}

/// The representative colours of the octree: one mean per final leaf.
pub open spec fn octree_means(colors: Seq<Rgba>, k: int) -> Seq<Rgb> {
    built(colors, k, colors.len()).leaves.map_values(|l: Leaf| leaf_mean(l))
}

pub proof fn lemma_within_root(c: Cell)
    ensures
        within(c, root_cell()),
{
    let (r, g, b) = (c.r, c.g, c.b);
    assert(r & 0u8 == 0u8 && g & 0u8 == 0u8 && b & 0u8 == 0u8) by (bit_vector);
}

pub proof fn lemma_outside_len(leaves: Seq<Leaf>, b: Cell)
    ensures
        outside(leaves, b).len() <= leaves.len(),
        gathered_count(leaves, b) > 0 ==> outside(leaves, b).len() < leaves.len(),
        b == root_cell() ==> outside(leaves, b).len() == 0,
    decreases leaves.len(),
{
    if leaves.len() > 0 {
        lemma_outside_len(leaves.drop_last(), b);
        lemma_within_root(leaves.last().cell);
    }
}

pub proof fn lemma_reduced_measure(s: OctState, k: int)
    requires
        k > 0,
        s.leaves.len() > k,
    ensures
        reduced(s).branches.len() + reduced(s).leaves.len() < s.branches.len() + s.leaves.len(),
{
    let some = s.branches.len() > 0;
    if some {
        lemma_pick(s.branches);
    }
    let b = if some { s.branches[pick(s.branches)] } else { root_cell() };
    lemma_outside_len(s.leaves, b);
}

pub proof fn lemma_pick_upto(branches: Seq<Cell>, n: nat)
    requires
        1 <= n <= branches.len(),
    ensures
        0 <= pick_upto(branches, n) < n,
    decreases n,
{
    if n > 1 {
        lemma_pick_upto(branches, (n - 1) as nat);
    }
}

pub proof fn lemma_pick(branches: Seq<Cell>)
    requires
        branches.len() > 0,
    ensures
        0 <= pick(branches) < branches.len(),
{
    lemma_pick_upto(branches, branches.len());
}

/// How many colours the leaves hold in all.
pub open spec fn total_count(leaves: Seq<Leaf>) -> int
    decreases leaves.len(),
{
    if leaves.len() == 0 { 0 } else { total_count(leaves.drop_last()) + leaves.last().pixel_count }
}

/// Every leaf holds a colour, and its sums are those of colours.
pub open spec fn leaves_ok(leaves: Seq<Leaf>) -> bool {
    forall|i: int| 0 <= i < leaves.len() ==> {
        let l = #[trigger] leaves[i];
        &&& l.pixel_count >= 1
        &&& l.red_sum <= 255 * l.pixel_count
        &&& l.green_sum <= 255 * l.pixel_count
        &&& l.blue_sum <= 255 * l.pixel_count
    }
}

proof fn lemma_total_prefix(leaves: Seq<Leaf>, i: int)
    requires
        0 <= i <= leaves.len(),
    ensures
        0 <= total_count(leaves.subrange(0, i)) <= total_count(leaves),
    decreases leaves.len(),
{
    if i < leaves.len() {
        assert(leaves.drop_last().subrange(0, i) =~= leaves.subrange(0, i));
        lemma_total_prefix(leaves.drop_last(), i);
    } else {
        assert(leaves.subrange(0, i) =~= leaves);
        lemma_total_nonneg(leaves);
    }
}

proof fn lemma_total_nonneg(leaves: Seq<Leaf>)
    ensures
        total_count(leaves) >= 0,
    decreases leaves.len(),
{
    if leaves.len() > 0 {
        lemma_total_nonneg(leaves.drop_last());
    }
}

proof fn lemma_leaf_le_total(leaves: Seq<Leaf>, i: int)
    requires
        0 <= i < leaves.len(),
    ensures
        leaves[i].pixel_count <= total_count(leaves),
    decreases leaves.len(),
{
    if i < leaves.len() - 1 {
        lemma_leaf_le_total(leaves.drop_last(), i);
        lemma_total_nonneg(leaves.drop_last());
    } else {
        lemma_total_nonneg(leaves.drop_last());
    }
}

proof fn lemma_total_update(leaves: Seq<Leaf>, i: int, l: Leaf)
    requires
        0 <= i < leaves.len(),
    ensures
        total_count(leaves.update(i, l)) == total_count(leaves) - leaves[i].pixel_count + l.pixel_count,
    decreases leaves.len(),
{
    if i < leaves.len() - 1 {
        assert(leaves.update(i, l).drop_last() =~= leaves.drop_last().update(i, l));
        lemma_total_update(leaves.drop_last(), i, l);
    } else {
        assert(leaves.update(i, l).drop_last() =~= leaves.drop_last());
    }
}

fn mask_of(level: u8) -> (r: u8)
    ensures
        r == mask(level as int),
{
    match level {
        0 => 0x00,
        1 => 0x80,
        2 => 0xc0,
        3 => 0xe0,
        4 => 0xf0,
        5 => 0xf8,
        6 => 0xfc,
        7 => 0xfe,
        _ => 0xff,
    }
}

fn cell_at(c: &Rgb, level: u8) -> (r: Cell)
    ensures
        r == cell_of(*c, level as int),
{
    let m = mask_of(level);
    Cell { level, r: c[0] & m, g: c[1] & m, b: c[2] & m }
}

fn is_within(inner: &Cell, outer: &Cell) -> (r: bool)
    ensures
        r == within(*inner, *outer),
{
    let m = mask_of(outer.level);
    inner.level >= outer.level && inner.r & m == outer.r && inner.g & m == outer.g && inner.b & m == outer.b
}

fn leaf_mean_of(l: &Leaf) -> (r: Rgb)
    requires
        l.pixel_count >= 1,
        l.red_sum <= 255 * l.pixel_count,
        l.green_sum <= 255 * l.pixel_count,
        l.blue_sum <= 255 * l.pixel_count,
    ensures
        r == leaf_mean(*l),
{
    let n = l.pixel_count as u128;
    let (a, b, c) = (l.red_sum, l.green_sum, l.blue_sum);
    assert(a / n <= 255 && b / n <= 255 && c / n <= 255) by (nonlinear_arith)
        requires a <= 255 * n, b <= 255 * n, c <= 255 * n, n >= 1;
    [(a / n) as u8, (b / n) as u8, (c / n) as u8]
}

/// An octree under construction.
pub struct OctTree {
    pub leaves: Vec<Leaf>,
    pub branches: Vec<Cell>,
}

impl OctTree {
    /// The leaves and branches of the tree.
    pub open spec fn state(&self) -> OctState {
        OctState { leaves: self.leaves@, branches: self.branches@ }
    }

    /// The tree holds `n` colours, and each leaf is well formed.
    pub open spec fn wf(&self, n: int) -> bool {
        &&& leaves_ok(self.leaves@)
        &&& total_count(self.leaves@) == n
    }

    fn new() -> (r: OctTree)
        ensures
            r.state() == empty_state(),
            r.wf(0),
    {
        let r = OctTree { leaves: Vec::new(), branches: Vec::new() };
        assert(r.state() =~= empty_state());
        r
    }

    fn find_leaf(&self, c: &Rgb) -> (r: Option<usize>)
        ensures
            match r {
                Some(i) => i == find(self.leaves@, *c) && i < self.leaves@.len(),
                None => find(self.leaves@, *c) == -1,
            },
    {
        let mut i: usize = 0;
        while i < self.leaves.len()
            invariant
                i <= self.leaves@.len(),
                find_upto(self.leaves@, *c, i as nat) == -1,
            decreases self.leaves@.len() - i,
        {
            let cell = self.leaves[i].cell;
            if cell_at(c, cell.level) == cell {
                assert(find_upto(self.leaves@, *c, (i + 1) as nat) == i);
                assert(forall|n: nat| i < n <= self.leaves@.len() ==> find_upto(self.leaves@, *c, n) == i) by {
                    assert forall|n: nat| i < n <= self.leaves@.len() implies find_upto(self.leaves@, *c, n) == i by {
                        lemma_find_stays(self.leaves@, *c, i as nat, n);
                    }
                }
                return Some(i);
            }
            i = i + 1;
        }
        None
    }

    /// Registers the branches on the path of `c` that are not registered yet.
    fn create_node(&mut self, c: &Rgb)
        ensures
            final(self).leaves@ == old(self).leaves@,
            final(self).branches@ == path_upto(old(self).branches@, *c, 8),
    {
        let mut level: u8 = 0;
        while level < 8
            invariant
                level <= 8,
                self.leaves@ == old(self).leaves@,
                self.branches@ == path_upto(old(self).branches@, *c, level as nat),
            decreases 8 - level,
        {
            let cell = cell_at(c, level);
            let mut j: usize = 0;
            let mut found = false;
            while j < self.branches.len()
                invariant
                    j <= self.branches@.len(),
                    found == exists|q: int| 0 <= q < j && self.branches@[q] == cell,
                decreases self.branches@.len() - j,
            {
                if self.branches[j] == cell {
                    found = true;
                }
                j = j + 1;
            }
            if !found {
                self.branches.push(cell);
            }
            level = level + 1;
        }
    }

    /// Adds one colour to the tree.
    fn add_color(&mut self, color: &Rgba, n: Ghost<int>)
        requires
            old(self).wf(n@),
            n@ + 1 <= u64::MAX,
        ensures
            final(self).state() == inserted(old(self).state(), rgb_of(*color)),
            final(self).wf(n@ + 1),
    {
        let c = rgb_from_rgba(color);
        match self.find_leaf(&c) {
            Some(i) => {
                let l = self.leaves[i];
                proof {
                    lemma_leaf_le_total(self.leaves@, i as int);
                }
                let nl = Leaf {
                    cell: l.cell,
                    red_sum: l.red_sum + c[0] as u128,
                    green_sum: l.green_sum + c[1] as u128,
                    blue_sum: l.blue_sum + c[2] as u128,
                    pixel_count: l.pixel_count + 1,
                };
                proof {
                    lemma_total_update(self.leaves@, i as int, nl);
                }
                self.leaves.set(i, nl);
                assert(self.state() =~= inserted(old(self).state(), c));
            },
            None => {
                self.create_node(&c);
                let nl = Leaf { cell: cell_at(&c, 8), red_sum: c[0] as u128, green_sum: c[1] as u128, blue_sum: c[2] as u128, pixel_count: 1 };
                proof {
                    assert(self.leaves@.push(nl).drop_last() =~= self.leaves@);
                }
                self.leaves.push(nl);
                assert(self.state() =~= inserted(old(self).state(), c));
            },
        }
    }

    fn pick_branch(&self) -> (r: usize)
        requires
            self.branches@.len() > 0,
        ensures
            r == pick(self.branches@),
            r < self.branches@.len(),
    {
        let mut best: usize = 0;
        let mut i: usize = 1;
        while i < self.branches.len()
            invariant
                1 <= i <= self.branches@.len(),
                best == pick_upto(self.branches@, i as nat),
                best < i,
            decreases self.branches@.len() - i,
        {
            if self.branches[i].level >= self.branches[best].level {
                best = i;
            }
            i = i + 1;
        }
        best
    }

    /// Folds the deepest branch, the most recently registered on a tie, into
    /// one leaf; with no branch left, folds the root.
    fn reduce_tree(&mut self, n: Ghost<int>)
        requires
            old(self).wf(n@),
            n@ <= u64::MAX,
        ensures
            final(self).state() == reduced(old(self).state()),
            final(self).wf(n@),
    {
        let b: Cell;
        if self.branches.len() > 0 {
            let i = self.pick_branch();
            b = self.branches.remove(i);
        } else {
            b = Cell { level: 0, r: 0, g: 0, b: 0 };
        }
        let ghost leaves = self.leaves@;
        let mut kept: Vec<Leaf> = Vec::new();
        let mut rs: u128 = 0;
        let mut gs: u128 = 0;
        let mut bs: u128 = 0;
        let mut cnt: u64 = 0;
        let mut j: usize = 0;
        while j < self.leaves.len()
            invariant
                leaves == self.leaves@,
                leaves_ok(leaves),
                total_count(leaves) == n@,
                n@ <= u64::MAX,
                j <= leaves.len(),
                kept@ == outside(leaves.subrange(0, j as int), b),
                cnt == gathered_count(leaves.subrange(0, j as int), b),
                rs == gathered_sum(leaves.subrange(0, j as int), b, 0),
                gs == gathered_sum(leaves.subrange(0, j as int), b, 1),
                bs == gathered_sum(leaves.subrange(0, j as int), b, 2),
                total_count(kept@) + cnt == total_count(leaves.subrange(0, j as int)),
                rs <= 255 * cnt,
                gs <= 255 * cnt,
                bs <= 255 * cnt,
                leaves_ok(kept@),
            decreases leaves.len() - j,
        {
            let l = self.leaves[j];
            proof {
                let sub = leaves.subrange(0, j + 1);
                assert(sub.drop_last() =~= leaves.subrange(0, j as int));
                assert(sub.last() == l);
                lemma_total_prefix(leaves, j + 1);
                lemma_total_nonneg(kept@);
            }
            if is_within(&l.cell, &b) {
                rs = rs + l.red_sum;
                gs = gs + l.green_sum;
                bs = bs + l.blue_sum;
                cnt = cnt + l.pixel_count;
            } else {
                proof {
                    assert(kept@.push(l).drop_last() =~= kept@);
                }
                kept.push(l);
            }
            j = j + 1;
        }
        assert(leaves.subrange(0, leaves.len() as int) =~= leaves);
        if cnt > 0 {
            let g = Leaf { cell: b, red_sum: rs, green_sum: gs, blue_sum: bs, pixel_count: cnt };
            proof {
                assert(kept@.push(g).drop_last() =~= kept@);
            }
            kept.push(g);
        }
        self.leaves = kept;
        assert(self.state() =~= reduced(old(self).state()));
    }

    /// The mean colours of the leaves, made into a palette.
    fn color_palette(&self, sort: bool, n: Ghost<int>) -> (r: Vec<Rgb>)
        requires
            self.wf(n@),
        ensures
            palette_of(self.leaves@.map_values(|l: Leaf| leaf_mean(l)), sort, r@),
            r@.len() <= self.leaves@.len(),
            r@.no_duplicates(),
            sort ==> ascending(r@),
    {
        let mut means: Vec<Rgb> = Vec::with_capacity(self.leaves.len());
        let mut i: usize = 0;
        while i < self.leaves.len()
            invariant
                leaves_ok(self.leaves@),
                i <= self.leaves@.len(),
                means@ == self.leaves@.subrange(0, i as int).map_values(|l: Leaf| leaf_mean(l)),
            decreases self.leaves@.len() - i,
        {
            means.push(leaf_mean_of(&self.leaves[i]));
            i = i + 1;
            assert(means@ =~= self.leaves@.subrange(0, i as int).map_values(|l: Leaf| leaf_mean(l)));
        }
        assert(self.leaves@.subrange(0, self.leaves@.len() as int) =~= self.leaves@);
        let r = finish_palette(&means, sort);
        proof {
            lemma_palette_of(means@, sort, r@);
        }
        r
    }
}

proof fn lemma_find_stays(leaves: Seq<Leaf>, c: Rgb, i: nat, n: nat)
    requires
        i < n <= leaves.len(),
        find_upto(leaves, c, (i + 1) as nat) == i,
    ensures
        find_upto(leaves, c, n) == i,
    decreases n,
{
    if n > i + 1 {
        lemma_find_stays(leaves, c, i, (n - 1) as nat);
    }
}

/// Builds a palette of at most `max_color_count` colours with an octree.
pub fn octtree_quantizer(colors: &[Rgba], max_color_count: usize, sort: bool) -> (r: Result<Vec<Rgb>, QuantizeError>)
    ensures
        quantized(colors@, max_color_count, sort, octree_means(colors@, max_color_count as int), r),
        r.is_ok() ==> r.unwrap()@.len() <= max_color_count,
        r.is_ok() ==> r.unwrap()@.len() <= distinct_count(colors@),
        r.is_ok() ==> r.unwrap()@.no_duplicates(),
        r.is_ok() && sort ==> ascending(r.unwrap()@),
{
    if colors.len() == 0 || max_color_count == 0 {
        return Err(QuantizeError::InvalidInput);
    }
    let k = max_color_count;
    proof {
        lemma_octree_palette_bound(colors@, k as int);
    }
    let mut tree = OctTree::new();
    let mut i: usize = 0;
    while i < colors.len()
        invariant
            k > 0,
            i <= colors@.len(),
            tree.state() == built(colors@, k as int, i as nat),
            tree.wf(i as int),
            tree.leaves@.len() <= k,
        decreases colors@.len() - i,
    {
        assert(i + 1 <= u64::MAX);
        tree.add_color(&colors[i], Ghost(i as int));
        let ghost target = shrunk(tree.state(), k as int);
        while tree.leaves.len() > k
            invariant
                k > 0,
                i < colors@.len(),
                i + 1 <= u64::MAX,
                shrunk(tree.state(), k as int) == target,
                tree.wf(i + 1),
            decreases tree.branches@.len() + tree.leaves@.len(),
        {
            proof {
                lemma_reduced_measure(tree.state(), k as int);
            }
            tree.reduce_tree(Ghost(i + 1));
        }
        i = i + 1;
    }
    Ok(tree.color_palette(sort, Ghost(colors@.len() as int)))
}

/// The leaf of `n` copies of colour `c`.
pub open spec fn repeated_leaf(c: Rgb, n: int) -> Leaf {
    Leaf {
        cell: cell_of(c, 8),
        red_sum: (n * c[0]) as u128,
        green_sum: (n * c[1]) as u128,
        blue_sum: (n * c[2]) as u128,
        pixel_count: n as u64,
    }
}

proof fn lemma_built_single_color(colors: Seq<Rgba>, k: int, n: nat, c: Rgb)
    requires
        k > 0,
        1 <= n <= colors.len(),
        colors.len() <= u64::MAX,
        forall|i: int| 0 <= i < colors.len() ==> rgb_of(#[trigger] colors[i]) == c,
    ensures
        built(colors, k, n).leaves == seq![repeated_leaf(c, n as int)],
    decreases n,
{
    assert(rgb_of(colors[n - 1]) == c);
    if n == 1 {
        let s = inserted(empty_state(), c);
        assert(find(empty_state().leaves, c) == -1);
        assert(s.leaves =~= seq![new_leaf(c)]);
        assert(shrunk(s, k) == s);
        assert(1 * c[0] == c[0] && 1 * c[1] == c[1] && 1 * c[2] == c[2]);
        assert(new_leaf(c) == repeated_leaf(c, 1));
        assert(built(colors, k, 0) == empty_state());
    } else {
        lemma_built_single_color(colors, k, (n - 1) as nat, c);
        let prev = built(colors, k, (n - 1) as nat);
        let l = repeated_leaf(c, n - 1);
        assert(covers(l.cell, c));
        assert(find_upto(prev.leaves, c, 0) == -1);
        assert(find(prev.leaves, c) == 0);
        assert(0 <= (n - 1) * c[0] <= 255 * (n - 1)) by (nonlinear_arith)
            requires c[0] <= 255, n >= 1;
        assert(0 <= (n - 1) * c[1] <= 255 * (n - 1)) by (nonlinear_arith)
            requires c[1] <= 255, n >= 1;
        assert(0 <= (n - 1) * c[2] <= 255 * (n - 1)) by (nonlinear_arith)
            requires c[2] <= 255, n >= 1;
        assert((n - 1) * c[0] + c[0] == n * c[0]) by (nonlinear_arith);
        assert((n - 1) * c[1] + c[1] == n * c[1]) by (nonlinear_arith);
        assert((n - 1) * c[2] + c[2] == n * c[2]) by (nonlinear_arith);
        let s = inserted(prev, c);
        assert(s.leaves =~= seq![repeated_leaf(c, n as int)]);
        assert(shrunk(s, k) == s);
    }
}

/// Law: any number of copies of one colour give a palette of that colour
/// alone, whatever the bound.
pub proof fn lemma_octree_single_color(
    colors: Seq<Rgba>,
    k: usize,
    sort: bool,
    c: Rgb,
    r: Result<Vec<Rgb>, QuantizeError>,
)
    requires
        quantized(colors, k, sort, octree_means(colors, k as int), r),
        colors.len() > 0,
        colors.len() <= u64::MAX,
        k > 0,
        forall|i: int| 0 <= i < colors.len() ==> rgb_of(#[trigger] colors[i]) == c,
    ensures
        r.is_ok(),
        r.unwrap()@ == seq![c],
{
    let n = colors.len() as int;
    lemma_built_single_color(colors, k as int, n as nat, c);
    let l = repeated_leaf(c, n);
    assert(0 <= n * c[0] <= 255 * n) by (nonlinear_arith)
        requires c[0] <= 255, n >= 1;
    assert(0 <= n * c[1] <= 255 * n) by (nonlinear_arith)
        requires c[1] <= 255, n >= 1;
    assert(0 <= n * c[2] <= 255 * n) by (nonlinear_arith)
        requires c[2] <= 255, n >= 1;
    assert forall|ch: int| 0 <= ch < 3 implies (n * c[ch]) / n == c[ch] by {
        vstd::arithmetic::div_mod::lemma_div_multiples_vanish(c[ch] as int, n);
        assert(n * c[ch] == c[ch] * n) by (nonlinear_arith);
    }
    assert(leaf_mean(l) =~= c) by {
        broadcast use vstd::array::group_array_axioms;
        assert(leaf_mean(l)[0] == c[0]);
        assert(leaf_mean(l)[1] == c[1]);
        assert(leaf_mean(l)[2] == c[2]);
    }
    let means = octree_means(colors, k as int);
    assert(means =~= seq![c]);
    lemma_palette_of_single(means, c, sort, r.unwrap()@);
}

/// Dropping the low bits twice is dropping the more of them once; a mask of
/// all eight bits keeps the channel, a mask of none clears it.
pub proof fn lemma_mask_nest(x: u8, lo: int, hi: int)
    requires
        0 <= lo <= hi <= 8,
    ensures
        (x & mask(hi)) & mask(lo) == x & mask(lo),
        x & mask(8) == x,
        x & mask(0) == 0,
{
    assert(
        (x & 0xffu8) == x && (x & 0x00u8) == 0u8
        && (x & 0x80u8) & 0x80u8 == x & 0x80u8 && (x & 0xc0u8) & 0x80u8 == x & 0x80u8
        && (x & 0xe0u8) & 0x80u8 == x & 0x80u8 && (x & 0xf0u8) & 0x80u8 == x & 0x80u8
        && (x & 0xf8u8) & 0x80u8 == x & 0x80u8 && (x & 0xfcu8) & 0x80u8 == x & 0x80u8
        && (x & 0xfeu8) & 0x80u8 == x & 0x80u8 && (x & 0xffu8) & 0x80u8 == x & 0x80u8
        && (x & 0xc0u8) & 0xc0u8 == x & 0xc0u8 && (x & 0xe0u8) & 0xc0u8 == x & 0xc0u8
        && (x & 0xf0u8) & 0xc0u8 == x & 0xc0u8 && (x & 0xf8u8) & 0xc0u8 == x & 0xc0u8
        && (x & 0xfcu8) & 0xc0u8 == x & 0xc0u8 && (x & 0xfeu8) & 0xc0u8 == x & 0xc0u8
        && (x & 0xffu8) & 0xc0u8 == x & 0xc0u8
        && (x & 0xe0u8) & 0xe0u8 == x & 0xe0u8 && (x & 0xf0u8) & 0xe0u8 == x & 0xe0u8
        && (x & 0xf8u8) & 0xe0u8 == x & 0xe0u8 && (x & 0xfcu8) & 0xe0u8 == x & 0xe0u8
        && (x & 0xfeu8) & 0xe0u8 == x & 0xe0u8 && (x & 0xffu8) & 0xe0u8 == x & 0xe0u8
        && (x & 0xf0u8) & 0xf0u8 == x & 0xf0u8 && (x & 0xf8u8) & 0xf0u8 == x & 0xf0u8
        && (x & 0xfcu8) & 0xf0u8 == x & 0xf0u8 && (x & 0xfeu8) & 0xf0u8 == x & 0xf0u8
        && (x & 0xffu8) & 0xf0u8 == x & 0xf0u8
        && (x & 0xf8u8) & 0xf8u8 == x & 0xf8u8 && (x & 0xfcu8) & 0xf8u8 == x & 0xf8u8
        && (x & 0xfeu8) & 0xf8u8 == x & 0xf8u8 && (x & 0xffu8) & 0xf8u8 == x & 0xf8u8
        && (x & 0xfcu8) & 0xfcu8 == x & 0xfcu8 && (x & 0xfeu8) & 0xfcu8 == x & 0xfcu8
        && (x & 0xffu8) & 0xfcu8 == x & 0xfcu8
        && (x & 0xfeu8) & 0xfeu8 == x & 0xfeu8 && (x & 0xffu8) & 0xfeu8 == x & 0xfeu8
        && (x & 0xffu8) & 0xffu8 == x & 0xffu8
        && (x & 0x00u8) & 0x00u8 == x & 0x00u8 && (x & 0x80u8) & 0x00u8 == 0u8
        && (x & 0xc0u8) & 0x00u8 == 0u8 && (x & 0xe0u8) & 0x00u8 == 0u8
        && (x & 0xf0u8) & 0x00u8 == 0u8 && (x & 0xf8u8) & 0x00u8 == 0u8
        && (x & 0xfcu8) & 0x00u8 == 0u8 && (x & 0xfeu8) & 0x00u8 == 0u8
        && (x & 0xffu8) & 0x00u8 == 0u8
    ) by (bit_vector);
}

/// Node `outer` is the ancestor at its level of a node `inner` that holds `x`,
/// exactly when `outer` holds `x`.
proof fn lemma_nested_cover(inner: Cell, outer: Cell, x: Rgb)
    requires
        covers(inner, x),
        inner.level <= 8,
        outer.level <= inner.level,
    ensures
        within(inner, outer) <==> covers(outer, x),
{
    lemma_mask_nest(x[0], outer.level as int, inner.level as int);
    lemma_mask_nest(x[1], outer.level as int, inner.level as int);
    lemma_mask_nest(x[2], outer.level as int, inner.level as int);
}

/// Some colour of `seen` lies in node `cell`.
pub open spec fn witnessed(cell: Cell, seen: Set<Rgb>) -> bool {
    exists|x: Rgb| seen.contains(x) && #[trigger] covers(cell, x)
}

/// What holds of every octree built from the colours `seen`: some colour of
/// `seen` lies in each leaf; no colour lies in two leaves; no leaf lies above
/// a standing branch; a leaf lies at level 8 at most, a branch at level 7 at most.
pub open spec fn tree_inv(s: OctState, seen: Set<Rgb>) -> bool {
    &&& forall|a: int| 0 <= a < s.leaves.len() ==> s.leaves[a].cell.level <= 8
    &&& forall|a: int| 0 <= a < s.leaves.len() ==> #[trigger] witnessed(s.leaves[a].cell, seen)
    &&& forall|a: int, b: int, x: Rgb|
        0 <= a < s.leaves.len() && 0 <= b < s.leaves.len() && a != b && #[trigger] covers(s.leaves[a].cell, x)
            ==> !#[trigger] covers(s.leaves[b].cell, x)
    &&& forall|a: int, q: int|
        0 <= a < s.leaves.len() && 0 <= q < s.branches.len()
            ==> !(#[trigger] within(s.branches[q], s.leaves[a].cell) && s.branches[q].level > s.leaves[a].cell.level)
    &&& forall|q: int| 0 <= q < s.branches.len() ==> #[trigger] s.branches[q].level <= 7
}

proof fn lemma_find_none(leaves: Seq<Leaf>, c: Rgb, n: nat)
    requires
        n <= leaves.len(),
        find_upto(leaves, c, n) == -1,
    ensures
        forall|a: int| 0 <= a < n ==> !covers(#[trigger] leaves[a].cell, c),
    decreases n,
{
    if n > 0 {
        lemma_find_none(leaves, c, (n - 1) as nat);
    }
}

proof fn lemma_find_some(leaves: Seq<Leaf>, c: Rgb, n: nat)
    requires
        n <= leaves.len(),
        find_upto(leaves, c, n) != -1,
    ensures
        0 <= find_upto(leaves, c, n) < n,
        covers(leaves[find_upto(leaves, c, n)].cell, c),
    decreases n,
{
    if n > 0 && find_upto(leaves, c, (n - 1) as nat) != -1 {
        lemma_find_some(leaves, c, (n - 1) as nat);
    }
}

proof fn lemma_path(branches: Seq<Cell>, c: Rgb, l: nat)
    requires
        l <= 8,
    ensures
        forall|q: int| 0 <= q < branches.len() ==> path_upto(branches, c, l)[q] == branches[q],
        branches.len() <= path_upto(branches, c, l).len(),
        forall|q: int| branches.len() <= q < path_upto(branches, c, l).len()
            ==> exists|j: int| 0 <= j < l && #[trigger] path_upto(branches, c, l)[q] == cell_of(c, j),
    decreases l,
{
    if l > 0 {
        lemma_path(branches, c, (l - 1) as nat);
        let b = path_upto(branches, c, (l - 1) as nat);
        let cell = cell_of(c, l - 1);
        if !b.contains(cell) {
            assert forall|q: int| branches.len() <= q < b.push(cell).len()
                implies exists|j: int| 0 <= j < l && #[trigger] b.push(cell)[q] == cell_of(c, j) by {
                if q < b.len() {
                    assert(b.push(cell)[q] == b[q]);
                    let j = choose|j: int| 0 <= j < l - 1 && b[q] == cell_of(c, j);
                } else {
                    assert(b.push(cell)[q] == cell_of(c, l - 1));
                }
            }
        }
    }
}

proof fn lemma_inserted_inv(s: OctState, c: Rgb, seen: Set<Rgb>)
    requires
        tree_inv(s, seen),
    ensures
        tree_inv(inserted(s, c), seen.insert(c)),
{
    let t = inserted(s, c);
    let seen2 = seen.insert(c);
    let i = find(s.leaves, c);
    if i >= 0 {
        lemma_find_some(s.leaves, c, s.leaves.len());
        assert forall|a: int| 0 <= a < t.leaves.len() implies #[trigger] witnessed(t.leaves[a].cell, seen2) by {
            assert(t.leaves[a].cell == s.leaves[a].cell);
            assert(witnessed(s.leaves[a].cell, seen));
            let x = choose|x: Rgb| seen.contains(x) && #[trigger] covers(s.leaves[a].cell, x);
            assert(seen2.contains(x) && covers(t.leaves[a].cell, x));
        }
        assert forall|a: int, b: int, x: Rgb|
            0 <= a < t.leaves.len() && 0 <= b < t.leaves.len() && a != b && #[trigger] covers(t.leaves[a].cell, x)
                implies !#[trigger] covers(t.leaves[b].cell, x) by {
            assert(t.leaves[a].cell == s.leaves[a].cell);
            assert(t.leaves[b].cell == s.leaves[b].cell);
        }
        assert forall|a: int, q: int| 0 <= a < t.leaves.len() && 0 <= q < t.branches.len()
            implies !(#[trigger] within(t.branches[q], t.leaves[a].cell) && t.branches[q].level > t.leaves[a].cell.level) by {
            assert(t.leaves[a].cell == s.leaves[a].cell);
        }
    } else {
        lemma_find_none(s.leaves, c, s.leaves.len());
        lemma_path(s.branches, c, 8);
        let n = s.leaves.len();
        let nl = new_leaf(c);
        assert(covers(nl.cell, c));
        assert forall|y: Rgb| covers(nl.cell, y) implies y == c by {
            lemma_mask_nest(y[0], 8, 8);
            lemma_mask_nest(y[1], 8, 8);
            lemma_mask_nest(y[2], 8, 8);
            lemma_mask_nest(c[0], 8, 8);
            lemma_mask_nest(c[1], 8, 8);
            lemma_mask_nest(c[2], 8, 8);
            crate::color::lemma_rgb_eq(y, c);
        }
        assert forall|a: int| 0 <= a < t.leaves.len() implies #[trigger] witnessed(t.leaves[a].cell, seen2) by {
            if a < n {
                assert(t.leaves[a] == s.leaves[a]);
                assert(witnessed(s.leaves[a].cell, seen));
                let x = choose|x: Rgb| seen.contains(x) && #[trigger] covers(s.leaves[a].cell, x);
                assert(seen2.contains(x) && covers(t.leaves[a].cell, x));
            } else {
                assert(t.leaves[a] == nl);
                assert(seen2.contains(c) && covers(t.leaves[a].cell, c));
            }
        }
        assert forall|a: int, b: int, x: Rgb|
            0 <= a < t.leaves.len() && 0 <= b < t.leaves.len() && a != b && #[trigger] covers(t.leaves[a].cell, x)
                implies !#[trigger] covers(t.leaves[b].cell, x) by {
            if a < n && b < n {
                assert(t.leaves[a] == s.leaves[a]);
                assert(t.leaves[b] == s.leaves[b]);
            } else if a < n {
                assert(t.leaves[a] == s.leaves[a]);
                assert(t.leaves[b] == nl);
            } else {
                assert(t.leaves[a] == nl);
                assert(t.leaves[b] == s.leaves[b]);
            }
        }
        assert forall|a: int, q: int| 0 <= a < t.leaves.len() && 0 <= q < t.branches.len()
            implies !(#[trigger] within(t.branches[q], t.leaves[a].cell) && t.branches[q].level > t.leaves[a].cell.level) by {
            if q < s.branches.len() {
                assert(t.branches[q] == s.branches[q]);
                if a < n {
                    assert(t.leaves[a] == s.leaves[a]);
                } else {
                    assert(t.leaves[a] == nl);
                }
            } else {
                let j = choose|j: int| 0 <= j < 8 && #[trigger] t.branches[q] == cell_of(c, j);
                if a < n {
                    let l = s.leaves[a];
                    assert(t.leaves[a] == l);
                    if within(t.branches[q], l.cell) && t.branches[q].level > l.cell.level {
                        lemma_mask_nest(c[0], l.cell.level as int, j);
                        lemma_mask_nest(c[1], l.cell.level as int, j);
                        lemma_mask_nest(c[2], l.cell.level as int, j);
                        assert(covers(l.cell, c));
                    }
                } else {
                    assert(t.leaves[a] == nl);
                }
            }
        }
        assert forall|q: int| 0 <= q < t.branches.len() implies #[trigger] t.branches[q].level <= 7 by {
            if q < s.branches.len() {
                assert(t.branches[q] == s.branches[q]);
            } else {
                let j = choose|j: int| 0 <= j < 8 && #[trigger] t.branches[q] == cell_of(c, j);
            }
        }
    }
}

/// No colour lies in two of the leaves.
pub open spec fn disjoint_leaves(leaves: Seq<Leaf>) -> bool {
    forall|a: int, b: int, x: Rgb|
        0 <= a < leaves.len() && 0 <= b < leaves.len() && a != b && #[trigger] covers(leaves[a].cell, x)
            ==> !#[trigger] covers(leaves[b].cell, x)
}

proof fn lemma_outside_keeps(leaves: Seq<Leaf>, b: Cell)
    requires
        disjoint_leaves(leaves),
    ensures
        disjoint_leaves(outside(leaves, b)),
        forall|k: int| 0 <= k < outside(leaves, b).len() ==> !within(#[trigger] outside(leaves, b)[k].cell, b),
        forall|k: int| 0 <= k < outside(leaves, b).len()
            ==> exists|a: int| 0 <= a < leaves.len() && #[trigger] outside(leaves, b)[k] == leaves[a],
    decreases leaves.len(),
{
    if leaves.len() > 0 {
        let d = leaves.drop_last();
        assert(disjoint_leaves(d)) by {
            assert forall|a: int, q: int, x: Rgb|
                0 <= a < d.len() && 0 <= q < d.len() && a != q && #[trigger] covers(d[a].cell, x)
                    implies !#[trigger] covers(d[q].cell, x) by {
                assert(d[a] == leaves[a] && d[q] == leaves[q]);
            }
        }
        lemma_outside_keeps(d, b);
        let o = outside(d, b);
        let last = leaves.last();
        if !within(last.cell, b) {
            let o2 = o.push(last);
            assert forall|k: int| 0 <= k < o2.len()
                implies exists|a: int| 0 <= a < leaves.len() && #[trigger] o2[k] == leaves[a] by {
                if k < o.len() {
                    let a = choose|a: int| 0 <= a < d.len() && #[trigger] o[k] == d[a];
                    assert(o2[k] == leaves[a]);
                } else {
                    assert(o2[k] == leaves[leaves.len() - 1]);
                }
            }
            assert forall|p: int, q: int, x: Rgb|
                0 <= p < o2.len() && 0 <= q < o2.len() && p != q && #[trigger] covers(o2[p].cell, x)
                    implies !#[trigger] covers(o2[q].cell, x) by {
                if p < o.len() && q < o.len() {
                    assert(o2[p] == o[p] && o2[q] == o[q]);
                } else if p < o.len() {
                    let a = choose|a: int| 0 <= a < d.len() && #[trigger] o[p] == d[a];
                    assert(o2[p] == leaves[a]);
                    assert(o2[q] == leaves[leaves.len() - 1]);
                } else {
                    let a = choose|a: int| 0 <= a < d.len() && #[trigger] o[q] == d[a];
                    assert(o2[q] == leaves[a]);
                    assert(o2[p] == leaves[leaves.len() - 1]);
                }
            }
            assert forall|k: int| 0 <= k < o2.len() implies !within(#[trigger] o2[k].cell, b) by {
                if k < o.len() {
                    assert(o2[k] == o[k]);
                }
            }
        } else {
            assert forall|k: int| 0 <= k < o.len()
                implies exists|a: int| 0 <= a < leaves.len() && #[trigger] o[k] == leaves[a] by {
                let a = choose|a: int| 0 <= a < d.len() && #[trigger] o[k] == d[a];
                assert(o[k] == leaves[a]);
            }
        }
    }
}

proof fn lemma_gathered_source(leaves: Seq<Leaf>, b: Cell)
    requires
        gathered_count(leaves, b) > 0,
    ensures
        exists|a: int| 0 <= a < leaves.len() && within(#[trigger] leaves[a].cell, b),
    decreases leaves.len(),
{
    let d = leaves.drop_last();
    if within(leaves.last().cell, b) {
        assert(within(leaves[leaves.len() - 1].cell, b));
    } else {
        lemma_gathered_source(d, b);
        let a = choose|a: int| 0 <= a < d.len() && within(#[trigger] d[a].cell, b);
        assert(leaves[a] == d[a]);
    }
}

proof fn lemma_pick_deepest(branches: Seq<Cell>, n: nat)
    requires
        1 <= n <= branches.len(),
    ensures
        forall|q: int| 0 <= q < n ==> #[trigger] branches[q].level <= branches[pick_upto(branches, n)].level,
    decreases n,
{
    lemma_pick_upto(branches, n);
    if n > 1 {
        lemma_pick_deepest(branches, (n - 1) as nat);
        lemma_pick_upto(branches, (n - 1) as nat);
    }
}

proof fn lemma_reduced_inv(s: OctState, seen: Set<Rgb>)
    requires
        tree_inv(s, seen),
    ensures
        tree_inv(reduced(s), seen),
{
    let t = reduced(s);
    let some = s.branches.len() > 0;
    let p = pick(s.branches);
    if some {
        lemma_pick(s.branches);
        lemma_pick_deepest(s.branches, s.branches.len());
    }
    let b = if some { s.branches[p] } else { root_cell() };
    assert(b.level <= 7);
    assert(disjoint_leaves(s.leaves));
    lemma_outside_keeps(s.leaves, b);
    let kept = outside(s.leaves, b);
    let g = gathered(s.leaves, b);
    let grown = gathered_count(s.leaves, b) > 0;
    if grown {
        lemma_gathered_source(s.leaves, b);
    }
    assert forall|a: int| 0 <= a < t.leaves.len() implies #[trigger] t.leaves[a].cell.level <= 8 && witnessed(t.leaves[a].cell, seen) by {
        if a < kept.len() {
            assert(t.leaves[a] == kept[a]);
            let i = choose|i: int| 0 <= i < s.leaves.len() && #[trigger] kept[a] == s.leaves[i];
            assert(witnessed(s.leaves[i].cell, seen));
        } else {
            assert(t.leaves[a] == g);
            let i = choose|i: int| 0 <= i < s.leaves.len() && within(#[trigger] s.leaves[i].cell, b);
            assert(witnessed(s.leaves[i].cell, seen));
            let x = choose|x: Rgb| seen.contains(x) && #[trigger] covers(s.leaves[i].cell, x);
            lemma_nested_cover(s.leaves[i].cell, b, x);
            assert(covers(g.cell, x));
        }
    }
    assert forall|a: int, c: int, x: Rgb|
        0 <= a < t.leaves.len() && 0 <= c < t.leaves.len() && a != c && #[trigger] covers(t.leaves[a].cell, x)
            implies !#[trigger] covers(t.leaves[c].cell, x) by {
        if a < kept.len() && c < kept.len() {
            assert(t.leaves[a] == kept[a] && t.leaves[c] == kept[c]);
        } else {
            let k = if a < kept.len() { a } else { c };
            assert(k < kept.len());
            let kl = kept[k];
            assert(t.leaves[k] == kl);
            let i = choose|i: int| 0 <= i < s.leaves.len() && #[trigger] kept[k] == s.leaves[i];
            if covers(kl.cell, x) && covers(b, x) {
                if kl.cell.level >= b.level {
                    lemma_nested_cover(kl.cell, b, x);
                } else {
                    lemma_nested_cover(b, kl.cell, x);
                    assert(within(s.branches[p], s.leaves[i].cell));
                }
            }
        }
    }
    assert forall|a: int, q: int| 0 <= a < t.leaves.len() && 0 <= q < t.branches.len()
        implies !(#[trigger] within(t.branches[q], t.leaves[a].cell) && t.branches[q].level > t.leaves[a].cell.level) by {
        let oq = if q < p { q } else { q + 1 };
        assert(t.branches[q] == s.branches[oq]);
        if a < kept.len() {
            assert(t.leaves[a] == kept[a]);
            let i = choose|i: int| 0 <= i < s.leaves.len() && #[trigger] kept[a] == s.leaves[i];
            assert(!(within(s.branches[oq], s.leaves[i].cell) && s.branches[oq].level > s.leaves[i].cell.level));
        } else {
            assert(t.leaves[a] == g);
            assert(s.branches[oq].level <= b.level);
        }
    }
    assert forall|q: int| 0 <= q < t.branches.len() implies #[trigger] t.branches[q].level <= 7 by {
        let oq = if q < p { q } else { q + 1 };
        assert(t.branches[q] == s.branches[oq]);
    }
}

proof fn lemma_shrunk_inv(s: OctState, k: int, seen: Set<Rgb>)
    requires
        tree_inv(s, seen),
    ensures
        tree_inv(shrunk(s, k), seen),
        k > 0 ==> shrunk(s, k).leaves.len() <= k,
    decreases s.branches.len() + s.leaves.len(),
{
    if k > 0 && s.leaves.len() > k {
        lemma_reduced_measure(s, k);
        lemma_reduced_inv(s, seen);
        lemma_shrunk_inv(reduced(s), k, seen);
    }
}

/// The colours among the first `n` pixels.
pub open spec fn seen_upto(colors: Seq<Rgba>, n: int) -> Set<Rgb> {
    rgb_seq(colors.subrange(0, n)).to_set()
}

proof fn lemma_built_inv(colors: Seq<Rgba>, k: int, n: nat)
    requires
        k > 0,
        n <= colors.len(),
    ensures
        tree_inv(built(colors, k, n), seen_upto(colors, n as int)),
        built(colors, k, n).leaves.len() <= k,
    decreases n,
{
    if n > 0 {
        lemma_built_inv(colors, k, (n - 1) as nat);
        let c = rgb_of(colors[n - 1]);
        let prev = built(colors, k, (n - 1) as nat);
        lemma_inserted_inv(prev, c, seen_upto(colors, n - 1));
        let a = rgb_seq(colors.subrange(0, n - 1));
        let b = rgb_seq(colors.subrange(0, n as int));
        assert(b =~= a.push(c));
        assert(seen_upto(colors, n as int) =~= seen_upto(colors, n - 1).insert(c)) by {
            assert forall|x: Rgb| b.contains(x) <==> (a.contains(x) || x == c) by {
                if b.contains(x) {
                    let i = choose|i: int| 0 <= i < b.len() && b[i] == x;
                    if i < a.len() {
                        assert(a[i] == x);
                    }
                }
                if a.contains(x) {
                    let i = choose|i: int| 0 <= i < a.len() && a[i] == x;
                    assert(b[i] == x);
                }
                if x == c {
                    assert(b[n - 1] == x);
                }
            }
        }
        lemma_shrunk_inv(inserted(prev, c), k, seen_upto(colors, n as int));
    }
}

proof fn lemma_leaves_bound(s: OctState, seen: Set<Rgb>)
    requires
        tree_inv(s, seen),
        seen.finite(),
    ensures
        s.leaves.len() <= seen.len(),
{
    let n = s.leaves.len();
    let ws = Seq::new(n, |a: int| choose|x: Rgb| seen.contains(x) && #[trigger] covers(s.leaves[a].cell, x));
    assert forall|a: int| 0 <= a < n implies seen.contains(#[trigger] ws[a]) && covers(s.leaves[a].cell, ws[a]) by {
        assert(witnessed(s.leaves[a].cell, seen));
    }
    assert(ws.no_duplicates()) by {
        assert forall|a: int, b: int| 0 <= a < n && 0 <= b < n && a != b implies ws[a] != ws[b] by {
            assert(seen.contains(ws[a]) && covers(s.leaves[a].cell, ws[a]));
            assert(seen.contains(ws[b]) && covers(s.leaves[b].cell, ws[b]));
        }
    }
    ws.unique_seq_to_set();
    assert(ws.to_set().subset_of(seen)) by {
        assert forall|x: Rgb| ws.to_set().contains(x) implies seen.contains(x) by {
            let a = choose|a: int| 0 <= a < n && ws[a] == x;
            assert(seen.contains(ws[a]));
        }
    }
    vstd::set_lib::lemma_len_subset(ws.to_set(), seen);
}

/// Law: an octree palette holds at most `k` colours, and no more colours than
/// the image has different colours.
pub proof fn lemma_octree_palette_bound(colors: Seq<Rgba>, k: int)
    requires
        k > 0,
    ensures
        octree_means(colors, k).len() <= k,
        octree_means(colors, k).len() <= distinct_count(colors),
{
    lemma_built_inv(colors, k, colors.len());
    assert(colors.subrange(0, colors.len() as int) =~= colors);
    rgb_seq(colors).lemma_cardinality_of_set();
    vstd::seq_lib::seq_to_set_is_finite(rgb_seq(colors));
    lemma_leaves_bound(built(colors, k, colors.len()), seen_upto(colors, colors.len() as int));
}

} // verus!
