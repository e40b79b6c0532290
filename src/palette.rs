//! Turning a list of representative colours into a palette: duplicates are
//! dropped, and on request the colours are put in ascending order.
use vstd::prelude::*;
use crate::color::{Rgb, Rgba, lex_lt, lemma_lex_total, lemma_lex_trans, same_rgb, rgb_less};

verus! {

/// Why a palette request was refused.
#[derive(Clone, Copy, Debug, PartialEq, Eq, Structural)]
pub enum QuantizeError {
    /// No colours were given, or a palette of no colours was asked for.
    InvalidInput,
}

/// What a palette builder returns for `colors` and the bound `k`: a refusal
/// when there are no colours or `k` is zero, and otherwise the palette made
/// from the representative colours `means`.
pub open spec fn quantized(
    colors: Seq<Rgba>,
    k: usize,
    sort: bool,
    means: Seq<Rgb>,
    r: Result<Vec<Rgb>, QuantizeError>,
) -> bool {
    if colors.len() == 0 || k == 0 {
        r == Err::<Vec<Rgb>, QuantizeError>(QuantizeError::InvalidInput)
    } else {
        r.is_ok() && palette_of(means, sort, r.unwrap()@)
    }
}

/// `s` with every colour kept at its first occurrence only.
pub open spec fn dedup(s: Seq<Rgb>) -> Seq<Rgb>
    decreases s.len(),
{
    if s.len() == 0 {
        Seq::empty()
    } else {
        let d = dedup(s.drop_last());
        if d.contains(s.last()) {
            d
        } else {
            d.push(s.last())
        }
    }
}

/// Strictly ascending in lexicographic channel order.
pub open spec fn ascending(s: Seq<Rgb>) -> bool {
    forall|i: int, j: int| 0 <= i < j < s.len() ==> lex_lt(#[trigger] s[i], #[trigger] s[j])
}

/// The palette made from the colours `means`: in order of first occurrence,
/// or in ascending order when `sort` holds.
pub open spec fn palette_of(means: Seq<Rgb>, sort: bool, r: Seq<Rgb>) -> bool {
    if sort {
        ascending(r) && (forall|c: Rgb| r.contains(c) <==> means.contains(c))
    } else {
        r == dedup(means)
    }
}

pub proof fn lemma_dedup(s: Seq<Rgb>)
    ensures
        dedup(s).no_duplicates(),
        forall|c: Rgb| dedup(s).contains(c) <==> s.contains(c),
        dedup(s).len() <= s.len(),
        dedup(s).len() == s.to_set().len(),
    decreases s.len(),
{
    if s.len() > 0 {
        lemma_dedup(s.drop_last());
        assert forall|c: Rgb| s.contains(c) <==> (s.drop_last().contains(c) || c == s.last()) by {
            if s.contains(c) {
                let i = choose|i: int| 0 <= i < s.len() && s[i] == c;
                if i < s.len() - 1 {
                    assert(s.drop_last()[i] == c);
                }
            }
            if c == s.last() {
                assert(s[s.len() - 1] == c);
            }
            if s.drop_last().contains(c) {
                let i = choose|i: int| 0 <= i < s.len() - 1 && s.drop_last()[i] == c;
                assert(s[i] == c);
            }
        }
        let d = dedup(s.drop_last());
        if !d.contains(s.last()) {
            assert forall|c: Rgb| d.push(s.last()).contains(c) <==> (d.contains(c) || c == s.last()) by {
                if d.push(s.last()).contains(c) {
                    let i = choose|i: int| 0 <= i < d.len() + 1 && d.push(s.last())[i] == c;
                    if i < d.len() {
                        assert(d[i] == c);
                    }
                }
                if d.contains(c) {
                    let i = choose|i: int| 0 <= i < d.len() && d[i] == c;
                    assert(d.push(s.last())[i] == c);
                }
                if c == s.last() {
                    assert(d.push(s.last())[d.len() as int] == c);
                }
            }
        }
    }
    lemma_dedup_set(s);
}

proof fn lemma_dedup_set(s: Seq<Rgb>)
    requires
        dedup(s).no_duplicates(),
        forall|c: Rgb| dedup(s).contains(c) <==> s.contains(c),
    ensures
        dedup(s).len() == s.to_set().len(),
{
    dedup(s).unique_seq_to_set();
    assert(dedup(s).to_set() =~= s.to_set());
}

/// An ascending sequence holds no colour twice.
pub proof fn lemma_ascending_no_dup(s: Seq<Rgb>)
    requires
        ascending(s),
    ensures
        s.no_duplicates(),
{
    assert forall|i: int, j: int| 0 <= i < s.len() && 0 <= j < s.len() && i != j implies s[i] != s[j] by {
        if i < j {
            assert(lex_lt(s[i], s[j]));
        } else {
            assert(lex_lt(s[j], s[i]));
        }
        lemma_lex_total(s[i], s[j]);
    }
}

/// A palette made from `means` holds no colour twice, holds only colours of
/// `means`, and is no longer than the number of different colours of `means`.
pub proof fn lemma_palette_of(means: Seq<Rgb>, sort: bool, r: Seq<Rgb>)
    requires
        palette_of(means, sort, r),
    ensures
        r.no_duplicates(),
        forall|c: Rgb| r.contains(c) <==> means.contains(c),
        r.len() == means.to_set().len(),
        r.len() <= means.len(),
{
    lemma_dedup(means);
    if sort {
        lemma_ascending_no_dup(r);
        r.unique_seq_to_set();
        assert(r.to_set() =~= means.to_set());
        means.lemma_cardinality_of_set();
    }
}

/// The palette of one colour, however often it occurs, is that colour alone.
pub proof fn lemma_palette_of_single(means: Seq<Rgb>, c: Rgb, sort: bool, r: Seq<Rgb>)
    requires
        palette_of(means, sort, r),
        means.len() > 0,
        forall|i: int| 0 <= i < means.len() ==> #[trigger] means[i] == c,
    ensures
        r == seq![c],
{
    lemma_palette_of(means, sort, r);
    assert(means[0] == c);
    assert(means.contains(c));
    assert(r.contains(c));
    assert forall|i: int| 0 <= i < r.len() implies #[trigger] r[i] == c by {
        assert(r.contains(r[i]));
        assert(means.contains(r[i]));
    }
    if r.len() > 1 {
        assert(r[0] == r[1]);
    }
    assert(r =~= seq![c]);
}

fn contains_rgb(v: &Vec<Rgb>, c: &Rgb) -> (r: bool)
    ensures
        r == v@.contains(*c),
{
    let mut i: usize = 0;
    while i < v.len()
        invariant
            i <= v.len(),
            forall|j: int| 0 <= j < i ==> v@[j] != *c,
        decreases v.len() - i,
    {
        if same_rgb(&v[i], c) {
            return true;
        }
        i = i + 1;
    }
    false
}

/// Builds the palette of the colours `means`: each colour once, in order of
/// first occurrence, or in ascending lexicographic order when `sort` holds.
pub fn finish_palette(means: &Vec<Rgb>, sort: bool) -> (r: Vec<Rgb>)
    ensures
        palette_of(means@, sort, r@),
        r@.no_duplicates(),
        r@.len() <= means@.len(),
        r@.len() == means@.to_set().len(),
{
    let mut out: Vec<Rgb> = Vec::new();
    let mut i: usize = 0;
    if !sort {
        while i < means.len()
            invariant
                i <= means.len(),
                out@ == dedup(means@.subrange(0, i as int)),
            decreases means.len() - i,
        {
            proof {
                assert(means@.subrange(0, i + 1).drop_last() =~= means@.subrange(0, i as int));
            }
            if !contains_rgb(&out, &means[i]) {
                out.push(means[i]);
            }
            i = i + 1;
        }
        proof {
            assert(means@.subrange(0, means.len() as int) =~= means@);
        }
    } else {
        while i < means.len()
            invariant
                i <= means.len(),
                ascending(out@),
                forall|c: Rgb| out@.contains(c) <==> means@.subrange(0, i as int).contains(c),
            decreases means.len() - i,
        {
            let c = means[i];
            let mut pos: usize = 0;
            while pos < out.len() && rgb_less(&out[pos], &c)
                invariant
                    pos <= out.len(),
                    forall|j: int| 0 <= j < pos ==> lex_lt(#[trigger] out@[j], c),
                decreases out.len() - pos,
            {
                pos = pos + 1;
            }
            let ghost before = out@;
            if pos == out.len() || !same_rgb(&out[pos], &c) {
                proof {
                    assert forall|j: int| pos <= j < before.len() implies lex_lt(c, #[trigger] before[j]) by {
                        lemma_lex_total(before[pos as int], c);
                        if j > pos {
                            assert(lex_lt(before[pos as int], before[j]));
                            lemma_lex_trans(c, before[pos as int], before[j]);
                        }
                    }
                }
                out.insert(pos, c);
                proof {
                    assert forall|a: int, b: int| 0 <= a < b < out@.len() implies lex_lt(#[trigger] out@[a], #[trigger] out@[b]) by {
                        if b < pos {
                            assert(out@[a] == before[a] && out@[b] == before[b]);
                        } else if b == pos {
                            assert(out@[a] == before[a]);
                        } else if a < pos {
                            assert(out@[a] == before[a] && out@[b] == before[b - 1]);
                            lemma_lex_trans(before[a], c, before[b - 1]);
                        } else if a == pos {
                            assert(out@[b] == before[b - 1]);
                        } else {
                            assert(out@[a] == before[a - 1] && out@[b] == before[b - 1]);
                        }
                    }
                    assert forall|x: Rgb| out@.contains(x) <==> (before.contains(x) || x == c) by {
                        if out@.contains(x) {
                            let k = choose|k: int| 0 <= k < out@.len() && out@[k] == x;
                            if k < pos {
                                assert(before[k] == x);
                            } else if k > pos {
                                assert(before[k - 1] == x);
                            }
                        }
                        if before.contains(x) {
                            let k = choose|k: int| 0 <= k < before.len() && before[k] == x;
                            if k < pos {
                                assert(out@[k] == x);
                            } else {
                                assert(out@[k + 1] == x);
                            }
                        }
                        if x == c {
                            assert(out@[pos as int] == x);
                        }
                    }
                }
            }
            else {
                proof {
                    assert(out@[pos as int] == c);
                }
            }
            proof {
                let s = means@.subrange(0, i as int);
                let t = means@.subrange(0, i + 1);
                assert forall|x: Rgb| t.contains(x) <==> (s.contains(x) || x == c) by {
                    if t.contains(x) {
                        let k = choose|k: int| 0 <= k < t.len() && t[k] == x;
                        if k < i {
                            assert(means@[k] == x);
                            assert(s[k] == x);
                        }
                    }
                    if s.contains(x) {
                        let k = choose|k: int| 0 <= k < s.len() && s[k] == x;
                        assert(means@[k] == x);
                        assert(t[k] == x);
                    }
                    if x == c {
                        assert(t[i as int] == x);
                    }
                }
                assert forall|x: Rgb| out@.contains(x) <==> t.contains(x) by {
                    assert(before.contains(x) <==> s.contains(x));
                    if x == c {
                        assert(out@.contains(x));
                    }
                }
            }
            i = i + 1;
        }
        proof {
            assert(means@.subrange(0, means.len() as int) =~= means@);
        }
    }
    proof {
        lemma_palette_of(means@, sort, out@);
    }
    out
}

} // verus!
