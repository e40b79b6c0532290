//! The published diffusion kernels.
use vstd::prelude::*;
use crate::diffusion::{ErrorComponent, Kernel};

verus! {

/// A tap as a value.
pub open spec fn tap(delta_x: int, delta_y: int, weight: int) -> ErrorComponent {
    ErrorComponent { delta_x: delta_x as i32, delta_y: delta_y as i32, weight: weight as u32 }
}

/// The sum of the weights of `taps`.
pub open spec fn weight_total(taps: Seq<ErrorComponent>) -> int
    decreases taps.len(),
{
    if taps.len() == 0 {
        0
    } else {
        weight_total(taps.drop_last()) + taps.last().weight
    }
}

/// Atkinson's taps, in eighths.
pub open spec fn atkinson_taps() -> Seq<ErrorComponent> {
    seq![tap(1, 0, 1), tap(2, 0, 1), tap(-1, 1, 1), tap(0, 1, 1), tap(1, 1, 1), tap(0, 2, 1)]
}

pub const ATKINSON_DIVISOR: u32 = 8;

/// The taps of Jarvis, Judice and Ninke, in 48ths.
pub open spec fn jjn_taps() -> Seq<ErrorComponent> {
    seq![
        tap(1, 0, 7), tap(2, 0, 5),
        tap(-2, 1, 3), tap(-1, 1, 5), tap(0, 1, 7), tap(1, 1, 5), tap(2, 1, 3),
        tap(-2, 2, 1), tap(-1, 2, 3), tap(0, 2, 5), tap(1, 2, 3), tap(2, 2, 1),
    ]
}

pub const JJN_DIVISOR: u32 = 48;

/// Sierra Lite's taps, in quarters.
pub open spec fn sierra_lite_taps() -> Seq<ErrorComponent> {
    seq![tap(1, 0, 2), tap(-1, 1, 1), tap(0, 1, 1)]
}

pub const SIERRA_LITE_DIVISOR: u32 = 4;

/// Stucki's taps, in 48ths.
pub open spec fn stucki_taps() -> Seq<ErrorComponent> {
    seq![
        tap(1, 0, 8), tap(2, 0, 4),
        tap(-2, 1, 2), tap(-1, 1, 4), tap(0, 1, 8), tap(1, 1, 4), tap(2, 1, 2),
        tap(-2, 2, 1), tap(-1, 2, 2), tap(0, 2, 4), tap(1, 2, 2), tap(2, 2, 1),
    ]
}

pub const STUCKI_DIVISOR: u32 = 48;

fn kernel_of(spec_taps: Ghost<Seq<ErrorComponent>>, taps: &[(i32, i32, u32)], divisor: u32) -> (k: Kernel)
    requires
        taps@.len() == spec_taps@.len(),
        forall|i: int| 0 <= i < taps@.len() ==> spec_taps@[i] == tap(#[trigger] taps@[i].0 as int, taps@[i].1 as int, taps@[i].2 as int),
    ensures
        k.taps@ == spec_taps@,
        k.divisor == divisor,
{
    let mut v: Vec<ErrorComponent> = Vec::new();
    let mut i: usize = 0;
    while i < taps.len()
        invariant
            i <= taps@.len(),
            taps@.len() == spec_taps@.len(),
            forall|j: int| 0 <= j < taps@.len() ==> spec_taps@[j] == tap(#[trigger] taps@[j].0 as int, taps@[j].1 as int, taps@[j].2 as int),
            v@ == spec_taps@.subrange(0, i as int),
        decreases taps@.len() - i,
    {
        let (dx, dy, w) = taps[i];
        v.push(ErrorComponent { delta_x: dx, delta_y: dy, weight: w });
        i = i + 1;
    }
    assert(spec_taps@.subrange(0, taps@.len() as int) =~= spec_taps@);
    Kernel { taps: v, divisor }
}

/// The Atkinson kernel: six taps of an eighth each.
pub fn atkinson() -> (k: Kernel)
    ensures
        k.taps@ == atkinson_taps(),
        k.divisor == ATKINSON_DIVISOR,
{
    let taps: [(i32, i32, u32); 6] = [(1, 0, 1), (2, 0, 1), (-1, 1, 1), (0, 1, 1), (1, 1, 1), (0, 2, 1)];
    kernel_of(Ghost(atkinson_taps()), &taps, ATKINSON_DIVISOR)
}

/// The Jarvis-Judice-Ninke kernel.
pub fn jjn() -> (k: Kernel)
    ensures
        k.taps@ == jjn_taps(),
        k.divisor == JJN_DIVISOR,
{
    let taps: [(i32, i32, u32); 12] = [
        (1, 0, 7), (2, 0, 5),
        (-2, 1, 3), (-1, 1, 5), (0, 1, 7), (1, 1, 5), (2, 1, 3),
        (-2, 2, 1), (-1, 2, 3), (0, 2, 5), (1, 2, 3), (2, 2, 1),
    ];
    kernel_of(Ghost(jjn_taps()), &taps, JJN_DIVISOR)
}

/// The Sierra Lite kernel.
pub fn sierra_lite() -> (k: Kernel)
    ensures
        k.taps@ == sierra_lite_taps(),
        k.divisor == SIERRA_LITE_DIVISOR,
{
    let taps: [(i32, i32, u32); 3] = [(1, 0, 2), (-1, 1, 1), (0, 1, 1)];
    kernel_of(Ghost(sierra_lite_taps()), &taps, SIERRA_LITE_DIVISOR)
}

/// The Stucki kernel.
pub fn stucki() -> (k: Kernel)
    ensures
        k.taps@ == stucki_taps(),
        k.divisor == STUCKI_DIVISOR,
{
    let taps: [(i32, i32, u32); 12] = [
        (1, 0, 8), (2, 0, 4),
        (-2, 1, 2), (-1, 1, 4), (0, 1, 8), (1, 1, 4), (2, 1, 2),
        (-2, 2, 1), (-1, 2, 2), (0, 2, 4), (1, 2, 2), (2, 2, 1),
    ];
    kernel_of(Ghost(stucki_taps()), &taps, STUCKI_DIVISOR)
}

/// Law: the share of the error that each kernel passes on. Jarvis-Judice-Ninke
/// and Sierra Lite pass on all of it; Atkinson three quarters, and Stucki, with
/// its weights in 48ths, seven eighths.
pub proof fn lemma_kernel_weight_totals()
    ensures
        weight_total(jjn_taps()) == JJN_DIVISOR,
        weight_total(sierra_lite_taps()) == SIERRA_LITE_DIVISOR,
        4 * weight_total(atkinson_taps()) == 3 * ATKINSON_DIVISOR,
        8 * weight_total(stucki_taps()) == 7 * STUCKI_DIVISOR,
{
    reveal_with_fuel(weight_total, 13);
    assert(jjn_taps().drop_last().drop_last().drop_last() =~= jjn_taps().subrange(0, 9));
    assert(weight_total(jjn_taps()) == 48);
    assert(weight_total(sierra_lite_taps()) == 4);
    assert(weight_total(atkinson_taps()) == 6);
    assert(weight_total(stucki_taps()) == 42);
}

} // verus!
