//! Quality metrics.
//!
//! The decibel figures (black-level pSNR and per-input RMSE pSNR) are
//! logarithms of ratios of floating-point magnitudes; the exact
//! integer accumulations under them live here: the sum and
//! sum-of-squares over the black calibration region (mean and
//! population variance follow from them), and the squared-error sums
//! that the fusion kernel produces.  The per-input
//! consecutive-suspect-field counters are tracked here as well.

use vstd::prelude::*;

verus! {

/// Video system of a capture.
#[derive(Clone, Copy, Debug, PartialEq, Eq, Structural)]
pub enum System {
    Pal,
    Ntsc,
    PalM,
}

/// Per-system sample-region constants: bounds of the black
/// calibration region and of the "useful" region whose reconstruction
/// error feeds the RMSE metric.
#[derive(Clone, Copy, Debug, PartialEq, Eq, Structural)]
pub struct SystemConstants {
    /// Start sample for calculating black pSNR.
    pub black_start_sample: usize,
    /// End sample for calculating black pSNR.
    pub black_end_sample: usize,
    /// Start sample for calculating RMSE pSNR.
    pub useful_start_sample: usize,
    /// End sample for calculating RMSE pSNR.
    pub useful_end_sample: usize,
}

/// The region constants of a video system.  PAL has its own timing;
/// the NTSC constants serve both NTSC and PAL-M.
pub fn constants_for(system: System) -> (r: SystemConstants)
    ensures
        system == System::Pal ==> r == (SystemConstants {
            black_start_sample: 24048usize,
            black_end_sample: 24928usize,
            useful_start_sample: 61312usize,
            useful_end_sample: 258752usize,
        }),
        system != System::Pal ==> r == (SystemConstants {
            black_start_sample: 144usize,
            black_end_sample: 432usize,
            useful_start_sample: 27328usize,
            useful_end_sample: 209280usize,
        }),
{
    match system {
        System::Pal => SystemConstants {
            black_start_sample: 24048,
            black_end_sample: 24928,
            useful_start_sample: 61312,
            useful_end_sample: 258752,
        },
        System::Ntsc | System::PalM => SystemConstants {
            black_start_sample: 144,
            black_end_sample: 432,
            useful_start_sample: 27328,
            useful_end_sample: 209280,
        },
    }
}

/// Sum of the samples in `[start, end)`.
pub open spec fn sum_range(s: Seq<u16>, start: int, end: int) -> int
    decreases end - start,
{
    if start >= end {
        0
    } else {
        sum_range(s, start, end - 1) + s[end - 1]
    }
}

/// Sum of the squared samples in `[start, end)`.
pub open spec fn sum_sq_range(s: Seq<u16>, start: int, end: int) -> int
    decreases end - start,
{
    if start >= end {
        0
    } else {
        sum_sq_range(s, start, end - 1) + s[end - 1] * s[end - 1]
    }
}

proof fn lemma_sum_range_bounds(s: Seq<u16>, start: int, end: int)
    requires
        start <= end,
    ensures
        0 <= sum_range(s, start, end) <= (end - start) * 0xffff,
        0 <= sum_sq_range(s, start, end) <= (end - start) * 0xfffe0001,
    decreases end - start,
{
    if start < end {
        lemma_sum_range_bounds(s, start, end - 1);
        let v = s[end - 1];
        assert(v * v <= 0xfffe0001) by (nonlinear_arith)
            requires
                0 <= v <= 0xffff,
        {}
        assert((end - start) * 0xffff == (end - 1 - start) * 0xffff + 0xffff)
            by (nonlinear_arith);
        assert((end - start) * 0xfffe0001 == (end - 1 - start) * 0xfffe0001 + 0xfffe0001)
            by (nonlinear_arith);
    }
}

/// Sum and sum of squares over one region of a field, the integer
/// parts of the black-level noise figure: the region's mean and
/// population variance follow from them.
pub fn region_sums(field: &Vec<u16>, start: usize, end: usize) -> (r: (u64, u64))
    requires
        start <= end <= field@.len(),
        (end - start) <= 0x1_0000_0000,
    ensures
        r.0 == sum_range(field@, start as int, end as int),
        r.1 == sum_sq_range(field@, start as int, end as int),
{
    let mut sum: u64 = 0;
    let mut sum_sq: u64 = 0;
    let mut k: usize = start;
    while k < end
        invariant
            start <= k <= end <= field@.len(),
            end - start <= 0x1_0000_0000,
            sum == sum_range(field@, start as int, k as int),
            sum_sq == sum_sq_range(field@, start as int, k as int),
        decreases end - k,
    {
        let v: u16 = field[k];
        proof {
            lemma_sum_range_bounds(field@, start as int, k as int);
            assert(v * v <= 0xfffe0001) by (nonlinear_arith)
                requires
                    0 <= v <= 0xffff,
            {}
            assert((k - start) * 0xffff + 0xffff <= 0x1_0000_0000 * 0xffff)
                by (nonlinear_arith)
                requires
                    0 <= k - start <= 0x1_0000_0000 - 1,
            {}
            assert((k - start) * 0xfffe0001 + 0xfffe0001 <= 0x1_0000_0000 * 0xfffe0001)
                by (nonlinear_arith)
                requires
                    0 <= k - start <= 0x1_0000_0000 - 1,
            {}
        }
        sum = sum + (v as u64);
        sum_sq = sum_sq + (v as u64) * (v as u64);
        k = k + 1;
    }
    (sum, sum_sq)
}

/// Consecutive-suspect-field run length after which the warning
/// repeats.
pub const RMSE_WARN_THRESHOLD: usize = 30;

/// Advances the per-input consecutive-suspect counters by one field:
/// a suspect input's counter grows by one, any other input's counter
/// resets to zero.  The result flags the inputs whose counter has
/// just reached a positive multiple of `RMSE_WARN_THRESHOLD`, the
/// moments at which a bad-source warning is due.
pub fn update_bad_streaks(streaks: &mut Vec<usize>, suspect: &Vec<bool>) -> (warns: Vec<bool>)
    requires
        old(streaks)@.len() == suspect@.len(),
        forall|i: int| 0 <= i < old(streaks)@.len() ==> (#[trigger] old(streaks)@[i])
            < usize::MAX,
    ensures
        final(streaks)@.len() == old(streaks)@.len(),
        forall|i: int|
            0 <= i < final(streaks)@.len() ==> (#[trigger] final(streaks)@[i]) == (
            if suspect@[i] {
                old(streaks)@[i] + 1
            } else {
                0
            }),
        warns@.len() == old(streaks)@.len(),
        forall|i: int|
            0 <= i < warns@.len() ==> (#[trigger] warns@[i]) == (suspect@[i] && (old(
                streaks,
            )@[i] + 1) % (RMSE_WARN_THRESHOLD as int) == 0),
{
    let n: usize = streaks.len();
    let mut warns: Vec<bool> = Vec::new();
    let mut i: usize = 0;
    while i < n
        invariant
            0 <= i <= n,
            n == streaks@.len(),
            n == suspect@.len(),
            n == old(streaks)@.len(),
            forall|t: int| i <= t < n ==> streaks@[t] == old(streaks)@[t],
            forall|t: int|
                0 <= t < n ==> (#[trigger] old(streaks)@[t]) < usize::MAX,
            forall|t: int|
                0 <= t < i ==> (#[trigger] streaks@[t]) == (if suspect@[t] {
                    old(streaks)@[t] + 1
                } else {
                    0int
                }),
            warns@.len() == i,
            forall|t: int|
                0 <= t < i ==> (#[trigger] warns@[t]) == (suspect@[t] && (old(streaks)@[t] + 1)
                    % (RMSE_WARN_THRESHOLD as int) == 0),
        decreases n - i,
    {
        if suspect[i] {
            let s: usize = streaks[i];
            streaks.set(i, s + 1);
            warns.push((s + 1) % RMSE_WARN_THRESHOLD == 0);
        } else {
            streaks.set(i, 0);
            warns.push(false);
        }
        i = i + 1;
    }
    warns
}

} // verus!
