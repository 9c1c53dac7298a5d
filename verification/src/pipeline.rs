//! Field pipeline.
//!
//! Drives one output field at a time: fuse the luma plane in three
//! parts (leading edge, useful region, trailing edge, so that the
//! squared-error sums feeding the RMSE metric cover the useful region
//! only), fuse the chroma plane in full, accumulate the black-region
//! sums behind the black-level noise figure, and merge the inputs'
//! dropout spans into the consensus map.  After the run, the
//! accumulated output records receive their final sequence numbers
//! and alternating first/second-field flags, which cannot be fixed
//! until the total output length is known.

use crate::dropout::{consensus_of, merge_dropouts, span_end, spans_within, valid_span,
    valid_spans_of, DropOuts};
use crate::median::{batch_n_range, column, lemma_sse_range_bounds, lemma_sse_range_congruence,
    median_of, sse_in_range, views};
use crate::metrics::{region_sums, sum_range, sum_sq_range, SystemConstants};
use vstd::prelude::*;

verus! {

/// One output field record: the flag and sequence number assigned on
/// finalization, and the consensus dropout spans of the field.
pub struct Field {
    /// First or second field of its frame, from emission order.
    pub is_first_field: bool,
    /// Output sequence number, 1-based.
    pub seq_no: usize,
    /// Consensus dropout spans, when any input contributed spans.
    pub drop_outs: Option<DropOuts>,
}

/// Everything one fused field yields: the fused planes, the per-input
/// squared-error sums split between useful region and edges, the
/// black-region sums, and the consensus dropout spans.
pub struct FieldFusion {
    /// Fused luma plane.
    pub luma: Vec<u16>,
    /// Fused chroma plane.
    pub chroma: Vec<u16>,
    /// Per-input squared error over the useful region of the luma.
    pub sse_luma: Vec<u64>,
    /// Per-input squared error over the two luma edge regions.
    pub sse_luma_edge: Vec<u64>,
    /// Per-input squared error over the whole chroma plane.
    pub sse_chroma: Vec<u64>,
    /// Sum of the fused luma samples in the black region.
    pub black_sum: u64,
    /// Sum of the squared fused luma samples in the black region.
    pub black_sum_sq: u64,
    /// Consensus dropout spans, when any input contributed spans on a
    /// line inside the field.
    pub drop_outs: Option<DropOuts>,
}

/// Whether any input contributes a dropout span on a line inside the
/// field.
fn has_dropout_line(dropouts: &Vec<DropOuts>, field_height: usize) -> (r: bool)
    requires
        forall|i: int| 0 <= i < dropouts@.len() ==> (#[trigger] dropouts@[i]).well_formed(),
    ensures
        r == exists|i: int, j: int|
            #![trigger dropouts@[i].spans()[j]]
            0 <= i < dropouts@.len() && 0 <= j < dropouts@[i].spans().len()
                && dropouts@[i].spans()[j].0 < field_height,
{
    let n: usize = dropouts.len();
    let mut i: usize = 0;
    while i < n
        invariant
            0 <= i <= n,
            n == dropouts@.len(),
            forall|t: int| 0 <= t < n ==> (#[trigger] dropouts@[t]).well_formed(),
            forall|t: int, j: int|
                #![trigger dropouts@[t].spans()[j]]
                0 <= t < i && 0 <= j < dropouts@[t].spans().len() ==> dropouts@[t].spans()[j].0
                    >= field_height,
        decreases n - i,
    {
        let d: &DropOuts = &dropouts[i];
        let cnt: usize = d.len();
        let mut j: usize = 0;
        while j < cnt
            invariant
                0 <= j <= cnt,
                0 <= i < n,
                n == dropouts@.len(),
                d == dropouts@[i as int],
                d.well_formed(),
                cnt == d.spans().len(),
                forall|q: int|
                    0 <= q < j ==> (#[trigger] d.spans()[q]).0 >= field_height,
            decreases cnt - j,
        {
            let line: usize = d.field_line[j];
            proof {
                assert(d.spans()[j as int].0 == line);
            }
            if line < field_height {
                return true;
            }
            j = j + 1;
        }
        i = i + 1;
    }
    false
}

/// A vector of `n` zeroed 64-bit sums.
fn zeroed_u64(n: usize) -> (r: Vec<u64>)
    ensures
        r@.len() == n,
        forall|i: int| 0 <= i < n ==> r@[i] == 0u64,
{
    let mut r: Vec<u64> = Vec::new();
    let mut i: usize = 0;
    while i < n
        invariant
            0 <= i <= n,
            r@.len() == i,
            forall|t: int| 0 <= t < i ==> r@[t] == 0u64,
        decreases n - i,
    {
        r.push(0);
        i = i + 1;
    }
    r
}

/// A vector of `n` zeroed samples.
fn zeroed_u16(n: usize) -> (r: Vec<u16>)
    ensures
        r@.len() == n,
{
    let mut r: Vec<u16> = Vec::new();
    let mut i: usize = 0;
    while i < n
        invariant
            0 <= i <= n,
            r@.len() == i,
        decreases n - i,
    {
        r.push(0);
        i = i + 1;
    }
    r
}

/// Processes one field: fuses both planes sample by sample, splits
/// the luma squared-error accumulation between the useful region and
/// the edges, accumulates the black-region sums, and merges the
/// inputs' dropout spans with the given quorum.
pub fn process_field(
    in_luma: &Vec<Vec<u16>>,
    in_chroma: &Vec<Vec<u16>>,
    dropouts: &Vec<DropOuts>,
    consts: &SystemConstants,
    field_width: usize,
    field_height: usize,
    dropout_threshold: usize,
) -> (r: FieldFusion)
    requires
        3 <= in_luma@.len() <= 15,
        in_chroma@.len() == in_luma@.len(),
        dropouts@.len() == in_luma@.len(),
        forall|i: int|
            0 <= i < in_luma@.len() ==> (#[trigger] in_luma@[i])@.len()
                == in_luma@[0]@.len(),
        forall|i: int|
            0 <= i < in_chroma@.len() ==> (#[trigger] in_chroma@[i])@.len()
                == in_luma@[0]@.len(),
        in_luma@[0]@.len() % 32 == 0,
        consts.useful_start_sample % 32 == 0,
        consts.useful_end_sample % 32 == 0,
        consts.useful_start_sample <= consts.useful_end_sample <= in_luma@[0]@.len(),
        consts.black_start_sample <= consts.black_end_sample <= in_luma@[0]@.len(),
        consts.black_end_sample - consts.black_start_sample <= 0x1_0000_0000,
        in_luma@[0]@.len() * 0xfffe0001 <= u64::MAX,
        field_width >= 1,
        dropout_threshold >= 1,
        forall|i: int| 0 <= i < dropouts@.len() ==> (#[trigger] dropouts@[i]).well_formed(),
        forall|i: int, j: int|
            #![trigger dropouts@[i].spans()[j]]
            0 <= i < dropouts@.len() && 0 <= j < dropouts@[i].spans().len() && valid_span(
                dropouts@[i].spans()[j],
                field_height as int,
            ) ==> span_end(dropouts@[i].spans()[j], field_width as int) <= usize::MAX,
    ensures
        r.luma@.len() == in_luma@[0]@.len(),
        r.chroma@.len() == in_luma@[0]@.len(),
        forall|k: int|
            0 <= k < r.luma@.len() ==> r.luma@[k] == median_of(column(views(in_luma@), k)),
        forall|k: int|
            0 <= k < r.chroma@.len() ==> r.chroma@[k] == median_of(
                column(views(in_chroma@), k),
            ),
        r.sse_luma@.len() == in_luma@.len(),
        r.sse_luma_edge@.len() == in_luma@.len(),
        r.sse_chroma@.len() == in_luma@.len(),
        forall|i: int|
            0 <= i < in_luma@.len() ==> (#[trigger] r.sse_luma@[i]) == sse_in_range(
                views(in_luma@)[i],
                r.luma@,
                consts.useful_start_sample as int,
                consts.useful_end_sample as int,
            ),
        forall|i: int|
            0 <= i < in_luma@.len() ==> (#[trigger] r.sse_luma_edge@[i]) == sse_in_range(
                views(in_luma@)[i],
                r.luma@,
                0,
                consts.useful_start_sample as int,
            ) + sse_in_range(
                views(in_luma@)[i],
                r.luma@,
                consts.useful_end_sample as int,
                r.luma@.len() as int,
            ),
        forall|i: int|
            0 <= i < in_chroma@.len() ==> (#[trigger] r.sse_chroma@[i]) == sse_in_range(
                views(in_chroma@)[i],
                r.chroma@,
                0,
                r.chroma@.len() as int,
            ),
        r.black_sum == sum_range(
            r.luma@,
            consts.black_start_sample as int,
            consts.black_end_sample as int,
        ),
        r.black_sum_sq == sum_sq_range(
            r.luma@,
            consts.black_start_sample as int,
            consts.black_end_sample as int,
        ),
        (r.drop_outs is Some) == exists|i: int, j: int|
            #![trigger dropouts@[i].spans()[j]]
            0 <= i < dropouts@.len() && 0 <= j < dropouts@[i].spans().len()
                && dropouts@[i].spans()[j].0 < field_height,
        r.drop_outs matches Some(d) ==> consensus_of(
            valid_spans_of(dropouts@, field_height as int),
            field_width as int,
            dropout_threshold as int,
            d,
        ) && (spans_within(
            valid_spans_of(dropouts@, field_height as int),
            field_width as int,
            (field_height as int) * (field_width as int),
        ) ==> spans_within(
            d.spans(),
            field_width as int,
            (field_height as int) * (field_width as int),
        ) && (forall|p: int|
            0 <= p < d.spans().len() ==> valid_span(
                #[trigger] d.spans()[p],
                field_height as int,
            ))),
{
    let n: usize = in_luma.len();
    let first: &Vec<u16> = &in_luma[0];
    let len: usize = first.len();
    let us: usize = consts.useful_start_sample;
    let ue: usize = consts.useful_end_sample;

    let mut luma: Vec<u16> = zeroed_u16(len);
    let mut chroma: Vec<u16> = zeroed_u16(len);
    let mut sse_luma: Vec<u64> = zeroed_u64(n);
    let mut sse_luma_edge: Vec<u64> = zeroed_u64(n);
    let mut sse_chroma: Vec<u64> = zeroed_u64(n);

    proof {
        assert(us * 0xfffe0001 <= len * 0xfffe0001) by (nonlinear_arith)
            requires
                us <= len,
        {}
        assert((ue - us) * 0xfffe0001 <= len * 0xfffe0001) by (nonlinear_arith)
            requires
                0 <= ue - us <= len,
        {}
    }
    batch_n_range(&mut luma, in_luma, 0, us, &mut sse_luma_edge);
    let ghost luma1: Seq<u16> = luma@;
    batch_n_range(&mut luma, in_luma, us, ue, &mut sse_luma);
    proof {
        assert forall|i: int| 0 <= i < n implies (#[trigger] sse_luma_edge@[i]) + (len - ue)
            * 0xfffe0001 <= u64::MAX by {
            lemma_sse_range_bounds(views(in_luma@)[i], luma1, 0, us as int);
            assert(us * 0xfffe0001 + (len - ue) * 0xfffe0001 <= len * 0xfffe0001)
                by (nonlinear_arith)
                requires
                    us <= ue <= len,
            {}
        }
    }
    let ghost luma2: Seq<u16> = luma@;
    batch_n_range(&mut luma, in_luma, ue, len, &mut sse_luma_edge);
    proof {
        // the three calls write disjoint ranges: earlier sums carry over
        assert forall|i: int| 0 <= i < n implies (#[trigger] sse_luma_edge@[i]) == sse_in_range(
            views(in_luma@)[i],
            luma@,
            0,
            us as int,
        ) + sse_in_range(views(in_luma@)[i], luma@, ue as int, len as int) by {
            lemma_sse_range_congruence(views(in_luma@)[i], luma1, luma@, 0, us as int);
            lemma_sse_range_congruence(views(in_luma@)[i], luma2, luma@, 0, us as int);
        }
        assert forall|i: int| 0 <= i < n implies (#[trigger] sse_luma@[i]) == sse_in_range(
            views(in_luma@)[i],
            luma@,
            us as int,
            ue as int,
        ) by {
            lemma_sse_range_congruence(views(in_luma@)[i], luma2, luma@, us as int, ue as int);
        }
    }
    batch_n_range(&mut chroma, in_chroma, 0, len, &mut sse_chroma);

    let sums: (u64, u64) = region_sums(
        &luma,
        consts.black_start_sample,
        consts.black_end_sample,
    );

    let drop_outs: Option<DropOuts> = if has_dropout_line(dropouts, field_height) {
        Some(merge_dropouts(dropouts, field_width, field_height, dropout_threshold))
    } else {
        None
    };

    FieldFusion {
        luma,
        chroma,
        sse_luma,
        sse_luma_edge,
        sse_chroma,
        black_sum: sums.0,
        black_sum_sq: sums.1,
        drop_outs,
    }
}

/// Assigns the final output numbering across the accumulated output
/// sequence: field `k` (0-based) receives sequence number `k + 1` and
/// is a first field exactly when `k` is even; the dropout spans carry
/// over unchanged.
pub fn finalize_fields(fields: Vec<Field>) -> (r: Vec<Field>)
    ensures
        r@.len() == fields@.len(),
        forall|k: int| 0 <= k < r@.len() ==> (#[trigger] r@[k]).is_first_field == (k % 2 == 0),
        forall|k: int| 0 <= k < r@.len() ==> (#[trigger] r@[k]).seq_no == k + 1,
        forall|k: int|
            0 <= k < r@.len() ==> ((#[trigger] r@[k]).drop_outs is Some) == (fields@[k].drop_outs
                is Some),
        forall|k: int|
            0 <= k < r@.len() && fields@[k].drop_outs is Some ==> (#[trigger] r@[k]).drop_outs
                ->Some_0.spans() == fields@[k].drop_outs->Some_0.spans(),
{
    let n: usize = fields.len();
    let mut r: Vec<Field> = Vec::new();
    let mut k: usize = 0;
    while k < n
        invariant
            0 <= k <= n,
            n == fields@.len(),
            r@.len() == k,
            forall|t: int|
                0 <= t < k ==> (#[trigger] r@[t]).is_first_field == (t % 2 == 0),
            forall|t: int| 0 <= t < k ==> (#[trigger] r@[t]).seq_no == t + 1,
            forall|t: int|
                0 <= t < k ==> ((#[trigger] r@[t]).drop_outs is Some) == (fields@[t].drop_outs
                    is Some),
            forall|t: int|
                0 <= t < k && fields@[t].drop_outs is Some ==> (#[trigger] r@[t]).drop_outs
                    ->Some_0.spans() == fields@[t].drop_outs->Some_0.spans(),
        decreases n - k,
    {
        let f: &Field = &fields[k];
        let d: Option<DropOuts> = match &f.drop_outs {
            Some(d) => Some(d.duplicate()),
            None => None,
        };
        r.push(Field { is_first_field: k % 2 == 0, seq_no: k + 1, drop_outs: d });
        k = k + 1;
    }
    r
}

} // verus!
