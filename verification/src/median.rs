//! N-way per-sample median fusion kernel.
//!
//! Given N equal-length sample arrays, the kernel produces one fused
//! array whose every sample is the median of the N input samples at
//! that position, and accumulates, per input, the sum of squared
//! differences between that input and the fused output.
//!
//! For odd N the median is the middle element of the sorted tuple; for
//! even N it is the average of the two middle elements rounded half up
//! (`(a + b + 1) / 2`), the policy fixed here for bit-exact
//! reproducibility.

use vstd::prelude::*;

verus! {

/// A sequence of samples in non-decreasing order.
pub open spec fn sorted_seq(s: Seq<u16>) -> bool {
    forall|i: int, j: int| 0 <= i <= j < s.len() ==> s[i] <= s[j]
}

/// `s` is the sorted rearrangement of `v`.
pub open spec fn is_sorting_of(v: Seq<u16>, s: Seq<u16>) -> bool {
    &&& s.to_multiset() == v.to_multiset()
    &&& sorted_seq(s)
}

/// The sorted rearrangement of `v` (unique, by `lemma_sorting_unique`).
pub open spec fn sorted_of(v: Seq<u16>) -> Seq<u16> {
    choose|s: Seq<u16>| is_sorting_of(v, s)
}

/// Average of two samples, rounded half up: the even-N tie policy.
pub open spec fn avg_round_up(a: u16, b: u16) -> u16 {
    (((a + b + 1) / 2) as u16)
}

/// The median of a tuple of samples: middle element of the sorted
/// tuple for odd length, rounded average of the two middle elements
/// for even length.
pub open spec fn median_of(v: Seq<u16>) -> u16
    recommends
        v.len() >= 1,
{
    let s = sorted_of(v);
    if v.len() % 2 == 1 {
        s[v.len() as int / 2]
    } else {
        avg_round_up(s[v.len() as int / 2 - 1], s[v.len() as int / 2])
    }
}

/// The non-strict order on samples is a total ordering.
proof fn lemma_sample_order_total()
    ensures
        vstd::relations::total_ordering(|a: u16, b: u16| a <= b),
{
    let leq = |a: u16, b: u16| a <= b;
    assert forall|a: u16, b: u16, c: u16| #[trigger] leq(a, b) && #[trigger] leq(b, c)
        implies leq(a, c) by {}
    assert forall|a: u16, b: u16| !(#[trigger] leq(a, b)) implies leq(b, a) by {}
}

/// Every tuple of samples has a sorted rearrangement.
pub proof fn lemma_sorting_exists(v: Seq<u16>)
    ensures
        is_sorting_of(v, sorted_of(v)),
{
    let leq = |a: u16, b: u16| a <= b;
    lemma_sample_order_total();
    v.lemma_sort_by_ensures(leq);
    let s = v.sort_by(leq);
    assert(sorted_seq(s)) by {
        assert forall|i: int, j: int| 0 <= i <= j < s.len() implies s[i] <= s[j] by {
            if i < j {
                assert(leq(s[i], s[j]));
            }
        }
    }
    assert(s.to_multiset() == v.to_multiset());
    assert(is_sorting_of(v, s));
}

/// A tuple of samples has exactly one sorted rearrangement.
pub proof fn lemma_sorting_unique(v: Seq<u16>, s1: Seq<u16>, s2: Seq<u16>)
    requires
        is_sorting_of(v, s1),
        is_sorting_of(v, s2),
    ensures
        s1 == s2,
{
    let leq = |a: u16, b: u16| a <= b;
    lemma_sample_order_total();
    assert(vstd::relations::sorted_by(s1, leq)) by {
        assert forall|i: int, j: int| 0 <= i < j < s1.len() implies leq(s1[i], s1[j]) by {
            assert(s1[i] <= s1[j]);
        }
    }
    assert(vstd::relations::sorted_by(s2, leq)) by {
        assert forall|i: int, j: int| 0 <= i < j < s2.len() implies leq(s2[i], s2[j]) by {
            assert(s2[i] <= s2[j]);
        }
    }
    vstd::seq_lib::lemma_sorted_unique(s1, s2, leq);
    assert(s1 =~= s2);
}

/// Sorts `v` in place (insertion sort): afterwards `v` is the sorted
/// rearrangement of the old contents.
pub fn sort_samples(v: &mut Vec<u16>)
    ensures
        final(v)@.len() == old(v)@.len(),
        is_sorting_of(old(v)@, final(v)@),
        final(v)@ == sorted_of(old(v)@),
{
    broadcast use vstd::seq_lib::to_multiset_update;

    let ghost orig: Seq<u16> = v@;
    let n: usize = v.len();
    let mut i: usize = 1;
    while i < n
        invariant
            1 <= i,
            n == v@.len(),
            n == orig.len(),
            v@.to_multiset() == orig.to_multiset(),
            forall|p: int, q: int| 0 <= p <= q < i && q < n ==> v@[p] <= v@[q],
        decreases n - i,
    {
        let mut j: usize = i;
        while j > 0 && v[j - 1] > v[j]
            invariant
                0 <= j <= i < n,
                n == v@.len(),
                v@.to_multiset() == orig.to_multiset(),
                // prefix of length i+1 is sorted except possibly around j
                forall|p: int, q: int| 0 <= p <= q <= i && q != j ==> v@[p] <= v@[q],
                forall|p: int, q: int| j < p <= q <= i ==> v@[p] <= v@[q],
                forall|p: int| j + 1 <= p <= i ==> v@[j as int] <= v@[p],
            decreases j,
        {
            let a = v[j - 1];
            let b = v[j];
            let ghost before: Seq<u16> = v@;
            v.set(j - 1, b);
            v.set(j, a);
            proof {
                broadcast use vstd::multiset::group_multiset_axioms;

                let m = before.to_multiset();
                let s1 = before.update(j - 1, b);
                vstd::seq_lib::to_multiset_update(before, j - 1, b);
                assert(s1.to_multiset() == m.insert(b).remove(a));
                vstd::seq_lib::to_multiset_update(s1, j as int, a);
                assert(s1[j as int] == b);
                assert(v@ =~= s1.update(j as int, a));
                assert(v@.to_multiset() == m.insert(b).remove(a).insert(a).remove(b));
                assert(m.contains(a)) by {
                    broadcast use vstd::seq_lib::group_to_multiset_ensures;

                    assert(before.contains(a)) by {
                        assert(before[j - 1] == a);
                    }
                }
                assert(m.insert(b).remove(a).insert(a).remove(b) =~= m) by {
                    assert forall|e: u16|
                        m.insert(b).remove(a).insert(a).remove(b).count(e) == m.count(e) by {
                        assert(m.count(a) >= 1);
                    }
                }
            }
            j = j - 1;
        }
        i = i + 1;
    }
    proof {
        assert(sorted_seq(v@));
        assert(is_sorting_of(orig, v@));
        lemma_sorting_exists(orig);
        lemma_sorting_unique(orig, v@, sorted_of(orig));
    }
}

/// The median of the samples held in `vals`, computed by sorting a
/// scratch copy; the scalar reference realization of the kernel's
/// per-position rule.
pub fn median_vals(vals: &Vec<u16>) -> (r: u16)
    requires
        vals@.len() >= 1,
    ensures
        r == median_of(vals@),
{
    let mut scratch: Vec<u16> = vals.clone();
    proof {
        assert(scratch@ =~= vals@);
    }
    sort_samples(&mut scratch);
    let n: usize = scratch.len();
    proof {
        broadcast use vstd::seq_lib::group_to_multiset_ensures;

        assert(scratch@.len() == vals@.len());
    }
    if n % 2 == 1 {
        scratch[n / 2]
    } else {
        let a = scratch[n / 2 - 1];
        let b = scratch[n / 2];
        ((a as u32 + b as u32 + 1) / 2) as u16
    }
}

/// The views of a list of sample buffers.
pub open spec fn views(inputs: Seq<Vec<u16>>) -> Seq<Seq<u16>> {
    Seq::new(inputs.len(), |i: int| inputs[i]@)
}

/// The tuple of each input's sample at position `k`.
pub open spec fn column(inputs: Seq<Seq<u16>>, k: int) -> Seq<u16> {
    Seq::new(inputs.len(), |i: int| inputs[i][k])
}

/// Squared difference of two samples.
pub open spec fn sq_diff(a: u16, b: u16) -> int {
    (a - b) * (a - b)
}

/// Sum of squared differences between `input` and `fused` over the
/// sample range `[start, end)`.
pub open spec fn sse_in_range(input: Seq<u16>, fused: Seq<u16>, start: int, end: int) -> int
    decreases end - start,
{
    if start >= end {
        0
    } else {
        sse_in_range(input, fused, start, end - 1) + sq_diff(input[end - 1], fused[end - 1])
    }
}

/// A squared sample difference lies in `[0, 65535^2]`.
proof fn lemma_sq_diff_bound(a: u16, b: u16)
    ensures
        0 <= sq_diff(a, b) <= 0xfffe0001,
{
    assert(0 <= (a - b) * (a - b) <= 0xfffe0001) by (nonlinear_arith)
        requires
            0 <= a <= 0xffff,
            0 <= b <= 0xffff,
    {}
}

/// The squared-error sum over a range of `n` samples lies in
/// `[0, n * 65535^2]`.
pub proof fn lemma_sse_range_bounds(input: Seq<u16>, fused: Seq<u16>, start: int, end: int)
    requires
        start <= end,
    ensures
        0 <= sse_in_range(input, fused, start, end) <= (end - start) * 0xfffe0001,
    decreases end - start,
{
    if start < end {
        lemma_sse_range_bounds(input, fused, start, end - 1);
        lemma_sq_diff_bound(input[end - 1], fused[end - 1]);
        assert((end - start) * 0xfffe0001 == (end - 1 - start) * 0xfffe0001 + 0xfffe0001)
            by (nonlinear_arith);
    }
}

/// Squared-error accumulation only reads the fused samples inside the
/// range, so two fused buffers that agree there give the same sum.
pub proof fn lemma_sse_range_congruence(
    input: Seq<u16>,
    f1: Seq<u16>,
    f2: Seq<u16>,
    start: int,
    end: int,
)
    requires
        forall|k: int| start <= k < end ==> f1[k] == f2[k],
    ensures
        sse_in_range(input, f1, start, end) == sse_in_range(input, f2, start, end),
    decreases end - start,
{
    if start < end {
        lemma_sse_range_congruence(input, f1, f2, start, end - 1);
    }
}

/// Squared-error accumulation is additive over adjacent sample
/// ranges: accumulating `[a, b)` and `[b, c)` separately sums to the
/// same total as one `[a, c)` accumulation, so splitting a field into
/// disjoint regions (edges vs. useful region) loses nothing.
pub proof fn lemma_sse_range_split(input: Seq<u16>, fused: Seq<u16>, a: int, b: int, c: int)
    requires
        a <= b <= c,
    ensures
        sse_in_range(input, fused, a, c) == sse_in_range(input, fused, a, b) + sse_in_range(
            input,
            fused,
            b,
            c,
        ),
    decreases c - b,
{
    if b < c {
        lemma_sse_range_split(input, fused, a, b, c - 1);
    }
}

/// An edge/useful/edge split of a field sums to the same
/// squared-error total as one full-range accumulation.
pub proof fn lemma_sse_three_way_split(
    input: Seq<u16>,
    fused: Seq<u16>,
    a: int,
    b: int,
    c: int,
    d: int,
)
    requires
        a <= b <= c <= d,
    ensures
        sse_in_range(input, fused, a, d) == sse_in_range(input, fused, a, b) + sse_in_range(
            input,
            fused,
            b,
            c,
        ) + sse_in_range(input, fused, c, d),
{
    lemma_sse_range_split(input, fused, a, c, d);
    lemma_sse_range_split(input, fused, a, b, c);
}

/// Fuses the sample range `[start, end)`: each fused sample is the
/// median across the inputs, and each input's squared error over the
/// range is added onto its slot in `sse`.
pub fn batch_n_range(
    out: &mut Vec<u16>,
    inputs: &Vec<Vec<u16>>,
    start: usize,
    end: usize,
    sse: &mut Vec<u64>,
)
    requires
        3 <= inputs@.len() <= 15,
        forall|i: int| 0 <= i < inputs@.len() ==> (#[trigger] inputs@[i])@.len() == old(
            out,
        )@.len(),
        start <= end <= old(out)@.len(),
        (end - start) % 32 == 0,
        old(sse)@.len() == inputs@.len(),
        forall|i: int|
            0 <= i < old(sse)@.len() ==> (#[trigger] old(sse)@[i]) + (end - start) * 0xfffe0001
                <= u64::MAX,
    ensures
        final(out)@.len() == old(out)@.len(),
        forall|k: int|
            start <= k < end ==> final(out)@[k] == median_of(column(views(inputs@), k)),
        forall|k: int|
            0 <= k < old(out)@.len() && !(start <= k < end) ==> final(out)@[k] == old(out)@[k],
        final(sse)@.len() == old(sse)@.len(),
        forall|i: int|
            0 <= i < old(sse)@.len() ==> final(sse)@[i] == old(sse)@[i] + sse_in_range(
                views(inputs@)[i],
                final(out)@,
                start as int,
                end as int,
            ),
{
    let n: usize = inputs.len();
    let mut scratch: Vec<u16> = Vec::new();
    let mut k: usize = start;
    while k < end
        invariant
            3 <= n <= 15,
            n == inputs@.len(),
            start <= k <= end <= out@.len(),
            out@.len() == old(out)@.len(),
            forall|i: int| 0 <= i < n ==> (#[trigger] inputs@[i])@.len() == out@.len(),
            sse@.len() == n,
            old(sse)@.len() == n,
            forall|p: int| start <= p < k ==> out@[p] == median_of(column(views(inputs@), p)),
            forall|p: int|
                0 <= p < out@.len() && !(start <= p < k) ==> out@[p] == old(out)@[p],
            forall|i: int|
                0 <= i < n ==> (#[trigger] sse@[i]) == old(sse)@[i] + sse_in_range(
                    views(inputs@)[i],
                    out@,
                    start as int,
                    k as int,
                ),
            forall|i: int|
                0 <= i < n ==> (#[trigger] old(sse)@[i]) + (end - start) * 0xfffe0001 <= u64::MAX,
        decreases end - k,
    {
        scratch.clear();
        let mut i: usize = 0;
        while i < n
            invariant
                0 <= i <= n,
                n == inputs@.len(),
                start <= k < out@.len(),
                forall|t: int| 0 <= t < n ==> (#[trigger] inputs@[t])@.len() == out@.len(),
                scratch@.len() == i,
                forall|t: int| 0 <= t < i ==> scratch@[t] == views(inputs@)[t][k as int],
            decreases n - i,
        {
            scratch.push(inputs[i][k]);
            i = i + 1;
        }
        let ghost col: Seq<u16> = scratch@;
        proof {
            assert(col =~= column(views(inputs@), k as int));
        }
        sort_samples(&mut scratch);
        let m: u16 = if n % 2 == 1 {
            scratch[n / 2]
        } else {
            let a = scratch[n / 2 - 1];
            let b = scratch[n / 2];
            ((a as u32 + b as u32 + 1) / 2) as u16
        };
        proof {
            broadcast use vstd::seq_lib::group_to_multiset_ensures;

            assert(scratch@.len() == col.len());
            assert(m == median_of(col));
        }
        let ghost pre_out: Seq<u16> = out@;
        let ghost pre_sse: Seq<u64> = sse@;
        out.set(k, m);
        proof {
            assert forall|i: int| 0 <= i < n implies sse_in_range(
                views(inputs@)[i],
                out@,
                start as int,
                k as int,
            ) == sse_in_range(views(inputs@)[i], pre_out, start as int, k as int) by {
                lemma_sse_range_congruence(
                    views(inputs@)[i],
                    out@,
                    pre_out,
                    start as int,
                    k as int,
                );
            }
        }
        let mut i: usize = 0;
        while i < n
            invariant
                0 <= i <= n,
                n == inputs@.len(),
                start <= k < end <= out@.len(),
                out@.len() == old(out)@.len(),
                forall|t: int| 0 <= t < n ==> (#[trigger] inputs@[t])@.len() == out@.len(),
                sse@.len() == n,
                out@[k as int] == m,
                forall|t: int|
                    0 <= t < i ==> (#[trigger] sse@[t]) == pre_sse[t] + sq_diff(
                        views(inputs@)[t][k as int],
                        m,
                    ),
                forall|t: int| i <= t < n ==> (#[trigger] sse@[t]) == pre_sse[t],
                forall|t: int|
                    0 <= t < n ==> (#[trigger] pre_sse[t]) == old(sse)@[t] + sse_in_range(
                        views(inputs@)[t],
                        out@,
                        start as int,
                        k as int,
                    ),
                forall|t: int|
                    0 <= t < n ==> (#[trigger] old(sse)@[t]) + (end - start) * 0xfffe0001
                        <= u64::MAX,
            decreases n - i,
        {
            let x: u16 = inputs[i][k];
            let d: u32 = if m >= x {
                (m - x) as u32
            } else {
                (x - m) as u32
            };
            proof {
                assert((d as u64) * (d as u64) <= 0xfffe0001) by (nonlinear_arith)
                    requires
                        d <= 0xffff,
                {}
            }
            let sq: u64 = (d as u64) * (d as u64);
            proof {
                assert(sq == sq_diff(x, m)) by (nonlinear_arith)
                    requires
                        d == if m >= x {
                            (m - x) as int
                        } else {
                            (x - m) as int
                        },
                        sq == d * d,
                {}
                lemma_sq_diff_bound(x, m);
                lemma_sse_range_bounds(
                    views(inputs@)[i as int],
                    out@,
                    start as int,
                    k as int,
                );
                assert((k - start) * 0xfffe0001 + 0xfffe0001 <= (end - start) * 0xfffe0001)
                    by (nonlinear_arith)
                    requires
                        k < end,
                        start <= k,
                {}
            }
            let cur: u64 = sse[i];
            sse.set(i, cur + sq);
            i = i + 1;
        }
        proof {
            assert forall|t: int| 0 <= t < n implies sse@[t] == old(sse)@[t] + sse_in_range(
                views(inputs@)[t],
                out@,
                start as int,
                k as int + 1,
            ) by {
                assert(sse_in_range(views(inputs@)[t], out@, start as int, k as int + 1)
                    == sse_in_range(views(inputs@)[t], out@, start as int, k as int) + sq_diff(
                    views(inputs@)[t][k as int],
                    out@[k as int],
                ));
            }
        }
        k = k + 1;
    }
}

/// Fuses `out` in full from the inputs: every output sample is the
/// per-position median across the N inputs, and `sse[i]` is set to
/// input i's total sum of squared differences against the fused
/// output, zeroed first.  N must lie in `[3, 15]` and the shared
/// length must be a multiple of 32, the kernel's batching granularity.
pub fn batch_n(out: &mut Vec<u16>, inputs: &Vec<Vec<u16>>, sse: &mut Vec<u64>)
    requires
        3 <= inputs@.len() <= 15,
        forall|i: int| 0 <= i < inputs@.len() ==> (#[trigger] inputs@[i])@.len() == old(
            out,
        )@.len(),
        old(out)@.len() % 32 == 0,
        old(sse)@.len() == inputs@.len(),
        old(out)@.len() * 0xfffe0001 <= u64::MAX,
    ensures
        final(out)@.len() == old(out)@.len(),
        forall|k: int|
            0 <= k < final(out)@.len() ==> final(out)@[k] == median_of(
                column(views(inputs@), k),
            ),
        final(sse)@.len() == old(sse)@.len(),
        forall|i: int|
            0 <= i < final(sse)@.len() ==> final(sse)@[i] == sse_in_range(
                views(inputs@)[i],
                final(out)@,
                0,
                final(out)@.len() as int,
            ),
{
    let n: usize = sse.len();
    let mut i: usize = 0;
    while i < n
        invariant
            0 <= i <= n,
            sse@.len() == n,
            forall|t: int| 0 <= t < i ==> sse@[t] == 0u64,
        decreases n - i,
    {
        sse.set(i, 0);
        i = i + 1;
    }
    let len: usize = out.len();
    batch_n_range(out, inputs, 0, len, sse);
}

/// Every realization of the kernel contract is bit-identical: two
/// fused outputs and squared-error tables that each satisfy the
/// per-position median rule and the squared-error sums over the same
/// inputs are equal, so a reference scalar path and any vectorized
/// path meeting the contract cannot differ.
pub proof fn lemma_kernel_agreement(
    inputs: Seq<Seq<u16>>,
    out1: Seq<u16>,
    out2: Seq<u16>,
    sse1: Seq<u64>,
    sse2: Seq<u64>,
)
    requires
        out1.len() == out2.len(),
        forall|k: int| 0 <= k < out1.len() ==> out1[k] == median_of(column(inputs, k)),
        forall|k: int| 0 <= k < out2.len() ==> out2[k] == median_of(column(inputs, k)),
        sse1.len() == inputs.len(),
        sse2.len() == inputs.len(),
        forall|i: int|
            0 <= i < inputs.len() ==> sse1[i] == sse_in_range(
                inputs[i],
                out1,
                0,
                out1.len() as int,
            ),
        forall|i: int|
            0 <= i < inputs.len() ==> sse2[i] == sse_in_range(
                inputs[i],
                out2,
                0,
                out2.len() as int,
            ),
    ensures
        out1 == out2,
        sse1 == sse2,
{
    assert(out1 =~= out2);
    assert forall|i: int| 0 <= i < inputs.len() implies sse1[i] == sse2[i] by {
        lemma_sse_range_congruence(inputs[i], out1, out2, 0, out1.len() as int);
    }
    assert(sse1 =~= sse2);
}

} // verus!
