//! Dropout-interval consensus merge.
//!
//! Each input contributes, for the current field, a list of dropout
//! spans: half-open ranges `[startx, endx)` on a scan line.  The merge
//! keeps exactly the sample offsets that at least `threshold` of the
//! contributed spans cover, returned again as per-line spans in the
//! fused output's coordinate space.
//!
//! Spans whose line lies outside the field, or which are empty, are
//! discarded as invalid before merging.  Sweep events that share an
//! offset are ordered with starts before ends, so abutting consensus
//! runs merge into one span.

use vstd::prelude::*;

verus! {

/// Dropout spans for one field, as three parallel lists: entry `j`
/// describes the half-open span `[startx[j], endx[j])` on scan line
/// `field_line[j]`.
pub struct DropOuts {
    pub field_line: Vec<usize>,
    pub startx: Vec<usize>,
    pub endx: Vec<usize>,
}

impl DropOuts {
    /// The three parallel lists have equal length.
    pub open spec fn well_formed(self) -> bool {
        &&& self.field_line@.len() == self.startx@.len()
        &&& self.endx@.len() == self.startx@.len()
    }

    /// The spans as (line, startx, endx) triples.
    pub open spec fn spans(self) -> Seq<(usize, usize, usize)> {
        Seq::new(
            self.startx@.len(),
            |j: int| (self.field_line@[j], self.startx@[j], self.endx@[j]),
        )
    }

    /// An empty span list.
    pub fn empty() -> (r: DropOuts)
        ensures
            r.well_formed(),
            r.spans() =~= Seq::<(usize, usize, usize)>::empty(),
    {
        DropOuts { field_line: Vec::new(), startx: Vec::new(), endx: Vec::new() }
    }

    /// The number of spans.
    pub fn len(&self) -> (r: usize)
        requires
            self.well_formed(),
        ensures
            r == self.spans().len(),
    {
        self.startx.len()
    }

    /// A copy of the span list.
    pub fn duplicate(&self) -> (r: DropOuts)
        ensures
            r.field_line@ == self.field_line@,
            r.startx@ == self.startx@,
            r.endx@ == self.endx@,
            r.spans() == self.spans(),
            r.well_formed() == self.well_formed(),
    {
        let r = DropOuts {
            field_line: self.field_line.clone(),
            startx: self.startx.clone(),
            endx: self.endx.clone(),
        };
        proof {
            assert(r.field_line@ =~= self.field_line@);
            assert(r.startx@ =~= self.startx@);
            assert(r.endx@ =~= self.endx@);
            assert(r.spans() =~= self.spans());
        }
        r
    }

    /// Appends one span.
    pub fn push(&mut self, line: usize, sx: usize, ex: usize)
        requires
            old(self).well_formed(),
        ensures
            final(self).well_formed(),
            final(self).spans() =~= old(self).spans().push((line, sx, ex)),
    {
        self.field_line.push(line);
        self.startx.push(sx);
        self.endx.push(ex);
    }
}

/// A span usable for consensus: its line lies inside the field and it
/// is non-empty.
pub open spec fn valid_span(s: (usize, usize, usize), h: int) -> bool {
    s.0 < h && s.1 < s.2
}

/// First absolute sample offset of a span.
pub open spec fn span_start(s: (usize, usize, usize), w: int) -> int {
    s.0 * w + s.1
}

/// One-past-the-last absolute sample offset of a span.
pub open spec fn span_end(s: (usize, usize, usize), w: int) -> int {
    s.0 * w + s.2
}

/// Whether a span covers the absolute offset `off`.
pub open spec fn span_covers(s: (usize, usize, usize), w: int, off: int) -> bool {
    span_start(s, w) <= off < span_end(s, w)
}

/// Number of spans that cover offset `off`.
pub open spec fn depth_at(spans: Seq<(usize, usize, usize)>, w: int, off: int) -> int
    decreases spans.len(),
{
    if spans.len() == 0 {
        0
    } else {
        depth_at(spans.drop_last(), w, off) + if span_covers(spans.last(), w, off) {
            1int
        } else {
            0int
        }
    }
}

/// Whether some span covers offset `off`.
pub open spec fn covered_by(spans: Seq<(usize, usize, usize)>, w: int, off: int) -> bool {
    exists|j: int| 0 <= j < spans.len() && span_covers(spans[j], w, off)
}

/// The valid spans among the first `j` of `spans`, in order.
pub open spec fn valid_prefix(
    spans: Seq<(usize, usize, usize)>,
    h: int,
    j: int,
) -> Seq<(usize, usize, usize)>
    decreases j,
{
    if j <= 0 {
        Seq::empty()
    } else {
        valid_prefix(spans, h, j - 1) + if valid_span(spans[j - 1], h) {
            seq![spans[j - 1]]
        } else {
            Seq::empty()
        }
    }
}

/// The valid spans of one input.
pub open spec fn input_valid_spans(d: DropOuts, h: int) -> Seq<(usize, usize, usize)> {
    valid_prefix(d.spans(), h, d.spans().len() as int)
}

/// The valid spans of the first `i` inputs, concatenated in input
/// order.
pub open spec fn valid_spans_upto(
    inputs: Seq<DropOuts>,
    h: int,
    i: int,
) -> Seq<(usize, usize, usize)>
    decreases i,
{
    if i <= 0 {
        Seq::empty()
    } else {
        valid_spans_upto(inputs, h, i - 1) + input_valid_spans(inputs[i - 1], h)
    }
}

/// The valid spans contributed by all inputs.
pub open spec fn valid_spans_of(inputs: Seq<DropOuts>, h: int) -> Seq<(usize, usize, usize)> {
    valid_spans_upto(inputs, h, inputs.len() as int)
}

/// Depth is non-negative and never exceeds the number of spans.
pub proof fn lemma_depth_bounds(spans: Seq<(usize, usize, usize)>, w: int, off: int)
    ensures
        0 <= depth_at(spans, w, off) <= spans.len(),
    decreases spans.len(),
{
    if spans.len() > 0 {
        lemma_depth_bounds(spans.drop_last(), w, off);
    }
}

/// Depth adds over concatenation.
pub proof fn lemma_depth_concat(
    a: Seq<(usize, usize, usize)>,
    b: Seq<(usize, usize, usize)>,
    w: int,
    off: int,
)
    ensures
        depth_at(a + b, w, off) == depth_at(a, w, off) + depth_at(b, w, off),
    decreases b.len(),
{
    if b.len() == 0 {
        assert(a + b =~= a);
    } else {
        assert((a + b).drop_last() =~= a + b.drop_last());
        assert((a + b).last() == b.last());
        lemma_depth_concat(a, b.drop_last(), w, off);
    }
}

/// An offset has positive depth exactly when some span covers it.
pub proof fn lemma_depth_pos_iff_covered(spans: Seq<(usize, usize, usize)>, w: int, off: int)
    ensures
        depth_at(spans, w, off) >= 1 <==> covered_by(spans, w, off),
    decreases spans.len(),
{
    lemma_depth_bounds(spans, w, off);
    if spans.len() > 0 {
        lemma_depth_pos_iff_covered(spans.drop_last(), w, off);
        lemma_depth_bounds(spans.drop_last(), w, off);
        if span_covers(spans.last(), w, off) {
            assert(spans[spans.len() - 1] == spans.last());
        } else {
            if covered_by(spans.drop_last(), w, off) {
                let j = choose|j: int|
                    0 <= j < spans.drop_last().len() && span_covers(
                        spans.drop_last()[j],
                        w,
                        off,
                    );
                assert(span_covers(spans[j], w, off));
            } else if covered_by(spans, w, off) {
                let j = choose|j: int| 0 <= j < spans.len() && span_covers(spans[j], w, off);
                if j < spans.len() - 1 {
                    assert(span_covers(spans.drop_last()[j], w, off));
                }
            }
        }
    }
}

/// Every span fits the machine: its absolute end offset is
/// representable, and the span is non-empty.
pub open spec fn spans_ok(spans: Seq<(usize, usize, usize)>, w: int) -> bool {
    forall|j: int|
        0 <= j < spans.len() ==> (#[trigger] spans[j]).1 < spans[j].2 && span_end(spans[j], w)
            <= usize::MAX
}

/// Sweep event: absolute offset plus whether a span starts (true) or
/// ends (false) there.
pub open spec fn delta(e: (usize, bool)) -> int {
    if e.1 {
        1int
    } else {
        -1int
    }
}

/// Order on sweep events: by offset, starts before ends at equal
/// offsets.
pub open spec fn ev_le(a: (usize, bool), b: (usize, bool)) -> bool {
    a.0 < b.0 || (a.0 == b.0 && (a.1 || !b.1))
}

/// The two events of each of the given spans, in span order.
pub open spec fn events_of(spans: Seq<(usize, usize, usize)>, w: int) -> Seq<(usize, bool)>
    decreases spans.len(),
{
    if spans.len() == 0 {
        Seq::empty()
    } else {
        events_of(spans.drop_last(), w) + seq![
            ((span_start(spans.last(), w) as usize), true),
            ((span_end(spans.last(), w) as usize), false),
        ]
    }
}

/// Net number of spans opened by the events whose offset is at most
/// `off`.
pub open spec fn sum_upto(evs: Seq<(usize, bool)>, off: int) -> int
    decreases evs.len(),
{
    if evs.len() == 0 {
        0
    } else {
        sum_upto(evs.drop_last(), off) + if evs.last().0 <= off {
            delta(evs.last())
        } else {
            0int
        }
    }
}

/// Net number of spans opened by the first `j` events.
pub open spec fn prefix_sum(evs: Seq<(usize, bool)>, j: int) -> int
    decreases j,
{
    if j <= 0 {
        0
    } else {
        prefix_sum(evs, j - 1) + delta(evs[j - 1])
    }
}

/// The events of a list of representable spans count coverage: the
/// net open count at `off` is the number of spans covering `off`.
proof fn lemma_events_count(spans: Seq<(usize, usize, usize)>, w: int, off: int)
    requires
        w >= 0,
        spans_ok(spans, w),
    ensures
        sum_upto(events_of(spans, w), off) == depth_at(spans, w, off),
    decreases spans.len(),
{
    if spans.len() > 0 {
        let rest = spans.drop_last();
        let s = spans.last();
        assert(spans_ok(rest, w)) by {
            assert(forall|j: int| 0 <= j < rest.len() ==> rest[j] == spans[j]);
        }
        lemma_events_count(rest, w, off);
        let e1 = ((span_start(s, w) as usize), true);
        let e2 = ((span_end(s, w) as usize), false);
        let evs = events_of(spans, w);
        assert(spans[spans.len() - 1] == s);
        assert(0 <= span_start(s, w)) by {
            assert(s.0 * w >= 0) by (nonlinear_arith)
                requires
                    s.0 >= 0,
                    w >= 0,
            {}
        }
        assert(span_start(s, w) <= span_end(s, w) <= usize::MAX);
        assert(e1.0 == span_start(s, w));
        assert(e2.0 == span_end(s, w));
        assert(evs =~= events_of(rest, w) + seq![e1, e2]);
        assert(evs.last() == e2);
        assert(evs.drop_last() =~= events_of(rest, w) + seq![e1]);
        assert(evs.drop_last().last() == e1);
        assert(evs.drop_last().drop_last() =~= events_of(rest, w));
        assert(sum_upto(evs, off) == sum_upto(evs.drop_last(), off) + (if e2.0 <= off {
            delta(e2)
        } else {
            0int
        }));
        assert(sum_upto(evs.drop_last(), off) == sum_upto(events_of(rest, w), off) + (if e1.0
            <= off {
            delta(e1)
        } else {
            0int
        }));
    }
}

/// Removing one event removes exactly its contribution to the count.
proof fn lemma_sum_upto_remove(evs: Seq<(usize, bool)>, i: int, off: int)
    requires
        0 <= i < evs.len(),
    ensures
        sum_upto(evs, off) == sum_upto(evs.remove(i), off) + if evs[i].0 <= off {
            delta(evs[i])
        } else {
            0int
        },
    decreases evs.len(),
{
    if i == evs.len() - 1 {
        assert(evs.remove(i) =~= evs.drop_last());
    } else {
        assert(evs.remove(i).drop_last() =~= evs.drop_last().remove(i));
        assert(evs.remove(i).last() == evs.last());
        lemma_sum_upto_remove(evs.drop_last(), i, off);
    }
}

/// The count at any offset only depends on which events there are,
/// not on their order.
proof fn lemma_sum_upto_permutation(a: Seq<(usize, bool)>, b: Seq<(usize, bool)>, off: int)
    requires
        a.to_multiset() == b.to_multiset(),
    ensures
        sum_upto(a, off) == sum_upto(b, off),
    decreases a.len(),
{
    broadcast use vstd::seq_lib::group_to_multiset_ensures;

    if a.len() == 0 {
        assert(b.to_multiset().len() == 0);
        assert(b.len() == 0);
    } else {
        let x = a.last();
        assert(a.to_multiset().contains(x)) by {
            assert(a.contains(x)) by {
                assert(a[a.len() - 1] == x);
            }
        }
        assert(b.to_multiset().contains(x));
        assert(b.contains(x));
        let i = choose|i: int| 0 <= i < b.len() && b[i] == x;
        assert(a.drop_last().to_multiset() == b.remove(i).to_multiset()) by {
            assert(a =~= a.drop_last().push(x));
            assert(a.drop_last().push(x).to_multiset() =~= a.drop_last().to_multiset().insert(
                x,
            ));
            assert(b.remove(i).to_multiset() =~= b.to_multiset().remove(x));
            assert(a.drop_last().to_multiset() =~= a.to_multiset().remove(x));
        }
        lemma_sum_upto_permutation(a.drop_last(), b.remove(i), off);
        lemma_sum_upto_remove(b, i, off);
    }
}

/// When the first `j` events lie at or below `off` and the rest lie
/// above it, the count at `off` is the net of the first `j` events.
proof fn lemma_sum_upto_prefix(evs: Seq<(usize, bool)>, j: int, off: int)
    requires
        0 <= j <= evs.len(),
        forall|t: int| 0 <= t < j ==> (#[trigger] evs[t]).0 <= off,
        forall|t: int| j <= t < evs.len() ==> (#[trigger] evs[t]).0 > off,
    ensures
        sum_upto(evs, off) == prefix_sum(evs, j),
    decreases evs.len(),
{
    if evs.len() == 0 {
    } else if j == evs.len() {
        assert(evs[j - 1] == evs.last());
        lemma_sum_upto_prefix(evs.drop_last(), j - 1, off);
        lemma_prefix_sum_congruence(evs, evs.drop_last(), j - 1);
    } else {
        assert(evs[evs.len() - 1] == evs.last());
        lemma_sum_upto_prefix(evs.drop_last(), j, off);
        lemma_prefix_sum_congruence(evs, evs.drop_last(), j);
    }
}

/// The net of the first `j` events only reads those events.
proof fn lemma_prefix_sum_congruence(a: Seq<(usize, bool)>, b: Seq<(usize, bool)>, j: int)
    requires
        0 <= j <= a.len(),
        j <= b.len(),
        forall|t: int| 0 <= t < j ==> a[t] == b[t],
    ensures
        prefix_sum(a, j) == prefix_sum(b, j),
    decreases j,
{
    if j > 0 {
        lemma_prefix_sum_congruence(a, b, j - 1);
    }
}

/// Appending a span extends coverage by exactly that span.
proof fn lemma_covered_push(
    spans: Seq<(usize, usize, usize)>,
    x: (usize, usize, usize),
    w: int,
    off: int,
)
    ensures
        covered_by(spans.push(x), w, off) <==> (covered_by(spans, w, off) || span_covers(
            x,
            w,
            off,
        )),
{
    let p = spans.push(x);
    if covered_by(p, w, off) {
        let j = choose|j: int| 0 <= j < p.len() && span_covers(p[j], w, off);
        if j < spans.len() {
            assert(span_covers(spans[j], w, off));
        } else {
            assert(p[j] == x);
        }
    }
    if covered_by(spans, w, off) {
        let j = choose|j: int| 0 <= j < spans.len() && span_covers(spans[j], w, off);
        assert(span_covers(p[j], w, off));
    }
    if span_covers(x, w, off) {
        assert(span_covers(p[spans.len() as int], w, off));
    }
}

/// Every event of representable spans lies at or below the largest
/// span end.
proof fn lemma_events_offsets(spans: Seq<(usize, usize, usize)>, w: int, x: int)
    requires
        w >= 0,
        spans_ok(spans, w),
        forall|j: int| 0 <= j < spans.len() ==> span_end(#[trigger] spans[j], w) <= x,
    ensures
        forall|t: int|
            0 <= t < events_of(spans, w).len() ==> (#[trigger] events_of(spans, w)[t]).0 <= x,
    decreases spans.len(),
{
    if spans.len() > 0 {
        let rest = spans.drop_last();
        let s = spans.last();
        assert(spans[spans.len() - 1] == s);
        assert(spans_ok(rest, w) && forall|j: int|
            0 <= j < rest.len() ==> span_end(#[trigger] rest[j], w) <= x) by {
            assert(forall|j: int| 0 <= j < rest.len() ==> rest[j] == spans[j]);
        }
        lemma_events_offsets(rest, w, x);
        assert(0 <= span_start(s, w)) by {
            assert(s.0 * w >= 0) by (nonlinear_arith)
                requires
                    s.0 >= 0,
                    w >= 0,
            {}
        }
        let evs = events_of(spans, w);
        assert forall|t: int| 0 <= t < evs.len() implies (#[trigger] evs[t]).0 <= x by {
            if t < evs.len() - 2 {
                assert(evs[t] == events_of(rest, w)[t]);
            }
        }
    }
}

/// Sorts sweep events: by offset, starts before ends at equal
/// offsets.
fn sort_events(v: &mut Vec<(usize, bool)>)
    ensures
        final(v)@.len() == old(v)@.len(),
        final(v)@.to_multiset() == old(v)@.to_multiset(),
        forall|p: int, q: int|
            0 <= p <= q < final(v)@.len() ==> ev_le(final(v)@[p], final(v)@[q]),
{
    let ghost orig: Seq<(usize, bool)> = v@;
    let n: usize = v.len();
    let mut i: usize = 1;
    while i < n
        invariant
            1 <= i,
            n == v@.len(),
            n == orig.len(),
            v@.to_multiset() == orig.to_multiset(),
            forall|p: int, q: int| 0 <= p <= q < i && q < n ==> ev_le(v@[p], v@[q]),
        decreases n - i,
    {
        let mut j: usize = i;
        while j > 0 && ev_after(v[j - 1], v[j])
            invariant
                0 <= j <= i < n,
                n == v@.len(),
                v@.to_multiset() == orig.to_multiset(),
                forall|p: int, q: int| 0 <= p <= q <= i && q != j ==> ev_le(v@[p], v@[q]),
                forall|p: int, q: int| j < p <= q <= i ==> ev_le(v@[p], v@[q]),
                forall|p: int| j + 1 <= p <= i ==> ev_le(v@[j as int], v@[p]),
            decreases j,
        {
            let a = v[j - 1];
            let b = v[j];
            let ghost before: Seq<(usize, bool)> = v@;
            v.set(j - 1, b);
            v.set(j, a);
            proof {
                broadcast use vstd::multiset::group_multiset_axioms;

                let m = before.to_multiset();
                let s1 = before.update(j - 1, b);
                vstd::seq_lib::to_multiset_update(before, j - 1, b);
                assert(s1.to_multiset() == m.insert(b).remove(a));
                vstd::seq_lib::to_multiset_update(s1, j as int, a);
                assert(s1[j as int] == b);
                assert(v@ =~= s1.update(j as int, a));
                assert(v@.to_multiset() == m.insert(b).remove(a).insert(a).remove(b));
                assert(m.contains(a)) by {
                    broadcast use vstd::seq_lib::group_to_multiset_ensures;

                    assert(before.contains(a)) by {
                        assert(before[j - 1] == a);
                    }
                }
                assert(m.insert(b).remove(a).insert(a).remove(b) =~= m) by {
                    assert forall|e: (usize, bool)|
                        m.insert(b).remove(a).insert(a).remove(b).count(e) == m.count(e) by {
                        assert(m.count(a) >= 1);
                    }
                }
            }
            j = j - 1;
        }
        proof {
            assert forall|p: int, q: int| 0 <= p <= q <= i implies ev_le(v@[p], v@[q]) by {
                if q == j {
                    if p == q {
                        assert(ev_le(v@[p], v@[q]));
                    } else {
                        assert(ev_le(v@[p], v@[j - 1]));
                        assert(ev_le(v@[j - 1], v@[j as int]));
                    }
                }
            }
        }
        i = i + 1;
    }
}

/// Whether event `a` must sort strictly after event `b`.
fn ev_after(a: (usize, bool), b: (usize, bool)) -> (r: bool)
    ensures
        r == !ev_le(a, b),
{
    a.0 > b.0 || (a.0 == b.0 && !a.1 && b.1)
}

/// A list of spans yields two events per span.
proof fn lemma_events_of_len(spans: Seq<(usize, usize, usize)>, w: int)
    ensures
        events_of(spans, w).len() == 2 * spans.len(),
    decreases spans.len(),
{
    if spans.len() > 0 {
        lemma_events_of_len(spans.drop_last(), w);
    }
}

/// Every span ends at or below `lim`.
pub open spec fn spans_within(spans: Seq<(usize, usize, usize)>, w: int, lim: int) -> bool {
    forall|j: int| 0 <= j < spans.len() ==> span_end(#[trigger] spans[j], w) <= lim
}

/// A canonical consensus span list: non-empty spans in strictly
/// increasing, non-touching offset order, each starting inside its
/// own line.  Two canonical lists with the same coverage are equal
/// (`lemma_canonical_unique`).
pub open spec fn canonical_spans(x: Seq<(usize, usize, usize)>, w: int) -> bool {
    &&& forall|p: int| 0 <= p < x.len() ==> (#[trigger] x[p]).1 < x[p].2
    &&& forall|p: int|
        0 <= p && p + 1 < x.len() ==> span_end(#[trigger] x[p], w) < span_start(x[p + 1], w)
    &&& forall|p: int| 0 <= p < x.len() ==> (#[trigger] x[p]).1 < w
}

/// What the consensus merge guarantees: a well-formed span list that
/// covers exactly the offsets on which at least `threshold` of the
/// contributed spans agree.
pub open spec fn consensus_of(
    all: Seq<(usize, usize, usize)>,
    w: int,
    threshold: int,
    out: DropOuts,
) -> bool {
    &&& out.well_formed()
    &&& spans_ok(out.spans(), w)
    &&& forall|off: int|
        covered_by(out.spans(), w, off) <==> #[trigger] depth_at(all, w, off) >= threshold
}

/// Working coverage during the sweep: the emitted spans plus the
/// possibly still-open consensus run.
spec fn sweep_covers(out: DropOuts, opened: bool, cur_start: usize, w: int, off: int) -> bool {
    covered_by(out.spans(), w, off) || (opened && cur_start <= off)
}

/// Merges the inputs' dropout spans for one field into the consensus
/// spans: exactly the sample offsets covered by at least `threshold`
/// of the contributed valid spans survive.  Spans on a line outside
/// the field, and empty spans, are discarded first.  When every
/// contributed span lies inside the field's sample area, so does
/// every consensus span.
pub fn merge_dropouts(
    inputs: &Vec<DropOuts>,
    field_width: usize,
    field_height: usize,
    threshold: usize,
) -> (r: DropOuts)
    requires
        field_width >= 1,
        threshold >= 1,
        forall|i: int| 0 <= i < inputs@.len() ==> (#[trigger] inputs@[i]).well_formed(),
        forall|i: int, j: int|
            #![trigger inputs@[i].spans()[j]]
            0 <= i < inputs@.len() && 0 <= j < inputs@[i].spans().len() && valid_span(
                inputs@[i].spans()[j],
                field_height as int,
            ) ==> span_end(inputs@[i].spans()[j], field_width as int) <= usize::MAX,
    ensures
        consensus_of(
            valid_spans_of(inputs@, field_height as int),
            field_width as int,
            threshold as int,
            r,
        ),
        canonical_spans(r.spans(), field_width as int),
        spans_within(
            valid_spans_of(inputs@, field_height as int),
            field_width as int,
            (field_height as int) * (field_width as int),
        ) ==> spans_within(
            r.spans(),
            field_width as int,
            (field_height as int) * (field_width as int),
        ) && (forall|p: int|
            0 <= p < r.spans().len() ==> valid_span(
                #[trigger] r.spans()[p],
                field_height as int,
            )),
{
    let ghost w_: int = field_width as int;
    let ghost h_: int = field_height as int;
    let n: usize = inputs.len();

    // Collect the valid spans of all inputs.
    let mut vspans: Vec<(usize, usize, usize)> = Vec::new();
    let mut i: usize = 0;
    while i < n
        invariant
            0 <= i <= n,
            n == inputs@.len(),
            field_width >= 1,
            w_ == field_width as int,
            h_ == field_height as int,
            forall|t: int| 0 <= t < n ==> (#[trigger] inputs@[t]).well_formed(),
            forall|t: int, j: int|
                #![trigger inputs@[t].spans()[j]]
                0 <= t < n && 0 <= j < inputs@[t].spans().len() && valid_span(
                    inputs@[t].spans()[j],
                    h_,
                ) ==> span_end(inputs@[t].spans()[j], w_) <= usize::MAX,
            vspans@ == valid_spans_upto(inputs@, h_, i as int),
            spans_ok(vspans@, w_),
        decreases n - i,
    {
        let d: &DropOuts = &inputs[i];
        let cnt: usize = d.len();
        let mut j: usize = 0;
        while j < cnt
            invariant
                0 <= j <= cnt,
                0 <= i < n,
                n == inputs@.len(),
                field_width >= 1,
                w_ == field_width as int,
                h_ == field_height as int,
                d == inputs@[i as int],
                d.well_formed(),
                cnt == d.spans().len(),
                forall|t: int, q: int|
                    #![trigger inputs@[t].spans()[q]]
                    0 <= t < n && 0 <= q < inputs@[t].spans().len() && valid_span(
                        inputs@[t].spans()[q],
                        h_,
                    ) ==> span_end(inputs@[t].spans()[q], w_) <= usize::MAX,
                vspans@ == valid_spans_upto(inputs@, h_, i as int) + valid_prefix(
                    d.spans(),
                    h_,
                    j as int,
                ),
                spans_ok(vspans@, w_),
            decreases cnt - j,
        {
            let line: usize = d.field_line[j];
            let sx: usize = d.startx[j];
            let ex: usize = d.endx[j];
            proof {
                assert(d.spans()[j as int] == (line, sx, ex));
            }
            let ghost pre: Seq<(usize, usize, usize)> = vspans@;
            if line < field_height && sx < ex {
                vspans.push((line, sx, ex));
                proof {
                    assert(valid_span((line, sx, ex), h_));
                    assert(span_end((line, sx, ex), w_) <= usize::MAX);
                    assert(vspans@ =~= pre + seq![(line, sx, ex)]);
                }
            }
            proof {
                assert(valid_prefix(d.spans(), h_, j as int + 1) == valid_prefix(
                    d.spans(),
                    h_,
                    j as int,
                ) + (if valid_span(d.spans()[j as int], h_) {
                    seq![d.spans()[j as int]]
                } else {
                    Seq::<(usize, usize, usize)>::empty()
                }));
                if !(line < field_height && sx < ex) {
                    assert(vspans@ =~= vspans@ + Seq::<(usize, usize, usize)>::empty());
                }
                assert(vspans@ =~= valid_spans_upto(inputs@, h_, i as int) + valid_prefix(
                    d.spans(),
                    h_,
                    j as int + 1,
                ));
            }
            j = j + 1;
        }
        proof {
            assert(valid_prefix(d.spans(), h_, cnt as int) == input_valid_spans(
                inputs@[i as int],
                h_,
            ));
            assert(valid_spans_upto(inputs@, h_, i as int + 1) == valid_spans_upto(
                inputs@,
                h_,
                i as int,
            ) + input_valid_spans(inputs@[i as int], h_));
        }
        i = i + 1;
    }
    let ghost all: Seq<(usize, usize, usize)> = vspans@;
    proof {
        assert(all == valid_spans_of(inputs@, h_));
    }

    // Build the sweep events: one start and one end per valid span.
    let vcount: usize = vspans.len();
    let mut events: Vec<(usize, bool)> = Vec::new();
    let mut k: usize = 0;
    while k < vcount
        invariant
            0 <= k <= vcount,
            vcount == vspans@.len(),
            vspans@ == all,
            spans_ok(all, w_),
            field_width >= 1,
            w_ == field_width as int,
            events@ == events_of(all.take(k as int), w_),
        decreases vcount - k,
    {
        let (line, sx, ex): (usize, usize, usize) = vspans[k];
        proof {
            assert(all[k as int] == (line, sx, ex));
            assert(span_end(all[k as int], w_) <= usize::MAX);
            assert((line as int) * w_ + (ex as int) <= usize::MAX);
        }
        let base: usize = line * field_width;
        let so: usize = base + sx;
        let eo: usize = base + ex;
        let ghost pre_ev: Seq<(usize, bool)> = events@;
        events.push((so, true));
        events.push((eo, false));
        proof {
            let tk = all.take(k as int + 1);
            assert(tk.drop_last() =~= all.take(k as int));
            assert(tk.last() == all[k as int]);
            assert(so == span_start(all[k as int], w_));
            assert(eo == span_end(all[k as int], w_));
            assert(events@ =~= pre_ev + seq![(so, true), (eo, false)]);
            assert(events@ =~= events_of(tk, w_));
        }
        k = k + 1;
    }
    proof {
        assert(all.take(vcount as int) =~= all);
    }

    sort_events(&mut events);
    let ghost evs: Seq<(usize, bool)> = events@;
    let m: usize = events.len();

    // Sweep the sorted events, block by block of equal offsets.
    let mut out: DropOuts = DropOuts::empty();
    let mut j: usize = 0;
    let mut starts: usize = 0;
    let mut ends: usize = 0;
    let mut opened: bool = false;
    let mut cur_start: usize = 0;
    proof {
        broadcast use vstd::seq_lib::group_to_multiset_ensures;

        if m == 0 {
            lemma_events_of_len(all, w_);
            assert(events_of(all, w_).to_multiset().len() == 0);
            assert(events_of(all, w_).len() == 0);
            assert(all.len() == 0);
            assert forall|off: int| !(#[trigger] depth_at(all, w_, off) >= threshold as int) by {
                lemma_depth_bounds(all, w_, off);
            }
        } else {
            assert forall|off: int| off < evs[0].0 implies !(#[trigger] depth_at(all, w_, off)
                >= threshold as int) by {
                assert forall|t: int| 0 <= t < evs.len() implies (#[trigger] evs[t]).0 > off by {
                    assert(ev_le(evs[0], evs[t]));
                }
                lemma_sum_upto_prefix(evs, 0, off);
                lemma_sum_upto_permutation(evs, events_of(all, w_), off);
                lemma_events_count(all, w_, off);
            }
        }
    }
    while j < m
        invariant
            0 <= j <= m,
            m == evs.len(),
            evs == events@,
            field_width >= 1,
            threshold >= 1,
            w_ == field_width as int,
            h_ == field_height as int,
            spans_ok(all, w_),
            evs.to_multiset() == events_of(all, w_).to_multiset(),
            forall|p: int, q: int| 0 <= p <= q < m ==> ev_le(evs[p], evs[q]),
            starts + ends == j,
            starts as int - ends as int == prefix_sum(evs, j as int),
            j == 0 || j == m || evs[j as int - 1].0 < evs[j as int].0,
            opened == (prefix_sum(evs, j as int) >= threshold as int),
            opened ==> j > 0 && cur_start <= evs[j as int - 1].0 && depth_at(
                all,
                w_,
                cur_start as int,
            ) >= threshold as int,
            out.well_formed(),
            spans_ok(out.spans(), w_),
            j == 0 ==> out.spans().len() == 0,
            j > 0 ==> forall|p: int|
                0 <= p < out.spans().len() ==> span_end(#[trigger] out.spans()[p], w_) <= evs[j
                    as int - 1].0,
            forall|p: int|
                0 <= p && p + 1 < out.spans().len() ==> span_end(#[trigger] out.spans()[p], w_)
                    < span_start(out.spans()[p + 1], w_),
            forall|p: int| 0 <= p < out.spans().len() ==> (#[trigger] out.spans()[p]).1 < w_,
            opened ==> forall|p: int|
                0 <= p < out.spans().len() ==> span_end(#[trigger] out.spans()[p], w_)
                    < cur_start as int,
            forall|off: int|
                (j < m ==> off < evs[j as int].0) ==> (sweep_covers(out, opened, cur_start, w_, off)
                    <==> #[trigger] depth_at(all, w_, off) >= threshold as int),
            spans_within(all, w_, h_ * w_) ==> spans_within(out.spans(), w_, h_ * w_) && (
            forall|p: int|
                0 <= p < out.spans().len() ==> valid_span(#[trigger] out.spans()[p], h_)),
        decreases m - j,
    {
        let o: usize = events[j].0;
        let mut j2: usize = j;
        let mut starts2: usize = starts;
        let mut ends2: usize = ends;
        while j2 < m && events[j2].0 == o
            invariant
                j <= j2 <= m,
                m == evs.len(),
                evs == events@,
                starts + ends == j,
                starts2 + ends2 == j2,
                starts2 as int - ends2 as int == prefix_sum(evs, j2 as int),
                starts as int - ends as int == prefix_sum(evs, j as int),
                forall|t: int| j <= t < j2 ==> (#[trigger] evs[t]).0 == o,
            decreases m - j2,
        {
            if events[j2].1 {
                starts2 = starts2 + 1;
            } else {
                ends2 = ends2 + 1;
            }
            j2 = j2 + 1;
        }
        proof {
            assert(evs[j as int].0 == o);
            assert(j2 > j);
            if j2 < m {
                assert(ev_le(evs[j2 as int - 1], evs[j2 as int]));
                assert(evs[j2 as int].0 > o);
            }
            // depth on the new gap equals the net of the processed events
            assert forall|off: int| o <= off && (j2 < m ==> off < evs[j2 as int].0)
                implies #[trigger] depth_at(all, w_, off) == prefix_sum(evs, j2 as int) by {
                assert forall|t: int| 0 <= t < j2 implies (#[trigger] evs[t]).0 <= off by {
                    if t < j {
                        assert(ev_le(evs[t], evs[j as int]));
                    }
                }
                assert forall|t: int| j2 <= t < evs.len() implies (#[trigger] evs[t]).0
                    > off by {
                    assert(ev_le(evs[j2 as int], evs[t]));
                }
                lemma_sum_upto_prefix(evs, j2 as int, off);
                lemma_sum_upto_permutation(evs, events_of(all, w_), off);
                lemma_events_count(all, w_, off);
            }
        }
        let d1_ge: bool = (starts2 as u128) >= (ends2 as u128) + (threshold as u128);
        proof {
            assert(d1_ge == (prefix_sum(evs, j2 as int) >= threshold as int));
        }
        if !opened && d1_ge {
            cur_start = o;
            opened = true;
            proof {
                assert(depth_at(all, w_, o as int) >= threshold as int);
                assert forall|p: int| 0 <= p < out.spans().len() implies span_end(
                    #[trigger] out.spans()[p],
                    w_,
                ) < cur_start as int by {
                    assert(j > 0);
                    assert(evs[j as int - 1].0 < o);
                }
                assert forall|off: int| (j2 < m ==> off < evs[j2 as int].0) implies (
                sweep_covers(out, opened, cur_start, w_, off) <==> #[trigger] depth_at(
                    all,
                    w_,
                    off,
                ) >= threshold as int) by {
                    if off < o as int {
                        assert(sweep_covers(out, false, 0, w_, off) == covered_by(
                            out.spans(),
                            w_,
                            off,
                        ));
                    }
                }
            }
        } else if opened && !d1_ge {
            // close the consensus run [cur_start, o)
            proof {
                assert(cur_start < o) by {
                    assert(evs[j as int - 1].0 < o);
                }
                vstd::arithmetic::div_mod::lemma_fundamental_div_mod(
                    cur_start as int,
                    w_,
                );
                assert(w_ * ((cur_start as int) / w_) <= cur_start as int) by {
                    assert((cur_start as int) % w_ >= 0) by {
                        vstd::arithmetic::div_mod::lemma_mod_bound(cur_start as int, w_);
                    }
                }
            }
            let line: usize = cur_start / field_width;
            let sx: usize = cur_start - line * field_width;
            let ex: usize = o - line * field_width;
            let ghost old_out: DropOuts = out;
            out.push(line, sx, ex);
            opened = false;
            proof {
                let sp = (line, sx, ex);
                assert(span_start(sp, w_) == cur_start as int);
                assert(span_end(sp, w_) == o as int);
                assert(sx < field_width) by {
                    assert(sx == (cur_start as int) % w_);
                }
                assert forall|p: int| 0 <= p < out.spans().len() implies (
                #[trigger] out.spans()[p]).1 < w_ by {
                    if p < old_out.spans().len() {
                        assert(out.spans()[p] == old_out.spans()[p]);
                    } else {
                        assert(out.spans()[p] == sp);
                    }
                }
                assert(spans_ok(out.spans(), w_)) by {
                    assert forall|p: int| 0 <= p < out.spans().len() implies (
                    #[trigger] out.spans()[p]).1 < out.spans()[p].2 && span_end(
                        out.spans()[p],
                        w_,
                    ) <= usize::MAX by {
                        if p < old_out.spans().len() {
                            assert(out.spans()[p] == old_out.spans()[p]);
                        } else {
                            assert(out.spans()[p] == sp);
                        }
                    }
                }
                assert forall|p: int| 0 <= p < out.spans().len() implies span_end(
                    #[trigger] out.spans()[p],
                    w_,
                ) <= o as int by {
                    if p < old_out.spans().len() {
                        assert(out.spans()[p] == old_out.spans()[p]);
                        assert(span_end(old_out.spans()[p], w_) <= evs[j as int - 1].0);
                    } else {
                        assert(out.spans()[p] == sp);
                    }
                }
                assert forall|p: int| 0 <= p && p + 1 < out.spans().len() implies span_end(
                    #[trigger] out.spans()[p],
                    w_,
                ) < span_start(out.spans()[p + 1], w_) by {
                    if p + 1 < old_out.spans().len() {
                        assert(out.spans()[p] == old_out.spans()[p]);
                        assert(out.spans()[p + 1] == old_out.spans()[p + 1]);
                    } else {
                        assert(out.spans()[p] == old_out.spans()[p]);
                        assert(out.spans()[p + 1] == sp);
                        assert(span_end(old_out.spans()[p], w_) < cur_start as int);
                    }
                }
                assert forall|off: int| (j2 < m ==> off < evs[j2 as int].0) implies (
                sweep_covers(out, opened, cur_start, w_, off) <==> #[trigger] depth_at(
                    all,
                    w_,
                    off,
                ) >= threshold as int) by {
                    lemma_covered_push(old_out.spans(), sp, w_, off);
                    assert(out.spans() =~= old_out.spans().push(sp));
                    if off < cur_start as int {
                        assert(!span_covers(sp, w_, off));
                        assert(sweep_covers(old_out, true, cur_start, w_, off) == covered_by(
                            old_out.spans(),
                            w_,
                            off,
                        ));
                    } else if off < o as int {
                        assert(span_covers(sp, w_, off));
                        assert(sweep_covers(old_out, true, cur_start, w_, off));
                    } else {
                        assert(!span_covers(sp, w_, off));
                        assert(!covered_by(old_out.spans(), w_, off)) by {
                            if covered_by(old_out.spans(), w_, off) {
                                let p = choose|p: int|
                                    0 <= p < old_out.spans().len() && span_covers(
                                        old_out.spans()[p],
                                        w_,
                                        off,
                                    );
                                assert(span_end(old_out.spans()[p], w_) <= evs[j as int
                                    - 1].0);
                            }
                        }
                        assert(depth_at(all, w_, off) == prefix_sum(evs, j2 as int));
                    }
                }
                // field-bounded outputs stay field-bounded
                if spans_within(all, w_, h_ * w_) {
                    assert(depth_at(all, w_, cur_start as int) >= 1);
                    lemma_depth_pos_iff_covered(all, w_, cur_start as int);
                    let q = choose|q: int|
                        0 <= q < all.len() && span_covers(all[q], w_, cur_start as int);
                    assert(span_end(all[q], w_) <= h_ * w_);
                    assert((cur_start as int) < h_ * w_);
                    assert((line as int) < h_) by (nonlinear_arith)
                        requires
                            (line as int) * w_ <= cur_start as int,
                            (cur_start as int) < h_ * w_,
                            w_ >= 1,
                    {}
                    assert((o as int) <= h_ * w_) by {
                        broadcast use vstd::seq_lib::group_to_multiset_ensures;

                        lemma_events_offsets(all, w_, h_ * w_);
                        assert(evs.to_multiset().contains(evs[j as int])) by {
                            broadcast use vstd::seq_lib::group_to_multiset_ensures;

                            assert(evs.contains(evs[j as int]));
                        }
                        assert(events_of(all, w_).to_multiset().contains(evs[j as int]));
                        assert(events_of(all, w_).contains(evs[j as int]));
                        let t = choose|t: int|
                            0 <= t < events_of(all, w_).len() && events_of(all, w_)[t]
                                == evs[j as int];
                        assert(events_of(all, w_)[t].0 <= h_ * w_);
                    }
                    assert forall|p: int| 0 <= p < out.spans().len() implies valid_span(
                        #[trigger] out.spans()[p],
                        h_,
                    ) && span_end(out.spans()[p], w_) <= h_ * w_ by {
                        if p < old_out.spans().len() {
                            assert(out.spans()[p] == old_out.spans()[p]);
                        } else {
                            assert(out.spans()[p] == sp);
                        }
                    }
                }
            }
        } else {
            proof {
                assert forall|off: int| (j2 < m ==> off < evs[j2 as int].0) implies (
                sweep_covers(out, opened, cur_start, w_, off) <==> #[trigger] depth_at(
                    all,
                    w_,
                    off,
                ) >= threshold as int) by {
                    if o as int <= off {
                        if opened {
                            assert(cur_start <= evs[j as int - 1].0);
                            assert(cur_start as int <= off);
                        } else {
                            assert(!covered_by(out.spans(), w_, off)) by {
                                if covered_by(out.spans(), w_, off) {
                                    let p = choose|p: int|
                                        0 <= p < out.spans().len() && span_covers(
                                            out.spans()[p],
                                            w_,
                                            off,
                                        );
                                    if j > 0 {
                                        assert(span_end(out.spans()[p], w_) <= evs[j as int
                                            - 1].0);
                                        assert(evs[j as int - 1].0 < o);
                                    }
                                }
                            }
                        }
                        assert(depth_at(all, w_, off) == prefix_sum(evs, j2 as int));
                    }
                }
            }
        }
        proof {
            if opened {
                assert(cur_start <= evs[j2 as int - 1].0) by {
                    assert(evs[j2 as int - 1].0 == o);
                }
            }
            assert(j2 > 0 ==> forall|p: int|
                0 <= p < out.spans().len() ==> span_end(#[trigger] out.spans()[p], w_) <= evs[
                j2 as int - 1].0) by {
                if j > 0 {
                    assert(evs[j as int - 1].0 < o);
                }
                assert(evs[j2 as int - 1].0 == o);
            }
        }
        starts = starts2;
        ends = ends2;
        j = j2;
    }
    proof {
        broadcast use vstd::seq_lib::group_to_multiset_ensures;

        let big: int = usize::MAX as int + 1;
        assert forall|t: int| 0 <= t < evs.len() implies (#[trigger] evs[t]).0 <= big by {}
        lemma_sum_upto_prefix(evs, m as int, big);
        lemma_sum_upto_permutation(evs, events_of(all, w_), big);
        lemma_events_count(all, w_, big);
        lemma_depth_bounds(all, w_, big);
        lemma_depth_pos_iff_covered(all, w_, big);
        assert(!covered_by(all, w_, big)) by {
            if covered_by(all, w_, big) {
                let q = choose|q: int| 0 <= q < all.len() && span_covers(all[q], w_, big);
                assert(span_end(all[q], w_) <= usize::MAX);
            }
        }
        assert(prefix_sum(evs, m as int) == 0);
        assert(!opened);
        assert forall|off: int| covered_by(out.spans(), w_, off) <==> #[trigger] depth_at(
            all,
            w_,
            off,
        ) >= threshold as int by {
            assert(sweep_covers(out, opened, cur_start, w_, off) == covered_by(
                out.spans(),
                w_,
                off,
            ));
        }
    }
    out
}

/// With a quorum of 1 the consensus reproduces the union: an offset
/// is covered by the merged output exactly when some contributed
/// valid span covers it.
pub proof fn lemma_consensus_one_is_union(
    all: Seq<(usize, usize, usize)>,
    w: int,
    out: DropOuts,
)
    requires
        consensus_of(all, w, 1, out),
    ensures
        forall|off: int| covered_by(out.spans(), w, off) <==> covered_by(all, w, off),
{
    assert forall|off: int| covered_by(out.spans(), w, off) <==> covered_by(all, w, off) by {
        lemma_depth_pos_iff_covered(all, w, off);
        assert(covered_by(out.spans(), w, off) <==> depth_at(all, w, off) >= 1);
    }
}

/// The depth of `i` identical contributions is `i` times the depth of
/// one.
proof fn lemma_depth_identical(inputs: Seq<DropOuts>, h: int, w: int, off: int, i: int)
    requires
        0 <= i <= inputs.len(),
        inputs.len() >= 1,
        forall|t: int| 0 <= t < inputs.len() ==> #[trigger] inputs[t] == inputs[0],
    ensures
        depth_at(valid_spans_upto(inputs, h, i), w, off) == i * depth_at(
            input_valid_spans(inputs[0], h),
            w,
            off,
        ),
    decreases i,
{
    let d = depth_at(input_valid_spans(inputs[0], h), w, off);
    if i == 0 {
        assert(0 * d == 0) by (nonlinear_arith);
    } else {
        lemma_depth_identical(inputs, h, w, off, i - 1);
        assert(inputs[i - 1] == inputs[0]);
        lemma_depth_concat(
            valid_spans_upto(inputs, h, i - 1),
            input_valid_spans(inputs[0], h),
            w,
            off,
        );
        assert((i - 1) * d + d == i * d) by (nonlinear_arith);
    }
}

/// With a quorum equal to the number of inputs, and all inputs
/// contributing the same spans, exactly the common coverage (the
/// intersection, which here equals the union) survives.
pub proof fn lemma_consensus_all_is_intersection(
    inputs: Seq<DropOuts>,
    h: int,
    w: int,
    out: DropOuts,
)
    requires
        inputs.len() >= 1,
        forall|t: int| 0 <= t < inputs.len() ==> #[trigger] inputs[t] == inputs[0],
        consensus_of(valid_spans_of(inputs, h), w, inputs.len() as int, out),
    ensures
        forall|off: int|
            covered_by(out.spans(), w, off) <==> covered_by(
                input_valid_spans(inputs[0], h),
                w,
                off,
            ),
{
    let n = inputs.len() as int;
    let one = input_valid_spans(inputs[0], h);
    assert forall|off: int| covered_by(out.spans(), w, off) <==> covered_by(one, w, off) by {
        lemma_depth_identical(inputs, h, w, off, n);
        let d = depth_at(one, w, off);
        lemma_depth_bounds(one, w, off);
        lemma_depth_pos_iff_covered(one, w, off);
        assert(d >= 1 ==> n * d >= n) by (nonlinear_arith)
            requires
                n >= 1,
        {}
        assert(d < 1 ==> n * d < n) by (nonlinear_arith)
            requires
                n >= 1,
                d >= 0,
        {}
        lemma_depth_bounds(one, w, off);
        assert(covered_by(out.spans(), w, off) <==> depth_at(valid_spans_of(inputs, h), w, off)
            >= n);
    }
}

/// With a quorum larger than the number of contributed spans, nothing
/// survives: the merged output is empty.
pub proof fn lemma_consensus_above_count_empty(
    all: Seq<(usize, usize, usize)>,
    w: int,
    threshold: int,
    out: DropOuts,
)
    requires
        consensus_of(all, w, threshold, out),
        threshold > all.len(),
    ensures
        out.spans().len() == 0,
{
    if out.spans().len() > 0 {
        let s = out.spans()[0];
        assert(s.1 < s.2 && span_end(s, w) <= usize::MAX);
        assert(span_covers(s, w, span_start(s, w)));
        assert(covered_by(out.spans(), w, span_start(s, w)));
        lemma_depth_bounds(all, w, span_start(s, w));
        assert(false);
    }
}

/// In a canonical list the spans' offsets grow strictly from span to
/// span.
proof fn lemma_canonical_monotone(x: Seq<(usize, usize, usize)>, w: int, p: int, q: int)
    requires
        canonical_spans(x, w),
        0 <= p <= q < x.len(),
    ensures
        span_start(x[p], w) <= span_start(x[q], w),
        p < q ==> span_end(x[p], w) < span_start(x[q], w),
    decreases q - p,
{
    if p < q {
        lemma_canonical_monotone(x, w, p, q - 1);
        assert(span_end(x[q - 1], w) < span_start(x[q], w));
        assert(span_start(x[q - 1], w) < span_end(x[q - 1], w));
        if p < q - 1 {
            assert(span_end(x[p], w) < span_start(x[q - 1], w));
        }
    }
}

/// Everything a canonical list covers lies at or past its first
/// span's start.
proof fn lemma_canonical_min(x: Seq<(usize, usize, usize)>, w: int, off: int)
    requires
        canonical_spans(x, w),
        x.len() > 0,
        covered_by(x, w, off),
    ensures
        off >= span_start(x[0], w),
{
    let j = choose|j: int| 0 <= j < x.len() && span_covers(x[j], w, off);
    lemma_canonical_monotone(x, w, 0, j);
}

/// A canonical list does not cover its first span's end offset.
proof fn lemma_canonical_first_end_uncovered(x: Seq<(usize, usize, usize)>, w: int)
    requires
        canonical_spans(x, w),
        x.len() > 0,
    ensures
        !covered_by(x, w, span_end(x[0], w)),
{
    if covered_by(x, w, span_end(x[0], w)) {
        let j = choose|j: int| 0 <= j < x.len() && span_covers(x[j], w, span_end(x[0], w));
        if j > 0 {
            lemma_canonical_monotone(x, w, 0, j);
        }
    }
}

/// Two canonical lists with the same coverage have the same first
/// span.
proof fn lemma_canonical_first(
    x: Seq<(usize, usize, usize)>,
    y: Seq<(usize, usize, usize)>,
    w: int,
)
    requires
        w >= 1,
        canonical_spans(x, w),
        canonical_spans(y, w),
        x.len() > 0,
        y.len() > 0,
        forall|off: int| covered_by(x, w, off) <==> covered_by(y, w, off),
    ensures
        x[0] == y[0],
{
    let ax = span_start(x[0], w);
    let ex = span_end(x[0], w);
    let ay = span_start(y[0], w);
    let ey = span_end(y[0], w);
    assert(span_covers(x[0], w, ax));
    assert(covered_by(x, w, ax));
    assert(span_covers(y[0], w, ay));
    assert(covered_by(y, w, ay));
    lemma_canonical_min(y, w, ax);
    lemma_canonical_min(x, w, ay);
    assert(ax == ay);
    lemma_canonical_first_end_uncovered(x, w);
    lemma_canonical_first_end_uncovered(y, w);
    assert(ex == ey) by {
        if ey > ex {
            assert(span_covers(y[0], w, ex));
            assert(covered_by(y, w, ex));
        }
        if ex > ey {
            assert(span_covers(x[0], w, ey));
            assert(covered_by(x, w, ey));
        }
    }
    assert(ax == (x[0].0 as int) * w + x[0].1);
    assert((x[0].0 as int) * w + x[0].1 == w * (x[0].0 as int) + x[0].1) by (nonlinear_arith);
    vstd::arithmetic::div_mod::lemma_fundamental_div_mod_converse(
        ax,
        w,
        x[0].0 as int,
        x[0].1 as int,
    );
    assert((y[0].0 as int) * w + y[0].1 == w * (y[0].0 as int) + y[0].1) by (nonlinear_arith);
    vstd::arithmetic::div_mod::lemma_fundamental_div_mod_converse(
        ay,
        w,
        y[0].0 as int,
        y[0].1 as int,
    );
    assert(x[0].0 == y[0].0 && x[0].1 == y[0].1);
    assert(x[0].2 == y[0].2);
}

/// The tail of a canonical list covers exactly the covered offsets
/// past the first span's end.
proof fn lemma_canonical_tail_covered(x: Seq<(usize, usize, usize)>, w: int, off: int)
    requires
        canonical_spans(x, w),
        x.len() > 0,
    ensures
        covered_by(x.drop_first(), w, off) <==> (covered_by(x, w, off) && off > span_end(
            x[0],
            w,
        )),
{
    let rx = x.drop_first();
    if covered_by(rx, w, off) {
        let j = choose|j: int| 0 <= j < rx.len() && span_covers(rx[j], w, off);
        assert(rx[j] == x[j + 1]);
        assert(covered_by(x, w, off));
        lemma_canonical_monotone(x, w, 0, j + 1);
        assert(off > span_end(x[0], w));
    }
    if covered_by(x, w, off) && off > span_end(x[0], w) {
        let k = choose|k: int| 0 <= k < x.len() && span_covers(x[k], w, off);
        assert(k > 0) by {
            if k == 0 {
                assert(off < span_end(x[0], w));
            }
        }
        assert(rx[k - 1] == x[k]);
        assert(covered_by(rx, w, off));
    }
}

/// The tail of a canonical list is canonical.
proof fn lemma_canonical_tail(x: Seq<(usize, usize, usize)>, w: int)
    requires
        canonical_spans(x, w),
        x.len() > 0,
    ensures
        canonical_spans(x.drop_first(), w),
{
    let rx = x.drop_first();
    assert(forall|p: int| 0 <= p < rx.len() ==> rx[p] == x[p + 1]);
}

/// When two canonical lists with the same coverage share their first
/// span, their tails cover the same offsets.
proof fn lemma_tail_coverage_iff(
    x: Seq<(usize, usize, usize)>,
    y: Seq<(usize, usize, usize)>,
    w: int,
)
    requires
        canonical_spans(x, w),
        canonical_spans(y, w),
        x.len() > 0,
        y.len() > 0,
        x[0] == y[0],
        forall|off: int| covered_by(x, w, off) <==> covered_by(y, w, off),
    ensures
        forall|off: int|
            covered_by(x.drop_first(), w, off) <==> covered_by(y.drop_first(), w, off),
{
    assert forall|off: int| covered_by(x.drop_first(), w, off) <==> covered_by(
        y.drop_first(),
        w,
        off,
    ) by {
        lemma_canonical_tail_covered(x, w, off);
        lemma_canonical_tail_covered(y, w, off);
    }
}

/// Two canonical span lists that cover the same offsets are the same
/// list: the canonical form of a coverage set is unique.
#[verifier::rlimit(100)]
#[verifier::spinoff_prover]
pub proof fn lemma_canonical_unique(
    x: Seq<(usize, usize, usize)>,
    y: Seq<(usize, usize, usize)>,
    w: int,
)
    requires
        w >= 1,
        canonical_spans(x, w),
        canonical_spans(y, w),
        forall|off: int| covered_by(x, w, off) <==> covered_by(y, w, off),
    ensures
        x == y,
    decreases x.len(),
{
    if x.len() == 0 && y.len() == 0 {
        assert(x =~= y);
    } else if x.len() == 0 {
        assert(span_covers(y[0], w, span_start(y[0], w)));
        assert(covered_by(y, w, span_start(y[0], w)));
        assert(false);
    } else if y.len() == 0 {
        assert(span_covers(x[0], w, span_start(x[0], w)));
        assert(covered_by(x, w, span_start(x[0], w)));
        assert(false);
    } else {
        lemma_canonical_first(x, y, w);
        lemma_canonical_tail(x, w);
        lemma_canonical_tail(y, w);
        lemma_tail_coverage_iff(x, y, w);
        lemma_canonical_unique(x.drop_first(), y.drop_first(), w);
        assert forall|p: int| 0 <= p < x.len() implies x[p] == y[p] by {
            if p > 0 {
                assert(x.drop_first()[p - 1] == x[p]);
                assert(y.drop_first()[p - 1] == y[p]);
            }
        }
        assert(x =~= y);
    }
}

/// When the first `j` spans are all valid, filtering keeps them all.
proof fn lemma_valid_prefix_all_valid(spans: Seq<(usize, usize, usize)>, h: int, j: int)
    requires
        0 <= j <= spans.len(),
        forall|t: int| 0 <= t < j ==> valid_span(#[trigger] spans[t], h),
    ensures
        valid_prefix(spans, h, j) =~= spans.take(j),
    decreases j,
{
    if j > 0 {
        lemma_valid_prefix_all_valid(spans, h, j - 1);
        assert(valid_prefix(spans, h, j) =~= spans.take(j - 1) + seq![spans[j - 1]]);
    }
}

/// The consensus merge is idempotent: merging an in-field consensus
/// output against itself with quorum 1 yields that very span list
/// again.
pub proof fn lemma_consensus_idempotent(
    all: Seq<(usize, usize, usize)>,
    w: int,
    h: int,
    threshold: int,
    out1: DropOuts,
    out2: DropOuts,
)
    requires
        w >= 1,
        consensus_of(all, w, threshold, out1),
        canonical_spans(out1.spans(), w),
        forall|p: int| 0 <= p < out1.spans().len() ==> valid_span(#[trigger] out1.spans()[p], h),
        consensus_of(valid_spans_of(seq![out1], h), w, 1, out2),
        canonical_spans(out2.spans(), w),
    ensures
        forall|off: int| covered_by(out2.spans(), w, off) <==> covered_by(out1.spans(), w, off),
        out2.spans() == out1.spans(),
{
    assert(valid_spans_of(seq![out1], h) =~= input_valid_spans(out1, h)) by {
        assert(valid_spans_upto(seq![out1], h, 1) == valid_spans_upto(seq![out1], h, 0)
            + input_valid_spans(seq![out1][0], h));
        assert(seq![out1][0] == out1);
        assert(Seq::<(usize, usize, usize)>::empty() + input_valid_spans(out1, h)
            =~= input_valid_spans(out1, h));
    }
    lemma_valid_prefix_all_valid(out1.spans(), h, out1.spans().len() as int);
    assert(out1.spans().take(out1.spans().len() as int) =~= out1.spans());
    assert(valid_spans_of(seq![out1], h) == out1.spans());
    assert forall|off: int| covered_by(out2.spans(), w, off) <==> covered_by(
        out1.spans(),
        w,
        off,
    ) by {
        lemma_depth_pos_iff_covered(out1.spans(), w, off);
        assert(covered_by(out2.spans(), w, off) <==> depth_at(out1.spans(), w, off) >= 1);
    }
    lemma_canonical_unique(out2.spans(), out1.spans(), w);
}

} // verus!
