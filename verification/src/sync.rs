//! Multi-stream temporal synchronizer.
//!
//! For each output field the synchronizer advances every input's
//! cursor, detects duplicate fields (a field whose declared sequence
//! number does not exceed the input's last emitted one), decides
//! whether the run stops (an input exhausted, or the requested field
//! cap reached), and decides whether the field is emitted as a
//! duplicate, dropped, or fused fresh.
//!
//! A duplicate is "fresh" when the input's duplicate-parity counter
//! matches the number of duplicates already written, modulo two; only
//! fresh duplicates produce a duplicate output (or, with
//! duplicate-to-drop conversion, suppress this field and the next
//! one, since a single dropped field shifts cadence by one).

use vstd::prelude::*;

verus! {

/// Per-input synchronizer state.
#[derive(Clone, Copy, Debug)]
pub struct InputCursor {
    /// Next field to read.
    pub field_index: usize,
    /// Duplicate-parity counter.
    pub dupe_count: usize,
    /// Sequence number of the last field emitted from this input.
    pub last_seq_no: usize,
}

/// What the caller must do for one output field.
#[derive(Debug)]
pub enum SyncStep {
    /// An input ran out of fields, or the field cap was reached.
    Finished,
    /// A fresh duplicate was converted to a drop: nothing is emitted,
    /// and the next fused field will be suppressed too.
    Skipped { dupes: Vec<usize> },
    /// A fresh duplicate is emitted again as the previous fused field.
    EmitDupe { dupes: Vec<usize> },
    /// Fuse one field from each input's cursor position; emit the
    /// result unless `emit` is false (cadence suppression).
    Fuse { emit: bool, sources: Vec<usize>, dupes: Vec<usize> },
}

/// Sum of the first `i` cursor positions.
pub open spec fn sum_cursors(cs: Seq<InputCursor>, i: int) -> int
    decreases i,
{
    if i <= 0 {
        0
    } else {
        sum_cursors(cs, i - 1) + cs[i - 1].field_index
    }
}

proof fn lemma_sum_cursors_nonneg(cs: Seq<InputCursor>, i: int)
    ensures
        sum_cursors(cs, i) >= 0,
    decreases i,
{
    if i > 0 {
        lemma_sum_cursors_nonneg(cs, i - 1);
    }
}

proof fn lemma_sum_cursors_congruence(a: Seq<InputCursor>, b: Seq<InputCursor>, i: int)
    requires
        forall|t: int| 0 <= t < i ==> a[t] == b[t],
        i <= a.len(),
        i <= b.len(),
    ensures
        sum_cursors(a, i) == sum_cursors(b, i),
    decreases i,
{
    if i > 0 {
        lemma_sum_cursors_congruence(a, b, i - 1);
    }
}

proof fn lemma_sum_cursors_update(cs: Seq<InputCursor>, i: int, c: InputCursor, n: int)
    requires
        0 <= i < n <= cs.len(),
    ensures
        sum_cursors(cs.update(i, c), n) == sum_cursors(cs, n) + c.field_index
            - cs[i].field_index,
    decreases n,
{
    if i == n - 1 {
        lemma_sum_cursors_congruence(cs.update(i, c), cs, n - 1);
    } else {
        lemma_sum_cursors_update(cs, i, c, n - 1);
    }
}

proof fn lemma_sum_cursors_bound(cs: Seq<InputCursor>, i: int, b: int)
    requires
        0 <= i <= cs.len(),
        forall|t: int| 0 <= t < i ==> (#[trigger] cs[t]).field_index <= b,
        b >= 0,
    ensures
        sum_cursors(cs, i) <= i * b,
    decreases i,
{
    if i > 0 {
        lemma_sum_cursors_bound(cs, i - 1, b);
        assert((i - 1) * b + b == i * b) by (nonlinear_arith);
    }
}

/// Stream synchronizer state: one cursor per input plus the declared
/// per-field sequence numbers, the duplicate and output counters, and
/// the run configuration.
pub struct Synchronizer {
    /// Declared sequence number of each field, per input.
    pub seq_nos: Vec<Vec<usize>>,
    /// Per-input cursor state.
    pub cursors: Vec<InputCursor>,
    /// Number of fresh duplicates encountered so far.
    pub dupes_written: usize,
    /// The next fused field must be suppressed.
    pub drop_next: bool,
    /// Number of fields emitted so far.
    pub out_count: usize,
    /// Stop after this many output fields (0 = unbounded).
    pub max_fields: usize,
    /// Convert fresh duplicates into drops instead of emitting them.
    pub dupes_to_drops: bool,
}

impl Synchronizer {
    /// Number of inputs.
    pub open spec fn n(self) -> int {
        self.cursors@.len() as int
    }

    /// The synchronizer's internal invariant.
    pub open spec fn well_formed(self) -> bool {
        &&& 3 <= self.seq_nos@.len() <= 15
        &&& self.cursors@.len() == self.seq_nos@.len()
        &&& forall|i: int|
            0 <= i < self.n() ==> (#[trigger] self.cursors@[i]).field_index
                <= self.seq_nos@[i]@.len()
        &&& forall|i: int| 0 <= i < self.n() ==> (#[trigger] self.seq_nos@[i])@.len()
            <= 0x800_0000
        &&& forall|i: int|
            0 <= i < self.n() ==> (#[trigger] self.cursors@[i]).dupe_count
                <= self.cursors@[i].field_index + 1
        &&& self.dupes_written <= sum_cursors(self.cursors@, self.n())
        &&& self.out_count <= self.cursors@[0].field_index + self.dupes_written
    }

    /// The requested output cap has been reached.
    pub open spec fn at_cap(self) -> bool {
        self.max_fields != 0 && self.out_count >= self.max_fields
    }

    /// Some input has no field left.
    pub open spec fn exhausted(self) -> bool {
        exists|i: int|
            0 <= i < self.n() && (#[trigger] self.cursors@[i]).field_index
                >= self.seq_nos@[i]@.len()
    }

    /// Input `i`'s current field is a duplicate: its declared sequence
    /// number does not exceed the last one emitted from that input.
    pub open spec fn is_dupe_at(self, i: int) -> bool {
        self.cursors@[i].field_index < self.seq_nos@[i]@.len()
            && self.seq_nos@[i]@[self.cursors@[i].field_index as int]
            <= self.cursors@[i].last_seq_no
    }

    /// Some duplicate crosses a "new" boundary: its input's parity
    /// counter matches the duplicates already written, modulo two.
    pub open spec fn fresh_dupe(self) -> bool {
        exists|i: int|
            0 <= i < self.n() && #[trigger] self.is_dupe_at(i) && self.cursors@[i].dupe_count
                % 2 == self.dupes_written % 2
    }

    /// Input `i`'s cursor after the duplicate-skipping pass.
    pub open spec fn cursor_after_skip(self, i: int) -> InputCursor {
        if self.is_dupe_at(i) {
            InputCursor {
                field_index: (self.cursors@[i].field_index + 1) as usize,
                dupe_count: (self.cursors@[i].dupe_count + 1) as usize,
                last_seq_no: self.cursors@[i].last_seq_no,
            }
        } else {
            self.cursors@[i]
        }
    }

    /// Some input has no field left once duplicates are skipped.
    pub open spec fn exhausted_after_skip(self) -> bool {
        exists|i: int|
            0 <= i < self.n() && (#[trigger] self.cursor_after_skip(i)).field_index
                >= self.seq_nos@[i]@.len()
    }

    /// The duplicate input indices among the first `i`, in order.
    pub open spec fn dupes_upto(self, i: int) -> Seq<usize>
        decreases i,
    {
        if i <= 0 {
            Seq::empty()
        } else {
            self.dupes_upto(i - 1) + if self.is_dupe_at(i - 1) {
                seq![((i - 1) as usize)]
            } else {
                Seq::empty()
            }
        }
    }

    /// Builds a synchronizer.  The first input defines field-order
    /// parity for the whole run, so it must start on an even field.
    pub fn new(
        seq_nos: Vec<Vec<usize>>,
        start_fields: Vec<usize>,
        max_fields: usize,
        dupes_to_drops: bool,
    ) -> (r: Synchronizer)
        requires
            3 <= seq_nos@.len() <= 15,
            start_fields@.len() == seq_nos@.len(),
            start_fields@[0] % 2 == 0,
            forall|i: int|
                0 <= i < seq_nos@.len() ==> (#[trigger] start_fields@[i]) <= seq_nos@[i]@.len(),
            forall|i: int| 0 <= i < seq_nos@.len() ==> (#[trigger] seq_nos@[i])@.len()
                <= 0x800_0000,
        ensures
            r.well_formed(),
            r.seq_nos == seq_nos,
            r.max_fields == max_fields,
            r.dupes_to_drops == dupes_to_drops,
            r.out_count == 0,
            r.dupes_written == 0,
            r.drop_next == false,
            r.cursors@.len() == seq_nos@.len(),
            forall|i: int|
                0 <= i < seq_nos@.len() ==> (#[trigger] r.cursors@[i]) == (InputCursor {
                    field_index: start_fields@[i],
                    dupe_count: (start_fields@[i] % 2) as usize,
                    last_seq_no: 0usize,
                }),
    {
        let n: usize = seq_nos.len();
        let mut cursors: Vec<InputCursor> = Vec::new();
        let mut i: usize = 0;
        while i < n
            invariant
                0 <= i <= n,
                n == seq_nos@.len(),
                start_fields@.len() == n,
                cursors@.len() == i,
                forall|t: int|
                    0 <= t < i ==> (#[trigger] cursors@[t]) == (InputCursor {
                        field_index: start_fields@[t],
                        dupe_count: (start_fields@[t] % 2) as usize,
                        last_seq_no: 0usize,
                    }),
            decreases n - i,
        {
            let sf: usize = start_fields[i];
            cursors.push(InputCursor { field_index: sf, dupe_count: sf % 2, last_seq_no: 0 });
            i = i + 1;
        }
        let r = Synchronizer {
            seq_nos,
            cursors,
            dupes_written: 0,
            drop_next: false,
            out_count: 0,
            max_fields,
            dupes_to_drops,
        };
        proof {
            lemma_sum_cursors_nonneg(r.cursors@, r.n());
        }
        r
    }

    /// Whether some input's cursor has run past its last field.
    fn any_exhausted(&self) -> (r: bool)
        requires
            self.cursors@.len() <= self.seq_nos@.len(),
        ensures
            r == self.exhausted(),
    {
        let n: usize = self.cursors.len();
        let mut i: usize = 0;
        while i < n
            invariant
                0 <= i <= n,
                n == self.cursors@.len(),
                n <= self.seq_nos@.len(),
                forall|t: int|
                    0 <= t < i ==> (#[trigger] self.cursors@[t]).field_index
                        < self.seq_nos@[t]@.len(),
            decreases n - i,
        {
            let c: InputCursor = self.cursors[i];
            let row: &Vec<usize> = &self.seq_nos[i];
            if c.field_index >= row.len() {
                return true;
            }
            i = i + 1;
        }
        false
    }

    /// Advances the run by one round: skips duplicates, re-checks
    /// exhaustion, and decides whether to stop, skip, emit a
    /// duplicate, or fuse.
    pub fn step(&mut self) -> (r: SyncStep)
        requires
            old(self).well_formed(),
        ensures
            final(self).well_formed(),
            final(self).seq_nos == old(self).seq_nos,
            final(self).max_fields == old(self).max_fields,
            final(self).dupes_to_drops == old(self).dupes_to_drops,
            final(self).cursors@.len() == old(self).cursors@.len(),
            (r is Finished) <==> (old(self).at_cap() || old(self).exhausted_after_skip()),
            old(self).at_cap() || old(self).exhausted() ==> *final(self) == *old(self),
            r is Finished ==> {
                &&& final(self).out_count == old(self).out_count
                &&& final(self).dupes_written == old(self).dupes_written
                &&& final(self).drop_next == old(self).drop_next
            },
            !old(self).at_cap() && !old(self).exhausted() && !(r matches SyncStep::Fuse { .. })
                ==> forall|i: int|
                0 <= i < old(self).n() ==> final(self).cursors@[i] == old(self).cursor_after_skip(
                    i,
                ),
            (r matches SyncStep::Skipped { dupes } ==> {
                &&& old(self).fresh_dupe()
                &&& old(self).dupes_to_drops
                &&& final(self).drop_next == true
                &&& final(self).dupes_written == old(self).dupes_written + 1
                &&& final(self).out_count == old(self).out_count
                &&& dupes@ == old(self).dupes_upto(old(self).n())
            }),
            (r matches SyncStep::EmitDupe { dupes } ==> {
                &&& old(self).fresh_dupe()
                &&& !old(self).dupes_to_drops
                &&& final(self).drop_next == old(self).drop_next
                &&& final(self).dupes_written == old(self).dupes_written + 1
                &&& final(self).out_count == old(self).out_count + 1
                &&& dupes@ == old(self).dupes_upto(old(self).n())
            }),
            (r matches SyncStep::Fuse { emit, sources, dupes } ==> {
                &&& !old(self).at_cap()
                &&& !old(self).exhausted_after_skip()
                &&& !old(self).fresh_dupe()
                &&& emit == !old(self).drop_next
                &&& final(self).drop_next == false
                &&& final(self).dupes_written == old(self).dupes_written
                &&& final(self).out_count == old(self).out_count + (if emit {
                    1int
                } else {
                    0int
                })
                &&& sources@.len() == old(self).n()
                &&& forall|i: int|
                    0 <= i < old(self).n() ==> (#[trigger] sources@[i]) == old(self)
                        .cursor_after_skip(i).field_index
                &&& forall|i: int|
                    0 <= i < old(self).n() ==> (#[trigger] final(self).cursors@[i]).field_index
                        == old(self).cursor_after_skip(i).field_index + 1
                &&& forall|i: int|
                    0 <= i < old(self).n() ==> (#[trigger] final(self).cursors@[i]).dupe_count
                        == old(self).cursor_after_skip(i).dupe_count
                &&& forall|i: int|
                    0 <= i < old(self).n() ==> (#[trigger] final(self).cursors@[i]).last_seq_no
                        == old(self).seq_nos@[i]@[old(self).cursor_after_skip(i).field_index
                        as int]
                &&& dupes@ == old(self).dupes_upto(old(self).n())
            }),
    {
        let ghost o: Synchronizer = *self;
        if self.max_fields != 0 && self.out_count >= self.max_fields {
            return SyncStep::Finished;
        }
        if self.any_exhausted() {
            proof {
                let i = choose|i: int|
                    0 <= i < o.n() && (#[trigger] o.cursors@[i]).field_index
                        >= o.seq_nos@[i]@.len();
                assert(o.cursor_after_skip(i).field_index >= o.seq_nos@[i]@.len());
            }
            return SyncStep::Finished;
        }

        // Duplicate-skipping pass: each input is examined once.
        let n: usize = self.cursors.len();
        let mut dupes: Vec<usize> = Vec::new();
        let mut should_write_dupe: bool = false;
        let mut i: usize = 0;
        while i < n
            invariant
                0 <= i <= n,
                n == o.n(),
                o.well_formed(),
                !o.exhausted(),
                self.seq_nos == o.seq_nos,
                self.max_fields == o.max_fields,
                self.dupes_to_drops == o.dupes_to_drops,
                self.dupes_written == o.dupes_written,
                self.out_count == o.out_count,
                self.drop_next == o.drop_next,
                self.cursors@.len() == n,
                forall|t: int| i <= t < n ==> self.cursors@[t] == o.cursors@[t],
                forall|t: int| 0 <= t < i ==> self.cursors@[t] == o.cursor_after_skip(t),
                dupes@ == o.dupes_upto(i as int),
                should_write_dupe == exists|t: int|
                    0 <= t < i && #[trigger] o.is_dupe_at(t) && o.cursors@[t].dupe_count % 2
                        == o.dupes_written % 2,
                should_write_dupe ==> dupes@.len() >= 1,
                sum_cursors(self.cursors@, n as int) == sum_cursors(o.cursors@, n as int)
                    + dupes@.len(),
                forall|t: int|
                    0 <= t < n ==> (#[trigger] self.cursors@[t]).field_index
                        <= self.seq_nos@[t]@.len(),
                forall|t: int|
                    0 <= t < n ==> (#[trigger] self.cursors@[t]).dupe_count
                        <= self.cursors@[t].field_index + 1,
            decreases n - i,
        {
            let c: InputCursor = self.cursors[i];
            let row: &Vec<usize> = &self.seq_nos[i];
            proof {
                assert(c == o.cursors@[i as int]);
            }
            if c.field_index < row.len() && row[c.field_index] <= c.last_seq_no {
                proof {
                    assert(o.is_dupe_at(i as int));
                    assert(o.seq_nos@[i as int]@.len() <= 0x800_0000);
                }
                if c.dupe_count % 2 == self.dupes_written % 2 {
                    should_write_dupe = true;
                }
                let ghost pre_dupes: Seq<usize> = dupes@;
                let ghost pre_cursors: Seq<InputCursor> = self.cursors@;
                dupes.push(i);
                let nc = InputCursor {
                    field_index: c.field_index + 1,
                    dupe_count: c.dupe_count + 1,
                    last_seq_no: c.last_seq_no,
                };
                self.cursors.set(i, nc);
                proof {
                    lemma_sum_cursors_update(pre_cursors, i as int, nc, n as int);
                    assert(dupes@ =~= pre_dupes + seq![(i as usize)]);
                    assert(dupes@ =~= o.dupes_upto(i as int + 1));
                }
            } else {
                proof {
                    assert(!o.is_dupe_at(i as int));
                    assert(dupes@ =~= dupes@ + Seq::<usize>::empty());
                    assert(dupes@ =~= o.dupes_upto(i as int + 1));
                }
            }
            i = i + 1;
        }
        proof {
            assert(should_write_dupe == o.fresh_dupe());
            assert forall|t: int| 0 <= t < n implies self.cursors@[t] == o.cursor_after_skip(
                t,
            ) by {}
        }

        // An input may have been exhausted by the skipping itself.
        proof {
            assert forall|t: int| 0 <= t < n implies (#[trigger] o.cursors@[t]).field_index
                <= 0x800_0000 by {
                assert(o.seq_nos@[t]@.len() <= 0x800_0000);
            }
            lemma_sum_cursors_bound(o.cursors@, n as int, 0x800_0000);
            lemma_sum_cursors_nonneg(o.cursors@, n as int);
            assert(self.exhausted() == o.exhausted_after_skip()) by {
                if self.exhausted() {
                    let t = choose|t: int|
                        0 <= t < self.n() && (#[trigger] self.cursors@[t]).field_index
                            >= self.seq_nos@[t]@.len();
                    assert(self.cursors@[t] == o.cursor_after_skip(t));
                    assert(o.cursor_after_skip(t).field_index >= o.seq_nos@[t]@.len());
                }
                if o.exhausted_after_skip() {
                    let t = choose|t: int|
                        0 <= t < o.n() && (#[trigger] o.cursor_after_skip(t)).field_index
                            >= o.seq_nos@[t]@.len();
                    assert(self.cursors@[t].field_index >= self.seq_nos@[t]@.len());
                }
            }
            assert(self.well_formed()) by {
                assert(o.seq_nos@[0]@.len() <= 0x800_0000);
                assert(self.cursors@[0] == o.cursor_after_skip(0));
                assert(self.cursors@[0].field_index >= o.cursors@[0].field_index);
            }
        }
        if self.any_exhausted() {
            return SyncStep::Finished;
        }

        if should_write_dupe {
            self.dupes_written = self.dupes_written + 1;
            proof {
                assert(self.well_formed()) by {
                    assert(o.seq_nos@[0]@.len() <= 0x800_0000);
                    assert(self.cursors@[0] == o.cursor_after_skip(0));
                    assert(self.cursors@[0].field_index >= o.cursors@[0].field_index);
                }
            }
            if self.dupes_to_drops {
                self.drop_next = true;
                return SyncStep::Skipped { dupes };
            } else {
                self.out_count = self.out_count + 1;
                proof {
                    assert(self.well_formed()) by {
                        assert(o.seq_nos@[0]@.len() <= 0x800_0000);
                        assert(self.cursors@[0] == o.cursor_after_skip(0));
                        assert(self.cursors@[0].field_index >= o.cursors@[0].field_index);
                    }
                }
                return SyncStep::EmitDupe { dupes };
            }
        }

        // Fuse: record the source positions, advance every cursor and
        // remember each input's emitted sequence number.
        let ghost mid: Synchronizer = *self;
        proof {
            assert forall|t: int| 0 <= t < n implies (#[trigger] mid.seq_nos@[t])@.len()
                <= 0x800_0000 by {
                assert(mid.seq_nos@[t] == o.seq_nos@[t]);
                assert(o.seq_nos@[t]@.len() <= 0x800_0000);
            }
        }
        let mut sources: Vec<usize> = Vec::new();
        let mut i: usize = 0;
        while i < n
            invariant
                0 <= i <= n,
                n == mid.n(),
                n == o.n(),
                mid.cursors@.len() == n,
                self.seq_nos == mid.seq_nos,
                mid.seq_nos@.len() == n,
                self.max_fields == mid.max_fields,
                self.dupes_to_drops == mid.dupes_to_drops,
                self.dupes_written == mid.dupes_written,
                self.out_count == mid.out_count,
                self.drop_next == mid.drop_next,
                self.cursors@.len() == n,
                !mid.exhausted(),
                forall|t: int|
                    0 <= t < n ==> (#[trigger] mid.cursors@[t]).field_index
                        <= mid.seq_nos@[t]@.len(),
                forall|t: int| 0 <= t < n ==> (#[trigger] mid.seq_nos@[t])@.len()
                    <= 0x800_0000,
                forall|t: int|
                    0 <= t < n ==> (#[trigger] mid.cursors@[t]).dupe_count
                        <= mid.cursors@[t].field_index + 1,
                forall|t: int| i <= t < n ==> self.cursors@[t] == mid.cursors@[t],
                sources@.len() == i,
                forall|t: int|
                    0 <= t < i ==> (#[trigger] sources@[t]) == mid.cursors@[t].field_index,
                forall|t: int|
                    0 <= t < i ==> (#[trigger] self.cursors@[t]).field_index
                        == mid.cursors@[t].field_index + 1,
                forall|t: int|
                    0 <= t < i ==> (#[trigger] self.cursors@[t]).dupe_count
                        == mid.cursors@[t].dupe_count,
                forall|t: int|
                    0 <= t < i ==> (#[trigger] self.cursors@[t]).last_seq_no
                        == mid.seq_nos@[t]@[mid.cursors@[t].field_index as int],
                sum_cursors(self.cursors@, n as int) == sum_cursors(mid.cursors@, n as int)
                    + i,
            decreases n - i,
        {
            let c: InputCursor = self.cursors[i];
            let row: &Vec<usize> = &self.seq_nos[i];
            proof {
                assert(c == mid.cursors@[i as int]);
                assert(mid.cursors@[i as int].field_index < mid.seq_nos@[i as int]@.len());
                assert(mid.seq_nos@[i as int]@.len() <= 0x800_0000);
            }
            sources.push(c.field_index);
            let ghost pre_cursors: Seq<InputCursor> = self.cursors@;
            let nc = InputCursor {
                field_index: c.field_index + 1,
                dupe_count: c.dupe_count,
                last_seq_no: row[c.field_index],
            };
            self.cursors.set(i, nc);
            proof {
                lemma_sum_cursors_update(pre_cursors, i as int, nc, n as int);
            }
            i = i + 1;
        }
        let emit: bool = !self.drop_next;
        self.drop_next = false;
        if emit {
            self.out_count = self.out_count + 1;
        }
        proof {
            assert forall|t: int| 0 <= t < n implies (#[trigger] o.cursors@[t]).field_index
                <= 0x800_0000 by {
                assert(o.seq_nos@[t]@.len() <= 0x800_0000);
            }
            lemma_sum_cursors_bound(o.cursors@, n as int, 0x800_0000);
            lemma_sum_cursors_nonneg(o.cursors@, n as int);
            assert(self.well_formed()) by {
                assert(o.seq_nos@[0]@.len() <= 0x800_0000);
                assert(mid.cursors@[0] == o.cursor_after_skip(0));
                assert(self.cursors@[0].field_index >= mid.cursors@[0].field_index);
                assert(mid.cursors@[0].field_index >= o.cursors@[0].field_index);
            }
            assert(!o.exhausted_after_skip()) by {
                if o.exhausted_after_skip() {
                    let t = choose|t: int|
                        0 <= t < o.n() && (#[trigger] o.cursor_after_skip(t)).field_index
                            >= o.seq_nos@[t]@.len();
                    assert(mid.cursors@[t] == o.cursor_after_skip(t));
                }
            }
        }
        SyncStep::Fuse { emit, sources, dupes }
    }
}

} // verus!
