use tbc_stack::dropout::{merge_dropouts, DropOuts};

fn spans(d: &DropOuts) -> Vec<(usize, usize, usize)> {
    (0..d.field_line.len())
        .map(|j| (d.field_line[j], d.startx[j], d.endx[j]))
        .collect()
}

fn dropouts(list: &[(usize, usize, usize)]) -> DropOuts {
    let mut d = DropOuts::empty();
    for &(l, s, e) in list {
        d.push(l, s, e);
    }
    d
}

#[test]
fn coinciding_spans_union_and_intersection() {
    // All three inputs contribute the same span.  With quorum 1 the
    // union comes back; with quorum 3 (all inputs) the intersection,
    // which is the same span; with a quorum above the input count the
    // output is empty.
    let inputs = vec![
        dropouts(&[(2, 10, 20)]),
        dropouts(&[(2, 10, 20)]),
        dropouts(&[(2, 10, 20)]),
    ];
    let r1 = merge_dropouts(&inputs, 100, 10, 1);
    assert_eq!(spans(&r1), vec![(2, 10, 20)]);
    let r3 = merge_dropouts(&inputs, 100, 10, 3);
    assert_eq!(spans(&r3), vec![(2, 10, 20)]);
    let r4 = merge_dropouts(&inputs, 100, 10, 4);
    assert_eq!(spans(&r4), vec![]);
}

#[test]
fn quorum_two_keeps_doubly_covered_offsets() {
    let inputs = vec![
        dropouts(&[(0, 10, 20)]),
        dropouts(&[(0, 15, 25)]),
        dropouts(&[(0, 18, 30)]),
    ];
    // coverage depth: [10,15): 1, [15,18): 2, [18,20): 3, [20,25): 2,
    // [25,30): 1 -- offsets with depth >= 2 form [15,25)
    let r = merge_dropouts(&inputs, 100, 10, 2);
    assert_eq!(spans(&r), vec![(0, 15, 25)]);
}

#[test]
fn union_of_disjoint_spans() {
    let inputs = vec![
        dropouts(&[(1, 5, 9)]),
        dropouts(&[(3, 40, 50)]),
        dropouts(&[]),
    ];
    let r = merge_dropouts(&inputs, 100, 10, 1);
    assert_eq!(spans(&r), vec![(1, 5, 9), (3, 40, 50)]);
}

#[test]
fn abutting_spans_merge_into_one() {
    // Starts sort before ends at equal offsets, so two touching
    // consensus runs come back as a single span.
    let inputs = vec![
        dropouts(&[(0, 5, 10)]),
        dropouts(&[(0, 10, 15)]),
        dropouts(&[]),
    ];
    let r = merge_dropouts(&inputs, 100, 10, 1);
    assert_eq!(spans(&r), vec![(0, 5, 15)]);
}

#[test]
fn invalid_spans_are_discarded() {
    // A span on a line outside the field and an empty span contribute
    // nothing.
    let inputs = vec![
        dropouts(&[(10, 0, 5), (0, 3, 3)]),
        dropouts(&[(0, 1, 4)]),
        dropouts(&[]),
    ];
    let r = merge_dropouts(&inputs, 100, 10, 1);
    assert_eq!(spans(&r), vec![(0, 1, 4)]);
    let r2 = merge_dropouts(&inputs, 100, 10, 2);
    assert_eq!(spans(&r2), vec![]);
}

#[test]
fn span_crossing_line_width_round_trips() {
    // x coordinates past the line width spill into following lines
    // and survive the offset round trip unchanged.
    let inputs = vec![
        dropouts(&[(2, 90, 150)]),
        dropouts(&[(2, 90, 150)]),
        dropouts(&[(2, 90, 150)]),
    ];
    let r = merge_dropouts(&inputs, 100, 10, 2);
    assert_eq!(spans(&r), vec![(2, 90, 150)]);
}

#[test]
fn merge_is_idempotent_on_its_output() {
    let inputs = vec![
        dropouts(&[(0, 10, 20), (1, 0, 4)]),
        dropouts(&[(0, 15, 25)]),
        dropouts(&[(0, 18, 30), (1, 2, 6)]),
    ];
    let once = merge_dropouts(&inputs, 100, 10, 2);
    let again = merge_dropouts(&vec![once.duplicate()], 100, 10, 1);
    assert_eq!(spans(&again), spans(&once));
}

#[test]
fn no_spans_gives_no_consensus() {
    let inputs = vec![dropouts(&[]), dropouts(&[]), dropouts(&[])];
    let r = merge_dropouts(&inputs, 100, 10, 1);
    assert_eq!(spans(&r), vec![]);
}
