use tbc_stack::sync::{SyncStep, Synchronizer};

fn run(seq_nos: Vec<Vec<usize>>, max_fields: usize, dupes_to_drops: bool) -> (usize, Vec<SyncStep>) {
    let n = seq_nos.len();
    let mut s = Synchronizer::new(seq_nos, vec![0; n], max_fields, dupes_to_drops);
    let mut steps = Vec::new();
    loop {
        let step = s.step();
        let done = matches!(step, SyncStep::Finished);
        steps.push(step);
        if done {
            break;
        }
    }
    (s.out_count, steps)
}

fn emitted(steps: &[SyncStep]) -> usize {
    steps
        .iter()
        .filter(|s| match s {
            SyncStep::EmitDupe { .. } => true,
            SyncStep::Fuse { emit, .. } => *emit,
            _ => false,
        })
        .count()
}

#[test]
fn clean_streams_emit_every_field() {
    let seqs = vec![
        (1..=6).collect::<Vec<usize>>(),
        (1..=6).collect(),
        (1..=6).collect(),
    ];
    let (out, steps) = run(seqs, 0, false);
    assert_eq!(out, 6);
    assert_eq!(emitted(&steps), 6);
    for st in &steps[..6] {
        match st {
            SyncStep::Fuse { emit, sources, dupes } => {
                assert!(emit);
                assert_eq!(sources.len(), 3);
                assert!(dupes.is_empty());
            }
            other => panic!("expected a fused field, got {:?}", other),
        }
    }
}

#[test]
fn duplicate_converted_to_drop_suppresses_next_field() {
    // Stream 2 (index 1) repeats one field.  With duplicate-to-drop
    // conversion the duplicate is detected, the dropped field's
    // successor is suppressed too, and the run emits exactly one
    // field fewer than a run over clean streams of the same content.
    let with_dupe = vec![
        (1..=6).collect::<Vec<usize>>(),
        vec![1, 2, 3, 3, 4, 5, 6],
        (1..=6).collect(),
    ];
    let clean = vec![
        (1..=6).collect::<Vec<usize>>(),
        (1..=6).collect(),
        (1..=6).collect(),
    ];
    let (clean_out, _) = run(clean, 0, true);
    assert_eq!(clean_out, 6);

    let (out, steps) = run(with_dupe, 0, true);
    assert_eq!(out, clean_out - 1);

    // fused, fused, fused, skipped (dupe in input 1), suppressed,
    // fused, fused, finished
    match &steps[3] {
        SyncStep::Skipped { dupes } => assert_eq!(dupes, &vec![1]),
        other => panic!("expected the duplicate to be skipped, got {:?}", other),
    }
    match &steps[4] {
        SyncStep::Fuse { emit, .. } => assert!(!emit, "field after the drop must be suppressed"),
        other => panic!("expected a suppressed fusion, got {:?}", other),
    }
    assert_eq!(emitted(&steps), 5);
}

#[test]
fn duplicate_without_conversion_is_written_out() {
    let with_dupe = vec![
        (1..=6).collect::<Vec<usize>>(),
        vec![1, 2, 3, 3, 4, 5, 6],
        (1..=6).collect(),
    ];
    let (out, steps) = run(with_dupe, 0, false);
    // three fused fields, the duplicate written again, then the three
    // remaining fields
    assert_eq!(out, 7);
    match &steps[3] {
        SyncStep::EmitDupe { dupes } => assert_eq!(dupes, &vec![1]),
        other => panic!("expected the duplicate to be emitted, got {:?}", other),
    }
}

#[test]
fn field_cap_stops_the_run() {
    let seqs = vec![
        (1..=6).collect::<Vec<usize>>(),
        (1..=6).collect(),
        (1..=6).collect(),
    ];
    let (out, steps) = run(seqs, 2, false);
    assert_eq!(out, 2);
    assert_eq!(steps.len(), 3);
    assert!(matches!(steps[2], SyncStep::Finished));
}

#[test]
fn exhaustion_by_duplicate_skipping() {
    // The trailing field of input 1 is a duplicate; skipping it
    // exhausts that input before anything can be fused.
    let seqs = vec![
        (1..=4).collect::<Vec<usize>>(),
        vec![1, 2, 3, 3],
        (1..=4).collect(),
    ];
    let (out, steps) = run(seqs, 0, false);
    assert_eq!(out, 3);
    assert!(matches!(steps[3], SyncStep::Finished));
}

#[test]
fn start_offsets_shift_sources() {
    let seqs = vec![
        (1..=6).collect::<Vec<usize>>(),
        (1..=6).collect(),
        (1..=6).collect(),
    ];
    let mut s = Synchronizer::new(seqs, vec![0, 1, 2], 0, false);
    match s.step() {
        SyncStep::Fuse { emit, sources, .. } => {
            assert!(emit);
            assert_eq!(sources, vec![0, 1, 2]);
        }
        other => panic!("expected a fused field, got {:?}", other),
    }
    // the run ends when the most-shifted input runs out
    let mut out = 1;
    loop {
        match s.step() {
            SyncStep::Finished => break,
            SyncStep::Fuse { emit: true, .. } => out += 1,
            _ => {}
        }
    }
    assert_eq!(out, 4);
}

#[test]
fn empty_stream_finishes_immediately() {
    let seqs = vec![vec![], (1..=6).collect::<Vec<usize>>(), (1..=6).collect()];
    let (out, steps) = run(seqs, 0, false);
    assert_eq!(out, 0);
    assert_eq!(steps.len(), 1);
    assert!(matches!(steps[0], SyncStep::Finished));
}
