use tbc_stack::dropout::DropOuts;
use tbc_stack::metrics::{constants_for, region_sums, update_bad_streaks, System,
    RMSE_WARN_THRESHOLD};
use tbc_stack::pipeline::{finalize_fields, process_field, Field};
use tbc_stack::sync::{SyncStep, Synchronizer};

#[test]
fn system_constants_are_exact() {
    let pal = constants_for(System::Pal);
    assert_eq!(pal.black_start_sample, 24048);
    assert_eq!(pal.black_end_sample, 24928);
    assert_eq!(pal.useful_start_sample, 61312);
    assert_eq!(pal.useful_end_sample, 258752);
    let ntsc = constants_for(System::Ntsc);
    assert_eq!(ntsc.black_start_sample, 144);
    assert_eq!(ntsc.black_end_sample, 432);
    assert_eq!(ntsc.useful_start_sample, 27328);
    assert_eq!(ntsc.useful_end_sample, 209280);
    // PAL-M runs on the NTSC timing constants
    assert_eq!(constants_for(System::PalM), ntsc);
}

#[test]
fn region_sums_are_exact() {
    let field: Vec<u16> = vec![3, 1, 4, 1, 5, 9, 2, 6];
    let (sum, sum_sq) = region_sums(&field, 2, 6);
    assert_eq!(sum, 4 + 1 + 5 + 9);
    assert_eq!(sum_sq, 16 + 1 + 25 + 81);
    let (zero, zero_sq) = region_sums(&field, 3, 3);
    assert_eq!(zero, 0);
    assert_eq!(zero_sq, 0);
}

#[test]
fn bad_streaks_count_reset_and_warn() {
    assert_eq!(RMSE_WARN_THRESHOLD, 30);
    let mut streaks: Vec<usize> = vec![29, 0, 4];
    let warns = update_bad_streaks(&mut streaks, &vec![true, true, false]);
    assert_eq!(streaks, vec![30, 1, 0]);
    // input 0 just completed a full run of 30 suspect fields
    assert_eq!(warns, vec![true, false, false]);
    // a warning repeats at every positive multiple of the run length
    let mut streaks2: Vec<usize> = vec![59];
    let warns2 = update_bad_streaks(&mut streaks2, &vec![true]);
    assert_eq!(streaks2, vec![60]);
    assert_eq!(warns2, vec![true]);
}

fn pal_plane(len: usize) -> Vec<u16> {
    (0..len).map(|k| (((k * 37) ^ (k >> 3)) & 0xffff) as u16).collect()
}

#[test]
fn identical_pal_inputs_come_back_untouched() {
    // Three PAL inputs, 64 fields each, 928 x 312 samples per field,
    // bit-identical samples, no dropouts, no duplicates: 64 output
    // fields, no consensus dropouts, zero squared error everywhere
    // (the RMSE metric at its ceiling), fused planes identical to the
    // inputs.
    let width = 928usize;
    let height = 312usize;
    let len = width * height;
    assert_eq!(len % 32, 0);
    let consts = constants_for(System::Pal);

    let luma = pal_plane(len);
    let chroma: Vec<u16> = luma.iter().map(|v| v ^ 0x00ff).collect();
    let in_luma = vec![luma.clone(), luma.clone(), luma.clone()];
    let in_chroma = vec![chroma.clone(), chroma.clone(), chroma.clone()];
    let no_dropouts = vec![DropOuts::empty(), DropOuts::empty(), DropOuts::empty()];

    let field_count = 64usize;
    let seqs: Vec<Vec<usize>> = vec![(1..=field_count).collect(); 3];
    let mut sync = Synchronizer::new(seqs, vec![0, 0, 0], 0, true);

    let mut out_fields: Vec<Field> = Vec::new();
    loop {
        match sync.step() {
            SyncStep::Finished => break,
            SyncStep::Fuse { emit, sources, dupes } => {
                assert!(emit);
                assert!(dupes.is_empty());
                assert_eq!(sources.len(), 3);
                let fused = process_field(
                    &in_luma, &in_chroma, &no_dropouts, &consts, width, height, 2,
                );
                assert_eq!(fused.luma, luma);
                assert_eq!(fused.chroma, chroma);
                assert_eq!(fused.sse_luma, vec![0, 0, 0]);
                assert_eq!(fused.sse_luma_edge, vec![0, 0, 0]);
                assert_eq!(fused.sse_chroma, vec![0, 0, 0]);
                assert!(fused.drop_outs.is_none());
                out_fields.push(Field {
                    is_first_field: false,
                    seq_no: 0,
                    drop_outs: fused.drop_outs,
                });
            }
            other => panic!("unexpected synchronizer decision: {:?}", other),
        }
    }
    assert_eq!(out_fields.len(), field_count);

    let finalized = finalize_fields(out_fields);
    assert_eq!(finalized.len(), field_count);
    for (k, f) in finalized.iter().enumerate() {
        assert_eq!(f.is_first_field, k % 2 == 0);
        assert_eq!(f.seq_no, k + 1);
        assert!(f.drop_outs.is_none());
    }
}

#[test]
fn perturbed_pal_sample_is_outvoted() {
    // One input's luma sample inside the useful region is perturbed
    // by +1000: the fused sample takes the unperturbed value and that
    // input's useful-region squared error is exactly 1000^2.
    let width = 928usize;
    let height = 312usize;
    let len = width * height;
    let consts = constants_for(System::Pal);
    let offset = consts.useful_start_sample + 12345;
    assert!(offset < consts.useful_end_sample);

    let luma = pal_plane(len);
    let mut perturbed = luma.clone();
    assert!(perturbed[offset] <= u16::MAX - 1000);
    perturbed[offset] += 1000;
    let chroma: Vec<u16> = vec![100; len];
    let in_luma = vec![luma.clone(), perturbed, luma.clone()];
    let in_chroma = vec![chroma.clone(), chroma.clone(), chroma.clone()];
    let no_dropouts = vec![DropOuts::empty(), DropOuts::empty(), DropOuts::empty()];

    let fused = process_field(&in_luma, &in_chroma, &no_dropouts, &consts, width, height, 2);
    assert_eq!(fused.luma, luma);
    assert_eq!(fused.sse_luma, vec![0, 1000 * 1000, 0]);
    assert_eq!(fused.sse_luma_edge, vec![0, 0, 0]);
    assert_eq!(fused.sse_chroma, vec![0, 0, 0]);
}

#[test]
fn black_region_sums_and_dropout_propagation() {
    // A small synthetic geometry: the black region sums are exact and
    // the consensus dropouts reach the output record.
    let width = 8usize;
    let height = 4usize;
    let len = width * height;
    let consts = tbc_stack::metrics::SystemConstants {
        black_start_sample: 0,
        black_end_sample: 8,
        useful_start_sample: 0,
        useful_end_sample: 32,
    };
    let a: Vec<u16> = (0..len as u16).collect();
    let b: Vec<u16> = (0..len as u16).map(|v| v + 2).collect();
    let in_luma = vec![a.clone(), a.clone(), b.clone()];
    let in_chroma = vec![a.clone(), a.clone(), a.clone()];
    let mut d0 = DropOuts::empty();
    d0.push(1, 2, 5);
    let mut d1 = DropOuts::empty();
    d1.push(1, 3, 6);
    let dropouts = vec![d0, d1, DropOuts::empty()];

    let fused = process_field(&in_luma, &in_chroma, &dropouts, &consts, width, height, 2);
    // median of (v, v, v + 2) is v
    assert_eq!(fused.luma, a);
    assert_eq!(fused.black_sum, (0..8u64).sum::<u64>());
    assert_eq!(fused.black_sum_sq, (0..8u64).map(|v| v * v).sum::<u64>());
    // input 2 differs by 2 at each of the 32 samples
    assert_eq!(fused.sse_luma, vec![0, 0, 4 * 32]);
    // spans [2,5) and [3,6) on line 1 with quorum 2 leave [3,5)
    let d = fused.drop_outs.expect("consensus dropouts expected");
    assert_eq!(d.field_line, vec![1]);
    assert_eq!(d.startx, vec![3]);
    assert_eq!(d.endx, vec![5]);
}
