use tbc_stack::median::{batch_n, batch_n_range, median_vals};

fn median_ref(vals: &[u16]) -> u16 {
    let mut s: Vec<u16> = vals.to_vec();
    s.sort();
    let n = s.len();
    if n % 2 == 1 {
        s[n / 2]
    } else {
        ((s[n / 2 - 1] as u32 + s[n / 2] as u32 + 1) / 2) as u16
    }
}

#[test]
fn median_odd_is_middle_element() {
    assert_eq!(median_vals(&vec![5, 60000, 7]), 7);
    assert_eq!(median_vals(&vec![9, 9, 9]), 9);
    assert_eq!(median_vals(&vec![1, 2, 3, 4, 5]), 3);
    assert_eq!(median_vals(&vec![65535, 0, 65535, 0, 1, 2, 3]), 2);
}

#[test]
fn median_even_rounds_half_up() {
    // (2 + 3 + 1) / 2 = 3
    assert_eq!(median_vals(&vec![4, 1, 3, 2]), 3);
    // (1 + 2 + 1) / 2 = 2
    assert_eq!(median_vals(&vec![2, 1, 2, 1]), 2);
    // ties: (7 + 7 + 1) / 2 = 7
    assert_eq!(median_vals(&vec![7, 7, 0, 65535]), 7);
    // largest values do not overflow: (65534 + 65535 + 1) / 2 = 65535
    assert_eq!(median_vals(&vec![0, 65534, 65535, 65535]), 65535);
}

fn run_batch(inputs: &Vec<Vec<u16>>) -> (Vec<u16>, Vec<u64>) {
    let len = inputs[0].len();
    let mut out: Vec<u16> = vec![0; len];
    let mut sse: Vec<u64> = vec![0; inputs.len()];
    batch_n(&mut out, inputs, &mut sse);
    (out, sse)
}

#[test]
fn batch_identical_inputs_pass_through() {
    let plane: Vec<u16> = (0..64u16).map(|v| v * 100).collect();
    let inputs = vec![plane.clone(), plane.clone(), plane.clone()];
    let (out, sse) = run_batch(&inputs);
    assert_eq!(out, plane);
    assert_eq!(sse, vec![0, 0, 0]);
}

#[test]
fn batch_matches_scalar_reference_for_each_n() {
    // The batch kernel and the scalar per-tuple reference must agree
    // bit for bit, for every supported input count.
    for n in 3..=15usize {
        let len = 32usize;
        let mut inputs: Vec<Vec<u16>> = Vec::new();
        let mut seed: u32 = 0x1234_5678 ^ (n as u32);
        for _ in 0..n {
            let mut plane: Vec<u16> = Vec::new();
            for _ in 0..len {
                seed = seed.wrapping_mul(1664525).wrapping_add(1013904223);
                plane.push((seed >> 16) as u16);
            }
            inputs.push(plane);
        }
        let (out, sse) = run_batch(&inputs);
        let mut expect_sse = vec![0u64; n];
        for k in 0..len {
            let col: Vec<u16> = (0..n).map(|i| inputs[i][k]).collect();
            let m = median_ref(&col);
            assert_eq!(out[k], m, "n={} k={}", n, k);
            assert_eq!(out[k], median_vals(&col));
            for i in 0..n {
                let d = (m as i64) - (inputs[i][k] as i64);
                expect_sse[i] += (d * d) as u64;
            }
        }
        assert_eq!(sse, expect_sse, "n={}", n);
    }
}

#[test]
fn batch_adversarial_patterns() {
    // all-equal, strictly monotonic, and alternating-extreme inputs
    let len = 32usize;
    let equal: Vec<u16> = vec![4242; len];
    let rising: Vec<u16> = (0..len as u16).map(|v| v * 2048).collect();
    let extreme: Vec<u16> = (0..len).map(|k| if k % 2 == 0 { 0 } else { 65535 }).collect();
    for inputs in [
        vec![equal.clone(), equal.clone(), equal.clone()],
        vec![rising.clone(), rising.clone(), extreme.clone()],
        vec![extreme.clone(), rising.clone(), equal.clone(), rising.clone()],
    ] {
        let (out, sse) = run_batch(&inputs);
        let n = inputs.len();
        let mut expect_sse = vec![0u64; n];
        for k in 0..len {
            let col: Vec<u16> = (0..n).map(|i| inputs[i][k]).collect();
            let m = median_ref(&col);
            assert_eq!(out[k], m);
            for i in 0..n {
                let d = (m as i64) - (inputs[i][k] as i64);
                expect_sse[i] += (d * d) as u64;
            }
        }
        assert_eq!(sse, expect_sse);
    }
}

#[test]
fn sse_split_equals_full_range() {
    // Accumulating squared error over the two halves separately sums
    // to the same totals as one full-range accumulation.
    let len = 64usize;
    let a: Vec<u16> = (0..len as u16).map(|v| v * 7).collect();
    let b: Vec<u16> = (0..len as u16).map(|v| v * 7 + 30).collect();
    let c: Vec<u16> = (0..len as u16).map(|v| if v % 3 == 0 { 0 } else { v * 9 }).collect();
    let inputs = vec![a, b, c];

    let (_, sse_full) = run_batch(&inputs);

    let mut out: Vec<u16> = vec![0; len];
    let mut sse_acc: Vec<u64> = vec![0; 3];
    batch_n_range(&mut out, &inputs, 0, 32, &mut sse_acc);
    batch_n_range(&mut out, &inputs, 32, 64, &mut sse_acc);
    assert_eq!(sse_acc, sse_full);
}

#[test]
fn perturbed_sample_is_excluded_and_counted() {
    // One input's sample is perturbed by +1000: the median takes an
    // unperturbed value, and the perturbed input accumulates exactly
    // 1000^2 of squared error.
    let len = 32usize;
    let base: Vec<u16> = vec![1200; len];
    let mut perturbed = base.clone();
    perturbed[17] += 1000;
    let inputs = vec![base.clone(), perturbed, base.clone()];
    let (out, sse) = run_batch(&inputs);
    assert_eq!(out, base);
    assert_eq!(sse, vec![0, 1000 * 1000, 0]);
}
