use spectral_landmarks::feature::{ContractViolation, FeatureFinder, FrequencyFeature};
use spectral_landmarks::spectral::{FrequencyBin, Wavelet};

fn frame(amplitudes: &[u64]) -> Wavelet {
    Wavelet {
        bins: amplitudes
            .iter()
            .enumerate()
            .map(|(k, a)| FrequencyBin { amplitude: *a, frequency: 100 * (k as u64 + 1) })
            .collect(),
    }
}

fn run(bins: usize, t_span: usize, steps: &[Vec<u64>]) -> Vec<Vec<FrequencyFeature>> {
    let mut d = FeatureFinder::new(bins, t_span).unwrap();
    steps.iter().map(|s| d.process(frame(s)).unwrap()).collect()
}

/// Landmarks by brute force: keep every sample, and at each step look at the
/// last 2 * t_span of them, sentinels standing in for steps not yet taken.
fn oracle(bins: usize, t_span: usize, steps: &[Vec<u64>]) -> Vec<Vec<FrequencyFeature>> {
    let w = 2 * t_span;
    let mut out = Vec::new();
    for t in 1..=steps.len() {
        let mut found = Vec::new();
        for i in 0..bins {
            let mut window = Vec::new();
            for j in 0..w {
                let step = t as i64 - w as i64 + 1 + j as i64;
                if step >= 1 {
                    let s = step as usize;
                    window.push(FrequencyFeature {
                        time: s,
                        bin_index: i,
                        frequency: 100 * (i as u64 + 1),
                        amplitude: steps[s - 1][i],
                    });
                } else {
                    window.push(FrequencyFeature { time: 0, bin_index: i, frequency: 0, amplitude: 0 });
                }
            }
            let mut best = window[0];
            for f in &window {
                if f.amplitude > best.amplitude {
                    best = *f;
                }
            }
            if t >= t_span && best.time == t - t_span {
                found.push(best);
            }
        }
        out.push(found);
    }
    out
}

fn pseudo_random_steps(bins: usize, n: usize, seed: u64, range: u64) -> Vec<Vec<u64>> {
    let mut x = seed;
    (0..n)
        .map(|_| {
            (0..bins)
                .map(|_| {
                    x = x.wrapping_mul(6364136223846793005).wrapping_add(1442695040888963407);
                    (x >> 33) % range
                })
                .collect()
        })
        .collect()
}

#[test]
fn worked_example_single_bin() {
    let steps: Vec<Vec<u64>> = [1, 5, 1, 1, 1, 1].iter().map(|a| vec![*a]).collect();
    let out = run(1, 2, &steps);
    for (k, found) in out.iter().enumerate() {
        let t = k + 1;
        if t == 4 {
            assert_eq!(found.len(), 1);
            assert_eq!(found[0].time, 2);
            assert_eq!(found[0].bin_index, 0);
            assert_eq!(found[0].amplitude, 5);
            assert_eq!(found[0].frequency, 100);
        } else {
            assert!(found.is_empty(), "unexpected landmark at step {}", t);
        }
    }
}

#[test]
fn new_refuses_zero_bins() {
    assert!(matches!(FeatureFinder::new(0, 3), Err(ContractViolation::ZeroBinCount)));
}

#[test]
fn new_refuses_zero_time_span() {
    assert!(matches!(FeatureFinder::new(4, 0), Err(ContractViolation::ZeroTimeSpan)));
}

#[test]
fn process_refuses_wrong_bin_count_and_keeps_state() {
    let mut d = FeatureFinder::new(2, 1).unwrap();
    assert!(d.process(frame(&[3, 1])).unwrap().is_empty());
    match d.process(frame(&[1, 2, 3])) {
        Err(ContractViolation::BinCountMismatch { expected, found }) => {
            assert_eq!(expected, 2);
            assert_eq!(found, 3);
        }
        other => panic!("expected a mismatch, got {:?}", other),
    }
    // The refused frame took no step: step 2 confirms step 1's maxima.
    let out = d.process(frame(&[1, 0])).unwrap();
    assert_eq!(out.len(), 2);
    assert_eq!(out[0].time, 1);
    assert_eq!(out[0].amplitude, 3);
    assert_eq!(out[1].time, 1);
    assert_eq!(out[1].amplitude, 1);
}

#[test]
fn silent_stream_reports_the_sentinel_once() {
    let steps = vec![vec![0u64]; 6];
    let out = run(1, 2, &steps);
    assert!(out[0].is_empty());
    assert_eq!(out[1], vec![FrequencyFeature { time: 0, bin_index: 0, frequency: 0, amplitude: 0 }]);
    for found in &out[2..] {
        assert!(found.is_empty());
    }
}

#[test]
fn matches_brute_force_oracle() {
    for (bins, t_span, range, seed) in [(1, 1, 4, 1), (3, 2, 5, 7), (5, 3, 3, 11), (4, 4, 100, 5)] {
        let steps = pseudo_random_steps(bins, 60, seed, range);
        assert_eq!(run(bins, t_span, &steps), oracle(bins, t_span, &steps));
    }
}

#[test]
fn equal_detectors_agree() {
    let steps = pseudo_random_steps(6, 80, 3, 7);
    assert_eq!(run(6, 3, &steps), run(6, 3, &steps));
}

#[test]
fn landmarks_come_with_fixed_latency_once() {
    let (bins, t_span) = (4, 3);
    let steps = pseudo_random_steps(bins, 100, 9, 6);
    let out = run(bins, t_span, &steps);
    let mut seen = std::collections::HashSet::new();
    for (k, found) in out.iter().enumerate() {
        let t = k + 1;
        for pair in found.windows(2) {
            assert!(pair[0].bin_index < pair[1].bin_index);
        }
        for l in found {
            assert_eq!(l.time + t_span, t);
            assert!(seen.insert((l.time, l.bin_index)));
        }
    }
}

#[test]
fn landmarks_are_local_maxima() {
    let (bins, t_span) = (3, 2);
    let steps = pseudo_random_steps(bins, 80, 21, 9);
    let out = run(bins, t_span, &steps);
    for found in &out {
        for l in found {
            if l.time == 0 {
                continue;
            }
            let lo = if l.time > t_span { l.time - t_span + 1 } else { 1 };
            let hi = (l.time + t_span).min(steps.len());
            for s in lo..=hi {
                let a = steps[s - 1][l.bin_index];
                assert!(a <= l.amplitude);
                if s < l.time {
                    assert!(a < l.amplitude);
                }
            }
        }
    }
}

#[test]
fn earlier_equal_maximum_wins() {
    let steps: Vec<Vec<u64>> = [2, 4, 4, 1, 1, 1, 1].iter().map(|a| vec![*a]).collect();
    let out = run(1, 2, &steps);
    // Step 2's 4 is confirmed on step 4; step 3's equal 4 is never a landmark.
    assert_eq!(out[3].len(), 1);
    assert_eq!(out[3][0].time, 2);
    assert_eq!(out[3][0].amplitude, 4);
    for found in &out {
        assert!(found.iter().all(|l| l.time != 3));
    }
}
