use spectral_landmarks::spectral::{FrequencyBin, Wavelet};

fn bins(pairs: &[(u64, u64)]) -> Vec<FrequencyBin> {
    pairs.iter().map(|(a, f)| FrequencyBin { amplitude: *a, frequency: *f }).collect()
}

#[test]
fn empty_frame_is_all_zero() {
    let w = Wavelet::empty(5);
    assert_eq!(w.bins.len(), 5);
    assert!(w.bins.iter().all(|b| b.amplitude == 0 && b.frequency == 0));
    assert!(Wavelet::empty(0).bins.is_empty());
}

#[test]
fn dominant_frequency_of_silence_is_zero() {
    assert_eq!(Wavelet::empty(8).base_freq(), 0);
    let w = Wavelet { bins: bins(&[(0, 100), (0, 200)]) };
    assert_eq!(w.base_freq(), 0);
}

#[test]
fn dominant_frequency_of_single_sounding_bin() {
    let w = Wavelet { bins: bins(&[(0, 100), (0, 200), (7, 300), (0, 400)]) };
    assert_eq!(w.base_freq(), 300);
}

#[test]
fn dominant_frequency_first_of_equals_wins() {
    let w = Wavelet { bins: bins(&[(1, 100), (9, 200), (3, 300), (9, 400)]) };
    assert_eq!(w.base_freq(), 200);
}

#[test]
fn shift_by_one_is_identity() {
    let src = bins(&[(1, 100), (5, 200), (0, 300), (2, 400)]);
    for factor in [1u64, 7, 1000] {
        let mut w = Wavelet { bins: src.clone() };
        w.pitch_shift(factor, factor);
        assert_eq!(w.bins, src);
    }
}

#[test]
fn shift_down_sums_amplitude_and_keeps_last_frequency() {
    let mut w = Wavelet { bins: bins(&[(1, 100), (2, 200), (3, 300), (4, 400), (5, 500)]) };
    w.pitch_shift(1, 2);
    // Bins 0 and 1 land on 0, 2 and 3 on 1, 4 on 2.
    assert_eq!(w.bins, bins(&[(3, 100), (7, 200), (5, 250), (0, 0), (0, 0)]));
}

#[test]
fn shift_up_drops_what_falls_off_the_end() {
    let mut w = Wavelet { bins: bins(&[(1, 100), (2, 200), (3, 300), (4, 400)]) };
    w.pitch_shift(2, 1);
    assert_eq!(w.bins, bins(&[(1, 200), (0, 0), (2, 400), (0, 0)]));
}

#[test]
fn shift_by_fraction_rounds_targets_down() {
    let mut w = Wavelet { bins: bins(&[(1, 10), (1, 20), (1, 30), (1, 40)]) };
    w.pitch_shift(3, 2);
    // Targets: 0, 1, 3, 4 (dropped); frequencies scaled by 3/2, rounded down.
    assert_eq!(w.bins, bins(&[(1, 15), (1, 30), (0, 0), (1, 45)]));
}
