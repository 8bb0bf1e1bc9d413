use spectral_entropy::spectrum::{
    compare_by_mz_with_zero_intensity, peaks_from_interleaved,
    sort_spectrum_by_mz_and_zero_intensity, Peak,
};

fn pk(mz: i64, intensity: i64) -> Peak {
    Peak { mz, intensity }
}

// m/z values are in micro-Daltons, raw intensities in millionths of the
// original test's float units; normalized intensities are in units of
// 2^20 (`INTENSITY_ONE`).
fn raw_spectrum() -> Vec<Peak> {
    let flat: Vec<i64> = vec![
        41_040_000,
        371_600,
        0,
        371_600,
        69_070_000,
        7_917_962,
        69_070_000,
        -7_917_962,
        69_071_000,
        100_000_000,
        86_096_900,
        66_830_000,
        86_010_000,
        10_000_000,
    ];
    peaks_from_interleaved(&flat).unwrap()
}

#[test]
fn it_works() {
    let spectrum_2d = raw_spectrum();
    let cleaned = spectral_entropy::cleaner::clean_spectrum(
        spectrum_2d,
        0,
        0,
        10_000,
        20_000,
        0,
        0,
        true,
    );
    // The zero-m/z and negative-intensity peaks are dropped, the two peaks
    // around 69.07 merge into an intensity-weighted centroid, the small
    // 41.04 peak falls under 1% of the maximum, and the intensities are
    // normalized.
    assert_eq!(cleaned.len(), 3);
    assert_eq!(cleaned[0], pk(69_070_926, 612_511));
    assert_eq!(cleaned[1], pk(86_010_000, 56_757));
    assert_eq!(cleaned[2], pk(86_096_900, 379_307));
    let total: i64 = cleaned.iter().map(|p| p.intensity).sum();
    assert_eq!(total, 1_048_575);
}

#[test]
fn entropy_similarity() {
    let mut a = raw_spectrum();
    let mut b = raw_spectrum();
    let score = spectral_entropy::entropy::calculate_unweighted_entropy_similarity(
        &mut a,
        &mut b,
        20_000,
        -1,
        true,
        -1_000_000,
        -1_000_000,
        10_000,
        0,
    );
    // Cleaning rounds the normalized total down to 2^20 - 1, and a spectrum
    // matched against its own copy scores its total intensity.
    assert_eq!(score, 1_048_575);
    assert_eq!(a.len(), 3);
    assert_eq!(a[0], pk(69_070_926, 612_511));
    assert_eq!(a, b);
}

#[test]
fn interleaved_rejects_odd_length() {
    let flat: Vec<i64> = vec![100, 200, 300];
    assert!(peaks_from_interleaved(&flat).is_none());
    let flat2: Vec<i64> = vec![100, 200];
    let peaks = peaks_from_interleaved(&flat2).unwrap();
    assert_eq!(peaks, vec![pk(100, 200)]);
}

#[test]
fn comparator_orders_valid_before_invalid() {
    assert_eq!(compare_by_mz_with_zero_intensity(&pk(500, 1), &pk(100, 0)), -1);
    assert_eq!(compare_by_mz_with_zero_intensity(&pk(500, 0), &pk(100, 1)), 1);
    assert_eq!(compare_by_mz_with_zero_intensity(&pk(100, 5), &pk(200, 5)), -1);
    assert_eq!(compare_by_mz_with_zero_intensity(&pk(300, 5), &pk(200, 5)), 1);
    assert_eq!(compare_by_mz_with_zero_intensity(&pk(200, 5), &pk(200, 7)), 0);
    assert_eq!(compare_by_mz_with_zero_intensity(&pk(200, -1), &pk(200, 0)), 0);
}

#[test]
fn canonicalization_sorts_and_trims() {
    let s = vec![pk(300, 5), pk(100, 0), pk(200, 7), pk(50, -3), pk(150, 2)];
    let c = sort_spectrum_by_mz_and_zero_intensity(s);
    assert_eq!(c, vec![pk(150, 2), pk(200, 7), pk(300, 5)]);
}

#[test]
fn canonicalization_is_idempotent() {
    let s = vec![pk(100, 3), pk(100, 9), pk(250, 1)];
    let once = sort_spectrum_by_mz_and_zero_intensity(s);
    let twice = sort_spectrum_by_mz_and_zero_intensity(once.clone());
    assert_eq!(once, twice);
    assert_eq!(once, vec![pk(100, 3), pk(100, 9), pk(250, 1)]);
}
