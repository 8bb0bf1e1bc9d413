use spectral_entropy::centroid::{calculate_spectrum_argsort, centroid_spectrum, need_centroid};
use spectral_entropy::cleaner::clean_spectrum;
use spectral_entropy::entropy::{calculate_unweighted_entropy_similarity, log2_fixed};
use spectral_entropy::spectrum::Peak;

fn pk(mz: i64, intensity: i64) -> Peak {
    Peak { mz, intensity }
}

#[test]
fn need_centroid_small_spectra() {
    let empty: Vec<Peak> = Vec::new();
    assert!(!need_centroid(&empty, 20_000, 0));
    let single = vec![pk(1_000_000, 5)];
    assert!(!need_centroid(&single, 20_000, 0));
}

#[test]
fn need_centroid_strict_threshold() {
    // The gap equal to the tolerance does not trigger centroiding.
    let s = vec![pk(1_000_000, 5), pk(1_001_000, 7)];
    assert!(!need_centroid(&s, 1_000, 0));
    assert!(need_centroid(&s, 1_001, 0));
}

#[test]
fn need_centroid_ppm_mode() {
    // Relative tolerance scales with the right neighbor's m/z: ten parts
    // per million of 1.000008e6 is ten units.
    let s = vec![pk(1_000_000, 5), pk(1_000_008, 7)];
    assert!(need_centroid(&s, 0, 10));
    let far = vec![pk(1_000_000, 5), pk(1_000_012, 7)];
    assert!(!need_centroid(&far, 0, 10));
}

#[test]
fn argsort_descends_by_intensity() {
    let s = vec![pk(10, 5), pk(20, 9), pk(30, 5), pk(40, 1)];
    let order = calculate_spectrum_argsort(&s);
    assert_eq!(order, vec![1usize, 0, 2, 3]);
}

#[test]
fn centroid_conserves_intensity() {
    // Two close peaks merge into their intensity-weighted centroid; the
    // total intensity is unchanged.
    let s = vec![pk(1_000_000, 5_000), pk(1_000_500, 3_000), pk(2_000_000, 7_000)];
    let before: i64 = s.iter().map(|p| p.intensity).sum();
    let out = centroid_spectrum(s, 1_000, 0);
    let after: i64 = out.iter().map(|p| p.intensity).sum();
    assert_eq!(before, after);
    assert_eq!(out, vec![pk(1_000_187, 8_000), pk(2_000_000, 7_000)]);
}

#[test]
fn clean_caps_peaks_by_intensity() {
    let raw = vec![
        pk(41_040_000, 371_600),
        pk(0, 371_600),
        pk(69_070_000, 7_917_962),
        pk(69_070_000, -7_917_962),
        pk(69_071_000, 100_000_000),
        pk(86_096_900, 66_830_000),
        pk(86_010_000, 10_000_000),
    ];
    // With a cap of two, exactly the two highest-intensity peaks remain,
    // back in ascending m/z order.
    let out = clean_spectrum(raw, 0, 0, 0, 20_000, 0, 2, false);
    assert_eq!(out, vec![pk(69_070_926, 107_917_962), pk(86_096_900, 66_830_000)]);
}

#[test]
fn clean_normalization_sums_to_one() {
    let raw = vec![pk(1_000_000, 7), pk(5_000_000, 13), pk(9_000_000, 40)];
    let out = clean_spectrum(raw, 0, 0, 0, 1_000, 0, 0, true);
    assert_eq!(out.len(), 3);
    let total: i64 = out.iter().map(|p| p.intensity).sum();
    // The normalized total is 2^20, short by less than one unit per peak
    // from rounding down.
    assert!(total <= 1_048_576);
    assert!(total > 1_048_576 - 3);
}

#[test]
fn clean_mz_window() {
    let raw = vec![pk(100, 5), pk(200, 5), pk(300, 5), pk(400, 5)];
    // Lower bound is exclusive, upper bound is exclusive, and a negative
    // lower bound clamps to zero.
    let out = clean_spectrum(raw.clone(), 200, 400, 0, 0, 0, 0, false);
    assert_eq!(out, vec![pk(300, 5)]);
    let all = clean_spectrum(raw, -50, 0, 0, 0, 0, 0, false);
    assert_eq!(all.len(), 4);
}

#[test]
fn clean_twice_is_stable() {
    let raw = vec![
        pk(41_040_000, 371_600),
        pk(69_070_000, 7_917_962),
        pk(69_071_000, 100_000_000),
        pk(86_096_900, 66_830_000),
        pk(86_010_000, 10_000_000),
    ];
    let once = clean_spectrum(raw, 0, 0, 10_000, 20_000, 0, 0, false);
    let twice = clean_spectrum(once.clone(), 0, 0, 10_000, 20_000, 0, 0, false);
    assert_eq!(once, twice);
}

#[test]
fn clean_twice_with_normalize_is_stable() {
    let raw = vec![
        pk(41_040_000, 371_600),
        pk(0, 371_600),
        pk(69_070_000, 7_917_962),
        pk(69_070_000, -7_917_962),
        pk(69_071_000, 100_000_000),
        pk(86_096_900, 66_830_000),
        pk(86_010_000, 10_000_000),
    ];
    let once = clean_spectrum(raw, 0, 0, 10_000, 20_000, 0, 0, true);
    let twice = clean_spectrum(once.clone(), 0, 0, 10_000, 20_000, 0, 0, true);
    assert_eq!(once, twice);
}

#[test]
fn centroid_ppm_merges_leftward() {
    // Ten parts per million of 500 Da is a 5000-unit window: the smaller
    // peak 4000 units to the left is absorbed into the seed.
    let s = vec![pk(499_996_000, 1_000), pk(500_000_000, 3_000)];
    let out = clean_spectrum(s, 0, 0, 0, 0, 10, 0, false);
    assert_eq!(out, vec![pk(499_999_000, 4_000)]);
}

#[test]
fn similarity_of_exact_copy_is_one() {
    // Two equal peaks holding half of 2^20 each: the self-similarity is
    // exactly one.
    let mut a = vec![pk(1_000_000, 524_288), pk(2_000_000, 524_288)];
    let mut b = a.clone();
    let score = calculate_unweighted_entropy_similarity(
        &mut a, &mut b, 0, 0, false, 0, 0, 0, 0,
    );
    assert_eq!(score, 1_048_576);
}

#[test]
fn similarity_of_empty_spectrum_is_zero() {
    let mut a: Vec<Peak> = Vec::new();
    let mut b = vec![pk(1_000_000, 524_288)];
    let score = calculate_unweighted_entropy_similarity(
        &mut a, &mut b, 20_000, 0, false, 0, 0, 0, 0,
    );
    assert_eq!(score, 0);
}

#[test]
fn similarity_of_disjoint_spectra_is_zero() {
    let mut a = vec![pk(1_000_000, 524_288), pk(2_000_000, 524_288)];
    let mut b = vec![pk(5_000_000, 524_288), pk(6_000_000, 524_288)];
    let score = calculate_unweighted_entropy_similarity(
        &mut a, &mut b, 20_000, 0, false, 0, 0, 0, 0,
    );
    assert_eq!(score, 0);
}

#[test]
fn log2_fixed_values() {
    // Exact at powers of two of the intensity unit, and a known fraction
    // in between.
    assert_eq!(log2_fixed(1_048_576), 0);
    assert_eq!(log2_fixed(2_097_152), 65_536);
    assert_eq!(log2_fixed(1_572_864), 38_336);
    assert_eq!(log2_fixed(1), -1_310_720);
}
