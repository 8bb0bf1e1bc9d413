//! The spectrum cleaner: m/z-range filtering, fixed-point centroiding,
//! noise thresholding, top-K retention and intensity normalization.

use vstd::prelude::*;
use crate::spectrum::{
    Peak, all_wf, wf_peak, peak_valid, is_canonical, sorted_by_mz, isum, nvalid,
    valid_peaks, canon_spec, sort_spectrum_by_mz_and_zero_intensity, all_raw_bounded,
    lemma_nvalid_update, lemma_isum_valid_peaks, lemma_isum_element_bound,
    lemma_isum_nonneg, lemma_isum_total_bound, lemma_isum_take_le, lemma_canon_spec_props,
    lemma_canon_identity, lemma_sort_identity, lemma_valid_peaks_identity, lemma_sort_by_mz_props,
    lemma_valid_peaks_props, VAL_LIMIT, LEN_LIMIT, INTENSITY_LIMIT, INTENSITY_ONE, PPM_DENOM,
};
use crate::centroid::{
    need_centroid, centroid_spectrum, has_close_pair, close_at, tol_need, argsort_ok,
    calculate_spectrum_argsort, idx_before, lemma_nvalid_nonneg,
};

verus! {

/// A negative lower m/z bound is clamped to zero.
pub open spec fn clamp_min_mz(min_mz: int) -> int {
    if min_mz < 0 {
        0
    } else {
        min_mz
    }
}

/// A peak survives the m/z-range filter: strictly above the clamped lower
/// bound, and strictly below the upper bound when one is set (an upper bound
/// of zero or less means no upper bound).
pub open spec fn in_window(p: Peak, min_mz: int, max_mz: int) -> bool {
    p.mz > clamp_min_mz(min_mz) && (max_mz > 0 ==> p.mz < max_mz)
}

/// The m/z-range filter zeroes the intensity of every out-of-window peak.
pub open spec fn window_zero(s: Seq<Peak>, min_mz: int, max_mz: int) -> Seq<Peak> {
    Seq::new(
        s.len(),
        |i: int|
            if in_window(s[i], min_mz, max_mz) {
                s[i]
            } else {
                Peak { mz: s[i].mz, intensity: 0 }
            },
    )
}

/// Largest intensity of a spectrum, with zero as the identity for the empty
/// fold: the filter is only applied to non-empty spectra of valid peaks, so
/// the identity never decides an outcome.
pub open spec fn max_intensity(s: Seq<Peak>) -> int
    decreases s.len(),
{
    if s.len() == 0 {
        0
    } else if s.last().intensity > max_intensity(s.drop_last()) {
        s.last().intensity as int
    } else {
        max_intensity(s.drop_last())
    }
}

/// A peak falls below the noise floor: its intensity is less than the
/// threshold fraction (in millionths) of the maximum intensity.
pub open spec fn below_noise(p: Peak, noise_threshold: int, maxi: int) -> bool {
    p.intensity * (PPM_DENOM as int) < noise_threshold * maxi
}

/// The noise filter zeroes every peak below the noise floor.
pub open spec fn noise_zero(s: Seq<Peak>, noise_threshold: int, maxi: int) -> Seq<Peak> {
    Seq::new(
        s.len(),
        |i: int|
            if below_noise(s[i], noise_threshold, maxi) {
                Peak { mz: s[i].mz, intensity: 0 }
            } else {
                s[i]
            },
    )
}

/// Top-K retention zeroes every peak whose index is not among the kept ones.
pub open spec fn zero_except(s: Seq<Peak>, keep: Seq<usize>) -> Seq<Peak> {
    Seq::new(
        s.len(),
        |i: int|
            if keep.contains(i as usize) {
                s[i]
            } else {
                Peak { mz: s[i].mz, intensity: 0 }
            },
    )
}

/// Probability normalization: each intensity is scaled to units of
/// `INTENSITY_ONE` divided by the total.
pub open spec fn normalize_map(s: Seq<Peak>, total: int) -> Seq<Peak> {
    Seq::new(
        s.len(),
        |i: int|
            Peak {
                mz: s[i].mz,
                intensity: (s[i].intensity * (INTENSITY_ONE as int) / total) as i64,
            },
    )
}

/// Applies the m/z-range filter.
pub fn apply_mz_window(spectrum: Vec<Peak>, min_mz: i64, max_mz: i64) -> (out: Vec<Peak>)
    requires
        min_mz <= VAL_LIMIT,
    ensures
        out@ == window_zero(spectrum@, min_mz as int, max_mz as int),
{
    let lo: i64 = if min_mz < 0 {
        0
    } else {
        min_mz
    };
    let mut sp = spectrum;
    let n = sp.len();
    let ghost orig = sp@;
    let mut i: usize = 0;
    while i < n
        invariant
            i <= n,
            sp@.len() == n,
            orig.len() == n,
            lo as int == clamp_min_mz(min_mz as int),
            forall|k: int| i <= k < n ==> sp@[k] == orig[k],
            forall|k: int|
                0 <= k < i ==> sp@[k] == window_zero(orig, min_mz as int, max_mz as int)[k],
        decreases n - i,
    {
        let p = sp[i];
        if p.mz <= lo || (max_mz > 0 && p.mz >= max_mz) {
            sp.set(i, Peak { mz: p.mz, intensity: 0 });
        }
        i += 1;
    }
    proof {
        assert(sp@ =~= window_zero(orig, min_mz as int, max_mz as int));
    }
    sp
}

/// Applies the noise filter: peaks below the given fraction (in millionths)
/// of the maximum intensity are zeroed.
pub fn apply_noise_filter(spectrum: Vec<Peak>, noise_threshold: i64) -> (out: Vec<Peak>)
    requires
        is_canonical(spectrum@),
        all_wf(spectrum@),
        0 < noise_threshold <= VAL_LIMIT,
    ensures
        out@ == noise_zero(spectrum@, noise_threshold as int, max_intensity(spectrum@)),
{
    let ghost orig = spectrum@;
    let n = spectrum.len();
    let mut maxi: i64 = 0;
    let mut i: usize = 0;
    while i < n
        invariant
            i <= n,
            n == spectrum@.len(),
            maxi as int == max_intensity(spectrum@.take(i as int)),
            all_wf(spectrum@),
            is_canonical(spectrum@),
            0 <= maxi <= INTENSITY_LIMIT,
        decreases n - i,
    {
        proof {
            assert(spectrum@.take(i + 1).drop_last() =~= spectrum@.take(i as int));
            assert(spectrum@.take(i + 1).last() == spectrum@[i as int]);
        }
        let p = spectrum[i];
        if p.intensity > maxi {
            maxi = p.intensity;
        }
        i += 1;
    }
    proof {
        assert(spectrum@.take(n as int) =~= spectrum@);
    }
    let mut sp = spectrum;
    let mut i: usize = 0;
    while i < n
        invariant
            i <= n,
            sp@.len() == n,
            orig.len() == n,
            maxi as int == max_intensity(orig),
            0 <= maxi <= INTENSITY_LIMIT,
            0 < noise_threshold <= VAL_LIMIT,
            forall|k: int| i <= k < n ==> sp@[k] == orig[k],
            forall|k: int| 0 <= k < n ==> (#[trigger] orig[k]).intensity <= INTENSITY_LIMIT,
            forall|k: int|
                0 <= k < i ==> sp@[k] == noise_zero(orig, noise_threshold as int, maxi as int)[k],
        decreases n - i,
    {
        let p = sp[i];
        proof {
            assert((noise_threshold as int) * (maxi as int) <= VAL_LIMIT as int
                * INTENSITY_LIMIT as int) by (nonlinear_arith)
                requires
                    0 < noise_threshold <= VAL_LIMIT,
                    0 <= maxi <= INTENSITY_LIMIT,
            ;
        }
        let keep = if p.intensity >= 0 {
            (p.intensity as u128) * 1_000_000u128 >= (noise_threshold as u128) * (maxi as u128)
        } else {
            false
        };
        proof {
            if p.intensity < 0 {
                assert((p.intensity as int) * 1_000_000 < 0) by (nonlinear_arith)
                    requires
                        p.intensity < 0,
                ;
                assert((noise_threshold as int) * (maxi as int) >= 0) by (nonlinear_arith)
                    requires
                        noise_threshold >= 0,
                        maxi >= 0,
                ;
            }
            assert(keep == !below_noise(orig[i as int], noise_threshold as int, maxi as int));
        }
        if !keep {
            sp.set(i, Peak { mz: p.mz, intensity: 0 });
        }
        i += 1;
    }
    proof {
        assert(sp@ =~= noise_zero(orig, noise_threshold as int, maxi as int));
    }
    sp
}

/// No valid peak outside the kept index list: the valid count is bounded by
/// the number of kept indices.
pub proof fn lemma_nvalid_le_keep(z: Seq<Peak>, keep: Seq<usize>)
    requires
        z.len() <= usize::MAX,
        forall|i: int| 0 <= i < z.len() && peak_valid(#[trigger] z[i]) ==> keep.contains(i as usize),
        forall|k1: int, k2: int| 0 <= k1 < k2 < keep.len() ==> keep[k1] != keep[k2],
    ensures
        nvalid(z) <= keep.len(),
    decreases keep.len(),
{
    lemma_nvalid_nonneg(z);
    if keep.len() == 0 {
        if nvalid(z) > 0 {
            lemma_no_valid_nvalid_zero(z);
            assert(false);
        }
    } else {
        let v = keep.last();
        let kt = keep.drop_last();
        if (v as int) < z.len() {
            let z2 = z.update(v as int, Peak { mz: z[v as int].mz, intensity: 0 });
            lemma_nvalid_update(z, v as int, Peak { mz: z[v as int].mz, intensity: 0 });
            assert forall|i: int| 0 <= i < z2.len() && peak_valid(#[trigger] z2[i]) implies
                kt.contains(i as usize) by {
                assert(z2[i] == z[i]);
                assert(keep.contains(i as usize));
                let w = choose|w: int| 0 <= w < keep.len() && keep[w] == i as usize;
                if w == keep.len() - 1 {
                    assert(i == v as int);
                    assert(!peak_valid(z2[v as int]));
                    assert(false);
                }
                assert(kt[w] == i as usize);
            }
            lemma_nvalid_le_keep(z2, kt);
        } else {
            assert forall|i: int| 0 <= i < z.len() && peak_valid(#[trigger] z[i]) implies
                kt.contains(i as usize) by {
                let w = choose|w: int| 0 <= w < keep.len() && keep[w] == i as usize;
                if w == keep.len() - 1 {
                    assert(i == v as int);
                    assert(false);
                }
                assert(kt[w] == i as usize);
            }
            lemma_nvalid_le_keep(z, kt);
        }
    }
}

proof fn lemma_no_valid_nvalid_zero(z: Seq<Peak>)
    requires
        forall|i: int| 0 <= i < z.len() ==> !peak_valid(#[trigger] z[i]),
    ensures
        nvalid(z) == 0,
    decreases z.len(),
{
    if z.len() > 0 {
        lemma_no_valid_nvalid_zero(z.drop_last());
    }
}

/// Top-K retention: the peaks at the first `k` positions of the
/// descending-intensity index permutation are kept, every other peak is
/// zeroed (the later canonicalization drops them, as the reference's
/// sort-and-truncate does).
pub fn retain_top_peaks(spectrum: Vec<Peak>, k: usize) -> (out: Vec<Peak>)
    ensures
        exists|ord: Seq<usize>|
            argsort_ok(spectrum@, ord) && out@ == zero_except(
                spectrum@,
                ord.take(if k as int <= spectrum@.len() as int {
                    k as int
                } else {
                    spectrum@.len() as int
                }),
            ),
        out@.len() == spectrum@.len(),
        forall|i: int|
            0 <= i < out@.len() ==> (#[trigger] out@[i]) == spectrum@[i] || out@[i] == (Peak {
                mz: spectrum@[i].mz,
                intensity: 0,
            }),
        nvalid(out@) <= k as int,
{
    let ghost orig = spectrum@;
    let order = calculate_spectrum_argsort(&spectrum);
    let n = spectrum.len();
    let m: usize = if k <= n {
        k
    } else {
        n
    };
    let ghost kept = order@.take(m as int);
    let mut sp = spectrum;
    let mut t: usize = m;
    while t < n
        invariant
            m <= t <= n,
            sp@.len() == n,
            orig.len() == n,
            order@.len() == n,
            argsort_ok(orig, order@),
            kept == order@.take(m as int),
            forall|i: int|
                0 <= i < n ==> (#[trigger] sp@[i]) == (if exists|w: int|
                    m <= w < t && order@[w] == i as usize {
                    Peak { mz: orig[i].mz, intensity: 0 }
                } else {
                    orig[i]
                }),
        decreases n - t,
    {
        let idx = order[t];
        let p = sp[idx];
        proof {
            assert forall|k1: int, k2: int| 0 <= k1 < k2 < order@.len() implies order@[k1]
                != order@[k2] by {
                assert(idx_before(orig, order@[k1] as int, order@[k2] as int));
            }
        }
        sp.set(idx, Peak { mz: p.mz, intensity: 0 });
        proof {
            assert forall|i: int| 0 <= i < n implies (#[trigger] sp@[i]) == (if exists|w: int|
                m <= w < t + 1 && order@[w] == i as usize {
                Peak { mz: orig[i].mz, intensity: 0 }
            } else {
                orig[i]
            }) by {
                if i == idx as int {
                    assert(order@[t as int] == i as usize);
                    assert(exists|w: int| m <= w < t + 1 && order@[w] == i as usize);
                    if exists|w: int| m <= w < t && order@[w] == i as usize {
                    } else {
                        assert(sp@[i] == (Peak { mz: orig[i].mz, intensity: 0 }));
                    }
                } else {
                    if exists|w: int| m <= w < t + 1 && order@[w] == i as usize {
                        let w = choose|w: int| m <= w < t + 1 && order@[w] == i as usize;
                        assert(w < t);
                        assert(exists|w2: int| m <= w2 < t && order@[w2] == i as usize);
                    }
                }
            }
        }
        t += 1;
    }
    proof {
        assert forall|k1: int, k2: int| 0 <= k1 < k2 < order@.len() implies order@[k1]
            != order@[k2] by {
            assert(idx_before(orig, order@[k1] as int, order@[k2] as int));
        }
        assert forall|i: int| 0 <= i < n implies (#[trigger] sp@[i]) == zero_except(orig, kept)[i]
            by {
            if kept.contains(i as usize) {
                let w = choose|w: int| 0 <= w < kept.len() && kept[w] == i as usize;
                assert(order@[w] == i as usize);
                if exists|w2: int| m <= w2 < n && order@[w2] == i as usize {
                    let w2 = choose|w2: int| m <= w2 < n && order@[w2] == i as usize;
                    assert(order@[w] == order@[w2]);
                    assert(false);
                }
            } else {
                if !(exists|w2: int| m <= w2 < n && order@[w2] == i as usize) {
                    assert(order@.contains(i as usize));
                    let w = choose|w: int| 0 <= w < n && order@[w] == i as usize;
                    assert(w < m);
                    assert(kept[w] == i as usize);
                    assert(false);
                }
            }
        }
        assert(sp@ =~= zero_except(orig, kept));
        assert forall|i: int| 0 <= i < n && peak_valid(#[trigger] sp@[i]) implies kept.contains(
            i as usize,
        ) by {}
        assert forall|k1: int, k2: int| 0 <= k1 < k2 < kept.len() implies kept[k1] != kept[k2]
            by {
            assert(idx_before(orig, order@[k1] as int, order@[k2] as int));
        }
        lemma_nvalid_le_keep(sp@, kept);
    }
    sp
}

/// Two elements of the valid subsequence come from source positions in the
/// same order.
pub proof fn lemma_vp_two(z: Seq<Peak>, i: int, j: int)
    requires
        0 <= i < j < valid_peaks(z).len(),
    ensures
        exists|a: int, b: int|
            0 <= a < b < z.len() && z[a] == valid_peaks(z)[i] && z[b] == valid_peaks(z)[j],
    decreases z.len(),
{
    let vp = valid_peaks(z);
    let t = z.drop_last();
    if peak_valid(z.last()) {
        if j == vp.len() - 1 {
            lemma_valid_peaks_props(t);
            assert(vp[i] == valid_peaks(t)[i]);
            assert(t.contains(valid_peaks(t)[i]));
            let a = choose|a: int| 0 <= a < t.len() && t[a] == valid_peaks(t)[i];
            let b = z.len() - 1;
            assert(z[a] == vp[i] && z[b] == vp[j]);
            assert(0 <= a < b < z.len() && z[a] == vp[i] && z[b] == vp[j]);
        } else {
            lemma_vp_two(t, i, j);
            let (a, b) = choose|a: int, b: int|
                0 <= a < b < t.len() && t[a] == valid_peaks(t)[i] && t[b] == valid_peaks(t)[j];
            assert(0 <= a < b < z.len() && z[a] == vp[i] && z[b] == vp[j]);
        }
    } else {
        lemma_vp_two(t, i, j);
        let (a, b) = choose|a: int, b: int|
            0 <= a < b < t.len() && t[a] == valid_peaks(t)[i] && t[b] == valid_peaks(t)[j];
        assert(0 <= a < b < z.len() && z[a] == vp[i] && z[b] == vp[j]);
    }
}

/// The valid subsequence of an m/z-sorted spectrum is itself m/z-sorted.
pub proof fn lemma_vp_sorted(z: Seq<Peak>)
    requires
        sorted_by_mz(z),
    ensures
        sorted_by_mz(valid_peaks(z)),
{
    let vp = valid_peaks(z);
    assert forall|i: int, j: int| 0 <= i <= j < vp.len() implies vp[i].mz <= vp[j].mz by {
        if i < j {
            lemma_vp_two(z, i, j);
            let (a, b) = choose|a: int, b: int|
                0 <= a < b < z.len() && z[a] == vp[i] && z[b] == vp[j];
            assert(z[a].mz <= z[b].mz);
        }
    }
}

/// Zeroing intensities (while keeping every m/z) never brings the surviving
/// peaks closer: once no adjacent pair violates the threshold, none does
/// after noise filtering, capping or normalization either.
pub proof fn lemma_no_close_pair_vp(s: Seq<Peak>, z: Seq<Peak>, da: int, ppm: int)
    requires
        s.len() == z.len(),
        forall|i: int| 0 <= i < s.len() ==> (#[trigger] z[i]).mz == s[i].mz,
        sorted_by_mz(s),
        !has_close_pair(s, da, ppm),
    ensures
        !has_close_pair(valid_peaks(z), da, ppm),
{
    let vp = valid_peaks(z);
    assert forall|i: int| 0 <= i < vp.len() - 1 implies !close_at(vp, i, da, ppm) by {
        lemma_vp_two(z, i, i + 1);
        let (a, b) = choose|a: int, b: int|
            0 <= a < b < z.len() && z[a] == vp[i] && z[b] == vp[i + 1];
        if close_at(s, b - 1, da, ppm) {
            assert(has_close_pair(s, da, ppm));
            assert(false);
        }
        assert(s[a].mz <= s[b - 1].mz);
        assert(vp[i + 1].mz - vp[i].mz >= s[b].mz - s[b - 1].mz);
        assert(tol_need(vp[i + 1].mz as int, da, ppm) == tol_need(s[b].mz as int, da, ppm));
    }
    if has_close_pair(vp, da, ppm) {
        let w = choose|w: int| 0 <= w < vp.len() - 1 && #[trigger] close_at(vp, w, da, ppm);
        assert(false);
    }
}

/// Probability normalization: scales every intensity into units of
/// `INTENSITY_ONE` divided by the total, then drops peaks whose scaled
/// intensity rounds down to nothing (they fall below the representable
/// resolution). An empty spectrum is returned unchanged. The output
/// intensities sum to `INTENSITY_ONE`, short by less than one unit per peak
/// from rounding.
pub fn normalize_intensities(spectrum: Vec<Peak>) -> (out: Vec<Peak>)
    requires
        is_canonical(spectrum@),
        all_wf(spectrum@),
        isum(spectrum@) <= INTENSITY_LIMIT as int,
    ensures
        spectrum@.len() == 0 ==> out@ == spectrum@,
        spectrum@.len() > 0 ==> out@ == valid_peaks(
            normalize_map(spectrum@, isum(spectrum@)),
        ),
        is_canonical(out@),
        all_wf(out@),
        out@.len() <= spectrum@.len(),
        spectrum@.len() > 0 ==> INTENSITY_ONE as int - spectrum@.len() <= isum(out@)
            <= INTENSITY_ONE as int,
        forall|i: int|
            0 <= i < out@.len() ==> exists|j: int|
                0 <= j < spectrum@.len() && (#[trigger] out@[i]).mz == spectrum@[j].mz,
{
    let n = spectrum.len();
    if n == 0 {
        return spectrum;
    }
    proof {
        lemma_isum_nonneg(spectrum@);
        lemma_isum_element_bound(spectrum@, 0);
    }
    let mut total: i64 = 0;
    let mut i: usize = 0;
    while i < n
        invariant
            i <= n,
            n == spectrum@.len(),
            is_canonical(spectrum@),
            all_wf(spectrum@),
            isum(spectrum@) <= INTENSITY_LIMIT as int,
            total as int == isum(spectrum@.take(i as int)),
            0 <= total,
        decreases n - i,
    {
        proof {
            assert(spectrum@.take(i + 1).drop_last() =~= spectrum@.take(i as int));
            assert(spectrum@.take(i + 1).last() == spectrum@[i as int]);
            lemma_isum_take_le(spectrum@, i + 1);
            lemma_isum_nonneg(spectrum@.take(i + 1));
        }
        total = total + spectrum[i].intensity;
        i += 1;
    }
    proof {
        assert(spectrum@.take(n as int) =~= spectrum@);
        assert(total as int == isum(spectrum@));
        assert(total >= spectrum@[0].intensity);
        assert(total > 0);
    }
    let ghost tt = total as int;
    let ghost nm = normalize_map(spectrum@, tt);
    let mut out: Vec<Peak> = Vec::new();
    let mut i: usize = 0;
    while i < n
        invariant
            i <= n,
            n == spectrum@.len(),
            is_canonical(spectrum@),
            all_wf(spectrum@),
            0 < total,
            tt == total as int,
            tt == isum(spectrum@),
            tt <= INTENSITY_LIMIT as int,
            nm == normalize_map(spectrum@, tt),
            out@.len() == i,
            forall|m: int| 0 <= m < i ==> out@[m] == nm[m],
            forall|m: int| 0 <= m < i ==> 0 <= (#[trigger] out@[m]).intensity <= INTENSITY_ONE,
            isum(out@) >= 0,
            isum(out@) * tt <= isum(spectrum@.take(i as int)) * (INTENSITY_ONE as int),
            isum(out@) * tt >= isum(spectrum@.take(i as int)) * (INTENSITY_ONE as int) - i * tt,
        decreases n - i,
    {
        let p = spectrum[i];
        proof {
            lemma_isum_element_bound(spectrum@, i as int);
        }
        let ni: i64 = ((p.intensity as u128) * (INTENSITY_ONE as u128) / (total as u128)) as i64;
        proof {
            let pi = p.intensity as int;
            let one = INTENSITY_ONE as int;
            vstd::arithmetic::mul::lemma_mul_inequality(pi, tt, one);
            vstd::arithmetic::mul::lemma_mul_is_commutative(pi, one);
            vstd::arithmetic::mul::lemma_mul_is_commutative(tt, one);
            vstd::arithmetic::div_mod::lemma_div_is_ordered(pi * one, tt * one, tt);
            vstd::arithmetic::div_mod::lemma_div_by_multiple(one, tt);
            vstd::arithmetic::div_mod::lemma_div_pos_is_pos(pi * one, tt);
            assert(pi * one >= 0) by (nonlinear_arith)
                requires
                    pi >= 0,
                    one >= 0,
            ;
            assert(0 <= pi * one / tt <= one);
            assert(ni as int == pi * one / tt);
            vstd::arithmetic::div_mod::lemma_fundamental_div_mod(pi * one, tt);
            vstd::arithmetic::div_mod::lemma_mod_division_less_than_divisor(pi * one, tt);
            // push bookkeeping
            assert(out@.push(Peak { mz: p.mz, intensity: ni }).drop_last() =~= out@);
            assert(spectrum@.take(i + 1).drop_last() =~= spectrum@.take(i as int));
            assert(spectrum@.take(i + 1).last() == spectrum@[i as int]);
            let os = isum(out@);
            vstd::arithmetic::mul::lemma_mul_is_distributive_add_other_way(tt, os, ni as int);
            vstd::arithmetic::mul::lemma_mul_is_commutative(os + ni as int, tt);
            vstd::arithmetic::mul::lemma_mul_is_commutative(os, tt);
            vstd::arithmetic::mul::lemma_mul_is_commutative(ni as int, tt);
            vstd::arithmetic::mul::lemma_mul_is_distributive_add_other_way(
                one,
                isum(spectrum@.take(i as int)),
                pi,
            );
            vstd::arithmetic::mul::lemma_mul_is_commutative(
                isum(spectrum@.take(i as int)) + pi,
                one,
            );
            vstd::arithmetic::mul::lemma_mul_is_commutative(isum(spectrum@.take(i as int)), one);
            vstd::arithmetic::mul::lemma_mul_is_commutative(pi, one);
            assert(tt * (ni as int) <= pi * one);
            assert(pi * one < tt * (ni as int) + tt);
            vstd::arithmetic::mul::lemma_mul_is_distributive_add_other_way(tt, i as int, 1);
            vstd::arithmetic::mul::lemma_mul_basics(tt);
        }
        out.push(Peak { mz: p.mz, intensity: ni });
        i += 1;
    }
    proof {
        assert(spectrum@.take(n as int) =~= spectrum@);
        assert(out@ =~= nm);
        let one = INTENSITY_ONE as int;
        let os = isum(out@);
        assert(os <= one) by (nonlinear_arith)
            requires
                os * tt <= tt * one,
                tt > 0,
        ;
        assert(os >= one - n) by (nonlinear_arith)
            requires
                os * tt >= tt * one - n * tt,
                tt > 0,
        ;
        assert forall|i: int, j: int| 0 <= i <= j < nm.len() implies nm[i].mz <= nm[j].mz by {
            assert(spectrum@[i].mz <= spectrum@[j].mz);
        }
        lemma_vp_sorted(nm);
        lemma_valid_peaks_props(nm);
        lemma_isum_valid_peaks(nm);
    }
    // Drop peaks whose scaled intensity rounded down to zero.
    let m = out.len();
    let mut kept: Vec<Peak> = Vec::new();
    let mut i: usize = 0;
    while i < m
        invariant
            i <= m,
            m == out@.len(),
            kept@ == valid_peaks(out@.take(i as int)),
        decreases m - i,
    {
        let p = out[i];
        proof {
            assert(out@.take(i + 1).drop_last() =~= out@.take(i as int));
            assert(out@.take(i + 1).last() == out@[i as int]);
        }
        if p.intensity > 0 {
            kept.push(p);
        }
        i += 1;
    }
    proof {
        assert(out@.take(m as int) =~= out@);
        assert(kept@ == valid_peaks(nm));
        assert forall|i: int| 0 <= i < kept@.len() implies exists|j: int|
            0 <= j < spectrum@.len() && (#[trigger] kept@[i]).mz == spectrum@[j].mz by {
            assert(nm.contains(kept@[i]));
            let w = choose|w: int| 0 <= w < nm.len() && nm[w] == kept@[i];
            assert(kept@[i].mz == spectrum@[w].mz);
        }
    }
    kept
}

/// A spectrum that cleaning with the same parameters leaves unchanged:
/// canonical, entirely inside the m/z window, free of close pairs, with no
/// peak under the noise floor, within the peak cap, and (when normalizing)
/// with intensities summing exactly to `INTENSITY_ONE`.
pub open spec fn cleaned_stable(
    s: Seq<Peak>,
    min_mz: int,
    max_mz: int,
    noise_threshold: int,
    da: int,
    ppm: int,
    max_peak_num: int,
    normalize: bool,
) -> bool {
    &&& is_canonical(s)
    &&& forall|i: int| 0 <= i < s.len() ==> in_window(#[trigger] s[i], min_mz, max_mz)
    &&& !has_close_pair(s, da, ppm)
    &&& (noise_threshold > 0 ==> forall|i: int|
        0 <= i < s.len() ==> !below_noise(#[trigger] s[i], noise_threshold, max_intensity(s)))
    &&& (max_peak_num > 0 ==> s.len() <= max_peak_num)
    &&& (normalize ==> isum(s) == INTENSITY_ONE as int)
}

/// The cleaning pipeline: zero peaks outside the m/z window, canonicalize,
/// centroid to a fixed point, zero peaks under the noise floor, keep at most
/// the top `max_peak_num` peaks by intensity when the raw input exceeded
/// that cap, canonicalize again, and optionally normalize intensities.
pub fn clean_spectrum(
    spectrum: Vec<Peak>,
    min_mz: i64,
    max_mz: i64,
    noise_threshold: i64,
    min_ms2_difference_in_da: i64,
    min_ms2_difference_in_ppm: i64,
    max_peak_num: usize,
    normalize_intensity: bool,
) -> (out: Vec<Peak>)
    requires
        spectrum@.len() <= LEN_LIMIT,
        all_raw_bounded(spectrum@),
        -VAL_LIMIT <= min_mz <= VAL_LIMIT,
        -VAL_LIMIT <= max_mz <= VAL_LIMIT,
        -VAL_LIMIT <= noise_threshold <= VAL_LIMIT,
        -VAL_LIMIT <= min_ms2_difference_in_da <= VAL_LIMIT,
        min_ms2_difference_in_ppm < PPM_DENOM,
    ensures
        is_canonical(out@),
        all_wf(out@),
        forall|i: int|
            0 <= i < out@.len() ==> in_window(#[trigger] out@[i], min_mz as int, max_mz as int),
        !has_close_pair(
            out@,
            min_ms2_difference_in_da as int,
            min_ms2_difference_in_ppm as int,
        ),
        out@.len() <= spectrum@.len(),
        max_peak_num > 0 ==> out@.len() <= max_peak_num,
        normalize_intensity ==> isum(out@) <= INTENSITY_ONE as int,
        normalize_intensity && out@.len() > 0 ==> INTENSITY_ONE as int - spectrum@.len()
            <= isum(out@),
        (!normalize_intensity && noise_threshold <= 0 && (max_peak_num == 0 || max_peak_num
            >= spectrum@.len())) ==> isum(out@) == isum(
            valid_peaks(window_zero(spectrum@, min_mz as int, max_mz as int)),
        ),
        cleaned_stable(
            spectrum@,
            min_mz as int,
            max_mz as int,
            noise_threshold as int,
            min_ms2_difference_in_da as int,
            min_ms2_difference_in_ppm as int,
            max_peak_num as int,
            normalize_intensity,
        ) ==> out@ == spectrum@,
{
    let ghost s0 = spectrum@;
    let ghost da = min_ms2_difference_in_da as int;
    let ghost ppm = min_ms2_difference_in_ppm as int;
    let ghost stable = cleaned_stable(
        s0,
        min_mz as int,
        max_mz as int,
        noise_threshold as int,
        da,
        ppm,
        max_peak_num as int,
        normalize_intensity,
    );
    let original_length = spectrum.len();
    let w = apply_mz_window(spectrum, min_mz, max_mz);
    let ghost wz = w@;
    proof {
        if stable {
            assert(wz =~= s0);
        }
    }
    let sp1 = sort_spectrum_by_mz_and_zero_intensity(w);
    proof {
        lemma_canon_spec_props(wz);
        lemma_valid_peaks_props(wz);
        lemma_sort_by_mz_props(valid_peaks(wz));
        assert(isum(sp1@) == isum(valid_peaks(wz)));
        assert forall|k: int| 0 <= k < sp1@.len() implies in_window(
            #[trigger] sp1@[k],
            min_mz as int,
            max_mz as int,
        ) && wf_peak(sp1@[k]) && sp1@[k].intensity <= VAL_LIMIT by {
            assert(valid_peaks(wz).contains(sp1@[k]));
            let w1 = choose|w1: int|
                0 <= w1 < valid_peaks(wz).len() && valid_peaks(wz)[w1] == sp1@[k];
            assert(wz.contains(valid_peaks(wz)[w1]));
            let w2 = choose|w2: int| 0 <= w2 < wz.len() && wz[w2] == sp1@[k];
            assert(wz[w2].intensity > 0);
            assert(wz[w2] == s0[w2]);
            assert(in_window(s0[w2], min_mz as int, max_mz as int));
        }
        assert forall|k: int| 0 <= k < valid_peaks(wz).len() implies (#[trigger] valid_peaks(
            wz,
        )[k]).intensity <= VAL_LIMIT by {
            assert(wz.contains(valid_peaks(wz)[k]));
            let w2 = choose|w2: int| 0 <= w2 < wz.len() && wz[w2] == valid_peaks(wz)[k];
            assert(wz[w2] == s0[w2] || wz[w2].intensity == 0);
        }
        lemma_isum_total_bound(valid_peaks(wz), VAL_LIMIT as int);
        vstd::arithmetic::mul::lemma_mul_inequality(
            valid_peaks(wz).len() as int,
            LEN_LIMIT as int,
            VAL_LIMIT as int,
        );
        assert(isum(sp1@) <= INTENSITY_LIMIT as int);
        lemma_isum_nonneg(sp1@);
        if stable {
            lemma_canon_identity(s0);
        }
    }
    let mut sp = sp1;
    while need_centroid(&sp, min_ms2_difference_in_da, min_ms2_difference_in_ppm)
        invariant
            is_canonical(sp@),
            all_wf(sp@),
            isum(sp@) == isum(valid_peaks(wz)),
            0 <= isum(sp@) <= INTENSITY_LIMIT as int,
            sp@.len() <= s0.len(),
            forall|k: int|
                0 <= k < sp@.len() ==> in_window(#[trigger] sp@[k], min_mz as int, max_mz as int),
            -VAL_LIMIT <= min_ms2_difference_in_da <= VAL_LIMIT,
            min_ms2_difference_in_ppm < PPM_DENOM,
            da == min_ms2_difference_in_da as int,
            ppm == min_ms2_difference_in_ppm as int,
            stable ==> sp@ == s0,
            stable ==> !has_close_pair(s0, da, ppm),
        decreases sp@.len(),
    {
        let ghost before = sp@;
        sp = centroid_spectrum(sp, min_ms2_difference_in_da, min_ms2_difference_in_ppm);
        proof {
            assert(before.len() >= 2);
            assert(in_window(before[0], min_mz as int, max_mz as int));
            assert(in_window(before[before.len() - 1], min_mz as int, max_mz as int));
            assert forall|k: int| 0 <= k < sp@.len() implies in_window(
                #[trigger] sp@[k],
                min_mz as int,
                max_mz as int,
            ) by {
                assert(before[0].mz <= sp@[k].mz <= before[before.len() - 1].mz);
            }
        }
    }
    let ghost sc = sp@;
    proof {
        assert(!has_close_pair(sc, da, ppm));
        lemma_isum_nonneg(sc);
    }
    // Noise floor.
    let sp = if noise_threshold > 0 {
        apply_noise_filter(sp, noise_threshold)
    } else {
        sp
    };
    let ghost z1 = sp@;
    proof {
        assert(z1.len() == sc.len());
        assert forall|i: int| 0 <= i < z1.len() implies (#[trigger] z1[i]).mz == sc[i].mz && (
        z1[i] == sc[i] || z1[i].intensity == 0) by {}
        if stable {
            if noise_threshold > 0 {
                assert(z1 =~= s0);
            }
        }
    }
    // Top-K retention, judged against the raw input length.
    let capped = max_peak_num > 0 && max_peak_num < original_length;
    let sp = if capped {
        retain_top_peaks(sp, max_peak_num)
    } else {
        sp
    };
    let ghost z2 = sp@;
    proof {
        assert(z2.len() == sc.len());
        assert forall|i: int| 0 <= i < z2.len() implies (#[trigger] z2[i]).mz == sc[i].mz && (
        z2[i] == sc[i] || z2[i].intensity == 0) by {
            assert(z2[i] == z1[i] || z2[i] == (Peak { mz: z1[i].mz, intensity: 0 }));
        }
        assert forall|i: int| 0 <= i < z2.len() implies (#[trigger] z2[i]).intensity >= 0 by {}
        assert(sorted_by_mz(z2)) by {
            assert forall|i: int, j: int| 0 <= i <= j < z2.len() implies z2[i].mz <= z2[j].mz by {
                assert(sc[i].mz <= sc[j].mz);
            }
        }
        lemma_vp_sorted(z2);
        lemma_valid_peaks_props(z2);
        lemma_canon_spec_props(z2);
        lemma_sort_identity(valid_peaks(z2));
        if stable {
            assert(!capped);
            assert(z2 == s0);
        }
    }
    // Restore canonical order.
    let sp = sort_spectrum_by_mz_and_zero_intensity(sp);
    let ghost pn = sp@;
    proof {
        assert(pn == valid_peaks(z2));
        lemma_no_close_pair_vp(sc, z2, da, ppm);
        lemma_isum_valid_peaks(z2);
        assert forall|k: int| 0 <= k < pn.len() implies in_window(
            #[trigger] pn[k],
            min_mz as int,
            max_mz as int,
        ) && wf_peak(pn[k]) by {
            assert(z2.contains(pn[k]));
            let w2 = choose|w2: int| 0 <= w2 < z2.len() && z2[w2] == pn[k];
            assert(z2[w2].intensity > 0);
            assert(z2[w2] == sc[w2]);
        }
        if capped {
            assert(pn.len() <= max_peak_num);
        }
        lemma_isum_nonneg(pn);
        assert(isum(pn) <= INTENSITY_LIMIT as int) by {
            assert(isum(z2) <= isum(sc)) by {
                lemma_isum_pointwise_le(z2, sc);
            }
        }
        if stable {
            lemma_canon_identity(s0);
        }
    }
    // Optional probability normalization.
    let out = if normalize_intensity {
        normalize_intensities(sp)
    } else {
        sp
    };
    proof {
        if normalize_intensity && pn.len() > 0 {
            let nm = normalize_map(pn, isum(pn));
            assert forall|i: int| 0 <= i < pn.len() implies (#[trigger] nm[i]).mz == pn[i].mz
                by {}
            lemma_no_close_pair_vp(pn, nm, da, ppm);
            assert forall|k: int| 0 <= k < out@.len() implies in_window(
                #[trigger] out@[k],
                min_mz as int,
                max_mz as int,
            ) by {
                let j = choose|j: int| 0 <= j < pn.len() && out@[k].mz == pn[j].mz;
                assert(in_window(pn[j], min_mz as int, max_mz as int));
            }
            if stable {
                assert(isum(pn) == INTENSITY_ONE as int);
                assert forall|i: int| 0 <= i < pn.len() implies nm[i] == pn[i] by {
                    vstd::arithmetic::div_mod::lemma_div_by_multiple(
                        pn[i].intensity as int,
                        INTENSITY_ONE as int,
                    );
                }
                assert(nm =~= pn);
                lemma_valid_peaks_identity(pn);
            }
        }
        if !(normalize_intensity && pn.len() > 0) && normalize_intensity {
            assert(out@ == pn);
            assert(out@.len() == 0);
        }
    }
    out
}

/// A pointwise intensity bound carries over to the totals.
pub proof fn lemma_isum_pointwise_le(a: Seq<Peak>, b: Seq<Peak>)
    requires
        a.len() == b.len(),
        forall|i: int|
            0 <= i < a.len() ==> (#[trigger] a[i]).intensity <= b[i].intensity,
    ensures
        isum(a) <= isum(b),
    decreases a.len(),
{
    if a.len() > 0 {
        assert(a.drop_last().len() == b.drop_last().len());
        lemma_isum_pointwise_le(a.drop_last(), b.drop_last());
    }
}

} // verus!
