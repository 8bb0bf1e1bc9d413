//! The centroiding engine: detecting peaks closer than the instrument
//! resolution and merging them into intensity-weighted centroids.

use vstd::prelude::*;
use crate::spectrum::{
    Peak, all_wf, wf_peak, peak_valid, all_valid, is_canonical, isum, nvalid,
    valid_peaks, sort_spectrum_by_mz_and_zero_intensity, lemma_isum_update,
    lemma_nvalid_update, lemma_isum_element_bound, lemma_isum_nonneg,
    lemma_canon_spec_props, VAL_LIMIT, INTENSITY_LIMIT, PPM_DENOM,
};

verus! {

/// Processing priority among peak indices: higher intensity first, ties
/// broken by the lower index.
pub open spec fn idx_before(s: Seq<Peak>, i: int, j: int) -> bool {
    s[i].intensity > s[j].intensity || (s[i].intensity == s[j].intensity && i < j)
}

/// An index permutation that visits peaks in descending intensity order.
pub open spec fn argsort_ok(s: Seq<Peak>, order: Seq<usize>) -> bool {
    &&& order.len() == s.len()
    &&& forall|k: int| 0 <= k < order.len() ==> (#[trigger] order[k]) < s.len()
    &&& forall|k1: int, k2: int|
        0 <= k1 < k2 < order.len() ==> idx_before(s, order[k1] as int, order[k2] as int)
    &&& forall|v: usize| v < s.len() ==> order.contains(v)
}

/// The index permutation visiting peaks by descending intensity, ties by
/// ascending index.
pub fn calculate_spectrum_argsort(spectrum: &Vec<Peak>) -> (order: Vec<usize>)
    ensures
        argsort_ok(spectrum@, order@),
{
    let n = spectrum.len();
    let mut order: Vec<usize> = Vec::new();
    let mut i: usize = 0;
    while i < n
        invariant
            i <= n,
            n == spectrum@.len(),
            order@.len() == i,
            forall|k: int| 0 <= k < order@.len() ==> (#[trigger] order@[k]) < i,
            forall|k1: int, k2: int|
                0 <= k1 < k2 < order@.len() ==> idx_before(
                    spectrum@,
                    order@[k1] as int,
                    order@[k2] as int,
                ),
            forall|v: usize| v < i ==> order@.contains(v),
        decreases n - i,
    {
        let ghost prev = order@;
        let mut j: usize = order.len();
        while j > 0 && spectrum[order[j - 1]].intensity < spectrum[i].intensity
            invariant
                j <= order@.len(),
                order@ == prev,
                i < n,
                n == spectrum@.len(),
                forall|k: int| 0 <= k < order@.len() ==> (#[trigger] order@[k]) < i,
                forall|k: int|
                    j <= k < order@.len() ==> spectrum@[(#[trigger] order@[k]) as int].intensity
                        < spectrum@[i as int].intensity,
            decreases j,
        {
            j -= 1;
        }
        proof {
            assert forall|k: int| 0 <= k < j implies spectrum@[
                (#[trigger] prev[k]) as int
            ].intensity >= spectrum@[i as int].intensity by {
                if k < j - 1 {
                    assert(idx_before(spectrum@, prev[k] as int, prev[j - 1] as int));
                }
            }
            prev.insert_ensures(j as int, i as usize);
        }
        order.insert(j, i);
        proof {
            let cur = order@;
            assert forall|k1: int, k2: int| 0 <= k1 < k2 < cur.len() implies idx_before(
                spectrum@,
                cur[k1] as int,
                cur[k2] as int,
            ) by {
                let a = if k1 < j { prev[k1] } else if k1 == j { i as usize } else { prev[k1 - 1] };
                let b = if k2 < j { prev[k2] } else if k2 == j { i as usize } else { prev[k2 - 1] };
                assert(cur[k1] == a);
                assert(cur[k2] == b);
                if k1 == j {
                    assert(spectrum@[b as int].intensity < spectrum@[i as int].intensity);
                } else if k2 == j {
                    assert(spectrum@[a as int].intensity >= spectrum@[i as int].intensity);
                    assert(a < i);
                } else if k1 < j && k2 > j {
                    assert(idx_before(spectrum@, prev[k1] as int, prev[k2 - 1] as int));
                }
            }
            assert forall|v: usize| v < i + 1 implies cur.contains(v) by {
                if v == i {
                    assert(cur[j as int] == i as usize);
                } else {
                    assert(prev.contains(v));
                    let w = choose|w: int| 0 <= w < prev.len() && prev[w] == v;
                    if w < j {
                        assert(cur[w] == v);
                    } else {
                        assert(cur[w + 1] == v);
                    }
                }
            }
        }
        i += 1;
    }
    order
}

/// A scaled relative tolerance stays within the value bounds.
pub proof fn lemma_ppm_product_bounds(mz: int, ppm: int)
    requires
        0 <= mz <= VAL_LIMIT as int,
        0 < ppm < PPM_DENOM as int,
    ensures
        0 <= mz * ppm / 1_000_000 <= VAL_LIMIT as int,
        mz * ppm <= VAL_LIMIT as int * 1_000_000,
        mz * ppm >= 0,
{
    assert(mz * ppm <= VAL_LIMIT as int * 1_000_000 && mz * ppm >= 0) by (nonlinear_arith)
        requires
            0 <= mz <= VAL_LIMIT as int,
            0 < ppm < 1_000_000,
    ;
    vstd::arithmetic::div_mod::lemma_div_is_ordered(
        mz * ppm,
        VAL_LIMIT as int * 1_000_000,
        1_000_000,
    );
    vstd::arithmetic::div_mod::lemma_div_by_multiple(VAL_LIMIT as int, 1_000_000);
    if mz * ppm > 0 {
        vstd::arithmetic::div_mod::lemma_div_pos_is_pos(mz * ppm, 1_000_000);
    } else {
        vstd::arithmetic::div_mod::lemma_div_of0(1_000_000);
    }
}

/// The effective minimum-gap threshold for the adjacent-pair scan: when the
/// relative tolerance is active it scales with the right neighbor's m/z,
/// otherwise the absolute tolerance applies.
pub open spec fn tol_need(mz_right: int, da: int, ppm: int) -> int {
    if ppm > 0 {
        mz_right * ppm / (PPM_DENOM as int)
    } else {
        da
    }
}

/// Adjacent pair `i`, `i + 1` is closer than the resolution threshold.
pub open spec fn close_at(s: Seq<Peak>, i: int, da: int, ppm: int) -> bool {
    s[i + 1].mz - s[i].mz < tol_need(s[i + 1].mz as int, da, ppm)
}

/// Some adjacent pair is closer than the resolution threshold.
pub open spec fn has_close_pair(s: Seq<Peak>, da: int, ppm: int) -> bool {
    exists|i: int| 0 <= i < s.len() - 1 && #[trigger] close_at(s, i, da, ppm)
}

/// Whether a centroiding pass is needed: scans adjacent pairs in canonical
/// order and reports the first gap under the effective threshold. A spectrum
/// with fewer than two peaks has no adjacent pair and never needs one.
pub fn need_centroid(
    spectrum: &Vec<Peak>,
    min_ms2_difference_in_da: i64,
    min_ms2_difference_in_ppm: i64,
) -> (r: bool)
    requires
        all_wf(spectrum@),
        -VAL_LIMIT <= min_ms2_difference_in_da <= VAL_LIMIT,
        min_ms2_difference_in_ppm < PPM_DENOM,
    ensures
        r == has_close_pair(spectrum@, min_ms2_difference_in_da as int, min_ms2_difference_in_ppm as int),
{
    let ghost da = min_ms2_difference_in_da as int;
    let ghost ppm = min_ms2_difference_in_ppm as int;
    let n = spectrum.len();
    if n < 2 {
        return false;
    }
    let mut i: usize = 0;
    while i < n - 1
        invariant
            i <= n - 1,
            n == spectrum@.len(),
            2 <= n,
            all_wf(spectrum@),
            -VAL_LIMIT <= min_ms2_difference_in_da <= VAL_LIMIT,
            min_ms2_difference_in_ppm < PPM_DENOM,
            da == min_ms2_difference_in_da as int,
            ppm == min_ms2_difference_in_ppm as int,
            forall|k: int| 0 <= k < i ==> !#[trigger] close_at(spectrum@, k, da, ppm),
        decreases n - i,
    {
        let threshold: i64 = if min_ms2_difference_in_ppm > 0 {
            assert(wf_peak(spectrum@[i + 1]));
            proof {
                lemma_ppm_product_bounds(
                    spectrum@[i + 1].mz as int,
                    min_ms2_difference_in_ppm as int,
                );
            }
            let t: u128 = (spectrum[i + 1].mz as u128) * (min_ms2_difference_in_ppm as u128)
                / 1_000_000u128;
            t as i64
        } else {
            min_ms2_difference_in_da
        };
        proof {
            assert(threshold as int == tol_need(spectrum@[i + 1].mz as int, da, ppm));
        }
        if spectrum[i + 1].mz - spectrum[i].mz < threshold {
            assert(close_at(spectrum@, i as int, da, ppm));
            return true;
        }
        i += 1;
    }
    false
}

/// Left-side merge tolerance of a seed peak: its own m/z scaled by the
/// relative tolerance, or the absolute tolerance.
pub open spec fn tol_left(mz: int, da: int, ppm: int) -> int {
    if ppm > 0 {
        mz * ppm / 1_000_000
    } else {
        da
    }
}

/// Right-side merge tolerance of a seed peak: its m/z divided by
/// `1 - ppm * 1e-6`, compensating for the larger m/z of right neighbors
/// under relative scaling, or the absolute tolerance.
pub open spec fn tol_right(mz: int, da: int, ppm: int) -> int {
    if ppm > 0 {
        mz * 1_000_000 / (1_000_000 - ppm)
    } else {
        da
    }
}

/// An adjacent pair closer than the scan threshold lies within the merge
/// tolerances of either of its two peaks, so whichever peak seeds a merge
/// first absorbs the other.
pub proof fn lemma_close_pair_within_tols(m0: int, m1: int, da: int, ppm: int)
    requires
        0 <= m0 <= VAL_LIMIT as int,
        0 <= m1 <= VAL_LIMIT as int,
        m0 <= m1,
        m1 - m0 < tol_need(m1, da, ppm),
        ppm < PPM_DENOM as int,
    ensures
        m1 - m0 <= tol_left(m1, da, ppm),
        m1 - m0 <= tol_right(m0, da, ppm),
{
    let g = m1 - m0;
    if ppm > 0 {
        let p = ppm;
        let d = 1_000_000int;
        // g < floor(m1 * p / d) gives g * d < m1 * p.
        vstd::arithmetic::div_mod::lemma_fundamental_div_mod(m1 * p, d);
        vstd::arithmetic::div_mod::lemma_mod_division_less_than_divisor(m1 * p, d);
        assert(m1 * p >= d * (g + 1)) by {
            assert(m1 * p / d >= g + 1);
            assert(m1 * p == d * (m1 * p / d) + (m1 * p) % d);
            assert((m1 * p) % d >= 0);
            assert(d * (m1 * p / d) >= d * (g + 1)) by (nonlinear_arith)
                requires
                    m1 * p / d >= g + 1,
                    d > 0,
            ;
        }
        assert(g * (d - p) < m0 * d) by (nonlinear_arith)
            requires
                g >= 0,
                m0 >= 0,
                m1 == m0 + g,
                0 < p < d,
                m1 * p >= d * (g + 1),
        ;
        vstd::arithmetic::div_mod::lemma_div_by_multiple(g, d - p);
        vstd::arithmetic::div_mod::lemma_div_is_ordered(g * (d - p), m0 * d, d - p);
    }
}

/// Count of valid peaks among positions `a .. b`.
pub open spec fn cvr(s: Seq<Peak>, a: int, b: int) -> int
    decreases b - a,
{
    if a >= b {
        0
    } else {
        cvr(s, a, b - 1) + if peak_valid(s[b - 1]) {
            1int
        } else {
            0int
        }
    }
}

pub proof fn lemma_cvr_at(s: Seq<Peak>, a: int, b: int, m: int)
    requires
        a <= m < b,
        peak_valid(s[m]),
    ensures
        cvr(s, a, b) >= 1,
        cvr(s, a, b) >= 0,
    decreases b - a,
{
    lemma_cvr_nonneg(s, a, b);
    if m < b - 1 {
        lemma_cvr_at(s, a, b - 1, m);
    } else {
        lemma_cvr_nonneg(s, a, b - 1);
    }
}

pub proof fn lemma_cvr_nonneg(s: Seq<Peak>, a: int, b: int)
    ensures
        cvr(s, a, b) >= 0,
    decreases b - a,
{
    if a < b {
        lemma_cvr_nonneg(s, a, b - 1);
    }
}

pub proof fn lemma_cvr_two(s: Seq<Peak>, a: int, b: int, m1: int, m2: int)
    requires
        a <= m1 < m2 < b,
        peak_valid(s[m1]),
        peak_valid(s[m2]),
    ensures
        cvr(s, a, b) >= 2,
    decreases b - a,
{
    if m2 < b - 1 {
        lemma_cvr_two(s, a, b - 1, m1, m2);
    } else {
        lemma_cvr_at(s, a, b - 1, m1);
    }
}

/// A valid peak somewhere keeps the valid count at one or more.
pub proof fn lemma_nvalid_at(s: Seq<Peak>, m: int)
    requires
        0 <= m < s.len(),
        peak_valid(s[m]),
    ensures
        nvalid(s) >= 1,
    decreases s.len(),
{
    lemma_nvalid_nonneg(s);
    if m < s.len() - 1 {
        lemma_nvalid_at(s.drop_last(), m);
    } else {
        lemma_nvalid_nonneg(s.drop_last());
    }
}

pub proof fn lemma_nvalid_nonneg(s: Seq<Peak>)
    ensures
        nvalid(s) >= 0,
        all_valid(s) ==> nvalid(s) == s.len(),
    decreases s.len(),
{
    if s.len() > 0 {
        lemma_nvalid_nonneg(s.drop_last());
    }
}

/// The close pair chosen for the progress argument is still untouched: both
/// peaks as at entry, neither index processed yet.
pub open spec fn pair_intact(init: Seq<Peak>, sp: Seq<Peak>, order: Seq<usize>, t: int, pi: int) -> bool {
    &&& sp[pi] == init[pi]
    &&& sp[pi + 1] == init[pi + 1]
    &&& forall|k: int| 0 <= k < t ==> (#[trigger] order[k]) as int != pi && order[k] as int != pi + 1
}

/// One centroiding pass: visits peaks by descending intensity; each live
/// seed absorbs the contiguous run of peaks within its left and right merge
/// tolerances (the run always contains the seed itself, so the absorbed
/// intensity is positive and the intensity-weighted mean m/z is well
/// defined), then the spectrum is re-canonicalized. Total intensity is
/// conserved exactly, and whenever some adjacent pair was closer than the
/// scan threshold the pass strictly shrinks the spectrum, which bounds the
/// fixed-point iteration.
pub fn centroid_spectrum(
    spectrum: Vec<Peak>,
    min_ms2_difference_in_da: i64,
    min_ms2_difference_in_ppm: i64,
) -> (out: Vec<Peak>)
    requires
        is_canonical(spectrum@),
        all_wf(spectrum@),
        isum(spectrum@) <= INTENSITY_LIMIT as int,
        -VAL_LIMIT <= min_ms2_difference_in_da <= VAL_LIMIT,
        min_ms2_difference_in_ppm < PPM_DENOM,
    ensures
        is_canonical(out@),
        all_wf(out@),
        isum(out@) == isum(spectrum@),
        out@.len() <= spectrum@.len(),
        has_close_pair(spectrum@, min_ms2_difference_in_da as int, min_ms2_difference_in_ppm as int)
            ==> out@.len() < spectrum@.len(),
        spectrum@.len() > 0 ==> out@.len() >= 1,
        spectrum@.len() > 0 ==> forall|k: int|
            0 <= k < out@.len() ==> spectrum@[0].mz <= (#[trigger] out@[k]).mz
                <= spectrum@[spectrum@.len() - 1].mz,
{
    let ghost init = spectrum@;
    let ghost da = min_ms2_difference_in_da as int;
    let ghost ppm = min_ms2_difference_in_ppm as int;
    let ghost glo: int = if init.len() > 0 { init[0].mz as int } else { 0 };
    let ghost ghi: int = if init.len() > 0 { init[init.len() - 1].mz as int } else { 0 };
    let ghost has_cp = has_close_pair(init, da, ppm);
    let ghost pi: int = if has_cp {
        choose|i: int| 0 <= i < init.len() - 1 && #[trigger] close_at(init, i, da, ppm)
    } else {
        0
    };
    proof {
        lemma_nvalid_nonneg(init);
        lemma_isum_nonneg(init);
    }
    let order = calculate_spectrum_argsort(&spectrum);
    let mut sp = spectrum;
    let n = sp.len();
    let mut t: usize = 0;
    while t < order.len()
        invariant
            argsort_ok(init, order@),
            n == init.len(),
            sp@.len() == n,
            all_wf(init),
            is_canonical(init),
            isum(init) <= INTENSITY_LIMIT as int,
            -VAL_LIMIT <= min_ms2_difference_in_da <= VAL_LIMIT,
            min_ms2_difference_in_ppm < PPM_DENOM,
            da == min_ms2_difference_in_da as int,
            ppm == min_ms2_difference_in_ppm as int,
            glo == if init.len() > 0 { init[0].mz as int } else { 0 },
            ghi == if init.len() > 0 { init[init.len() - 1].mz as int } else { 0 },
            0 <= glo <= ghi <= VAL_LIMIT as int,
            has_cp == has_close_pair(init, da, ppm),
            has_cp ==> 0 <= pi < init.len() - 1 && close_at(init, pi, da, ppm),
            forall|k: int| 0 <= k < sp@.len() ==> (#[trigger] sp@[k]).intensity >= 0,
            forall|k: int| 0 <= k < sp@.len() ==> glo <= (#[trigger] sp@[k]).mz <= ghi,
            isum(sp@) == isum(init),
            nvalid(sp@) <= init.len(),
            init.len() > 0 ==> nvalid(sp@) >= 1,
            has_cp ==> (nvalid(sp@) < init.len() || pair_intact(init, sp@, order@, t as int, pi)),
        decreases order.len() - t,
    {
        let idx = order[t];
        let p = sp[idx];
        let ghost snap = sp@;
        let ghost pair_live = has_cp && pair_intact(init, snap, order@, t as int, pi);
        if p.intensity > 0 {
            // Effective merge tolerances for this seed.
            let (tl, tr): (i64, i64) = if min_ms2_difference_in_ppm > 0 {
                proof {
                    lemma_ppm_product_bounds(p.mz as int, min_ms2_difference_in_ppm as int);
                    vstd::arithmetic::div_mod::lemma_div_nonincreasing(
                        p.mz as int * 1_000_000,
                        1_000_000 - ppm,
                    );
                    vstd::arithmetic::div_mod::lemma_div_pos_is_pos(
                        p.mz as int * 1_000_000,
                        1_000_000 - ppm,
                    );
                    assert(p.mz as int * 1_000_000 <= VAL_LIMIT as int * 1_000_000)
                        by (nonlinear_arith)
                        requires
                            0 <= p.mz <= VAL_LIMIT,
                    ;
                }
                let a: u128 = (p.mz as u128) * ((min_ms2_difference_in_ppm as u128))
                    / 1_000_000u128;
                let b: u128 = (p.mz as u128) * 1_000_000u128 / (1_000_000u128
                    - (min_ms2_difference_in_ppm as u128));
                (a as i64, b as i64)
            } else {
                (min_ms2_difference_in_da, min_ms2_difference_in_da)
            };
            proof {
                assert(tl as int == tol_left(p.mz as int, da, ppm));
                assert(tr as int == tol_right(p.mz as int, da, ppm));
            }
            // Expand the left boundary of the absorbed run.
            let mut lo = idx;
            while lo > 0 && p.mz - sp[lo - 1].mz <= tl
                invariant
                    lo <= idx,
                    idx < n,
                    sp@ == snap,
                    sp@.len() == n,
                    forall|k: int| 0 <= k < sp@.len() ==> glo <= (#[trigger] sp@[k]).mz <= ghi,
                    0 <= glo <= ghi <= VAL_LIMIT as int,
                    glo <= p.mz <= ghi,
                decreases lo,
            {
                lo -= 1;
            }
            // Expand the right boundary.
            let mut hi = idx;
            while hi + 1 < n && sp[hi + 1].mz - p.mz <= tr
                invariant
                    idx <= hi < n,
                    sp@ == snap,
                    sp@.len() == n,
                    forall|k: int| 0 <= k < sp@.len() ==> glo <= (#[trigger] sp@[k]).mz <= ghi,
                    0 <= glo <= ghi <= VAL_LIMIT as int,
                    glo <= p.mz <= ghi,
                decreases n - hi,
            {
                hi += 1;
            }
            proof {
                if pair_live {
                    lemma_close_pair_within_tols(
                        init[pi].mz as int,
                        init[pi + 1].mz as int,
                        da,
                        ppm,
                    );
                    if idx as int == pi {
                        // The right scan cannot have stopped before the partner.
                        if (hi as int) < pi + 1 {
                            assert(hi as int == pi);
                            assert(sp@[pi + 1].mz - p.mz > tr);
                            assert(false);
                        }
                    }
                    if idx as int == pi + 1 {
                        if (lo as int) > pi {
                            assert(lo as int == pi + 1);
                            assert(p.mz - sp@[pi].mz > tl);
                            assert(false);
                        }
                    }
                }
            }
            // Absorb the run: accumulate and zero out.
            proof {
                lemma_isum_nonneg(sp@);
            }
            let ghost snap2 = sp@;
            let mut acc_i: i64 = 0;
            let mut acc_w: u128 = 0;
            let mut k = lo;
            while k <= hi
                invariant
                    lo <= k <= hi + 1,
                    lo <= idx <= hi < n,
                    sp@.len() == n,
                    snap2.len() == n,
                    snap2 == snap,
                    forall|m: int| 0 <= m < n && !(lo <= m < k) ==> sp@[m] == snap2[m],
                    forall|m: int|
                        lo <= m < k ==> (#[trigger] sp@[m]) == (Peak {
                            mz: snap2[m].mz,
                            intensity: 0,
                        }),
                    forall|m: int| 0 <= m < sp@.len() ==> (#[trigger] sp@[m]).intensity >= 0,
                    forall|m: int| 0 <= m < sp@.len() ==> glo <= (#[trigger] sp@[m]).mz <= ghi,
                    forall|m: int| 0 <= m < n ==> (#[trigger] snap2[m]).intensity >= 0,
                    0 <= glo <= ghi <= VAL_LIMIT as int,
                    isum(init) <= INTENSITY_LIMIT as int,
                    0 <= acc_i,
                    isum(sp@) == isum(init) - acc_i,
                    isum(sp@) >= 0,
                    acc_w <= acc_i as int * ghi,
                    acc_w >= acc_i as int * glo,
                    nvalid(sp@) == nvalid(snap2) - cvr(snap2, lo as int, k as int),
                    (k as int) > (idx as int) ==> acc_i as int >= snap2[idx as int].intensity,
                    snap2[idx as int].intensity > 0,
                decreases hi + 1 - k,
            {
                let q = sp[k];
                proof {
                    lemma_isum_element_bound(sp@, k as int);
                    assert(acc_i as int + q.intensity <= isum(init));
                    assert(acc_w + (q.intensity as u128) * (q.mz as u128) <= (acc_i as int
                        + q.intensity) * ghi && acc_w + (q.intensity as u128) * (q.mz as u128)
                        >= (acc_i as int + q.intensity) * glo) by (nonlinear_arith)
                        requires
                            acc_w <= acc_i as int * ghi,
                            acc_w >= acc_i as int * glo,
                            0 <= glo <= ghi,
                            q.intensity >= 0,
                            glo <= q.mz <= ghi,
                            acc_i >= 0,
                    ;
                    assert(acc_i as int + q.intensity <= INTENSITY_LIMIT as int);
                    assert((acc_i as int + q.intensity) * ghi <= INTENSITY_LIMIT as int
                        * VAL_LIMIT as int) by (nonlinear_arith)
                        requires
                            0 <= acc_i as int + q.intensity <= INTENSITY_LIMIT as int,
                            0 <= ghi <= VAL_LIMIT as int,
                    ;
                    assert((q.intensity as int) * (q.mz as int) <= INTENSITY_LIMIT as int
                        * VAL_LIMIT as int) by (nonlinear_arith)
                        requires
                            0 <= q.intensity <= INTENSITY_LIMIT as int,
                            0 <= q.mz <= VAL_LIMIT as int,
                    ;
                    lemma_isum_update(sp@, k as int, Peak { mz: q.mz, intensity: 0 });
                    lemma_nvalid_update(sp@, k as int, Peak { mz: q.mz, intensity: 0 });
                }
                acc_i = acc_i + q.intensity;
                acc_w = acc_w + (q.intensity as u128) * (q.mz as u128);
                sp.set(k, Peak { mz: q.mz, intensity: 0 });
                proof {
                    lemma_isum_nonneg(sp@);
                }
                k += 1;
            }
            proof {
                assert(acc_i > 0);
                lemma_cvr_at(snap2, lo as int, hi as int + 1, idx as int);
                vstd::arithmetic::mul::lemma_mul_is_commutative(acc_i as int, glo);
                vstd::arithmetic::mul::lemma_mul_is_commutative(acc_i as int, ghi);
                vstd::arithmetic::div_mod::lemma_div_is_ordered(
                    acc_i as int * glo,
                    acc_w as int,
                    acc_i as int,
                );
                vstd::arithmetic::div_mod::lemma_div_is_ordered(
                    acc_w as int,
                    acc_i as int * ghi,
                    acc_i as int,
                );
                vstd::arithmetic::div_mod::lemma_div_by_multiple(glo, acc_i as int);
                vstd::arithmetic::div_mod::lemma_div_by_multiple(ghi, acc_i as int);
                assert(glo <= acc_w as int / acc_i as int <= ghi);
            }
            // The weighted-mean m/z of the absorbed run.
            let mean: i64 = (acc_w / (acc_i as u128)) as i64;
            proof {
                assert(mean as int == acc_w as int / acc_i as int);
                lemma_isum_update(sp@, idx as int, Peak { mz: mean, intensity: acc_i });
                lemma_nvalid_update(sp@, idx as int, Peak { mz: mean, intensity: acc_i });
            }
            sp.set(idx, Peak { mz: mean, intensity: acc_i });
            proof {
                lemma_nvalid_at(sp@, idx as int);
                lemma_cvr_nonneg(snap2, lo as int, hi as int + 1);
                if pair_live {
                    if idx as int == pi || idx as int == pi + 1 {
                        if idx as int == pi {
                            lemma_cvr_two(snap2, lo as int, hi as int + 1, pi, pi + 1);
                        } else {
                            lemma_cvr_two(snap2, lo as int, hi as int + 1, pi, pi + 1);
                        }
                        assert(nvalid(sp@) < init.len());
                    } else {
                        if lo as int <= pi <= hi as int {
                            lemma_cvr_two(
                                snap2,
                                lo as int,
                                hi as int + 1,
                                if (pi) < (idx as int) { pi } else { idx as int },
                                if (pi) < (idx as int) { idx as int } else { pi },
                            );
                            assert(nvalid(sp@) < init.len());
                        } else if lo as int <= pi + 1 <= hi as int {
                            lemma_cvr_two(
                                snap2,
                                lo as int,
                                hi as int + 1,
                                if (pi + 1) < (idx as int) { pi + 1 } else { idx as int },
                                if (pi + 1) < (idx as int) { idx as int } else { pi + 1 },
                            );
                            assert(nvalid(sp@) < init.len());
                        } else {
                            assert(sp@[pi] == init[pi]);
                            assert(sp@[pi + 1] == init[pi + 1]);
                        }
                    }
                }
            }
        }
        proof {
            if has_cp && !(nvalid(sp@) < init.len()) {
                // The pair survives this iteration untouched.
                assert(pair_intact(init, sp@, order@, t as int + 1, pi));
            }
        }
        t += 1;
    }
    proof {
        if has_cp {
            // Every index was processed, so the pair cannot be intact.
            if !(nvalid(sp@) < init.len()) {
                assert(order@.contains(pi as usize));
                let w = choose|w: int| 0 <= w < order@.len() && order@[w] == pi as usize;
                assert(false);
            }
        }
        lemma_canon_spec_props(sp@);
    }
    proof {
        crate::spectrum::lemma_valid_peaks_props(sp@);
    }
    let ghost fin = sp@;
    let out = sort_spectrum_by_mz_and_zero_intensity(sp);
    proof {
        assert(isum(out@) == isum(init));
        assert forall|k: int| 0 <= k < out@.len() implies glo <= (#[trigger] out@[k]).mz <= ghi
            && out@[k].intensity <= INTENSITY_LIMIT as int by {
            assert(valid_peaks(fin).contains(out@[k]));
            let w1 = choose|w: int| 0 <= w < valid_peaks(fin).len() && valid_peaks(fin)[w] == out@[k];
            assert(fin.contains(valid_peaks(fin)[w1]));
            let w2 = choose|w: int| 0 <= w < fin.len() && fin[w] == out@[k];
            assert(glo <= fin[w2].mz <= ghi);
            lemma_isum_element_bound(out@, k);
        }
    }
    out
}

} // verus!
