//! The entropy-similarity comparator: a tolerance-aware merge-join over two
//! canonical spectra accumulating Shannon-entropy-like terms, scored into
//! `[0, INTENSITY_ONE]`.
//!
//! Logarithms are computed in fixed point: `log2_fp(x)` approximates
//! `log2(x / INTENSITY_ONE)` in units of `LOG_ONE`, by normalizing the
//! mantissa and extracting sixteen fraction bits through repeated squaring.

use vstd::prelude::*;
use crate::spectrum::{
    Peak, is_canonical, isum, VAL_LIMIT, LEN_LIMIT, INTENSITY_LIMIT, INTENSITY_ONE, PPM_DENOM,
    all_raw_bounded,
};
use crate::cleaner::clean_spectrum;

verus! {

/// Fixed-point unit of the logarithm's fractional part (2^16).
pub const LOG_ONE: i64 = 65536;

/// Floor of the base-2 logarithm.
pub open spec fn ilog2(x: int) -> int
    decreases x,
{
    if x < 2 {
        0
    } else {
        1 + ilog2(x / 2)
    }
}

/// Powers of two.
pub open spec fn p2i(k: nat) -> int
    decreases k,
{
    if k == 0 {
        1
    } else {
        2 * p2i((k - 1) as nat)
    }
}

/// One fraction-bit extraction round: square the mantissa, rescale, and
/// note whether it crossed the next power of two. The state is the mantissa
/// and the fraction bits collected so far.
pub open spec fn frac_state(m0: int, k: nat) -> (int, int)
    decreases k,
{
    if k == 0 {
        (m0, 0)
    } else {
        let prev = frac_state(m0, (k - 1) as nat);
        let m2 = prev.0 * prev.0 / 0x4000_0000_0000_0000;
        if m2 >= 0x8000_0000_0000_0000 {
            (m2 / 2, 2 * prev.1 + 1)
        } else {
            (m2, 2 * prev.1)
        }
    }
}

/// Fixed-point base-2 logarithm of `x / INTENSITY_ONE`, in units of
/// `LOG_ONE`: the exponent relative to `INTENSITY_ONE`, plus sixteen
/// fraction bits of the normalized mantissa.
pub open spec fn log2_fp(x: int) -> int {
    (ilog2(x) - 20) * (LOG_ONE as int) + frac_state(x * p2i((62 - ilog2(x)) as nat), 16).1
}

/// `x * log2(x)` in fixed point; zero on non-positive arguments, which the
/// comparator never passes (canonical peaks have positive intensity).
pub open spec fn xlog2x(x: int) -> int {
    if x <= 0 {
        0
    } else {
        x * log2_fp(x) / (LOG_ONE as int)
    }
}

/// The entropy gain of matching two peak intensities.
pub open spec fn ent_term(ia: int, ib: int) -> int {
    xlog2x(ia + ib) - xlog2x(ia) - xlog2x(ib)
}

/// The match tolerance of the merge-join: relative to the left spectrum's
/// current m/z when the ppm tolerance is positive, else absolute.
pub open spec fn sim_tol(mz_a: int, da: int, ppm: int) -> int {
    if ppm > 0 {
        ppm * mz_a / (PPM_DENOM as int)
    } else {
        da
    }
}

/// The two-pointer merge-join: advances the spectrum with the smaller m/z
/// until the pair is within tolerance, then consumes both peaks and
/// accumulates their entropy term. Each peak joins at most one match.
pub open spec fn join_sum(a: Seq<Peak>, b: Seq<Peak>, da: int, ppm: int, i: int, j: int) -> int
    decreases a.len() + b.len() - i - j,
    when 0 <= i <= a.len() && 0 <= j <= b.len()
{
    if i >= a.len() || j >= b.len() {
        0
    } else {
        let delta = a[i].mz - b[j].mz;
        let tol = sim_tol(a[i].mz as int, da, ppm);
        if delta < -tol {
            join_sum(a, b, da, ppm, i + 1, j)
        } else if delta > tol {
            join_sum(a, b, da, ppm, i, j + 1)
        } else {
            ent_term(a[i].intensity as int, b[j].intensity as int) + join_sum(
                a,
                b,
                da,
                ppm,
                i + 1,
                j + 1,
            )
        }
    }
}

/// The final score: zero when either spectrum is empty, else half the join
/// sum clamped into `[0, INTENSITY_ONE]`.
pub open spec fn score_spec(a: Seq<Peak>, b: Seq<Peak>, da: int, ppm: int) -> int {
    if a.len() == 0 || b.len() == 0 {
        0
    } else {
        let s = join_sum(a, b, da, ppm, 0, 0) / 2;
        if s < 0 {
            0
        } else if s > INTENSITY_ONE as int {
            INTENSITY_ONE as int
        } else {
            s
        }
    }
}

/// Bounds under which a peak can enter the comparator.
pub open spec fn sim_peak_ok(p: Peak) -> bool {
    0 <= p.mz <= VAL_LIMIT && 0 < p.intensity <= INTENSITY_LIMIT
}

pub open spec fn sim_ready(s: Seq<Peak>) -> bool {
    forall|i: int| 0 <= i < s.len() ==> sim_peak_ok(#[trigger] s[i])
}

/// Power-of-two values used by the mantissa normalization.
pub proof fn lemma_p2i_values()
    ensures
        p2i(16) == 65536,
        p2i(20) == 0x10_0000,
        p2i(61) == 0x2000_0000_0000_0000,
        p2i(62) == 0x4000_0000_0000_0000,
        p2i(63) == 0x8000_0000_0000_0000,
{
    reveal_with_fuel(p2i, 64);
}

pub proof fn lemma_p2i_pos(k: nat)
    ensures
        p2i(k) >= 1,
    decreases k,
{
    if k > 0 {
        lemma_p2i_pos((k - 1) as nat);
    }
}

pub proof fn lemma_p2i_add(a: nat, b: nat)
    ensures
        p2i(a) * p2i(b) == p2i((a + b) as nat),
    decreases a,
{
    if a == 0 {
        vstd::arithmetic::mul::lemma_mul_basics(p2i(b));
    } else {
        lemma_p2i_add((a - 1) as nat, b);
        assert(p2i(a) * p2i(b) == (2 * p2i((a - 1) as nat)) * p2i(b));
        vstd::arithmetic::mul::lemma_mul_is_associative(2, p2i((a - 1) as nat), p2i(b));
    }
}

pub proof fn lemma_p2i_mono(a: nat, b: nat)
    requires
        a <= b,
    ensures
        p2i(a) <= p2i(b),
    decreases b,
{
    if a < b {
        lemma_p2i_mono(a, (b - 1) as nat);
        lemma_p2i_pos((b - 1) as nat);
    }
}

/// The floor logarithm brackets its argument between consecutive powers of
/// two.
pub proof fn lemma_ilog2_range(x: int)
    requires
        x >= 1,
    ensures
        0 <= ilog2(x),
        p2i(ilog2(x) as nat) <= x < 2 * p2i(ilog2(x) as nat),
    decreases x,
{
    if x < 2 {
    } else {
        lemma_ilog2_range(x / 2);
        vstd::arithmetic::div_mod::lemma_fundamental_div_mod(x, 2);
    }
}

/// The floor logarithm stays below any exponent whose power exceeds the
/// argument.
pub proof fn lemma_ilog2_below(x: int, k: nat)
    requires
        1 <= x,
        x < p2i(k),
    ensures
        ilog2(x) < k,
{
    lemma_ilog2_range(x);
    if ilog2(x) >= k {
        lemma_p2i_mono(k, ilog2(x) as nat);
        assert(false);
    }
}

/// Floor of the base-2 logarithm, by repeated halving.
fn floor_log2(x: i64) -> (e: usize)
    requires
        1 <= x,
    ensures
        e as int == ilog2(x as int),
        e <= 63,
{
    proof {
        lemma_p2i_values();
        lemma_ilog2_below(x as int, 63);
        lemma_ilog2_range(x as int);
    }
    let mut t: u64 = x as u64;
    let mut e: usize = 0;
    while t >= 2
        invariant
            1 <= t,
            ilog2(x as int) == e + ilog2(t as int),
            e <= 64,
            t <= u64::MAX,
            e + ilog2(t as int) <= 64,
        decreases t,
    {
        proof {
            lemma_ilog2_range(t as int);
            lemma_ilog2_range(t as int / 2);
        }
        t = t / 2;
        e = e + 1;
    }
    proof {
        lemma_ilog2_range(x as int);
        lemma_p2i_values();
        lemma_ilog2_below(x as int, 63);
    }
    e
}

/// Fixed-point base-2 logarithm of `x / INTENSITY_ONE` in units of
/// `LOG_ONE`, exactly as the specification's normalize-and-square recursion
/// defines it.
pub fn log2_fixed(x: i64) -> (r: i64)
    requires
        1 <= x <= 0x4000_0000_0000_0000,
    ensures
        r as int == log2_fp(x as int),
        -21 * (LOG_ONE as int) <= r as int <= 43 * (LOG_ONE as int),
{
    let e = floor_log2(x);
    proof {
        lemma_ilog2_range(x as int);
        lemma_p2i_values();
        lemma_ilog2_below(x as int, 63);
    }
    // Normalize the mantissa into [2^62, 2^63).
    let mut m: u128 = x as u128;
    let mut ee: usize = e;
    proof {
        vstd::arithmetic::mul::lemma_mul_basics(x as int);
    }
    while ee < 62
        invariant
            e <= ee <= 62,
            e as int == ilog2(x as int),
            1 <= x,
            m as int == (x as int) * p2i((ee - e) as nat),
            p2i(ee as nat) <= (m as int) && (m as int) < p2i((ee + 1) as nat),
        decreases 62 - ee,
    {
        proof {
            lemma_p2i_add((ee - e) as nat, 1);
            assert(p2i(1) == 2) by {
                lemma_p2i_values();
                lemma_p2i_mono(1, 16);
                assert(p2i(1) == 2 * p2i(0));
            }
            assert((x as int) * p2i((ee - e) as nat) * 2 == (x as int) * (p2i((ee - e) as nat)
                * 2)) by (nonlinear_arith);
            lemma_p2i_values();
            lemma_p2i_mono((ee + 2) as nat, 63);
        }
        m = m * 2;
        ee = ee + 1;
    }
    proof {
        lemma_p2i_values();
    }
    let ghost m0 = m as int;
    // Extract sixteen fraction bits by repeated squaring.
    let mut f: i64 = 0;
    let mut k: usize = 0;
    while k < 16
        invariant
            k <= 16,
            0x4000_0000_0000_0000 <= m < 0x8000_0000_0000_0000,
            frac_state(m0, k as nat) == (m as int, f as int),
            0 <= f,
            (f as int) < p2i(k as nat),
        decreases 16 - k,
    {
        proof {
            assert((m as int) * (m as int) < 0x4000_0000_0000_0000_0000_0000_0000_0000
                && (m as int) * (m as int) >= 0x1000_0000_0000_0000_0000_0000_0000_0000)
                by (nonlinear_arith)
                requires
                    0x4000_0000_0000_0000 <= (m as int) && (m as int) < 0x8000_0000_0000_0000,
            ;
            vstd::arithmetic::div_mod::lemma_div_is_ordered(
                0x1000_0000_0000_0000_0000_0000_0000_0000,
                (m as int) * (m as int),
                0x4000_0000_0000_0000,
            );
            vstd::arithmetic::div_mod::lemma_div_by_multiple(
                0x4000_0000_0000_0000,
                0x4000_0000_0000_0000,
            );
            vstd::arithmetic::div_mod::lemma_multiply_divide_lt(
                (m as int) * (m as int),
                0x1_0000_0000_0000_0000,
                0x4000_0000_0000_0000,
            );
        }
        proof {
            lemma_p2i_values();
            assert(p2i(16) == 2 * p2i(15));
            lemma_p2i_mono(k as nat, 15);
            assert(f < 32768);
            lemma_p2i_mono((k + 1) as nat, 16);
        }
        let m2: u128 = (m * m) / 0x4000_0000_0000_0000u128;
        if m2 >= 0x8000_0000_0000_0000u128 {
            m = m2 / 2;
            f = 2 * f + 1;
        } else {
            m = m2;
            f = 2 * f;
        }
        k = k + 1;
    }
    proof {
        lemma_p2i_values();
    }
    let r: i64 = ((e as i64) - 20) * LOG_ONE + f;
    r
}

/// Floor division of a possibly negative numerator by a positive divisor,
/// matching the specification's Euclidean division.
fn floor_div_i128(a: i128, d: i128) -> (q: i128)
    requires
        0 < d <= 0x1_0000_0000_0000_0000,
        -0x4000_0000_0000_0000_0000_0000_0000_0000 < a < 0x4000_0000_0000_0000_0000_0000_0000_0000,
    ensures
        q as int == a as int / d as int,
{
    if a >= 0 {
        let q = (a as u128) / (d as u128);
        q as i128
    } else {
        let na: u128 = (-a) as u128;
        let qq: u128 = (na + (d as u128) - 1) / (d as u128);
        proof {
            let nai = na as int;
            let di = d as int;
            let qi = qq as int;
            vstd::arithmetic::div_mod::lemma_fundamental_div_mod(nai + di - 1, di);
            vstd::arithmetic::div_mod::lemma_mod_division_less_than_divisor(nai + di - 1, di);
            assert(qi * di >= nai && qi * di < nai + di) by {
                assert(di * qi == nai + di - 1 - ((nai + di - 1) % di));
                vstd::arithmetic::mul::lemma_mul_is_commutative(qi, di);
            }
            assert((-qi) * di == -(qi * di)) by (nonlinear_arith);
            vstd::arithmetic::div_mod::lemma_fundamental_div_mod_converse(
                -nai,
                di,
                -qi,
                qi * di - nai,
            );
        }
        -(qq as i128)
    }
}

/// `x * log2_fp(x) / LOG_ONE`, the fixed-point `x log2 x`.
pub fn xlog2x_fixed(x: i64) -> (r: i128)
    requires
        0 <= x <= 0x4000_0000_0000_0000,
    ensures
        r as int == xlog2x(x as int),
        -0x1000_0000_0000_0000_0000_0000 <= r as int <= 0x1000_0000_0000_0000_0000_0000,
{
    if x == 0 {
        return 0;
    }
    let l = log2_fixed(x);
    proof {
        assert(-0x1000_0000_0000_0000_0000_0000 <= (x as int) * (l as int)
            <= 0x1000_0000_0000_0000_0000_0000) by (nonlinear_arith)
            requires
                1 <= x as int <= 0x4000_0000_0000_0000,
                -21 * 65536 <= l as int <= 43 * 65536,
        ;
    }
    let prod: i128 = (x as i128) * (l as i128);
    let q = floor_div_i128(prod, LOG_ONE as i128);
    proof {
        vstd::arithmetic::div_mod::lemma_fundamental_div_mod(prod as int, 65536);
        vstd::arithmetic::div_mod::lemma_mod_division_less_than_divisor(prod as int, 65536);
        assert(-0x1000_0000_0000_0000_0000_0000 <= q as int
            <= 0x1000_0000_0000_0000_0000_0000) by (nonlinear_arith)
            requires
                q as int == (prod as int) / 65536,
                prod as int == 65536 * ((prod as int) / 65536) + (prod as int) % 65536,
                0 <= (prod as int) % 65536 < 65536,
                -0x1000_0000_0000_0000_0000_0000 <= prod as int
                    <= 0x1000_0000_0000_0000_0000_0000,
        ;
    }
    q
}

/// The entropy gain of one matched pair.
fn entropy_term(ia: i64, ib: i64) -> (r: i128)
    requires
        1 <= ia <= INTENSITY_LIMIT,
        1 <= ib <= INTENSITY_LIMIT,
    ensures
        r as int == ent_term(ia as int, ib as int),
        -0x3000_0000_0000_0000_0000_0000 <= r as int <= 0x3000_0000_0000_0000_0000_0000,
{
    let tab = xlog2x_fixed(ia + ib);
    let ta = xlog2x_fixed(ia);
    let tb = xlog2x_fixed(ib);
    tab - ta - tb
}

/// The unweighted entropy similarity of two spectra: optionally cleans both
/// in place (with doubled merge tolerances, so centroiding is coarser than
/// the match tolerance, and with normalization), then merge-joins them and
/// scores the accumulated entropy terms into `[0, INTENSITY_ONE]`. An empty
/// spectrum on either side scores zero.
pub fn calculate_unweighted_entropy_similarity(
    peaks_a: &mut Vec<Peak>,
    peaks_b: &mut Vec<Peak>,
    ms2_tolerance_in_da: i64,
    ms2_tolerance_in_ppm: i64,
    clean_spectra: bool,
    min_mz: i64,
    max_mz: i64,
    noise_threshold: i64,
    max_peak_num: usize,
) -> (r: i64)
    requires
        old(peaks_a)@.len() <= LEN_LIMIT,
        old(peaks_b)@.len() <= LEN_LIMIT,
        -0x80_0000_0000 <= ms2_tolerance_in_da <= 0x80_0000_0000,
        -VAL_LIMIT <= ms2_tolerance_in_ppm < 500_000,
        clean_spectra ==> all_raw_bounded(old(peaks_a)@) && all_raw_bounded(old(peaks_b)@)
            && -VAL_LIMIT <= min_mz <= VAL_LIMIT && -VAL_LIMIT <= max_mz <= VAL_LIMIT
            && -VAL_LIMIT <= noise_threshold <= VAL_LIMIT,
        !clean_spectra ==> is_canonical(old(peaks_a)@) && sim_ready(old(peaks_a)@)
            && is_canonical(old(peaks_b)@) && sim_ready(old(peaks_b)@),
    ensures
        r as int == score_spec(
            final(peaks_a)@,
            final(peaks_b)@,
            ms2_tolerance_in_da as int,
            ms2_tolerance_in_ppm as int,
        ),
        0 <= r <= INTENSITY_ONE,
        !clean_spectra ==> final(peaks_a)@ == old(peaks_a)@ && final(peaks_b)@ == old(peaks_b)@,
        is_canonical(final(peaks_a)@) && is_canonical(final(peaks_b)@),
        final(peaks_a)@.len() <= old(peaks_a)@.len(),
        final(peaks_b)@.len() <= old(peaks_b)@.len(),
        (final(peaks_a)@.len() == 0 || final(peaks_b)@.len() == 0) ==> r == 0,
{
    if clean_spectra {
        let mut tmp_a: Vec<Peak> = Vec::new();
        core::mem::swap(peaks_a, &mut tmp_a);
        let mut cleaned_a = clean_spectrum(
            tmp_a,
            min_mz,
            max_mz,
            noise_threshold,
            2 * ms2_tolerance_in_da,
            2 * ms2_tolerance_in_ppm,
            max_peak_num,
            true,
        );
        core::mem::swap(peaks_a, &mut cleaned_a);
        let mut tmp_b: Vec<Peak> = Vec::new();
        core::mem::swap(peaks_b, &mut tmp_b);
        let mut cleaned_b = clean_spectrum(
            tmp_b,
            min_mz,
            max_mz,
            noise_threshold,
            2 * ms2_tolerance_in_da,
            2 * ms2_tolerance_in_ppm,
            max_peak_num,
            true,
        );
        core::mem::swap(peaks_b, &mut cleaned_b);
    }
    let ghost ga = peaks_a@;
    let ghost gb = peaks_b@;
    let ghost da = ms2_tolerance_in_da as int;
    let ghost ppm = ms2_tolerance_in_ppm as int;
    proof {
        assert(sim_ready(ga) && sim_ready(gb));
    }
    if peaks_a.len() == 0 || peaks_b.len() == 0 {
        return 0;
    }
    let mut ai: usize = 0;
    let mut bi: usize = 0;
    let mut acc: i128 = 0;
    while ai < peaks_a.len() && bi < peaks_b.len()
        invariant
            ai <= ga.len(),
            bi <= gb.len(),
            peaks_a@ == ga,
            peaks_b@ == gb,
            ga.len() <= LEN_LIMIT,
            gb.len() <= LEN_LIMIT,
            sim_ready(ga),
            sim_ready(gb),
            -0x80_0000_0000 <= ms2_tolerance_in_da <= 0x80_0000_0000,
            -VAL_LIMIT <= ms2_tolerance_in_ppm < 500_000,
            da == ms2_tolerance_in_da as int,
            ppm == ms2_tolerance_in_ppm as int,
            join_sum(ga, gb, da, ppm, 0, 0) == acc + join_sum(
                ga,
                gb,
                da,
                ppm,
                ai as int,
                bi as int,
            ),
            -((ai + bi) as int) * 0x3000_0000_0000_0000_0000_0000 <= acc as int <= ((ai
                + bi) as int) * 0x3000_0000_0000_0000_0000_0000,
        decreases ga.len() - ai + gb.len() - bi,
    {
        let pa = peaks_a[ai];
        let pb = peaks_b[bi];
        let tol: i64 = if ms2_tolerance_in_ppm > 0 {
            proof {
                crate::centroid::lemma_ppm_product_bounds(
                    pa.mz as int,
                    ms2_tolerance_in_ppm as int,
                );
                vstd::arithmetic::mul::lemma_mul_is_commutative(
                    pa.mz as int,
                    ms2_tolerance_in_ppm as int,
                );
            }
            ((ms2_tolerance_in_ppm as u128) * (pa.mz as u128) / 1_000_000u128) as i64
        } else {
            ms2_tolerance_in_da
        };
        proof {
            assert(tol as int == sim_tol(pa.mz as int, da, ppm));
        }
        let delta = pa.mz - pb.mz;
        if delta < -tol {
            ai += 1;
        } else if delta > tol {
            bi += 1;
        } else {
            let t = entropy_term(pa.intensity, pb.intensity);
            acc = acc + t;
            ai += 1;
            bi += 1;
        }
    }
    proof {
        assert(join_sum(ga, gb, da, ppm, ai as int, bi as int) == 0);
        assert(acc as int == join_sum(ga, gb, da, ppm, 0, 0));
        assert(-0x4000_0000_0000_0000_0000_0000_0000_0000 < (acc as int)
            && (acc as int) < 0x4000_0000_0000_0000_0000_0000_0000_0000) by (nonlinear_arith)
            requires
                -((ai + bi) as int) * 0x3000_0000_0000_0000_0000_0000 <= acc as int <= ((ai
                    + bi) as int) * 0x3000_0000_0000_0000_0000_0000,
                0 <= (ai + bi) as int <= 0x20_0000,
        ;
    }
    let half = floor_div_i128(acc, 2);
    let score: i64 = if half < 0 {
        0
    } else if half > INTENSITY_ONE as i128 {
        INTENSITY_ONE
    } else {
        half as i64
    };
    score
}

/// Doubling the argument raises the fixed-point logarithm by exactly one
/// unit: the mantissa is unchanged, only the exponent moves.
pub proof fn lemma_log2_double(x: int)
    requires
        1 <= x <= 0x2000_0000_0000_0000,
    ensures
        log2_fp(2 * x) == log2_fp(x) + LOG_ONE as int,
{
    lemma_p2i_values();
    vstd::arithmetic::div_mod::lemma_div_multiples_vanish(x, 2);
    assert(ilog2(2 * x) == 1 + ilog2(x));
    let e = ilog2(x);
    lemma_ilog2_below(x, 62);
    lemma_ilog2_range(x);
    assert(p2i((62 - e) as nat) == 2 * p2i((62 - e - 1) as nat));
    assert((2 * x) * p2i((62 - (e + 1)) as nat) == x * p2i((62 - e) as nat))
        by (nonlinear_arith)
        requires
            0 <= e <= 61,
            p2i((62 - e) as nat) == 2 * p2i((62 - e - 1) as nat),
    ;
}

/// The entropy term of a peak matched against itself is twice its
/// intensity, up to one unit of rounding.
pub proof fn lemma_term_self(x: int)
    requires
        1 <= x <= 0x1000_0000_0000_0000,
    ensures
        2 * x <= ent_term(x, x) <= 2 * x + 1,
{
    lemma_log2_double(x);
    let l = log2_fp(x);
    let one = LOG_ONE as int;
    let b = x * l;
    vstd::arithmetic::div_mod::lemma_fundamental_div_mod(b, one);
    vstd::arithmetic::div_mod::lemma_mod_division_less_than_divisor(b, one);
    let q = b / one;
    let r = b % one;
    // (2x) * (l + one) == 2*b + (2*x)*one
    assert((2 * x) * (l + one) == 2 * b + 2 * x * one) by (nonlinear_arith)
        requires
            b == x * l,
    ;
    // floor((2b + 2x*one) / one) == 2x + floor(2b / one)
    vstd::arithmetic::div_mod::lemma_hoist_over_denominator(2 * b, 2 * x, one as nat);
    // floor(2b / one) is 2q or 2q + 1
    if 2 * r < one {
        vstd::arithmetic::div_mod::lemma_fundamental_div_mod_converse(2 * b, one, 2 * q, 2 * r);
    } else {
        vstd::arithmetic::div_mod::lemma_fundamental_div_mod_converse(
            2 * b,
            one,
            2 * q + 1,
            2 * r - one,
        );
    }
    assert(xlog2x(2 * x) == (2 * x) * log2_fp(2 * x) / one);
    assert((2 * x) * log2_fp(2 * x) == (2 * x) * (l + one));
}

/// Suffix sum of intensities from a position on.
pub open spec fn ssum(s: Seq<Peak>, i: int) -> int
    decreases s.len() - i,
    when 0 <= i <= s.len()
{
    if i >= s.len() {
        0
    } else {
        s[i].intensity + ssum(s, i + 1)
    }
}

pub proof fn lemma_ssum_isum(s: Seq<Peak>, i: int)
    requires
        0 <= i <= s.len(),
    ensures
        ssum(s, i) == isum(s) - isum(s.take(i)),
    decreases s.len() - i,
{
    if i >= s.len() {
        assert(s.take(i) =~= s);
    } else {
        lemma_ssum_isum(s, i + 1);
        assert(s.take(i + 1).drop_last() =~= s.take(i));
        assert(s.take(i + 1).last() == s[i]);
    }
}

/// Joining a spectrum against itself matches every peak with its own copy,
/// so the join sum is twice the total intensity, up to one rounding unit
/// per peak.
pub proof fn lemma_join_self(s: Seq<Peak>, da: int, ppm: int, i: int)
    requires
        sim_ready(s),
        ppm <= 0 ==> da >= 0,
        0 <= i <= s.len(),
    ensures
        2 * ssum(s, i) <= join_sum(s, s, da, ppm, i, i) <= 2 * ssum(s, i) + (s.len() - i),
    decreases s.len() - i,
{
    if i < s.len() {
        let p = s[i];
        let tol = sim_tol(p.mz as int, da, ppm);
        if ppm > 0 {
            assert(ppm * (p.mz as int) >= 0) by (nonlinear_arith)
                requires
                    ppm > 0,
                    p.mz >= 0,
            ;
            vstd::arithmetic::div_mod::lemma_div_pos_is_pos(ppm * (p.mz as int), 1_000_000);
        }
        assert(tol >= 0);
        lemma_term_self(p.intensity as int);
        lemma_join_self(s, da, ppm, i + 1);
    }
}

/// A canonical spectrum whose intensities sum exactly to `INTENSITY_ONE`
/// scores exactly `INTENSITY_ONE` against a copy of itself: every peak
/// matches itself under any non-negative tolerance.
pub proof fn lemma_self_similarity(s: Seq<Peak>, da: int, ppm: int)
    requires
        is_canonical(s),
        sim_ready(s),
        s.len() >= 1,
        isum(s) == INTENSITY_ONE as int,
        ppm <= 0 ==> da >= 0,
    ensures
        score_spec(s, s, da, ppm) == INTENSITY_ONE as int,
{
    lemma_join_self(s, da, ppm, 0);
    lemma_ssum_isum(s, 0);
    assert(s.take(0) =~= Seq::<Peak>::empty());
    let j = join_sum(s, s, da, ppm, 0, 0);
    let one = INTENSITY_ONE as int;
    assert(2 * one <= j <= 2 * one + s.len());
    vstd::arithmetic::div_mod::lemma_div_is_ordered(2 * one, j, 2);
    vstd::arithmetic::div_mod::lemma_div_multiples_vanish(one, 2);
    assert(j / 2 >= one);
}

} // verus!
