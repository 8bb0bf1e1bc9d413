//! The peak data model, the canonical peak order, and canonicalization:
//! sorting a spectrum by m/z with all non-positive-intensity peaks removed.

use vstd::prelude::*;

verus! {

/// Largest magnitude accepted for a raw m/z or intensity value, and for the
/// mass-tolerance parameters (2^40).
pub const VAL_LIMIT: i64 = 0x100_0000_0000;

/// Largest accepted number of peaks in a spectrum (2^20).
pub const LEN_LIMIT: usize = 0x10_0000;

/// Largest intensity that can arise while processing: a merged peak carries at
/// most the total intensity of the spectrum, `LEN_LIMIT * VAL_LIMIT` (2^60).
pub const INTENSITY_LIMIT: i64 = 0x1000_0000_0000_0000;

/// Fixed-point unit for normalized intensities: after normalization the
/// intensities of a spectrum sum to (almost exactly) this value (2^20).
pub const INTENSITY_ONE: i64 = 0x10_0000;

/// Denominator for relative quantities: parts-per-million tolerances and
/// noise fractions are given in millionths.
pub const PPM_DENOM: i64 = 1_000_000;

/// A single peak: a mass-to-charge ratio and an intensity, both fixed-point
/// integers in caller-chosen units.
#[derive(Clone, Copy, PartialEq, Eq, Structural, Debug)]
pub struct Peak {
    pub mz: i64,
    pub intensity: i64,
}

/// A peak is valid when its intensity is positive; invalid peaks are dropped
/// by canonicalization.
pub open spec fn peak_valid(p: Peak) -> bool {
    p.intensity > 0
}

/// Bounds on a raw input peak, as handed to cleaning.
pub open spec fn raw_bounded(p: Peak) -> bool {
    &&& -VAL_LIMIT <= p.mz <= VAL_LIMIT
    &&& -VAL_LIMIT <= p.intensity <= VAL_LIMIT
}

pub open spec fn all_raw_bounded(s: Seq<Peak>) -> bool {
    forall|i: int| 0 <= i < s.len() ==> raw_bounded(#[trigger] s[i])
}

/// Bounds that hold of every peak while the pipeline runs: a non-negative
/// m/z and an intensity no larger than the whole spectrum's total.
pub open spec fn wf_peak(p: Peak) -> bool {
    &&& 0 <= p.mz <= VAL_LIMIT
    &&& p.intensity <= INTENSITY_LIMIT
}

pub open spec fn all_wf(s: Seq<Peak>) -> bool {
    forall|i: int| 0 <= i < s.len() ==> wf_peak(#[trigger] s[i])
}

pub open spec fn all_valid(s: Seq<Peak>) -> bool {
    forall|i: int| 0 <= i < s.len() ==> peak_valid(#[trigger] s[i])
}

pub open spec fn sorted_by_mz(s: Seq<Peak>) -> bool {
    forall|i: int, j: int| 0 <= i <= j < s.len() ==> s[i].mz <= s[j].mz
}

/// The canonical form: every peak valid, ascending by m/z.
pub open spec fn is_canonical(s: Seq<Peak>) -> bool {
    all_valid(s) && sorted_by_mz(s)
}

/// Total intensity of a spectrum.
pub open spec fn isum(s: Seq<Peak>) -> int
    decreases s.len(),
{
    if s.len() == 0 {
        0
    } else {
        isum(s.drop_last()) + s.last().intensity
    }
}

/// The subsequence of valid peaks, in input order.
pub open spec fn valid_peaks(s: Seq<Peak>) -> Seq<Peak>
    decreases s.len(),
{
    if s.len() == 0 {
        Seq::<Peak>::empty()
    } else if peak_valid(s.last()) {
        valid_peaks(s.drop_last()).push(s.last())
    } else {
        valid_peaks(s.drop_last())
    }
}

/// Number of valid peaks.
pub open spec fn nvalid(s: Seq<Peak>) -> int {
    valid_peaks(s).len() as int
}

/// Stable insertion of a peak into an m/z-sorted sequence: the new peak goes
/// after every peak whose m/z is not greater.
pub open spec fn insert_sorted(s: Seq<Peak>, p: Peak) -> Seq<Peak>
    decreases s.len(),
{
    if s.len() == 0 {
        seq![p]
    } else if s.last().mz <= p.mz {
        s.push(p)
    } else {
        insert_sorted(s.drop_last(), p).push(s.last())
    }
}

/// Stable insertion sort by m/z.
pub open spec fn sort_by_mz(s: Seq<Peak>) -> Seq<Peak>
    decreases s.len(),
{
    if s.len() == 0 {
        Seq::<Peak>::empty()
    } else {
        insert_sorted(sort_by_mz(s.drop_last()), s.last())
    }
}

/// Canonicalization: the valid peaks, sorted ascending by m/z, equal-m/z
/// peaks kept in input order.
pub open spec fn canon_spec(s: Seq<Peak>) -> Seq<Peak> {
    sort_by_mz(valid_peaks(s))
}

/// Replacing one peak shifts the total intensity by the difference.
pub proof fn lemma_isum_update(s: Seq<Peak>, k: int, p: Peak)
    requires
        0 <= k < s.len(),
    ensures
        isum(s.update(k, p)) == isum(s) - s[k].intensity + p.intensity,
    decreases s.len(),
{
    if k == s.len() - 1 {
        assert(s.update(k, p).drop_last() =~= s.drop_last());
    } else {
        assert(s.update(k, p).drop_last() =~= s.drop_last().update(k, p));
        lemma_isum_update(s.drop_last(), k, p);
    }
}

/// Replacing one peak changes the valid count according to the validity of
/// the old and the new peak.
pub proof fn lemma_nvalid_update(s: Seq<Peak>, k: int, p: Peak)
    requires
        0 <= k < s.len(),
    ensures
        nvalid(s.update(k, p)) == nvalid(s) - (if peak_valid(s[k]) {
            1int
        } else {
            0int
        }) + (if peak_valid(p) {
            1int
        } else {
            0int
        }),
    decreases s.len(),
{
    if k == s.len() - 1 {
        assert(s.update(k, p).drop_last() =~= s.drop_last());
    } else {
        assert(s.update(k, p).drop_last() =~= s.drop_last().update(k, p));
        lemma_nvalid_update(s.drop_last(), k, p);
    }
}

/// When no intensity is negative, invalid peaks carry intensity zero, so the
/// valid peaks alone account for the whole total.
pub proof fn lemma_isum_valid_peaks(s: Seq<Peak>)
    requires
        forall|i: int| 0 <= i < s.len() ==> #[trigger] s[i].intensity >= 0,
    ensures
        isum(valid_peaks(s)) == isum(s),
    decreases s.len(),
{
    if s.len() > 0 {
        let t = s.drop_last();
        lemma_isum_valid_peaks(t);
        if peak_valid(s.last()) {
            assert(valid_peaks(t).push(s.last()).drop_last() =~= valid_peaks(t));
        } else {
            assert(s.last().intensity == 0);
        }
    }
}

/// Each intensity is bounded by the total when none is negative.
pub proof fn lemma_isum_element_bound(s: Seq<Peak>, k: int)
    requires
        forall|i: int| 0 <= i < s.len() ==> #[trigger] s[i].intensity >= 0,
        0 <= k < s.len(),
    ensures
        s[k].intensity <= isum(s),
        isum(s) >= 0,
    decreases s.len(),
{
    if s.len() > 0 {
        if k < s.len() - 1 {
            lemma_isum_element_bound(s.drop_last(), k);
        } else {
            lemma_isum_nonneg(s.drop_last());
        }
    }
}

pub proof fn lemma_isum_nonneg(s: Seq<Peak>)
    requires
        forall|i: int| 0 <= i < s.len() ==> #[trigger] s[i].intensity >= 0,
    ensures
        isum(s) >= 0,
    decreases s.len(),
{
    if s.len() > 0 {
        lemma_isum_nonneg(s.drop_last());
    }
}

/// A total-intensity bound from per-peak bounds.
pub proof fn lemma_isum_total_bound(s: Seq<Peak>, bound: int)
    requires
        forall|i: int| 0 <= i < s.len() ==> #[trigger] s[i].intensity <= bound,
    ensures
        isum(s) <= s.len() * bound,
    decreases s.len(),
{
    if s.len() > 0 {
        lemma_isum_total_bound(s.drop_last(), bound);
        assert(s.drop_last().len() as int * bound + bound == s.len() as int * bound)
            by (nonlinear_arith)
            requires s.len() >= 1, s.drop_last().len() == s.len() - 1,
        ;
    }
}

/// A prefix accounts for at most the whole total when no intensity is
/// negative.
pub proof fn lemma_isum_take_le(s: Seq<Peak>, m: int)
    requires
        forall|i: int| 0 <= i < s.len() ==> #[trigger] s[i].intensity >= 0,
        0 <= m <= s.len(),
    ensures
        isum(s.take(m)) <= isum(s),
    decreases s.len(),
{
    if m == s.len() {
        assert(s.take(m) =~= s);
    } else {
        assert(s.take(m) =~= s.drop_last().take(m));
        lemma_isum_take_le(s.drop_last(), m);
    }
}

/// Properties of stable insertion: sortedness, length, validity, m/z bounds
/// and membership are all preserved.
pub proof fn lemma_insert_sorted_props(s: Seq<Peak>, p: Peak)
    requires
        sorted_by_mz(s),
    ensures
        sorted_by_mz(insert_sorted(s, p)),
        insert_sorted(s, p).len() == s.len() + 1,
        isum(insert_sorted(s, p)) == isum(s) + p.intensity,
        forall|i: int|
            0 <= i < insert_sorted(s, p).len() ==> (#[trigger] insert_sorted(s, p)[i] == p
                || s.contains(insert_sorted(s, p)[i])),
        all_valid(s) && peak_valid(p) ==> all_valid(insert_sorted(s, p)),
    decreases s.len(),
{
    if s.len() == 0 {
        assert(isum(Seq::<Peak>::empty()) == 0);
        assert(seq![p].drop_last() =~= Seq::<Peak>::empty());
        assert(seq![p].last() == p);
        assert(seq![p].len() == 1);
        assert(isum(seq![p]) == p.intensity);
    } else if s.last().mz <= p.mz {
        assert(s.push(p).drop_last() =~= s);
        assert(s.push(p).last() == p);
        assert(isum(s.push(p)) == isum(s) + p.intensity);
        assert forall|i: int| 0 <= i < s.push(p).len() implies (#[trigger] s.push(p)[i] == p
            || s.contains(s.push(p)[i])) by {
            if i < s.len() {
                assert(s.push(p)[i] == s[i]);
            }
        }
    } else {
        let t = s.drop_last();
        assert(sorted_by_mz(t));
        lemma_insert_sorted_props(t, p);
        let r = insert_sorted(t, p).push(s.last());
        assert(r.drop_last() =~= insert_sorted(t, p));
        assert(r.last() == s.last());
        assert(isum(r) == isum(t) + p.intensity + s.last().intensity);
        assert(isum(s) == isum(t) + s.last().intensity);
        assert forall|i: int, j: int| 0 <= i <= j < r.len() implies r[i].mz <= r[j].mz by {
            if j == r.len() - 1 && i < j {
                let q = insert_sorted(t, p)[i];
                if q == p {
                } else {
                    assert(t.contains(q));
                    let w = choose|w: int| 0 <= w < t.len() && t[w] == q;
                    assert(s[w].mz <= s.last().mz);
                }
            }
        }
        assert forall|i: int| 0 <= i < r.len() implies (#[trigger] r[i] == p || s.contains(
            r[i],
        )) by {
            if i < r.len() - 1 {
                let q = insert_sorted(t, p)[i];
                if q != p {
                    assert(t.contains(q));
                    let w = choose|w: int| 0 <= w < t.len() && t[w] == q;
                    assert(s[w] == q);
                }
            } else {
                assert(r[i] == s.last());
                assert(s.contains(s.last()));
            }
        }
    }
}

/// Sorting preserves length, total intensity, validity, membership.
pub proof fn lemma_sort_by_mz_props(s: Seq<Peak>)
    ensures
        sorted_by_mz(sort_by_mz(s)),
        sort_by_mz(s).len() == s.len(),
        isum(sort_by_mz(s)) == isum(s),
        forall|i: int|
            0 <= i < sort_by_mz(s).len() ==> s.contains(#[trigger] sort_by_mz(s)[i]),
        all_valid(s) ==> all_valid(sort_by_mz(s)),
    decreases s.len(),
{
    if s.len() > 0 {
        let t = s.drop_last();
        lemma_sort_by_mz_props(t);
        lemma_insert_sorted_props(sort_by_mz(t), s.last());
        assert forall|i: int| 0 <= i < sort_by_mz(s).len() implies s.contains(
            #[trigger] sort_by_mz(s)[i],
        ) by {
            let q = sort_by_mz(s)[i];
            if q == s.last() {
                assert(s[s.len() - 1] == q);
            } else {
                assert(sort_by_mz(t).contains(q) || q == s.last());
                if sort_by_mz(t).contains(q) {
                    let w = choose|w: int| 0 <= w < sort_by_mz(t).len() && sort_by_mz(t)[w] == q;
                    assert(t.contains(q));
                    let v = choose|v: int| 0 <= v < t.len() && t[v] == q;
                    assert(s[v] == q);
                }
            }
        }
        if all_valid(s) {
            assert(all_valid(t));
        }
    }
}

/// Canonicalization properties that every caller needs.
pub proof fn lemma_canon_spec_props(s: Seq<Peak>)
    ensures
        is_canonical(canon_spec(s)),
        canon_spec(s).len() == nvalid(s),
        (forall|i: int| 0 <= i < s.len() ==> #[trigger] s[i].intensity >= 0) ==> isum(
            canon_spec(s),
        ) == isum(s),
        forall|i: int|
            0 <= i < canon_spec(s).len() ==> valid_peaks(s).contains(#[trigger] canon_spec(s)[i]),
{
    lemma_valid_peaks_props(s);
    lemma_sort_by_mz_props(valid_peaks(s));
    if forall|i: int| 0 <= i < s.len() ==> #[trigger] s[i].intensity >= 0 {
        lemma_isum_valid_peaks(s);
    }
}

/// The valid subsequence is valid and its members come from the input.
pub proof fn lemma_valid_peaks_props(s: Seq<Peak>)
    ensures
        all_valid(valid_peaks(s)),
        valid_peaks(s).len() <= s.len(),
        forall|i: int| 0 <= i < valid_peaks(s).len() ==> s.contains(#[trigger] valid_peaks(s)[i]),
    decreases s.len(),
{
    if s.len() > 0 {
        let t = s.drop_last();
        lemma_valid_peaks_props(t);
        assert forall|i: int| 0 <= i < valid_peaks(s).len() implies s.contains(
            #[trigger] valid_peaks(s)[i],
        ) by {
            let q = valid_peaks(s)[i];
            if peak_valid(s.last()) && i == valid_peaks(s).len() - 1 {
                assert(s[s.len() - 1] == q);
            } else {
                assert(valid_peaks(t).contains(q));
                let v = choose|v: int| 0 <= v < t.len() && t[v] == q;
                assert(s[v] == q);
            }
        }
    }
}

/// Canonicalizing an already canonical spectrum is a no-op.
pub proof fn lemma_canon_identity(s: Seq<Peak>)
    requires
        is_canonical(s),
    ensures
        canon_spec(s) == s,
{
    lemma_valid_peaks_identity(s);
    lemma_sort_identity(s);
}

pub proof fn lemma_valid_peaks_identity(s: Seq<Peak>)
    requires
        all_valid(s),
    ensures
        valid_peaks(s) == s,
    decreases s.len(),
{
    if s.len() == 0 {
        assert(valid_peaks(s) =~= s);
    } else {
        lemma_valid_peaks_identity(s.drop_last());
        assert(valid_peaks(s) =~= s);
    }
}

pub proof fn lemma_sort_identity(s: Seq<Peak>)
    requires
        sorted_by_mz(s),
    ensures
        sort_by_mz(s) == s,
    decreases s.len(),
{
    if s.len() == 0 {
        assert(sort_by_mz(s) =~= s);
    } else {
        let t = s.drop_last();
        assert(sorted_by_mz(t));
        lemma_sort_identity(t);
        if t.len() == 0 {
            assert(insert_sorted(t, s.last()) =~= s);
        } else {
            assert(t.last().mz <= s.last().mz);
            assert(insert_sorted(t, s.last()) =~= s);
        }
    }
}

/// Stable insertion lands at the position found by scanning from the right.
pub proof fn lemma_insert_sorted_at(s: Seq<Peak>, p: Peak, j: int)
    requires
        sorted_by_mz(s),
        0 <= j <= s.len(),
        forall|k: int| j <= k < s.len() ==> s[k].mz > p.mz,
        j > 0 ==> s[j - 1].mz <= p.mz,
    ensures
        insert_sorted(s, p) == s.insert(j, p),
    decreases s.len(),
{
    if s.len() == 0 {
        assert(insert_sorted(s, p) =~= s.insert(0, p));
    } else if s.last().mz <= p.mz {
        assert(j == s.len());
        assert(insert_sorted(s, p) =~= s.insert(s.len() as int, p));
    } else {
        assert(j < s.len());
        let t = s.drop_last();
        assert(sorted_by_mz(t));
        lemma_insert_sorted_at(t, p, j);
        assert(insert_sorted(t, p).push(s.last()) =~= s.insert(j, p));
    }
}

/// The canonical peak order: a valid peak sorts before an invalid one, then
/// ascending by m/z; equal m/z on the same side of the validity split ties.
/// Returns -1, 0 or 1 in place of an ordering value.
pub fn compare_by_mz_with_zero_intensity(a: &Peak, b: &Peak) -> (r: i8)
    ensures
        peak_valid(*a) && !peak_valid(*b) ==> r == -1,
        !peak_valid(*a) && peak_valid(*b) ==> r == 1,
        (peak_valid(*a) <==> peak_valid(*b)) ==> (r == -1 <==> a.mz < b.mz) && (r == 1 <==> a.mz
            > b.mz) && (r == 0 <==> a.mz == b.mz),
{
    if a.intensity > 0 && b.intensity <= 0 {
        -1
    } else if a.intensity <= 0 && b.intensity > 0 {
        1
    } else if a.mz < b.mz {
        -1
    } else if a.mz > b.mz {
        1
    } else {
        0
    }
}

/// Builds the peak list from a flat interleaved buffer
/// `[mz0, intensity0, mz1, intensity1, ...]`; an odd-length buffer is
/// rejected.
pub fn peaks_from_interleaved(data: &Vec<i64>) -> (r: Option<Vec<Peak>>)
    ensures
        r is Some <==> data@.len() % 2 == 0,
        r is Some ==> r->Some_0@.len() * 2 == data@.len(),
        r is Some ==> forall|i: int|
            0 <= i < r->Some_0@.len() ==> #[trigger] r->Some_0@[i] == (Peak {
                mz: data@[2 * i],
                intensity: data@[2 * i + 1],
            }),
{
    if data.len() % 2 != 0 {
        return None;
    }
    let n = data.len() / 2;
    proof {
        assert(n * 2 == data@.len());
    }
    let mut out: Vec<Peak> = Vec::new();
    let mut i: usize = 0;
    while i < n
        invariant
            i <= n,
            n * 2 == data@.len(),
            n * 2 <= usize::MAX,
            out@.len() == i,
            forall|k: int|
                0 <= k < i ==> #[trigger] out@[k] == (Peak {
                    mz: data@[2 * k],
                    intensity: data@[2 * k + 1],
                }),
        decreases n - i,
    {
        out.push(Peak { mz: data[2 * i], intensity: data[2 * i + 1] });
        i += 1;
    }
    Some(out)
}

/// Canonicalization: sorting by the canonical order, then trimming the tail
/// of non-positive-intensity peaks, amounts to keeping the valid peaks in a
/// stable ascending-m/z order; this function computes exactly that.
pub fn sort_spectrum_by_mz_and_zero_intensity(spectrum: Vec<Peak>) -> (out: Vec<Peak>)
    ensures
        out@ == canon_spec(spectrum@),
        is_canonical(out@),
        is_canonical(spectrum@) ==> out@ == spectrum@,
{
    let n = spectrum.len();
    let mut valids: Vec<Peak> = Vec::new();
    let mut i: usize = 0;
    while i < n
        invariant
            i <= n,
            n == spectrum@.len(),
            valids@ == valid_peaks(spectrum@.take(i as int)),
        decreases n - i,
    {
        let p = spectrum[i];
        proof {
            assert(spectrum@.take(i + 1).drop_last() =~= spectrum@.take(i as int));
            assert(spectrum@.take(i + 1).last() == spectrum@[i as int]);
        }
        if p.intensity > 0 {
            valids.push(p);
        }
        i += 1;
    }
    proof {
        assert(spectrum@.take(n as int) =~= spectrum@);
    }
    let m = valids.len();
    let mut out: Vec<Peak> = Vec::new();
    let mut i: usize = 0;
    while i < m
        invariant
            i <= m,
            m == valids@.len(),
            out@ == sort_by_mz(valids@.take(i as int)),
            out@.len() == i,
            sorted_by_mz(out@),
        decreases m - i,
    {
        let p = valids[i];
        let ghost prev = out@;
        let mut j: usize = out.len();
        while j > 0 && out[j - 1].mz > p.mz
            invariant
                j <= out@.len(),
                out@ == prev,
                forall|k: int| j <= k < out@.len() ==> out@[k].mz > p.mz,
            decreases j,
        {
            j -= 1;
        }
        out.insert(j, p);
        proof {
            lemma_insert_sorted_at(prev, p, j as int);
            assert(valids@.take(i + 1).drop_last() =~= valids@.take(i as int));
            assert(valids@.take(i + 1).last() == valids@[i as int]);
            lemma_insert_sorted_props(prev, p);
        }
        i += 1;
    }
    proof {
        assert(valids@.take(m as int) =~= valids@);
        lemma_canon_spec_props(spectrum@);
        if is_canonical(spectrum@) {
            lemma_canon_identity(spectrum@);
        }
    }
    out
}

} // verus!
