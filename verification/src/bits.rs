//! Rank/select arithmetic over bit sequences, and the external bit-vector
//! primitive that accelerates it.
//!
//! The mathematical model is a `Seq<bool>`. `rkb` counts occurrences of a bit
//! in a prefix, `selb` locates the k-th occurrence. The executable structure
//! is `fid::BitVector`, trusted to implement exactly these two operations.

use vstd::prelude::*;

verus! {

/// Number of positions `j` in `[0, i)` with `s[j] == b`.
pub open spec fn rkb(s: Seq<bool>, b: bool, i: int) -> int
    decreases i,
{
    if i <= 0 {
        0
    } else {
        rkb(s, b, i - 1) + if i - 1 < s.len() && s[i - 1] == b {
            1int
        } else {
            0int
        }
    }
}

/// Number of set bits in `[0, i)`.
pub open spec fn rk1(s: Seq<bool>, i: int) -> int {
    rkb(s, true, i)
}

/// Number of clear bits in `[0, i)`.
pub open spec fn rk0(s: Seq<bool>, i: int) -> int {
    rkb(s, false, i)
}

/// Position of the k-th occurrence (1-based) of `b` in `s` at or after `i`;
/// `s.len()` if there is none.
pub open spec fn selb_from(s: Seq<bool>, b: bool, k: int, i: int) -> int
    decreases s.len() - i,
{
    if i < 0 || i >= s.len() {
        s.len() as int
    } else if s[i] == b {
        if k <= 1 {
            i
        } else {
            selb_from(s, b, k - 1, i + 1)
        }
    } else {
        selb_from(s, b, k, i + 1)
    }
}

/// Position of the k-th occurrence (1-based) of `b` in `s`.
pub open spec fn selb(s: Seq<bool>, b: bool, k: int) -> int {
    selb_from(s, b, k, 0)
}

pub open spec fn sel0(s: Seq<bool>, k: int) -> int {
    selb(s, false, k)
}

pub proof fn lemma_rkb_bounds(s: Seq<bool>, b: bool, i: int)
    ensures
        0 <= rkb(s, b, i),
        i >= 0 ==> rkb(s, b, i) <= i,
        rkb(s, b, i) <= s.len(),
    decreases i,
{
    if i > 0 {
        lemma_rkb_bounds(s, b, i - 1);
        if i - 1 >= s.len() {
            lemma_rkb_stable(s, b, s.len() as int, i);
        }
    }
}

/// `rkb` does not change past the end of the sequence.
pub proof fn lemma_rkb_stable(s: Seq<bool>, b: bool, i: int, j: int)
    requires
        s.len() <= i <= j,
    ensures
        rkb(s, b, j) == rkb(s, b, i),
    decreases j - i,
{
    if i < j {
        lemma_rkb_stable(s, b, i, j - 1);
    }
}

pub proof fn lemma_rkb_mono(s: Seq<bool>, b: bool, i: int, j: int)
    requires
        i <= j,
    ensures
        rkb(s, b, i) <= rkb(s, b, j) <= rkb(s, b, i) + (j - i),
    decreases j - i,
{
    if i < j {
        lemma_rkb_mono(s, b, i, j - 1);
    }
}

/// In `[0, i)` every position is a 1 or a 0, so the two counts add up to `i`.
pub proof fn lemma_rk_sum(s: Seq<bool>, i: int)
    requires
        0 <= i <= s.len(),
    ensures
        rk1(s, i) + rk0(s, i) == i,
    decreases i,
{
    if i > 0 {
        lemma_rk_sum(s, i - 1);
    }
}

/// Appending a bit does not change counts over the old prefix.
pub proof fn lemma_rkb_push(s: Seq<bool>, b: bool, x: bool, i: int)
    requires
        i <= s.len(),
    ensures
        rkb(s.push(x), b, i) == rkb(s, b, i),
    decreases i,
{
    if i > 0 {
        lemma_rkb_push(s, b, x, i - 1);
    }
}

/// Count over the whole sequence after a push.
pub proof fn lemma_rkb_push_all(s: Seq<bool>, b: bool, x: bool)
    ensures
        rkb(s.push(x), b, s.len() as int + 1) == rkb(s, b, s.len() as int) + if x == b {
            1int
        } else {
            0int
        },
{
    lemma_rkb_push(s, b, x, s.len() as int);
}

/// Counts agree on a common prefix.
pub proof fn lemma_rkb_agree(s: Seq<bool>, s2: Seq<bool>, b: bool, p: int)
    requires
        p <= s.len(),
        p <= s2.len(),
        forall|r: int| 0 <= r < p ==> s2[r] == s[r],
    ensures
        rkb(s2, b, p) == rkb(s, b, p),
    decreases p,
{
    if p > 0 {
        lemma_rkb_agree(s, s2, b, p - 1);
    }
}

/// Two positions holding `b` with the same count of earlier `b`s coincide.
pub proof fn lemma_rkb_unique_pos(s: Seq<bool>, b: bool, p1: int, p2: int)
    requires
        0 <= p1 < s.len(),
        0 <= p2 < s.len(),
        s[p1] == b,
        s[p2] == b,
        rkb(s, b, p1) == rkb(s, b, p2),
    ensures
        p1 == p2,
{
    if p1 < p2 {
        assert(rkb(s, b, p1 + 1) == rkb(s, b, p1) + 1);
        lemma_rkb_mono(s, b, p1 + 1, p2);
        assert(false);
    }
    if p2 < p1 {
        assert(rkb(s, b, p2 + 1) == rkb(s, b, p2) + 1);
        lemma_rkb_mono(s, b, p2 + 1, p1);
        assert(false);
    }
}

/// If the count of `b` does not grow over a window, the window has no `b`.
pub proof fn lemma_rkb_window(s: Seq<bool>, b: bool, a: int, c: int)
    requires
        0 <= a <= c <= s.len(),
        rkb(s, b, c) == rkb(s, b, a),
    ensures
        forall|r: int| a <= r < c ==> s[r] != b,
    decreases c - a,
{
    if a < c {
        lemma_rkb_mono(s, b, a, c - 1);
        lemma_rkb_mono(s, b, c - 1, c);
        lemma_rkb_window(s, b, a, c - 1);
    }
}

/// Characterization of `selb_from`: when enough occurrences remain, the result
/// is the position of the k-th one, counted from `i`.
pub proof fn lemma_selb_char(s: Seq<bool>, b: bool, k: int, i: int)
    requires
        0 <= i,
        1 <= k,
        k <= rkb(s, b, s.len() as int) - rkb(s, b, i),
    ensures
        i <= selb_from(s, b, k, i) < s.len(),
        s[selb_from(s, b, k, i)] == b,
        rkb(s, b, selb_from(s, b, k, i)) == rkb(s, b, i) + k - 1,
    decreases s.len() - i,
{
    lemma_rkb_bounds(s, b, i);
    lemma_rkb_mono(s, b, i, i + 1);
    if i >= s.len() {
        lemma_rkb_stable(s, b, s.len() as int, i);
    } else if s[i] == b {
        if k > 1 {
            lemma_selb_char(s, b, k - 1, i + 1);
        }
    } else {
        lemma_selb_char(s, b, k, i + 1);
    }
}

/// Inverse characterization: a position holding `b` is found by `selb_from`
/// at its own occurrence index.
pub proof fn lemma_selb_inverse(s: Seq<bool>, b: bool, p: int, i: int)
    requires
        0 <= i <= p < s.len(),
        s[p] == b,
    ensures
        rkb(s, b, p) - rkb(s, b, i) + 1 >= 1,
        selb_from(s, b, rkb(s, b, p) - rkb(s, b, i) + 1, i) == p,
    decreases p - i,
{
    lemma_rkb_mono(s, b, i, p);
    if i < p {
        lemma_selb_inverse(s, b, p, i + 1);
    }
}

/// What the executable bit vector holds, as a sequence of bits.
pub uninterp spec fn bv_model(bv: &fid::BitVector) -> Seq<bool>;

#[verifier::external_type_specification]
#[verifier::external_body]
pub struct ExBitVector(fid::BitVector);

/// Relies on the `Clone` derived for `fid::BitVector`: a field-for-field
/// copy, so the cloned vector holds the same bits.
pub assume_specification[ <fid::BitVector as core::clone::Clone>::clone ](
    bv: &fid::BitVector,
) -> (r: fid::BitVector)
    ensures
        bv_model(&r) == bv_model(bv),
;

/// Relies on `fid::BitVector::new`: an empty bit vector.
#[verifier::external_body]
pub(crate) fn bv_new() -> (r: fid::BitVector)
    ensures
        bv_model(&r) == Seq::<bool>::empty(),
{
    fid::BitVector::new()
}

/// Relies on `fid::BitVector::push`: appends one bit at the end.
#[verifier::external_body]
pub(crate) fn bv_push(bv: &mut fid::BitVector, b: bool)
    ensures
        bv_model(final(bv)) == bv_model(old(bv)).push(b),
{
    bv.push(b)
}

/// Relies on `fid::FID::len` for `BitVector`: the number of bits.
#[verifier::external_body]
pub(crate) fn bv_len(bv: &fid::BitVector) -> (r: u64)
    ensures
        r as int == bv_model(bv).len() as int,
{
    <fid::BitVector as fid::FID>::len(bv)
}

/// Relies on `fid::FID::get` for `BitVector`: the bit at position `i`.
#[verifier::external_body]
pub(crate) fn bv_get(bv: &fid::BitVector, i: u64) -> (r: bool)
    requires
        (i as int) < bv_model(bv).len(),
    ensures
        r == bv_model(bv)[i as int],
{
    <fid::BitVector as fid::FID>::get(bv, i)
}

/// Relies on `fid::FID::rank1` for `BitVector`: the number of set bits in
/// positions `[0, i)`.
#[verifier::external_body]
pub(crate) fn bv_rank1(bv: &fid::BitVector, i: u64) -> (r: u64)
    requires
        (i as int) <= bv_model(bv).len(),
    ensures
        r as int == rk1(bv_model(bv), i as int),
{
    <fid::BitVector as fid::FID>::rank1(bv, i)
}

/// Relies on `fid::FID::select0` for `BitVector`: the position of the
/// `(r+1)`-th clear bit.
#[verifier::external_body]
pub(crate) fn bv_select0(bv: &fid::BitVector, r: u64) -> (p: u64)
    requires
        (r as int) < rk0(bv_model(bv), bv_model(bv).len() as int),
    ensures
        p as int == sel0(bv_model(bv), r as int + 1),
{
    <fid::BitVector as fid::FID>::select0(bv, r)
}

} // verus!
