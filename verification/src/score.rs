//! Turning an alignment into a similarity score.
//!
//! For `m` matches between a hypothesis of `h` tokens and a reference of
//! `r` tokens, grouped into `c` chunks (maximal runs contiguous on both
//! sides), the score is
//!
//! ```text
//! precision = m / h              recall = m / r
//! fmean     = precision * recall / (alpha * precision + (1 - alpha) * recall)
//! penalty   = gamma * (c / m)^beta
//! score     = (1 - penalty) * fmean
//! ```
//!
//! and an empty match list scores 0 exactly. The tuning constants are
//! rationals (`alpha = alpha_num / alpha_den`, `gamma = gamma_num /
//! gamma_den`) with a natural exponent `beta`, so the score is an exact
//! rational; the only value the pipeline consumes is `round(100 * score)`,
//! computed here without any rounding error. With `alpha <= 1` and
//! `gamma <= 1` (part of [`Tuning::wf`]) the penalty stays in `[0, 1]` and
//! the score in `[0, 1]`, so the rounded value fits a byte; this also
//! settles, by restriction, the question whether a penalty above 1 may
//! drive the score negative.

use vstd::prelude::*;
use vstd::arithmetic::power::{pow, lemma_pow_positive, lemma_pow_increases};
use vstd::arithmetic::mul::{lemma_mul_inequality, lemma_mul_upper_bound};
use vstd::arithmetic::div_mod::{lemma_div_is_ordered, lemma_fundamental_div_mod_converse};

verus! {

/// Upper bound that `pow(matches, beta)` must respect so that the exact
/// score arithmetic fits in 128-bit integers.
pub const POW_LIMIT: u64 = 0x0040_0000_0000_0000;

/// The three tuning constants of the score formula, as rationals.
///
/// The pipeline's default is `alpha = 9/10`, `beta = 3`, `gamma = 1/2`.
#[derive(Clone, Copy, Debug, PartialEq, Eq, Structural)]
pub struct Tuning {
    pub alpha_num: u16,
    pub alpha_den: u16,
    pub beta: u8,
    pub gamma_num: u16,
    pub gamma_den: u16,
}

impl Tuning {
    /// Both rationals are proper fractions: `alpha` and `gamma` lie in `[0, 1]`.
    pub open spec fn wf(self) -> bool {
        &&& self.alpha_den >= 1
        &&& self.alpha_num <= self.alpha_den
        &&& self.gamma_den >= 1
        &&& self.gamma_num <= self.gamma_den
    }
}

impl Default for Tuning {
    /// The tuning the batch pipeline runs with: `alpha = 9/10`, `beta = 3`,
    /// `gamma = 1/2`.
    fn default() -> (t: Tuning)
        ensures
            t == (Tuning { alpha_num: 9, alpha_den: 10, beta: 3, gamma_num: 1, gamma_den: 2 }),
            t.wf(),
    {
        Tuning { alpha_num: 9, alpha_den: 10, beta: 3, gamma_num: 1, gamma_den: 2 }
    }
}

/// The number of chunks in a match list sorted by hypothesis position: the
/// number of maximal runs where consecutive matches advance both the
/// hypothesis and the reference position by exactly one.
pub open spec fn chunk_count(ms: Seq<(usize, usize)>) -> nat
    decreases ms.len(),
{
    if ms.len() == 0 {
        0
    } else if ms.len() == 1 {
        1
    } else {
        chunk_count(ms.drop_last()) + if continues_chunk(ms[ms.len() - 2], ms[ms.len() - 1]) {
            0nat
        } else {
            1nat
        }
    }
}

/// Whether match `b` directly continues the chunk that match `a` ends.
pub open spec fn continues_chunk(a: (usize, usize), b: (usize, usize)) -> bool {
    b.0 == a.0 + 1 && b.1 == a.1 + 1
}

/// A nonempty match list has between 1 and `ms.len()` chunks.
pub proof fn lemma_chunk_count_bounds(ms: Seq<(usize, usize)>)
    ensures
        chunk_count(ms) <= ms.len(),
        ms.len() > 0 ==> chunk_count(ms) >= 1,
    decreases ms.len(),
{
    if ms.len() > 1 {
        lemma_chunk_count_bounds(ms.drop_last());
    }
}

/// The number of maximal runs of matches contiguous in both sequences.
/// `matches` must be sorted ascending by hypothesis position for the count
/// to mean anything, but the function is total.
pub fn count_chunks(matches: &[(usize, usize)]) -> (n: usize)
    ensures
        n == chunk_count(matches@),
{
    if matches.len() == 0 {
        return 0;
    }
    let mut chunks: usize = 1;
    let mut i: usize = 0;
    while i < matches.len() - 1
        invariant
            matches@.len() >= 1,
            i < matches@.len(),
            chunks == chunk_count(matches@.take(i + 1)),
            chunks <= i + 1,
        decreases matches@.len() - i,
    {
        let (i0, i1) = matches[i];
        let (j0, j1) = matches[i + 1];
        proof {
            assert(matches@.take(i + 2).drop_last() =~= matches@.take(i + 1));
            lemma_chunk_count_bounds(matches@.take(i + 1));
        }
        let contiguous = j0 > i0 && j0 - i0 == 1 && j1 > i1 && j1 - i1 == 1;
        assert(contiguous == continues_chunk((i0, i1), (j0, j1)));
        if !contiguous {
            chunks = chunks + 1;
        }
        i = i + 1;
    }
    proof {
        assert(matches@.take(i + 1) =~= matches@);
    }
    chunks
}

/// Numerator of `fmean` for `m` matches. Multiplying both sides of
/// `fmean = (p * q) / (alpha * p + (1 - alpha) * q)` for `p = m/h`,
/// `q = m/r` by `alpha_den * h * r / m` gives
/// `fmean = alpha_den * m / (alpha_num * r + (alpha_den - alpha_num) * h)`.
pub open spec fn fmean_num(m: nat, t: Tuning) -> int {
    t.alpha_den * m
}

/// Denominator of `fmean`; see [`fmean_num`].
pub open spec fn fmean_den(h: nat, r: nat, t: Tuning) -> int {
    t.alpha_num * r + (t.alpha_den - t.alpha_num) * h
}

/// Numerator of `penalty = gamma * (c / m)^beta` over the common
/// denominator [`penalty_den`].
pub open spec fn penalty_num(c: nat, t: Tuning) -> int {
    t.gamma_num * pow(c as int, t.beta as nat)
}

/// Denominator of the fragmentation penalty.
pub open spec fn penalty_den(m: nat, t: Tuning) -> int {
    t.gamma_den * pow(m as int, t.beta as nat)
}

/// Numerator of `score = (1 - penalty) * fmean`, as an exact rational over
/// [`score_den`].
pub open spec fn score_num(m: nat, c: nat, t: Tuning) -> int {
    (penalty_den(m, t) - penalty_num(c, t)) * fmean_num(m, t)
}

/// Denominator of the score; positive whenever `1 <= m <= h` and `m <= r`.
pub open spec fn score_den(h: nat, r: nat, m: nat, t: Tuning) -> int {
    penalty_den(m, t) * fmean_den(h, r, t)
}

/// `round(100 * num / den)` with ties rounded away from zero, for
/// `0 <= num` and `0 < den`: the floor of `100 * num / den + 1/2`.
pub open spec fn round_centi(num: int, den: int) -> int {
    (200 * num + den) / (2 * den)
}

/// The scaled score of a match list against a hypothesis of length `h` and
/// a reference of length `r`: 0 exactly when nothing matched, otherwise
/// `round(100 * score)`.
pub open spec fn score_percent_spec(h: nat, r: nat, ms: Seq<(usize, usize)>, t: Tuning) -> int {
    if ms.len() == 0 {
        0
    } else {
        round_centi(score_num(ms.len(), chunk_count(ms), t), score_den(h, r, ms.len(), t))
    }
}

/// Raising both sides of `0 <= a <= b` to the same power preserves order.
pub proof fn lemma_pow_base_le(a: nat, b: nat, e: nat)
    requires
        a <= b,
    ensures
        0 <= pow(a as int, e) <= pow(b as int, e),
    decreases e,
{
    reveal(pow);
    if e == 0 {
    } else {
        lemma_pow_base_le(a, b, (e - 1) as nat);
        lemma_mul_upper_bound(a as int, b as int, pow(a as int, (e - 1) as nat), pow(b as int, (e - 1) as nat));
        assert(pow(a as int, e) == a * pow(a as int, (e - 1) as nat));
        assert(pow(b as int, e) == b * pow(b as int, (e - 1) as nat));
    }
}

/// `b^e` by repeated multiplication, for bases at least 1 whose result
/// stays under [`POW_LIMIT`].
fn pow_u128(b: u128, e: u8) -> (p: u128)
    requires
        b >= 1,
        pow(b as int, e as nat) <= POW_LIMIT,
    ensures
        p == pow(b as int, e as nat),
        1 <= p <= POW_LIMIT,
{
    proof {
        lemma_pow_positive(b as int, e as nat);
        vstd::arithmetic::power::lemma_pow0(b as int);
    }
    let mut p: u128 = 1;
    let mut i: u8 = 0;
    while i < e
        invariant
            b >= 1,
            i <= e,
            p == pow(b as int, i as nat),
            pow(b as int, e as nat) <= POW_LIMIT,
        decreases e - i,
    {
        proof {
            lemma_pow_increases(b as nat, (i + 1) as nat, e as nat);
            lemma_pow_positive(b as int, (i + 1) as nat);
            reveal(pow);
            assert(pow(b as int, (i + 1) as nat) == b * pow(b as int, i as nat));
        }
        p = p * b;
        i = i + 1;
    }
    proof {
        lemma_pow_positive(b as int, e as nat);
    }
    p
}

/// The similarity score of an alignment, scaled to a byte:
/// `round(100 * score)` computed exactly, and 0 exactly when `matches` is
/// empty. `matches` must be the alignment's match list (so it cannot be
/// longer than either token sequence); the remaining bounds keep the exact
/// integer arithmetic inside 128 bits.
pub fn score_percent(hyp_len: usize, ref_len: usize, matches: &Vec<(usize, usize)>, t: &Tuning) -> (s: u8)
    requires
        t.wf(),
        matches@.len() <= hyp_len,
        matches@.len() <= ref_len,
        hyp_len < 0x1_0000_0000,
        ref_len < 0x1_0000_0000,
        pow(matches@.len() as int, t.beta as nat) <= POW_LIMIT,
    ensures
        s as int == score_percent_spec(hyp_len as nat, ref_len as nat, matches@, *t),
        s <= 100,
{
    let m = matches.len();
    if m == 0 {
        return 0;
    }
    let c = count_chunks(matches.as_slice());
    proof {
        lemma_chunk_count_bounds(matches@);
        lemma_pow_base_le(c as nat, m as nat, t.beta as nat);
    }
    let powm: u128 = pow_u128(m as u128, t.beta);
    let powc: u128 = pow_u128(c as u128, t.beta);
    proof {
        lemma_mul_upper_bound(t.gamma_den as int, 0xFFFF, powm as int, POW_LIMIT as int);
        lemma_mul_upper_bound(t.gamma_num as int, 0xFFFF, powc as int, POW_LIMIT as int);
    }
    let pd: u128 = (t.gamma_den as u128) * powm;
    let pn: u128 = (t.gamma_num as u128) * powc;
    proof {
        lemma_mul_upper_bound(t.gamma_num as int, t.gamma_den as int, powc as int, powm as int);
    }
    proof {
        lemma_mul_upper_bound(t.alpha_den as int, 0xFFFF, m as int, 0xFFFF_FFFF);
        lemma_mul_upper_bound(t.alpha_num as int, 0xFFFF, ref_len as int, 0xFFFF_FFFF);
        lemma_mul_upper_bound((t.alpha_den - t.alpha_num) as int, 0xFFFF, hyp_len as int, 0xFFFF_FFFF);
    }
    let fnum: u128 = (t.alpha_den as u128) * (m as u128);
    let fden: u128 = (t.alpha_num as u128) * (ref_len as u128)
        + ((t.alpha_den - t.alpha_num) as u128) * (hyp_len as u128);
    proof {
        // fnum <= fden, because m <= hyp_len and m <= ref_len.
        assert(fnum as int <= fden as int) by (nonlinear_arith)
            requires
                fnum as int == (t.alpha_den as int) * (m as int),
                fden as int == (t.alpha_num as int) * (ref_len as int) + ((t.alpha_den as int)
                    - (t.alpha_num as int)) * (hyp_len as int),
                m as int <= hyp_len as int,
                m as int <= ref_len as int,
                0 <= t.alpha_num as int <= t.alpha_den as int,
        ;
        // fden >= 1: one of its two terms has both factors at least 1.
        if t.alpha_num >= 1 {
            assert(1 <= fden as int) by (nonlinear_arith)
                requires
                    fden as int == (t.alpha_num as int) * (ref_len as int) + ((t.alpha_den as int)
                        - (t.alpha_num as int)) * (hyp_len as int),
                    1 <= t.alpha_num as int,
                    1 <= ref_len as int,
                    0 <= (t.alpha_den as int) - (t.alpha_num as int),
                    0 <= hyp_len as int,
            ;
        } else {
            assert(1 <= fden as int) by (nonlinear_arith)
                requires
                    fden as int == (t.alpha_num as int) * (ref_len as int) + ((t.alpha_den as int)
                        - (t.alpha_num as int)) * (hyp_len as int),
                    t.alpha_num as int == 0,
                    1 <= t.alpha_den as int,
                    1 <= hyp_len as int,
            ;
        }
        assert(1 <= pd as int) by (nonlinear_arith)
            requires
                pd as int == (t.gamma_den as int) * (powm as int),
                1 <= t.gamma_den as int,
                1 <= powm as int,
        ;
        lemma_mul_upper_bound((pd - pn) as int, 0xFFFF * (POW_LIMIT as int), fnum as int, 0xFFFF * 0xFFFF_FFFFint);
        lemma_mul_upper_bound(pd as int, 0xFFFF * (POW_LIMIT as int), fden as int, 2 * 0xFFFF * 0xFFFF_FFFFint);
    }
    let num: u128 = (pd - pn) * fnum;
    let den: u128 = pd * fden;
    proof {
        lemma_mul_upper_bound((pd - pn) as int, pd as int, fnum as int, fden as int);
        lemma_mul_inequality(1, pd as int, fden as int);
        lemma_div_is_ordered(
            200 * (num as int) + den as int,
            201 * (den as int),
            2 * (den as int),
        );
        lemma_fundamental_div_mod_converse(201 * (den as int), 2 * (den as int), 100, den as int);
    }
    let s128: u128 = (200 * num + den) / (2 * den);
    s128 as u8
}

} // verus!

