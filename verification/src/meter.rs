//! Gated loudness measurement in the style of the broadcast loudness
//! recommendation: the waveform is cut into 100 ms windows, each window's
//! mean-square power is taken, and the integrated power is the mean of the
//! windows that survive an absolute gate and a relative gate.
//!
//! Samples are fixed-point: an amplitude of 1.0 is [`SAMPLE_SCALE`].  A
//! window power is then a mean of squared samples, so full scale power is
//! `SAMPLE_SCALE * SAMPLE_SCALE`.  Both gates are exact integer
//! comparisons: a −10 dB power ratio is exactly a factor of ten, and the
//! absolute gate is a precomputed constant on the fixed-point power scale.

use vstd::prelude::*;

verus! {

use vstd::arithmetic::div_mod::lemma_div_is_ordered;
use vstd::arithmetic::div_mod::lemma_div_multiples_vanish;
use vstd::arithmetic::div_mod::lemma_fundamental_div_mod;
use vstd::arithmetic::div_mod::lemma_mod_bound;

/// Fixed-point sample scale: a sample of amplitude 1.0 is this value (2^24).
pub const SAMPLE_SCALE: i64 = 0x100_0000;

/// Largest admitted sample magnitude (2^31, 128 times full scale), so a
/// squared sample fits in 62 bits.
pub const SAMPLE_PEAK: i64 = 0x8000_0000;

/// Largest window power a bounded waveform can produce: `SAMPLE_PEAK`
/// squared.
pub const POWER_CAP: u64 = 0x4000_0000_0000_0000;

/// Absolute gate on the fixed-point power scale: the power equivalent of
/// the −70 loudness gate, `2^48 * 10^((0.691 - 70) / 10)` rounded down.
/// A window is kept when its power is strictly above this.
pub const ABS_GATE_POWER: u64 = 33_001_964;

/// Near-silence floor on the fixed-point mean-square scale: the square of
/// an RMS energy of 2·10⁻³ on the [−1, 1] amplitude scale, `4e-6 * 2^48`
/// rounded up.  A waveform whose mean square is strictly below this is not
/// measured at all.
pub const NEAR_SILENCE_MEAN_SQ: u64 = 1_125_899_907;

/// Sum of squared samples.
pub open spec fn sum_sq(s: Seq<i64>) -> int
    decreases s.len(),
{
    if s.len() == 0 {
        0
    } else {
        sum_sq(s.drop_last()) + s.last() * s.last()
    }
}

/// Every sample within the admitted magnitude bound.
pub open spec fn in_peak_range(s: Seq<i64>) -> bool {
    forall|i: int| 0 <= i < s.len() ==> -(SAMPLE_PEAK as int) <= #[trigger] s[i] <= SAMPLE_PEAK as int
}

/// A waveform too quiet to measure: empty, or mean-square energy below the
/// near-silence floor.
pub open spec fn near_silent(s: Seq<i64>) -> bool {
    s.len() == 0 || sum_sq(s) / (s.len() as int) < NEAR_SILENCE_MEAN_SQ as int
}

/// Number of samples in one 100 ms window.
pub open spec fn window_len(sample_rate: u32) -> int {
    sample_rate as int / 10
}

/// Mean-square power of the `j`-th non-overlapping 100 ms window.
pub open spec fn window_power(s: Seq<i64>, wl: int, j: int) -> int
    recommends
        wl >= 1,
{
    sum_sq(s.subrange(j * wl, (j + 1) * wl)) / wl
}

/// The per-window powers of the whole waveform.  A final partial window is
/// dropped.
pub open spec fn window_powers(s: Seq<i64>, sample_rate: u32) -> Seq<u64>
    recommends
        sample_rate >= 10,
{
    Seq::new(
        ((s.len() as int) / window_len(sample_rate)) as nat,
        |j: int| window_power(s, window_len(sample_rate), j) as u64,
    )
}

/// The windows surviving the absolute gate, in order.
pub open spec fn abs_gated(powers: Seq<u64>) -> Seq<u64>
    decreases powers.len(),
{
    if powers.len() == 0 {
        Seq::empty()
    } else {
        abs_gated(powers.drop_last()) + (if powers.last() > ABS_GATE_POWER {
            seq![powers.last()]
        } else {
            Seq::empty()
        })
    }
}

/// Sum of a sequence of window powers.
pub open spec fn sum_seq(s: Seq<u64>) -> int
    decreases s.len(),
{
    if s.len() == 0 {
        0
    } else {
        sum_seq(s.drop_last()) + s.last()
    }
}

/// Power `q` survives the relative gate when it is strictly above one
/// tenth of the mean of the absolutely gated windows (a −10 dB power
/// ratio): `q > (sum1 / cnt1) / 10`, stated without division.
pub open spec fn rel_kept(q: u64, sum1: int, cnt1: int) -> bool {
    10 * q * cnt1 > sum1
}

/// The subsequence of `s` surviving the relative gate with mean
/// `sum1 / cnt1`.
pub open spec fn rel_filter(s: Seq<u64>, sum1: int, cnt1: int) -> Seq<u64>
    decreases s.len(),
{
    if s.len() == 0 {
        Seq::empty()
    } else {
        rel_filter(s.drop_last(), sum1, cnt1) + (if rel_kept(s.last(), sum1, cnt1) {
            seq![s.last()]
        } else {
            Seq::empty()
        })
    }
}

/// The windows surviving both gates.
pub open spec fn rel_gated(powers: Seq<u64>) -> Seq<u64> {
    let a = abs_gated(powers);
    rel_filter(a, sum_seq(a), a.len() as int)
}

/// The gated integrated power: the mean power of the windows surviving
/// both gates, absent when no window survives.
pub open spec fn gated_power(powers: Seq<u64>) -> Option<int> {
    let g = rel_gated(powers);
    if g.len() == 0 {
        Option::<int>::None
    } else {
        Option::<int>::Some(sum_seq(g) / (g.len() as int))
    }
}

/// Every window surviving the absolute gate is strictly above it.
pub proof fn lemma_abs_gated_elems(powers: Seq<u64>)
    ensures
        forall|k: int|
            0 <= k < abs_gated(powers).len() ==> #[trigger] abs_gated(powers)[k] > ABS_GATE_POWER,
    decreases powers.len(),
{
    if powers.len() > 0 {
        lemma_abs_gated_elems(powers.drop_last());
        let rest = abs_gated(powers.drop_last());
        let a = abs_gated(powers);
        assert forall|k: int| 0 <= k < a.len() implies #[trigger] a[k] > ABS_GATE_POWER by {
            if k < rest.len() {
                assert(a[k] == rest[k]);
            } else {
                assert(a[k] == powers.last());
            }
        }
    }
}

/// No window survives the absolute gate exactly when none is above it.
pub proof fn lemma_abs_gated_empty_iff(powers: Seq<u64>)
    ensures
        abs_gated(powers).len() == 0 <==> (forall|i: int|
            0 <= i < powers.len() ==> #[trigger] powers[i] <= ABS_GATE_POWER),
    decreases powers.len(),
{
    if powers.len() > 0 {
        lemma_abs_gated_empty_iff(powers.drop_last());
        assert(forall|i: int|
            0 <= i < powers.drop_last().len() ==> #[trigger] powers.drop_last()[i] == powers[i]);
        if abs_gated(powers).len() == 0 {
            assert(powers.last() <= ABS_GATE_POWER);
            assert forall|i: int| 0 <= i < powers.len() implies #[trigger] powers[i]
                <= ABS_GATE_POWER by {
                if i < powers.len() - 1 {
                    assert(powers.drop_last()[i] == powers[i]);
                }
            }
        }
    }
}

/// A sum of powers bounded above element-wise is bounded by count times
/// the bound.
pub proof fn lemma_sum_seq_le(s: Seq<u64>, hi: int)
    requires
        forall|i: int| 0 <= i < s.len() ==> #[trigger] s[i] <= hi,
    ensures
        sum_seq(s) <= s.len() * hi,
    decreases s.len(),
{
    if s.len() > 0 {
        assert(forall|i: int| 0 <= i < s.drop_last().len() ==> #[trigger] s.drop_last()[i] == s[i]);
        lemma_sum_seq_le(s.drop_last(), hi);
        assert((s.len() - 1) * hi + hi == s.len() * hi) by (nonlinear_arith);
    }
}

/// A sum of powers bounded below element-wise is at least count times the
/// bound.
pub proof fn lemma_sum_seq_ge(s: Seq<u64>, lo: int)
    requires
        forall|i: int| 0 <= i < s.len() ==> #[trigger] s[i] >= lo,
    ensures
        sum_seq(s) >= s.len() * lo,
    decreases s.len(),
{
    if s.len() > 0 {
        assert(forall|i: int| 0 <= i < s.drop_last().len() ==> #[trigger] s.drop_last()[i] == s[i]);
        lemma_sum_seq_ge(s.drop_last(), lo);
        assert((s.len() - 1) * lo + lo == s.len() * lo) by (nonlinear_arith);
    }
}

/// A nonempty sequence has a maximal element; returns its index.
pub proof fn lemma_max_exists(s: Seq<u64>) -> (j: int)
    requires
        s.len() > 0,
    ensures
        0 <= j < s.len(),
        forall|k: int| 0 <= k < s.len() ==> #[trigger] s[k] <= s[j],
    decreases s.len(),
{
    if s.len() == 1 {
        0
    } else {
        let j0 = lemma_max_exists(s.drop_last());
        assert(forall|k: int| 0 <= k < s.drop_last().len() ==> #[trigger] s.drop_last()[k] == s[k]);
        if s.last() >= s[j0] {
            let j = s.len() - 1;
            assert forall|k: int| 0 <= k < s.len() implies #[trigger] s[k] <= s[j] by {
                if k < s.len() - 1 {
                    assert(s.drop_last()[k] <= s.drop_last()[j0]);
                }
            }
            j
        } else {
            assert forall|k: int| 0 <= k < s.len() implies #[trigger] s[k] <= s[j0] by {
                if k < s.len() - 1 {
                    assert(s.drop_last()[k] <= s.drop_last()[j0]);
                }
            }
            j0
        }
    }
}

/// If some element of `s` passes the relative gate, the gated sequence is
/// nonempty.
pub proof fn lemma_rel_filter_keeps(s: Seq<u64>, sum1: int, cnt1: int, j: int)
    requires
        0 <= j < s.len(),
        rel_kept(s[j], sum1, cnt1),
    ensures
        rel_filter(s, sum1, cnt1).len() > 0,
    decreases s.len(),
{
    if j == s.len() - 1 {
    } else {
        assert(s.drop_last()[j] == s[j]);
        lemma_rel_filter_keeps(s.drop_last(), sum1, cnt1, j);
    }
}

/// Whenever a window survives the absolute gate, a window also survives
/// the relative gate: the loudest absolutely gated window is at or above
/// the mean, hence strictly above one tenth of it.  So the gated power is
/// absent exactly when every window fails the absolute gate.
pub proof fn lemma_gated_power_none_iff(powers: Seq<u64>)
    ensures
        gated_power(powers) is None <==> abs_gated(powers).len() == 0,
{
    let a = abs_gated(powers);
    if a.len() > 0 {
        let sum1 = sum_seq(a);
        let cnt1 = a.len() as int;
        lemma_abs_gated_elems(powers);
        lemma_sum_seq_ge(a, 1);
        let j = lemma_max_exists(a);
        lemma_sum_seq_le(a, a[j] as int);
        assert(sum1 <= cnt1 * a[j]);
        assert(10 * (a[j] as int) * cnt1 > cnt1 * (a[j] as int)) by (nonlinear_arith)
            requires
                cnt1 >= 1,
                a[j] >= 1,
        ;
        assert(rel_kept(a[j], sum1, cnt1));
        lemma_rel_filter_keeps(a, sum1, cnt1, j);
    }
}

/// Mean of the windows surviving the absolute gate (−70 on the loudness
/// scale) and the relative gate (−10 dB from the absolutely gated mean),
/// two passes, or `None` when no window survives the absolute gate.
pub fn gated_mean(powers: &[u64]) -> (r: Option<u64>)
    requires
        forall|i: int| 0 <= i < powers@.len() ==> #[trigger] powers@[i] <= POWER_CAP,
        powers@.len() <= 0x1_0000_0000,
    ensures
        r is Some <==> gated_power(powers@) is Some,
        r is Some ==> r.unwrap() as int == gated_power(powers@).unwrap(),
        r is None <==> (forall|i: int|
            0 <= i < powers@.len() ==> #[trigger] powers@[i] <= ABS_GATE_POWER),
{
    let n: usize = powers.len();
    let mut kept: Vec<u64> = Vec::new();
    let mut sum1: u128 = 0;
    let mut i: usize = 0;
    while i < n
        invariant
            n == powers@.len(),
            n <= 0x1_0000_0000,
            0 <= i <= n,
            forall|k: int| 0 <= k < powers@.len() ==> #[trigger] powers@[k] <= POWER_CAP,
            kept@ == abs_gated(powers@.take(i as int)),
            sum1 as int == sum_seq(kept@),
            kept@.len() <= i,
            forall|k: int|
                0 <= k < kept@.len() ==> ABS_GATE_POWER < #[trigger] kept@[k] <= POWER_CAP,
            sum1 as int <= kept@.len() * (POWER_CAP as int),
        decreases n - i,
    {
        let p: u64 = powers[i];
        let ghost prev = kept@;
        proof {
            assert(powers@.take(i + 1 as int).drop_last() =~= powers@.take(i as int));
            assert(powers@.take(i + 1 as int).last() == powers@[i as int]);
        }
        if p > ABS_GATE_POWER {
            kept.push(p);
            proof {
                assert(kept@ =~= prev + seq![p]);
                assert(kept@.drop_last() =~= prev);
                assert(kept@.last() == p);
                assert(abs_gated(powers@.take(i + 1 as int)) =~= prev + seq![p]);
                assert((prev.len() + 1) * (POWER_CAP as int) == prev.len() * (POWER_CAP as int)
                    + POWER_CAP as int) by (nonlinear_arith);
            }
            sum1 = sum1 + (p as u128);
        } else {
            proof {
                assert(abs_gated(powers@.take(i + 1 as int)) =~= prev);
            }
        }
        i = i + 1;
    }
    proof {
        assert(powers@.take(n as int) =~= powers@);
    }
    let cnt1: usize = kept.len();
    if cnt1 == 0 {
        proof {
            lemma_abs_gated_empty_iff(powers@);
            lemma_gated_power_none_iff(powers@);
        }
        return Option::None;
    }
    let mut sum2: u128 = 0;
    let mut cnt2: usize = 0;
    let mut j: usize = 0;
    while j < cnt1
        invariant
            kept@ == abs_gated(powers@),
            sum1 as int == sum_seq(kept@),
            cnt1 == kept@.len(),
            1 <= cnt1 <= 0x1_0000_0000,
            0 <= j <= cnt1,
            forall|k: int|
                0 <= k < kept@.len() ==> ABS_GATE_POWER < #[trigger] kept@[k] <= POWER_CAP,
            cnt2 == rel_filter(kept@.take(j as int), sum1 as int, cnt1 as int).len(),
            sum2 as int == sum_seq(rel_filter(kept@.take(j as int), sum1 as int, cnt1 as int)),
            cnt2 <= j,
            sum2 as int <= cnt2 * (POWER_CAP as int),
        decreases cnt1 - j,
    {
        let q: u64 = kept[j];
        let ghost rf = rel_filter(kept@.take(j as int), sum1 as int, cnt1 as int);
        proof {
            assert(kept@.take(j + 1 as int).drop_last() =~= kept@.take(j as int));
            assert(kept@.take(j + 1 as int).last() == kept@[j as int]);
            assert(10u128 * (q as u128) * (cnt1 as u128) <= 0x10_0000_0000_0000_0000_0000_0000u128)
                by (nonlinear_arith)
                requires
                    q as u128 <= 0x4000_0000_0000_0000u128,
                    cnt1 as u128 <= 0x1_0000_0000u128,
            ;
        }
        if 10u128 * (q as u128) * (cnt1 as u128) > sum1 {
            proof {
                let rf1 = rel_filter(kept@.take(j + 1 as int), sum1 as int, cnt1 as int);
                assert(rel_kept(q, sum1 as int, cnt1 as int));
                assert(rf1 =~= rf + seq![q]);
                assert(rf1.drop_last() =~= rf);
                assert(rf1.last() == q);
                assert((cnt2 + 1) * (POWER_CAP as int) == cnt2 * (POWER_CAP as int) + POWER_CAP
                    as int) by (nonlinear_arith);
            }
            sum2 = sum2 + (q as u128);
            cnt2 = cnt2 + 1;
        } else {
            proof {
                assert(!rel_kept(q, sum1 as int, cnt1 as int));
                assert(rel_filter(kept@.take(j + 1 as int), sum1 as int, cnt1 as int) =~= rf);
            }
        }
        j = j + 1;
    }
    proof {
        assert(kept@.take(cnt1 as int) =~= kept@);
        lemma_gated_power_none_iff(powers@);
        lemma_abs_gated_empty_iff(powers@);
    }
    if cnt2 == 0 {
        proof {
            assert(false);
        }
        return Option::None;
    }
    let mean: u128 = sum2 / (cnt2 as u128);
    proof {
        assert(sum2 as int / (cnt2 as int) <= POWER_CAP as int) by (nonlinear_arith)
            requires
                cnt2 as int >= 1,
                sum2 as int <= (cnt2 as int) * (POWER_CAP as int),
        ;
    }
    Option::Some(mean as u64)
}

/// A sum of squares of all-zero samples is zero.
pub proof fn lemma_sum_sq_zero(s: Seq<i64>)
    requires
        forall|i: int| 0 <= i < s.len() ==> #[trigger] s[i] == 0,
    ensures
        sum_sq(s) == 0,
    decreases s.len(),
{
    if s.len() > 0 {
        assert(forall|i: int| 0 <= i < s.drop_last().len() ==> #[trigger] s.drop_last()[i] == s[i]);
        lemma_sum_sq_zero(s.drop_last());
    }
}

/// A silent (all-zero) waveform is below the near-silence floor, and none
/// of its windows passes the absolute gate either: loudness measurement is
/// unavailable on it, and the normalizer passes it through unchanged.
pub proof fn lemma_silent_waveform_unmeasured(s: Seq<i64>, sample_rate: u32)
    requires
        sample_rate >= 10,
        forall|i: int| 0 <= i < s.len() ==> #[trigger] s[i] == 0,
    ensures
        near_silent(s),
        abs_gated(window_powers(s, sample_rate)).len() == 0,
        gated_power(window_powers(s, sample_rate)) is None,
{
    let wl = window_len(sample_rate);
    if s.len() > 0 {
        lemma_sum_sq_zero(s);
        assert(0int / (s.len() as int) == 0) by (nonlinear_arith)
            requires
                s.len() as int >= 1,
        ;
    }
    let ps = window_powers(s, sample_rate);
    assert forall|j: int| 0 <= j < ps.len() implies #[trigger] ps[j] <= ABS_GATE_POWER by {
        lemma_fundamental_div_mod(s.len() as int, wl);
        lemma_mod_bound(s.len() as int, wl);
        assert((j + 1) * wl <= (s.len() as int / wl) * wl) by (nonlinear_arith)
            requires
                j + 1 <= s.len() as int / wl,
                wl >= 1,
        ;
        assert((s.len() as int / wl) * wl == wl * (s.len() as int / wl)) by (nonlinear_arith);
        assert(0 <= j * wl <= (j + 1) * wl) by (nonlinear_arith)
            requires
                0 <= j,
                wl >= 1,
        ;
        let sub = s.subrange(j * wl, (j + 1) * wl);
        assert forall|i: int| 0 <= i < sub.len() implies #[trigger] sub[i] == 0 by {
            assert(sub[i] == s[j * wl + i]);
        }
        lemma_sum_sq_zero(sub);
        assert(0int / wl == 0) by (nonlinear_arith)
            requires
                wl >= 1,
        ;
    }
    lemma_abs_gated_empty_iff(ps);
    lemma_gated_power_none_iff(ps);
}

/// `n` copies of the same window power.
pub open spec fn constant_powers(n: nat, p: u64) -> Seq<u64> {
    Seq::new(n, |i: int| p)
}

/// Sum of a constant sequence.
pub proof fn lemma_sum_seq_const(n: nat, p: u64)
    ensures
        sum_seq(constant_powers(n, p)) == n * p,
    decreases n,
{
    if n > 0 {
        let m = (n - 1) as nat;
        let c = constant_powers(n, p);
        assert(c.len() == n);
        assert(c.drop_last() =~= constant_powers(m, p));
        lemma_sum_seq_const(m, p);
        assert(c.last() == p);
        assert(sum_seq(c) == sum_seq(c.drop_last()) + c.last());
        assert(sum_seq(c.drop_last()) == m * p);
        assert(m * (p as int) + p as int == (m + 1) * (p as int)) by (nonlinear_arith);
        assert(m + 1 == n);
        assert((m + 1) * (p as int) == n * (p as int));
        assert(sum_seq(c) == n * (p as int));
    } else {
        assert(constant_powers(n, p).len() == 0);
        assert(sum_seq(constant_powers(n, p)) == 0);
        assert(n * (p as int) == 0) by (nonlinear_arith)
            requires
                n == 0,
        ;
    }
}

/// The absolute gate keeps everything when every window is above it.
pub proof fn lemma_abs_gated_all_pass(s: Seq<u64>)
    requires
        forall|i: int| 0 <= i < s.len() ==> #[trigger] s[i] > ABS_GATE_POWER,
    ensures
        abs_gated(s) == s,
    decreases s.len(),
{
    if s.len() == 0 {
        assert(abs_gated(s) =~= s);
    } else {
        assert(forall|i: int| 0 <= i < s.drop_last().len() ==> #[trigger] s.drop_last()[i] == s[i]);
        lemma_abs_gated_all_pass(s.drop_last());
        assert(abs_gated(s) =~= s);
    }
}

/// The relative gate keeps everything when every window passes it.
pub proof fn lemma_rel_filter_all_pass(s: Seq<u64>, sum1: int, cnt1: int)
    requires
        forall|i: int| 0 <= i < s.len() ==> rel_kept(#[trigger] s[i], sum1, cnt1),
    ensures
        rel_filter(s, sum1, cnt1) == s,
    decreases s.len(),
{
    if s.len() == 0 {
        assert(rel_filter(s, sum1, cnt1) =~= s);
    } else {
        assert(forall|i: int| 0 <= i < s.drop_last().len() ==> #[trigger] s.drop_last()[i] == s[i]);
        lemma_rel_filter_all_pass(s.drop_last(), sum1, cnt1);
        assert(rel_filter(s, sum1, cnt1) =~= s);
    }
}

/// The relative gate keeps nothing when every window fails it.
pub proof fn lemma_rel_filter_none_pass(s: Seq<u64>, sum1: int, cnt1: int)
    requires
        forall|i: int| 0 <= i < s.len() ==> !rel_kept(#[trigger] s[i], sum1, cnt1),
    ensures
        rel_filter(s, sum1, cnt1) == Seq::<u64>::empty(),
    decreases s.len(),
{
    if s.len() == 0 {
        assert(rel_filter(s, sum1, cnt1) =~= Seq::<u64>::empty());
    } else {
        assert(forall|i: int| 0 <= i < s.drop_last().len() ==> #[trigger] s.drop_last()[i] == s[i]);
        lemma_rel_filter_none_pass(s.drop_last(), sum1, cnt1);
        assert(rel_filter(s, sum1, cnt1) =~= Seq::<u64>::empty());
    }
}

/// Gating monotonicity: a uniform sequence of audible windows measures
/// exactly its common power, and appending one additional window at least
/// as loud never lowers the measured gated power.  The relative gate
/// discards windows below the mean, never above it.
pub proof fn lemma_gating_monotone(n: nat, p: u64, loud: u64)
    requires
        n >= 1,
        p > ABS_GATE_POWER,
        loud >= p,
    ensures
        gated_power(constant_powers(n, p)) == Option::<int>::Some(p as int),
        gated_power(constant_powers(n, p).push(loud)) is Some,
        gated_power(constant_powers(n, p).push(loud)).unwrap() >= p as int,
{
    let u = constant_powers(n, p);
    let np = (n as int) * (p as int);
    lemma_sum_seq_const(n, p);
    lemma_abs_gated_all_pass(u);
    assert forall|i: int| 0 <= i < u.len() implies rel_kept(#[trigger] u[i], np, n as int) by {
        assert(10 * (p as int) * (n as int) > np) by (nonlinear_arith)
            requires
                p as int >= 1,
                n as int >= 1,
                np == (n as int) * (p as int),
        ;
    }
    lemma_rel_filter_all_pass(u, np, n as int);
    lemma_div_multiples_vanish(p as int, n as int);
    assert((n as int) * (p as int) / (n as int) == p as int);
    assert(gated_power(u) == Option::<int>::Some(p as int));

    let u2 = u.push(loud);
    let sum2 = np + loud as int;
    let cnt2 = n as int + 1;
    assert(forall|i: int| 0 <= i < u2.len() ==> #[trigger] u2[i] > ABS_GATE_POWER);
    lemma_abs_gated_all_pass(u2);
    assert(u2.drop_last() =~= u);
    assert(sum_seq(u2) == sum2);
    assert(rel_kept(loud, sum2, cnt2)) by {
        assert(10 * (loud as int) * (cnt2) > np + loud as int) by (nonlinear_arith)
            requires
                loud as int >= p as int,
                p as int >= 1,
                n as int >= 1,
                cnt2 == n as int + 1,
                np == (n as int) * (p as int),
        ;
    }
    if rel_kept(p, sum2, cnt2) {
        assert forall|i: int| 0 <= i < u2.len() implies rel_kept(#[trigger] u2[i], sum2, cnt2) by {
            if i < n {
                assert(u2[i] == p);
            } else {
                assert(u2[i] == loud);
            }
        }
        lemma_rel_filter_all_pass(u2, sum2, cnt2);
        assert(sum2 >= cnt2 * (p as int)) by (nonlinear_arith)
            requires
                loud as int >= p as int,
                sum2 == np + loud as int,
                cnt2 == n as int + 1,
                np == (n as int) * (p as int),
        ;
        lemma_div_is_ordered(cnt2 * (p as int), sum2, cnt2);
        lemma_div_multiples_vanish(p as int, cnt2);
        assert(gated_power(u2).unwrap() >= p as int);
    } else {
        assert forall|i: int| 0 <= i < u.len() implies !rel_kept(#[trigger] u[i], sum2, cnt2) by {
            assert(u[i] == p);
        }
        lemma_rel_filter_none_pass(u, sum2, cnt2);
        assert(rel_filter(u2, sum2, cnt2) =~= seq![loud]);
        assert(seq![loud].drop_last() =~= Seq::<u64>::empty());
        assert(sum_seq(Seq::<u64>::empty()) == 0);
        assert(sum_seq(seq![loud]) == loud as int);
        assert(loud as int / 1 == loud as int) by (nonlinear_arith);
        assert(gated_power(u2).unwrap() >= p as int);
    }
}

/// The per-window mean-square powers of the waveform, one per 100 ms at
/// the given rate, in order; a final partial window is dropped.
pub fn windows_100ms(samples: &[i64], sample_rate: u32) -> (r: Vec<u64>)
    requires
        sample_rate >= 10,
        in_peak_range(samples@),
    ensures
        r@ == window_powers(samples@, sample_rate),
        r@.len() == samples@.len() as int / window_len(sample_rate),
        forall|k: int| 0 <= k < r@.len() ==> #[trigger] r@[k] <= POWER_CAP,
{
    let wl: usize = (sample_rate / 10) as usize;
    let n: usize = samples.len();
    let n_win: usize = n / wl;
    proof {
        lemma_fundamental_div_mod(n as int, wl as int);
        lemma_mod_bound(n as int, wl as int);
    }
    let mut r: Vec<u64> = Vec::new();
    let mut j: usize = 0;
    while j < n_win
        invariant
            wl as int == window_len(sample_rate),
            wl >= 1,
            n == samples@.len(),
            n_win as int == n as int / wl as int,
            wl as int * (n_win as int) <= n as int,
            in_peak_range(samples@),
            0 <= j <= n_win,
            r@.len() == j,
            forall|k: int|
                0 <= k < j ==> #[trigger] r@[k] as int == window_power(samples@, wl as int, k),
            forall|k: int| 0 <= k < j ==> #[trigger] r@[k] <= POWER_CAP,
        decreases n_win - j,
    {
        proof {
            assert((j as int + 1) * (wl as int) <= (n_win as int) * (wl as int))
                by (nonlinear_arith)
                requires
                    j as int + 1 <= n_win as int,
                    wl as int >= 1,
            ;
            assert((n_win as int) * (wl as int) == wl as int * (n_win as int))
                by (nonlinear_arith);
            assert(j as int * (wl as int) + wl as int == (j as int + 1) * (wl as int))
                by (nonlinear_arith);
        }
        let base: usize = j * wl;
        let mut acc: u128 = 0;
        let mut i: usize = 0;
        while i < wl
            invariant
                wl >= 1,
                n == samples@.len(),
                base as int == j as int * (wl as int),
                base as int + wl as int <= n as int,
                in_peak_range(samples@),
                0 <= i <= wl,
                acc as int == sum_sq(samples@.subrange(base as int, base as int + i as int)),
                acc as int <= i as int * (POWER_CAP as int),
            decreases wl - i,
        {
            let s: i64 = samples[base + i];
            proof {
                assert(-(SAMPLE_PEAK as int) <= samples@[base as int + i as int] <= SAMPLE_PEAK
                    as int);
                assert(0 <= s as int * (s as int) <= 0x4000_0000_0000_0000) by (nonlinear_arith)
                    requires
                        -0x8000_0000 <= s as int <= 0x8000_0000,
                ;
            }
            let sq: i64 = s * s;
            acc = acc + (sq as u128);
            proof {
                let sub1 = samples@.subrange(base as int, base as int + i as int + 1);
                assert(sub1.drop_last() =~= samples@.subrange(base as int, base as int + i as int));
                assert(sub1.last() == samples@[base as int + i as int]);
            }
            i = i + 1;
        }
        let p: u64 = (acc / (wl as u128)) as u64;
        proof {
            lemma_div_is_ordered(acc as int, wl as int * (POWER_CAP as int), wl as int);
            lemma_div_multiples_vanish(POWER_CAP as int, wl as int);
            assert(acc as int / (wl as int) <= POWER_CAP as int);
        }
        r.push(p);
        j = j + 1;
    }
    proof {
        assert forall|k: int| 0 <= k < r@.len() implies r@[k] == window_powers(
            samples@,
            sample_rate,
        )[k] by {
            assert(r@[k] as int == window_power(samples@, wl as int, k));
        }
        assert(r@ =~= window_powers(samples@, sample_rate));
    }
    r
}

/// Whether the waveform is below the near-silence floor (or empty), the
/// fast path on which no measurement is attempted at all.
pub fn is_near_silent(samples: &[i64]) -> (r: bool)
    requires
        in_peak_range(samples@),
    ensures
        r == near_silent(samples@),
{
    let n: usize = samples.len();
    if n == 0 {
        return true;
    }
    let mut acc: u128 = 0;
    let mut i: usize = 0;
    while i < n
        invariant
            n == samples@.len(),
            in_peak_range(samples@),
            0 <= i <= n,
            acc as int == sum_sq(samples@.take(i as int)),
            acc as int <= i as int * (POWER_CAP as int),
        decreases n - i,
    {
        let s: i64 = samples[i];
        proof {
            assert(-(SAMPLE_PEAK as int) <= samples@[i as int] <= SAMPLE_PEAK as int);
            assert(0 <= s as int * (s as int) <= 0x4000_0000_0000_0000) by (nonlinear_arith)
                requires
                    -0x8000_0000 <= s as int <= 0x8000_0000,
            ;
        }
        let sq: i64 = s * s;
        acc = acc + (sq as u128);
        proof {
            assert(samples@.take(i as int + 1).drop_last() =~= samples@.take(i as int));
            assert(samples@.take(i as int + 1).last() == samples@[i as int]);
        }
        i = i + 1;
    }
    proof {
        assert(samples@.take(n as int) =~= samples@);
    }
    let mean: u128 = acc / (n as u128);
    mean < (NEAR_SILENCE_MEAN_SQ as u128)
}

} // verus!
