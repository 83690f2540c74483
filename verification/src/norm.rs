//! The decision stage of loudness normalization.
//!
//! The normalizer never applies a gain without a valid measurement: a
//! waveform below the near-silence floor, or one in which no window
//! survives the gates, is passed through unchanged.  Otherwise the caller
//! is told the measured gated power, from which it derives the linear gain
//! toward the target loudness, optionally followed by a saturating
//! compressor.

use vstd::prelude::*;
use crate::meter::abs_gated;
use crate::meter::gated_mean;
use crate::meter::gated_power;
use crate::meter::in_peak_range;
use crate::meter::is_near_silent;
use crate::meter::lemma_abs_gated_empty_iff;
use crate::meter::near_silent;
use crate::meter::window_len;
use crate::meter::window_powers;
use crate::meter::windows_100ms;

verus! {

use vstd::arithmetic::div_mod::lemma_div_is_ordered_by_denominator;

/// What the normalizer is to do with a waveform.
#[derive(Clone, Copy, Debug, PartialEq, Eq, Structural)]
pub enum NormalizeAction {
    /// Pass the waveform through unchanged: it was too quiet to measure.
    Unchanged,
    /// Scale every sample by the gain that moves the measured gated power
    /// to the target loudness; if `compress` is set, follow with a
    /// saturating nonlinearity.
    ApplyGain { power: u64, compress: bool },
}

/// Measures the waveform's integrated gated power on the fixed-point
/// scale: `None` when the waveform is near-silent or no window survives
/// the absolute gate, otherwise the gated mean power of its 100 ms
/// windows.
pub fn measure_gated_power(samples: &[i64], sample_rate: u32) -> (r: Option<u64>)
    requires
        sample_rate >= 10,
        in_peak_range(samples@),
        samples@.len() <= 0x1_0000_0000,
    ensures
        r is Some <==> (!near_silent(samples@) && gated_power(
            window_powers(samples@, sample_rate),
        ) is Some),
        r is Some ==> r.unwrap() as int == gated_power(
            window_powers(samples@, sample_rate),
        ).unwrap(),
        r is None <==> (near_silent(samples@) || abs_gated(
            window_powers(samples@, sample_rate),
        ).len() == 0),
{
    if is_near_silent(samples) {
        proof {
            lemma_abs_gated_empty_iff(window_powers(samples@, sample_rate));
            crate::meter::lemma_gated_power_none_iff(window_powers(samples@, sample_rate));
        }
        return Option::None;
    }
    let powers = windows_100ms(samples, sample_rate);
    proof {
        lemma_div_is_ordered_by_denominator(
            samples@.len() as int,
            1,
            window_len(sample_rate),
        );
        lemma_abs_gated_empty_iff(powers@);
        crate::meter::lemma_gated_power_none_iff(powers@);
    }
    gated_mean(powers.as_slice())
}

/// The normalizer's decision: unchanged without a valid measurement,
/// otherwise the measured gated power together with the caller's
/// compressor flag.
pub fn plan_normalize(samples: &[i64], sample_rate: u32, compressor: bool) -> (r: NormalizeAction)
    requires
        sample_rate >= 10,
        in_peak_range(samples@),
        samples@.len() <= 0x1_0000_0000,
    ensures
        r == NormalizeAction::Unchanged <==> (near_silent(samples@) || abs_gated(
            window_powers(samples@, sample_rate),
        ).len() == 0),
        !(near_silent(samples@) || abs_gated(window_powers(samples@, sample_rate)).len() == 0)
            ==> r == (NormalizeAction::ApplyGain {
            power: gated_power(window_powers(samples@, sample_rate)).unwrap() as u64,
            compress: compressor,
        }),
{
    let m = measure_gated_power(samples, sample_rate);
    match m {
        Option::None => NormalizeAction::Unchanged,
        Option::Some(power) => NormalizeAction::ApplyGain { power, compress: compressor },
    }
}

} // verus!
