//! Whether a candidate filter keeps the spectrum of the baseline.

use crate::ieee::{raises, Double};
use crate::settings::ZERO;
use crate::temporal_fir_config::TemporalFirConfig;
use vstd::arithmetic::power2::{lemma_pow2_pos, lemma_pow2_unfold, pow2};
use vstd::prelude::*;

verus! {

/// The bits of the double nearest to one thousand-millionth, the least magnitude of a bin that
/// can be represented.
pub const LEAST_MAGNITUDE: u64 = 0x3e11_2e0b_e826_d695;

/// What a candidate does at one frequency.
#[derive(Clone, Copy, Debug, PartialEq, Eq, Structural)]
pub struct Bin {
    /// The magnitude of the baseline.
    pub old: Double,
    /// The magnitude of the candidate.
    pub new: Double,
    /// The level of the candidate over that of the baseline, in decibels.
    pub delta_db: Double,
    /// The level of the candidate, in decibels.
    pub boost_db: Double,
}

/// The least power of two, from `power` on, that is not below `n`.
pub open spec fn power_from(n: nat, power: nat) -> nat
    decreases 2 * n - power,
{
    if power >= n || power == 0 {
        power
    } else {
        power_from(n, 2 * power)
    }
}

/// The length of the transforms that compare two filters with this many taps: the least power
/// of two that holds eight times as many, if there is one.
pub open spec fn transform_length(taps: usize) -> Option<usize> {
    let length = power_from((8 * taps) as nat, 1);
    if length <= usize::MAX {
        Some(length as usize)
    } else {
        None
    }
}

/// Whether there is a spectrum to compare, and how long the transform is.
pub open spec fn comparable_length(candidate: usize, baseline: usize, rate: Double) -> Option<
    usize,
> {
    if rate.finite() && (Double { bits: ZERO }).below(rate) && candidate == baseline && baseline
        > 0 {
        transform_length(baseline)
    } else {
        None
    }
}

/// Whether a candidate is safe at one frequency: both magnitudes can be represented, the level
/// changes by no more than the strategy allows, and it is not above the ceiling.
pub open spec fn bin_safe(bin: Bin, strategy: TemporalFirConfig, ceiling: Option<Double>) -> bool {
    &&& bin.old.finite()
    &&& bin.new.finite()
    &&& !bin.old.below(Double { bits: LEAST_MAGNITUDE })
    &&& !bin.new.below(Double { bits: LEAST_MAGNITUDE })
    &&& bin.delta_db.finite()
    &&& bin.delta_db.modulus().at_most(strategy.maximum_spectral_change_db)
    &&& ceiling is Some ==> bin.boost_db.at_most(ceiling->0)
}

/// Whether a candidate keeps the spectrum of the baseline.
pub open spec fn spectrum_kept(
    length: Option<usize>,
    bins: Seq<Bin>,
    strategy: TemporalFirConfig,
    ceiling: Option<Double>,
) -> bool {
    &&& length is Some
    &&& forall|i: int|
        0 <= i < bins.len() && i <= length->0 / 2 ==> bin_safe(
            #[trigger] bins[i],
            strategy,
            ceiling,
        )
}

/// The length of the transforms that compare a candidate with a baseline, by their numbers of
/// taps. There is none where the two cannot be compared.
pub fn fft_length(candidate: usize, baseline: usize, rate: Double) -> (r: Option<usize>)
    ensures
        r == comparable_length(candidate, baseline, rate),
{
    if !rate.is_finite() || !(Double { bits: ZERO }).is_below(rate) || candidate != baseline
        || baseline == 0 {
        return None;
    }
    if baseline > usize::MAX / 8 {
        proof {
            lemma_power_from_bounds((8 * baseline) as nat, 1);
        }
        return None;
    }
    let least: usize = 8 * baseline;
    let mut length: usize = 1;
    while length < least
        invariant
            least == 8 * baseline,
            length > 0,
            power_from(least as nat, length as nat) == power_from(least as nat, 1),
        decreases 2 * least - length,
    {
        if length > usize::MAX / 2 {
            proof {
                lemma_power_from_bounds(least as nat, 2 * length as nat);
            }
            return None;
        }
        length = 2 * length;
    }
    Some(length)
}

fn is_bin_safe(bin: &Bin, strategy: &TemporalFirConfig, ceiling: Option<Double>) -> (r: bool)
    ensures
        r == bin_safe(*bin, *strategy, ceiling),
{
    if !bin.old.is_finite() || !bin.new.is_finite() || bin.old.is_below(
        Double { bits: LEAST_MAGNITUDE },
    ) || bin.new.is_below(Double { bits: LEAST_MAGNITUDE }) {
        return false;
    }
    let low_enough = match ceiling {
        Some(ceiling) => bin.boost_db.is_at_most(ceiling),
        None => true,
    };
    bin.delta_db.is_finite() && bin.delta_db.absolute().is_at_most(
        strategy.maximum_spectral_change_db,
    ) && low_enough
}

/// Whether a candidate keeps the spectrum of the baseline, judged by what it does at the
/// frequencies from zero up to half the rate; `ceiling` is the highest level that is allowed.
/// A candidate that cannot be compared with the baseline does not.
pub fn spectral_safe(
    candidate: usize,
    baseline: usize,
    rate: Double,
    bins: &Vec<Bin>,
    strategy: &TemporalFirConfig,
    ceiling: Option<Double>,
) -> (r: bool)
    requires
        comparable_length(candidate, baseline, rate) is Some ==> bins@.len()
            > comparable_length(candidate, baseline, rate)->0 / 2,
    ensures
        r == spectrum_kept(
            comparable_length(candidate, baseline, rate),
            bins@,
            *strategy,
            ceiling,
        ),
{
    let length = match fft_length(candidate, baseline, rate) {
        Some(length) => length,
        None => return false,
    };
    let mut i: usize = 0;
    while i <= length / 2
        invariant
            length / 2 < bins@.len(),
            i <= length / 2 + 1,
            comparable_length(candidate, baseline, rate) == Some(length),
            forall|j: int| 0 <= j < i ==> bin_safe(#[trigger] bins@[j], *strategy, ceiling),
        decreases length / 2 + 1 - i,
    {
        if !is_bin_safe(&bins[i], strategy, ceiling) {
            return false;
        }
        i = i + 1;
    }
    true
}

proof fn lemma_power_from_bounds(n: nat, power: nat)
    requires
        power > 0,
    ensures
        power_from(n, power) >= n,
        power_from(n, power) >= power,
        power < n ==> power_from(n, power) < 2 * n,
    decreases 2 * n - power,
{
    if power < n {
        lemma_power_from_bounds(n, 2 * power);
    }
}

proof fn lemma_power_from_is_power(n: nat, exponent: nat)
    ensures
        exists|e: nat| power_from(n, pow2(exponent)) == #[trigger] pow2(e),
    decreases 2 * n - pow2(exponent),
{
    lemma_pow2_pos(exponent);
    if pow2(exponent) < n {
        lemma_pow2_unfold(exponent + 1);
        lemma_power_from_is_power(n, exponent + 1);
    }
}

/// The transform is long enough that no tap wraps round, and no longer than it has to be: its
/// length is a power of two from eight up to sixteen times the number of taps.
pub proof fn law_transform_length_is_the_next_power_of_two(taps: usize)
    requires
        taps > 0,
        transform_length(taps) is Some,
    ensures
        8 * taps <= transform_length(taps)->0 < 16 * taps,
        exists|e: nat| transform_length(taps)->0 == #[trigger] pow2(e),
{
    lemma_power_from_bounds((8 * taps) as nat, 1);
    vstd::arithmetic::power2::lemma2_to64();
    lemma_power_from_is_power((8 * taps) as nat, 0);
}

/// A spectrum that is kept stays within the allowed change at every frequency, and below the
/// ceiling where there is one.
pub proof fn law_kept_spectrum_is_within_the_change(
    candidate: usize,
    baseline: usize,
    rate: Double,
    bins: Seq<Bin>,
    strategy: TemporalFirConfig,
    ceiling: Option<Double>,
    i: int,
)
    requires
        spectrum_kept(comparable_length(candidate, baseline, rate), bins, strategy, ceiling),
        0 <= i < bins.len(),
        i <= comparable_length(candidate, baseline, rate)->0 / 2,
    ensures
        candidate == baseline,
        bins[i].delta_db.modulus().at_most(strategy.maximum_spectral_change_db),
        ceiling is Some ==> bins[i].boost_db.at_most(ceiling->0),
{
    assert(bin_safe(bins[i], strategy, ceiling));
}

/// A looser limit keeps a safe candidate safe: a spectrum that is kept under a strategy and a
/// ceiling is kept where the level may change by more, or rise higher.
pub proof fn law_looser_limit_keeps_the_spectrum(
    length: Option<usize>,
    bins: Seq<Bin>,
    tight: TemporalFirConfig,
    tight_ceiling: Option<Double>,
    loose: TemporalFirConfig,
    loose_ceiling: Option<Double>,
)
    requires
        spectrum_kept(length, bins, tight, tight_ceiling),
        tight.maximum_spectral_change_db.at_most(loose.maximum_spectral_change_db),
        raises(loose_ceiling, tight_ceiling),
    ensures
        spectrum_kept(length, bins, loose, loose_ceiling),
{
    assert forall|i: int| 0 <= i < bins.len() && i <= length->0 / 2 implies bin_safe(
        #[trigger] bins[i],
        loose,
        loose_ceiling,
    ) by {
        assert(bin_safe(bins[i], tight, tight_ceiling));
    }
}

/// Where two filters can be compared, and how: they have the same number of taps, at least one,
/// at a rate that is finite and positive; and the transform has the least power of two as its
/// length that is not below eight times as many, if a machine integer holds it.
pub proof fn law_filters_are_comparable_exactly_if(
    candidate: usize,
    baseline: usize,
    rate: Double,
    exponent: nat,
)
    requires
        8 * baseline <= pow2(exponent),
        pow2(exponent) < 16 * baseline || baseline == 0,
    ensures
        ({
            let usable = candidate == baseline && baseline > 0 && rate.finite() && rate.rank() > 0;
            &&& usable && pow2(exponent) <= usize::MAX ==> comparable_length(
                candidate,
                baseline,
                rate,
            ) == Some(pow2(exponent) as usize)
            &&& !usable || pow2(exponent) > usize::MAX ==> comparable_length(
                candidate,
                baseline,
                rate,
            ) is None
        }),
{
    if baseline > 0 {
        lemma_power_from_bounds((8 * baseline) as nat, 1);
        vstd::arithmetic::power2::lemma2_to64();
        lemma_power_from_is_power((8 * baseline) as nat, 0);
        let length = power_from((8 * baseline) as nat, 1);
        let e = choose|e: nat| length == #[trigger] pow2(e);
        if e < exponent {
            lemma_pow2_unfold(exponent);
            lemma_pow2_grows(e, (exponent - 1) as nat);
        } else if exponent < e {
            lemma_pow2_unfold(e);
            lemma_pow2_grows(exponent, (e - 1) as nat);
        }
    }
}

proof fn lemma_pow2_grows(a: nat, b: nat)
    requires
        a <= b,
    ensures
        pow2(a) <= pow2(b),
    decreases b,
{
    lemma_pow2_pos(b);
    if a < b {
        lemma_pow2_grows(a, (b - 1) as nat);
        lemma_pow2_unfold(b);
    }
}

/// A spectrum is kept exactly if, at every frequency up to half the rate, both magnitudes are
/// finite and not below one thousand-millionth, the level changes by a finite amount that is
/// within the allowed change in either direction, and the level is not above the ceiling, where
/// there is one. Without a ceiling the level itself does not matter.
pub proof fn law_spectrum_is_kept_exactly_within_the_limits(
    length: usize,
    bins: Seq<Bin>,
    strategy: TemporalFirConfig,
    ceiling: Option<Double>,
)
    ensures
        spectrum_kept(Some(length), bins, strategy, ceiling) <==> forall|i: int|
            #![trigger bins[i]]
            0 <= i < bins.len() && 2 * i <= length ==> {
                &&& bins[i].old.finite() && (Double { bits: 0x3e11_2e0b_e826_d695 }).at_most(
                    bins[i].old,
                )
                &&& bins[i].new.finite() && (Double { bits: 0x3e11_2e0b_e826_d695 }).at_most(
                    bins[i].new,
                )
                &&& bins[i].delta_db.finite()
                &&& bins[i].delta_db.at_most(strategy.maximum_spectral_change_db)
                &&& bins[i].delta_db.opposite().at_most(strategy.maximum_spectral_change_db)
                &&& ceiling is None || bins[i].boost_db.at_most(ceiling->0)
            },
        !spectrum_kept(None, bins, strategy, ceiling),
{
    if spectrum_kept(Some(length), bins, strategy, ceiling) {
        assert forall|i: int| #![trigger bins[i]] 0 <= i < bins.len() && 2 * i <= length implies {
            &&& bins[i].old.finite() && (Double { bits: 0x3e11_2e0b_e826_d695 }).at_most(bins[i].old)
            &&& bins[i].new.finite() && (Double { bits: 0x3e11_2e0b_e826_d695 }).at_most(bins[i].new)
            &&& bins[i].delta_db.finite()
            &&& bins[i].delta_db.at_most(strategy.maximum_spectral_change_db)
            &&& bins[i].delta_db.opposite().at_most(strategy.maximum_spectral_change_db)
            &&& ceiling is None || bins[i].boost_db.at_most(ceiling->0)
        } by {
            assert(bin_safe(bins[i], strategy, ceiling));
        }
    }
}

} // verus!
