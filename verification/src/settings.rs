//! When a configuration admits a temporal refinement.

use crate::error::{invalid, invalid_text, AutoeqError};
use crate::ieee::{double_of, from_integer, lemma_double_of_bound, Double};
use crate::room::{find_speaker, speaker, ProcessingMode, RoomConfig, SpeakerConfig};
use crate::temporal_fir_config::TemporalFirConfig;
use vstd::prelude::*;

verus! {

/// The bits of zero.
pub const ZERO: u64 = 0;

/// The bits of one.
pub const ONE: u64 = 0x3ff0_0000_0000_0000;

/// The bits of the double nearest to one tenth.
pub const TENTH: u64 = 0x3fb9_9999_9999_999a;

/// The bits of one quarter.
pub const QUARTER: u64 = 0x3fd0_0000_0000_0000;

/// The bits of minus three quarters.
pub const MINUS_THREE_QUARTERS: u64 = 0xbfe8_0000_0000_0000;

/// Whether a sample rate is this integer.
pub open spec fn rate_is(sample_rate: Double, rate: u32) -> bool {
    let exact = Double { bits: double_of(rate as nat) as u64 };
    !sample_rate.nan() && sample_rate.rank() == exact.rank()
}

/// Whether the channel is realized by one FIR filter of its own, with this many taps.
pub open spec fn independent(config: RoomConfig, channel: Seq<char>, tap_count: usize) -> bool {
    &&& config.processing_mode == ProcessingMode::PhaseLinear || config.processing_mode
        == ProcessingMode::Hybrid
    &&& config.fir is Some
    &&& config.fir->0.taps == tap_count
    &&& find_speaker(config.speakers@, channel) == Some(SpeakerConfig::Single)
    &&& !(config.system is Some && (config.system->0.subwoofers
        || config.system->0.bass_management == Some(true)))
}

/// Whether a limit is a number that is not negative.
pub open spec fn is_limit(x: Double) -> bool {
    x.finite() && !x.below((Double { bits: ZERO }))
}

/// Whether a limit that may be missing is a number of at least `least`.
pub open spec fn at_least_if_set(x: Option<Double>, least: Double) -> bool {
    x is Some ==> x->0.finite() && !x->0.below(least)
}

/// Whether the evidence, the grid of candidates and the acceptance limits are usable.
pub open spec fn settings_usable(strategy: TemporalFirConfig) -> bool {
    let least = strategy.minimum_early_change_db;
    let most = strategy.maximum_early_increase_db;
    &&& strategy.evidence@.len() > 0
    &&& strategy.delays_seconds@.len() > 0
    &&& strategy.strengths@.len() > 0
    &&& is_limit(strategy.minimum_late_improvement_db)
    &&& is_limit(strategy.maximum_early_change_db)
    &&& is_limit(strategy.maximum_spectral_change_db)
    &&& at_least_if_set(strategy.minimum_relative_tail_improvement_db, (Double { bits: TENTH }))
    &&& at_least_if_set(strategy.minimum_absolute_late_improvement_db, (Double { bits: TENTH }))
    &&& at_least_if_set(least, (Double { bits: MINUS_THREE_QUARTERS }))
    &&& most is Some ==> most->0.finite() && !(Double { bits: QUARTER }).below(most->0)
    &&& least is Some && most is Some ==> !most->0.below(least->0)
    &&& strategy.minimum_positions is Some ==> strategy.minimum_positions->0 >= 3
    &&& forall|i: int|
        0 <= i < strategy.delays_seconds@.len() ==> {
            &&& (#[trigger] strategy.delays_seconds@[i]).finite()
            &&& (Double { bits: ZERO }).below(strategy.delays_seconds@[i])
        }
    &&& forall|i: int|
        0 <= i < strategy.strengths@.len() ==> {
            &&& (#[trigger] strategy.strengths@[i]).finite()
            &&& (Double { bits: ZERO }).below(strategy.strengths@[i])
            &&& strategy.strengths@[i].at_most((Double { bits: ONE }))
        }
}

/// Why a configuration does not admit a temporal refinement, if it does not.
pub open spec fn settings_fault(
    config: RoomConfig,
    strategy: TemporalFirConfig,
    sample_rate: Double,
    rate: u32,
    tap_count: usize,
) -> Option<Seq<char>> {
    if !rate_is(sample_rate, rate) || tap_count == 0 {
        Some(invalid_text("filter rate must be integral and FIR taps must be configured"@))
    } else if !independent(config, strategy.channel@, tap_count) {
        Some(
            invalid_text(
                "requires an independent single channel with one configured phase_linear or hybrid FIR"@,
            ),
        )
    } else if !settings_usable(strategy) {
        Some(invalid_text("invalid evidence, candidate grid, or acceptance settings"@))
    } else {
        None
    }
}

fn is_rate(sample_rate: Double, rate: u32) -> (r: bool)
    ensures
        r == rate_is(sample_rate, rate),
{
    proof {
        lemma_double_of_bound(rate as u64);
    }
    let exact = from_integer(rate as u64);
    sample_rate.is_at_most(exact) && exact.is_at_most(sample_rate)
}

fn is_independent(config: &RoomConfig, channel: &str, tap_count: usize) -> (r: bool)
    ensures
        r == independent(*config, channel@, tap_count),
{
    let realized = match config.processing_mode {
        ProcessingMode::PhaseLinear => true,
        ProcessingMode::Hybrid => true,
        ProcessingMode::Other => false,
    };
    let configured = match &config.fir {
        Some(fir) => fir.taps == tap_count,
        None => false,
    };
    let single = match speaker(&config.speakers, channel) {
        Some(SpeakerConfig::Single) => true,
        Some(SpeakerConfig::Group) => false,
        None => false,
    };
    let shared = match &config.system {
        Some(system) => system.subwoofers || match system.bass_management {
            Some(enabled) => enabled,
            None => false,
        },
        None => false,
    };
    realized && configured && single && !shared
}

fn limit_usable(x: Double) -> (r: bool)
    ensures
        r == is_limit(x),
{
    x.is_finite() && !x.is_below((Double { bits: ZERO }))
}

fn optional_limit_usable(x: Option<Double>, least: Double) -> (r: bool)
    ensures
        r == at_least_if_set(x, least),
{
    match x {
        Some(x) => x.is_finite() && !x.is_below(least),
        None => true,
    }
}

fn delays_usable(delays: &Vec<Double>) -> (r: bool)
    ensures
        r == (forall|i: int|
            0 <= i < delays@.len() ==> {
                &&& (#[trigger] delays@[i]).finite()
                &&& (Double { bits: ZERO }).below(delays@[i])
            }),
{
    let mut i: usize = 0;
    while i < delays.len()
        invariant
            i <= delays@.len(),
            forall|j: int|
                0 <= j < i ==> {
                    &&& (#[trigger] delays@[j]).finite()
                    &&& (Double { bits: ZERO }).below(delays@[j])
                },
        decreases delays@.len() - i,
    {
        let delay = delays[i];
        assert(delay == delays@[i as int]);
        if !(delay.is_finite() && Double { bits: ZERO }.is_below(delay)) {
            return false;
        }
        i = i + 1;
    }
    true
}

fn strengths_usable(strengths: &Vec<Double>) -> (r: bool)
    ensures
        r == (forall|i: int|
            0 <= i < strengths@.len() ==> {
                &&& (#[trigger] strengths@[i]).finite()
                &&& (Double { bits: ZERO }).below(strengths@[i])
                &&& strengths@[i].at_most((Double { bits: ONE }))
            }),
{
    let mut i: usize = 0;
    while i < strengths.len()
        invariant
            i <= strengths@.len(),
            forall|j: int|
                0 <= j < i ==> {
                    &&& (#[trigger] strengths@[j]).finite()
                    &&& (Double { bits: ZERO }).below(strengths@[j])
                    &&& strengths@[j].at_most((Double { bits: ONE }))
                },
        decreases strengths@.len() - i,
    {
        let strength = strengths[i];
        assert(strength == strengths@[i as int]);
        if !(strength.is_finite() && Double { bits: ZERO }.is_below(strength)
            && strength.is_at_most(Double { bits: ONE })) {
            return false;
        }
        i = i + 1;
    }
    true
}

fn are_settings_usable(strategy: &TemporalFirConfig) -> (r: bool)
    ensures
        r == settings_usable(*strategy),
{
    let least = strategy.minimum_early_change_db;
    let most = strategy.maximum_early_increase_db;
    let capped = match most {
        Some(most) => most.is_finite() && !(Double { bits: QUARTER }).is_below(most),
        None => true,
    };
    let ordered = match (least, most) {
        (Some(least), Some(most)) => !most.is_below(least),
        _ => true,
    };
    let spread = match strategy.minimum_positions {
        Some(count) => count >= 3,
        None => true,
    };
    let tenth = Double { bits: TENTH };
    let evident = strategy.evidence.len() > 0 && strategy.delays_seconds.len() > 0
        && strategy.strengths.len() > 0;
    let limited = limit_usable(strategy.minimum_late_improvement_db) && limit_usable(
        strategy.maximum_early_change_db,
    ) && limit_usable(strategy.maximum_spectral_change_db);
    let tightened = optional_limit_usable(
        strategy.minimum_relative_tail_improvement_db,
        tenth,
    ) && optional_limit_usable(strategy.minimum_absolute_late_improvement_db, tenth)
        && optional_limit_usable(least, Double { bits: MINUS_THREE_QUARTERS });
    evident && limited && tightened && capped && ordered && spread && delays_usable(
        &strategy.delays_seconds,
    ) && strengths_usable(&strategy.strengths)
}

/// Checks that a configuration admits a temporal refinement of a filter with `tap_count` taps.
/// `rate` is the sample rate as the integer that it was checked to be.
pub fn check_settings(
    config: &RoomConfig,
    strategy: &TemporalFirConfig,
    sample_rate: Double,
    rate: u32,
    tap_count: usize,
) -> (r: Result<(), AutoeqError>)
    ensures
        match r {
            Ok(_) => settings_fault(*config, *strategy, sample_rate, rate, tap_count) is None,
            Err(e) => settings_fault(*config, *strategy, sample_rate, rate, tap_count) == Some(e@),
        },
{
    if !is_rate(sample_rate, rate) || tap_count == 0 {
        return Err(invalid("filter rate must be integral and FIR taps must be configured"));
    }
    if !is_independent(config, strategy.channel.as_str(), tap_count) {
        return Err(
            invalid(
                "requires an independent single channel with one configured phase_linear or hybrid FIR",
            ),
        );
    }
    if !are_settings_usable(strategy) {
        return Err(invalid("invalid evidence, candidate grid, or acceptance settings"));
    }
    Ok(())
}

/// A configuration admits a refinement exactly if all of this holds. The rate is the integer, and
/// there are taps. The channel is one loudspeaker, under linear phase or in hybrid mode, with as
/// many configured taps, in a system without subwoofers and without bass management. There is
/// evidence, and a grid of positive delays and of strengths above zero and up to one. The three
/// general limits are finite and not negative. Of the limits that may be set, the two minima are at
/// least one tenth, the least early change is at least minus three quarters, the largest early
/// increase is at most one quarter and not below the least change, and at least three positions are
/// asked for.
pub proof fn law_settings_admit_exactly_if(
    config: RoomConfig,
    strategy: TemporalFirConfig,
    sample_rate: Double,
    rate: u32,
    tap_count: usize,
)
    ensures
        settings_fault(config, strategy, sample_rate, rate, tap_count) is None <==> {
            let zero = Double { bits: 0 };
            let one = Double { bits: 0x3ff0_0000_0000_0000 };
            let tenth = Double { bits: 0x3fb9_9999_9999_999a };
            let quarter = Double { bits: 0x3fd0_0000_0000_0000 };
            let least = Double { bits: 0xbfe8_0000_0000_0000 };
            let exact = Double { bits: double_of(rate as nat) as u64 };
            &&& sample_rate.at_most(exact) && exact.at_most(sample_rate)
            &&& tap_count > 0
            &&& config.processing_mode == ProcessingMode::PhaseLinear || config.processing_mode
                == ProcessingMode::Hybrid
            &&& config.fir is Some && config.fir->0.taps == tap_count
            &&& find_speaker(config.speakers@, strategy.channel@) == Some(SpeakerConfig::Single)
            &&& config.system is Some ==> !config.system->0.subwoofers
                && config.system->0.bass_management != Some(true)
            &&& strategy.evidence@.len() > 0
            &&& strategy.delays_seconds@.len() > 0
            &&& strategy.strengths@.len() > 0
            &&& strategy.minimum_late_improvement_db.finite() && zero.at_most(
                strategy.minimum_late_improvement_db,
            )
            &&& strategy.maximum_early_change_db.finite() && zero.at_most(
                strategy.maximum_early_change_db,
            )
            &&& strategy.maximum_spectral_change_db.finite() && zero.at_most(
                strategy.maximum_spectral_change_db,
            )
            &&& strategy.minimum_relative_tail_improvement_db matches Some(limit) ==> limit.finite()
                && tenth.at_most(limit)
            &&& strategy.minimum_absolute_late_improvement_db matches Some(limit) ==> limit.finite()
                && tenth.at_most(limit)
            &&& strategy.minimum_early_change_db matches Some(limit) ==> limit.finite()
                && least.at_most(limit)
            &&& strategy.maximum_early_increase_db matches Some(limit) ==> limit.finite()
                && limit.at_most(quarter)
            &&& strategy.minimum_early_change_db is Some && strategy.maximum_early_increase_db
                is Some ==> strategy.minimum_early_change_db->0.at_most(
                strategy.maximum_early_increase_db->0,
            )
            &&& strategy.minimum_positions matches Some(count) ==> count >= 3
            &&& forall|i: int|
                0 <= i < strategy.delays_seconds@.len() ==> (
                #[trigger] strategy.delays_seconds@[i]).finite() && zero.below(
                    strategy.delays_seconds@[i],
                )
            &&& forall|i: int|
                0 <= i < strategy.strengths@.len() ==> zero.below(
                    #[trigger] strategy.strengths@[i],
                ) && strategy.strengths@[i].at_most(one)
        },
{
    lemma_double_of_bound(rate as u64);
    if settings_usable(strategy) {
        assert forall|i: int| 0 <= i < strategy.strengths@.len() implies (Double {
            bits: 0,
        }).below(#[trigger] strategy.strengths@[i]) && strategy.strengths@[i].at_most(
            Double { bits: 0x3ff0_0000_0000_0000 },
        ) by {
            assert(strategy.strengths@[i].finite());
        }
    }
    if forall|i: int|
        0 <= i < strategy.strengths@.len() ==> (Double { bits: 0 }).below(
            #[trigger] strategy.strengths@[i],
        ) && strategy.strengths@[i].at_most(Double { bits: 0x3ff0_0000_0000_0000 }) {
        assert forall|i: int| 0 <= i < strategy.strengths@.len() implies {
            &&& (#[trigger] strategy.strengths@[i]).finite()
            &&& (Double { bits: ZERO }).below(strategy.strengths@[i])
            &&& strategy.strengths@[i].at_most((Double { bits: ONE }))
        } by {}
    }
}

/// Which of the three reasons a refusal of a configuration gives.
pub proof fn law_settings_are_refused_for_the_first_reason(
    config: RoomConfig,
    strategy: TemporalFirConfig,
    sample_rate: Double,
    rate: u32,
    tap_count: usize,
)
    ensures
        ({
            let exact = Double { bits: double_of(rate as nat) as u64 };
            let fault = settings_fault(config, strategy, sample_rate, rate, tap_count);
            let rated = sample_rate.at_most(exact) && exact.at_most(sample_rate) && tap_count > 0;
            let realized = config.processing_mode != ProcessingMode::Other && config.fir is Some
                && config.fir->0.taps == tap_count && find_speaker(
                config.speakers@,
                strategy.channel@,
            ) == Some(SpeakerConfig::Single) && (config.system is Some
                ==> !config.system->0.subwoofers && config.system->0.bass_management != Some(
                true,
            ));
            &&& !rated ==> fault == Some(
                "temporal_fir: "@
                    + "filter rate must be integral and FIR taps must be configured"@,
            )
            &&& rated && !realized ==> fault == Some(
                "temporal_fir: "@
                    + "requires an independent single channel with one configured phase_linear or hybrid FIR"@,
            )
            &&& rated && realized && fault is Some ==> fault == Some(
                "temporal_fir: "@ + "invalid evidence, candidate grid, or acceptance settings"@,
            )
        }),
{
    lemma_double_of_bound(rate as u64);
}

} // verus!
