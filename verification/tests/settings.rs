//! Which configurations admit a refinement.

use roomeq_temporal::error::AutoeqError;
use roomeq_temporal::ieee::Double;
use roomeq_temporal::room::{
    speaker, FirConfig, ProcessingMode, RoomConfig, Speaker, SpeakerConfig, SystemConfig,
};
use roomeq_temporal::settings::check_settings;
use roomeq_temporal::temporal_fir_config::{
    TemporalFirConfig, TemporalIrEvidence, TemporalPartition,
};

fn double(x: f64) -> Double {
    Double { bits: x.to_bits() }
}

fn strategy() -> TemporalFirConfig {
    TemporalFirConfig {
        channel: "L".to_owned(),
        evidence: vec![TemporalIrEvidence {
            sidecar_path: "a.json".to_owned(),
            position_id: "a".to_owned(),
            partition: TemporalPartition::Training,
        }],
        frequencies_hz: Vec::new(),
        frequency_weights: Vec::new(),
        window_seconds: double(0.1),
        starts_seconds: Vec::new(),
        delays_seconds: vec![double(0.001)],
        strengths: vec![double(1.0)],
        minimum_late_improvement_db: double(0.0),
        maximum_early_change_db: double(0.0),
        maximum_spectral_change_db: double(0.0),
        minimum_relative_tail_improvement_db: Some(double(0.1)),
        minimum_absolute_late_improvement_db: Some(double(0.1)),
        minimum_early_change_db: Some(double(-0.75)),
        maximum_early_increase_db: Some(double(0.25)),
        minimum_positions: Some(3),
    }
}

fn config() -> RoomConfig {
    RoomConfig {
        temporal_fir: None,
        processing_mode: ProcessingMode::Hybrid,
        fir: Some(FirConfig { taps: 64, max_boost_db: None }),
        speakers: vec![
            Speaker { name: "sub".to_owned(), config: SpeakerConfig::Group },
            Speaker { name: "L".to_owned(), config: SpeakerConfig::Single },
        ],
        system: Some(SystemConfig { subwoofers: false, bass_management: Some(false) }),
    }
}

fn message(result: Result<(), AutoeqError>) -> String {
    match result {
        Ok(()) => "accepted".to_owned(),
        Err(AutoeqError::InvalidMeasurement { message }) => message,
    }
}

const RATE: &str = "temporal_fir: filter rate must be integral and FIR taps must be configured";
const INDEPENDENT: &str = "temporal_fir: requires an independent single channel with one configured phase_linear or hybrid FIR";
const INVALID: &str = "temporal_fir: invalid evidence, candidate grid, or acceptance settings";

fn with_rate(sample_rate: f64, rate: u32, taps: usize) -> String {
    message(check_settings(&config(), &strategy(), double(sample_rate), rate, taps))
}

fn with_config(change: impl Fn(&mut RoomConfig)) -> String {
    let mut config = config();
    change(&mut config);
    message(check_settings(&config, &strategy(), double(48_000.0), 48_000, 64))
}

fn with_strategy(change: impl Fn(&mut TemporalFirConfig)) -> String {
    let mut strategy = strategy();
    change(&mut strategy);
    message(check_settings(&config(), &strategy, double(48_000.0), 48_000, 64))
}

#[test]
fn limits_at_their_bounds_are_accepted() {
    assert_eq!(with_rate(48_000.0, 48_000, 64), "accepted");
    assert_eq!(with_rate(0.0, 0, 64), "accepted");
    assert_eq!(with_rate(4_294_967_295.0, u32::MAX, 64), "accepted");
    let unset = with_strategy(|s| {
        s.minimum_relative_tail_improvement_db = None;
        s.minimum_absolute_late_improvement_db = None;
        s.minimum_early_change_db = None;
        s.maximum_early_increase_db = None;
        s.minimum_positions = None;
    });
    assert_eq!(unset, "accepted");
}

#[test]
fn the_rate_must_be_the_integer_and_there_must_be_taps() {
    assert_eq!(with_rate(48_000.5, 48_000, 64), RATE);
    assert_eq!(with_rate(f64::NAN, 48_000, 64), RATE);
    assert_eq!(with_rate(48_000.0, 48_001, 64), RATE);
    assert_eq!(with_rate(48_000.0, 48_000, 0), RATE);
}

#[test]
fn the_channel_must_be_independent() {
    assert_eq!(with_rate(48_000.0, 48_000, 65), INDEPENDENT);
    assert_eq!(with_config(|c| c.processing_mode = ProcessingMode::Other), INDEPENDENT);
    assert_eq!(with_config(|c| c.processing_mode = ProcessingMode::PhaseLinear), "accepted");
    assert_eq!(with_config(|c| c.fir = None), INDEPENDENT);
    assert_eq!(with_config(|c| c.speakers[1].config = SpeakerConfig::Group), INDEPENDENT);
    assert_eq!(with_config(|c| c.speakers.truncate(1)), INDEPENDENT);
    let system = |subwoofers, bass_management| {
        with_config(move |c| c.system = Some(SystemConfig { subwoofers, bass_management }))
    };
    assert_eq!(system(true, None), INDEPENDENT);
    assert_eq!(system(false, Some(true)), INDEPENDENT);
    assert_eq!(system(false, None), "accepted");
    assert_eq!(with_config(|c| c.system = None), "accepted");
    assert_eq!(speaker(&config().speakers, "L"), Some(SpeakerConfig::Single));
    assert_eq!(speaker(&config().speakers, "sub"), Some(SpeakerConfig::Group));
    assert_eq!(speaker(&config().speakers, "R"), None);
}

#[test]
fn every_setting_is_checked() {
    assert_eq!(with_strategy(|s| s.evidence.clear()), INVALID);
    assert_eq!(with_strategy(|s| s.delays_seconds.clear()), INVALID);
    assert_eq!(with_strategy(|s| s.strengths.clear()), INVALID);
    for bad in [-1e-300, f64::NAN, f64::INFINITY] {
        assert_eq!(with_strategy(|s| s.minimum_late_improvement_db = double(bad)), INVALID);
        assert_eq!(with_strategy(|s| s.maximum_early_change_db = double(bad)), INVALID);
        assert_eq!(with_strategy(|s| s.maximum_spectral_change_db = double(bad)), INVALID);
    }
    for bad in [0.099, f64::NAN, f64::INFINITY] {
        let bad = Some(double(bad));
        assert_eq!(with_strategy(|s| s.minimum_relative_tail_improvement_db = bad), INVALID);
        assert_eq!(with_strategy(|s| s.minimum_absolute_late_improvement_db = bad), INVALID);
    }
    assert_eq!(with_strategy(|s| s.minimum_early_change_db = Some(double(-0.76))), INVALID);
    assert_eq!(with_strategy(|s| s.maximum_early_increase_db = Some(double(0.26))), INVALID);
    assert_eq!(with_strategy(|s| s.maximum_early_increase_db = Some(double(-0.8))), INVALID);
    assert_eq!(with_strategy(|s| s.minimum_early_change_db = Some(double(0.3))), INVALID);
    assert_eq!(with_strategy(|s| s.minimum_positions = Some(2)), INVALID);
    for bad in [0.0, -1.0, f64::NAN, f64::INFINITY] {
        assert_eq!(with_strategy(|s| s.delays_seconds.push(double(bad))), INVALID);
        assert_eq!(with_strategy(|s| s.strengths.push(double(bad))), INVALID);
    }
    assert_eq!(with_strategy(|s| s.strengths.push(double(1.001))), INVALID);
    assert_eq!(with_strategy(|s| s.strengths.push(double(0.5))), "accepted");
    assert_eq!(with_strategy(|s| s.delays_seconds.push(double(10.0))), "accepted");
}
