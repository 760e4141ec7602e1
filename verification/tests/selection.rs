//! Metrics, spectra, and the choice among candidates.

use roomeq_temporal::evidence::Evidence;
use roomeq_temporal::ieee::Double;
use roomeq_temporal::metrics::{acceptable, partition_metrics, Compared, Comparison};
use roomeq_temporal::error::AutoeqError;
use roomeq_temporal::search::{check_shifts, select, Evaluation, Search, SearchStep};
use roomeq_temporal::spectrum::{fft_length, spectral_safe, Bin};
use roomeq_temporal::temporal_fir_config::{TemporalFirConfig, TemporalPartition};

fn double(x: f64) -> Double {
    Double { bits: x.to_bits() }
}

fn float(x: Double) -> f64 {
    f64::from_bits(x.bits)
}

fn list(values: &[f64]) -> Vec<Double> {
    values.iter().map(|x| double(*x)).collect()
}

fn item(partition: TemporalPartition, early: f64, relative: &[f64], late: &[f64]) -> Compared {
    Compared {
        partition,
        comparison: Some(Comparison {
            early_change_db: double(early),
            relative_tail_changes_db: list(relative),
            late_changes_db: list(late),
        }),
    }
}

fn strategy() -> TemporalFirConfig {
    TemporalFirConfig {
        channel: "L".to_owned(),
        evidence: Vec::new(),
        frequencies_hz: Vec::new(),
        frequency_weights: Vec::new(),
        window_seconds: double(0.1),
        starts_seconds: Vec::new(),
        delays_seconds: Vec::new(),
        strengths: Vec::new(),
        minimum_late_improvement_db: double(1.0),
        maximum_early_change_db: double(0.5),
        maximum_spectral_change_db: double(6.0),
        minimum_relative_tail_improvement_db: None,
        minimum_absolute_late_improvement_db: None,
        minimum_early_change_db: None,
        maximum_early_increase_db: None,
        minimum_positions: None,
    }
}

const TRAINING: TemporalPartition = TemporalPartition::Training;
const HELD_OUT: TemporalPartition = TemporalPartition::HeldOut;

#[test]
fn metrics_take_the_worst_window_of_the_worst_piece() {
    let items = vec![
        item(TRAINING, -0.25, &[-3.0, -2.0], &[-4.0, -5.0]),
        item(HELD_OUT, 9.0, &[9.0], &[9.0]),
        item(TRAINING, 0.125, &[-2.5], &[-3.5]),
    ];
    let metrics = partition_metrics(&items, TRAINING).unwrap();
    assert_eq!(float(metrics.relative_tail_improvement_db), 2.0);
    assert_eq!(float(metrics.absolute_late_improvement_db), 3.5);
    assert_eq!(float(metrics.early_change_db), 0.25);
    let held = partition_metrics(&items, HELD_OUT).unwrap();
    assert_eq!(float(held.relative_tail_improvement_db), -9.0);
}

#[test]
fn there_are_no_metrics_without_comparable_evidence() {
    assert!(partition_metrics(&Vec::new(), TRAINING).is_none());
    assert!(partition_metrics(&vec![item(HELD_OUT, 0.0, &[-1.0], &[-1.0])], TRAINING).is_none());
    let missing = Compared { partition: TRAINING, comparison: None };
    assert!(partition_metrics(&vec![missing], TRAINING).is_none());
    // No window at all, or an infinite change in one.
    assert!(partition_metrics(&vec![item(TRAINING, 0.0, &[], &[-1.0])], TRAINING).is_none());
    let endless = vec![item(TRAINING, 0.0, &[-1.0], &[f64::INFINITY])];
    assert!(partition_metrics(&endless, TRAINING).is_none());
    // What is not a number does not hide the other windows.
    let partly = vec![item(TRAINING, 0.0, &[f64::NAN, -1.0], &[-1.0])];
    let metrics = partition_metrics(&partly, TRAINING).unwrap();
    assert_eq!(float(metrics.relative_tail_improvement_db), 1.0);
}

#[test]
fn a_candidate_is_accepted_within_every_limit() {
    let items = vec![item(TRAINING, -0.25, &[-2.0], &[-3.0])];
    let gain = |strategy: &TemporalFirConfig| acceptable(&items, strategy, TRAINING).map(float);
    assert_eq!(gain(&strategy()), Some(2.0));
    let with = |change: fn(&mut TemporalFirConfig)| {
        let mut changed = strategy();
        change(&mut changed);
        gain(&changed)
    };
    assert_eq!(with(|s| s.maximum_early_change_db = double(0.25)), Some(2.0));
    assert_eq!(with(|s| s.maximum_early_change_db = double(0.2)), None);
    assert_eq!(with(|s| s.minimum_late_improvement_db = double(2.0)), Some(2.0));
    assert_eq!(with(|s| s.minimum_late_improvement_db = double(2.5)), None);
    assert_eq!(
        with(|s| {
            s.minimum_late_improvement_db = double(2.5);
            s.minimum_relative_tail_improvement_db = Some(double(1.5));
        }),
        None
    );
    assert_eq!(with(|s| s.minimum_relative_tail_improvement_db = Some(double(0.1))), Some(2.0));
    assert_eq!(with(|s| s.minimum_relative_tail_improvement_db = Some(double(2.0))), Some(2.0));
    assert_eq!(with(|s| s.minimum_relative_tail_improvement_db = Some(double(2.5))), None);
    assert_eq!(with(|s| s.minimum_absolute_late_improvement_db = Some(double(3.5))), None);
    assert_eq!(with(|s| s.minimum_early_change_db = Some(double(-0.25))), Some(2.0));
    assert_eq!(with(|s| s.minimum_early_change_db = Some(double(-0.2))), None);
    assert_eq!(with(|s| s.maximum_early_increase_db = Some(double(-0.25))), Some(2.0));
    assert_eq!(with(|s| s.maximum_early_increase_db = Some(double(-0.3))), None);
    assert_eq!(acceptable(&items, &strategy(), HELD_OUT), None);
}

#[test]
fn optional_limits_only_tighten() {
    let items = vec![item(TRAINING, 0.0, &[-1.0], &[-1.0])];
    let mut limited = strategy();
    limited.minimum_late_improvement_db = double(5.0);
    assert_eq!(acceptable(&items, &limited, TRAINING), None);
    limited.minimum_relative_tail_improvement_db = Some(double(0.1));
    limited.minimum_absolute_late_improvement_db = Some(double(0.1));
    assert_eq!(acceptable(&items, &limited, TRAINING), None);
    limited.minimum_late_improvement_db = double(0.5);
    assert_eq!(acceptable(&items, &limited, TRAINING).map(float), Some(1.0));
}

#[test]
fn looser_limits_accept_the_same() {
    let items = vec![item(TRAINING, -0.25, &[-2.0], &[-3.0])];
    let mut tight = strategy();
    tight.maximum_early_change_db = double(0.25);
    tight.minimum_relative_tail_improvement_db = Some(double(2.0));
    tight.minimum_early_change_db = Some(double(-0.25));
    tight.maximum_early_increase_db = Some(double(-0.25));
    assert_eq!(acceptable(&items, &tight, TRAINING).map(float), Some(2.0));
    let mut loose = strategy();
    loose.maximum_early_change_db = double(3.0);
    loose.minimum_late_improvement_db = double(0.5);
    loose.minimum_relative_tail_improvement_db = Some(double(1.5));
    loose.minimum_early_change_db = Some(double(-1.0));
    assert_eq!(acceptable(&items, &loose, TRAINING).map(float), Some(2.0));
}

#[test]
fn metrics_ignore_order_and_the_other_use() {
    let first = || item(TRAINING, -0.25, &[-3.0, -2.0], &[-4.0, -5.0]);
    let second = || item(TRAINING, 0.125, &[-2.5], &[-3.5]);
    let expected = partition_metrics(&vec![first(), second()], TRAINING);
    assert!(expected.is_some());
    let other = || item(HELD_OUT, 9.0, &[9.0], &[9.0]);
    for items in [
        vec![second(), first()],
        vec![other(), first(), second()],
        vec![second(), other(), first(), second()],
    ] {
        assert_eq!(partition_metrics(&items, TRAINING), expected);
        assert_eq!(acceptable(&items, &strategy(), TRAINING).map(float), Some(2.0));
    }
}

fn bin(delta: f64) -> Bin {
    Bin { old: double(1.0), new: double(1.0), delta_db: double(delta), boost_db: double(delta) }
}

#[test]
fn the_transform_is_eight_times_as_long() {
    let rate = double(48_000.0);
    assert_eq!(fft_length(128, 128, rate), Some(1024));
    assert_eq!(fft_length(513, 513, rate), Some(8192));
    assert_eq!(fft_length(1, 1, rate), Some(8));
    assert_eq!(fft_length(128, 127, rate), None);
    assert_eq!(fft_length(0, 0, rate), None);
    assert_eq!(fft_length(1, 1, double(0.0)), None);
    assert_eq!(fft_length(1, 1, double(f64::NAN)), None);
    assert_eq!(fft_length(usize::MAX / 8 + 1, usize::MAX / 8 + 1, rate), None);
    assert_eq!(fft_length(usize::MAX / 8, usize::MAX / 8, rate), None);
    let largest = (usize::MAX / 2 + 1) / 8;
    assert_eq!(fft_length(largest, largest, rate), Some(usize::MAX / 2 + 1));
}

#[test]
fn a_spectrum_is_kept_at_every_frequency_up_to_half_the_rate() {
    let rate = double(48_000.0);
    let safe = |bins: &Vec<Bin>, ceiling: Option<f64>| {
        spectral_safe(1, 1, rate, bins, &strategy(), ceiling.map(double))
    };
    let mut bins = vec![bin(6.0), bin(-6.0), bin(0.0), bin(1.0), bin(2.0)];
    assert!(safe(&bins, None));
    assert!(safe(&bins, Some(6.0)));
    assert!(!safe(&bins, Some(5.9)));
    bins[4].delta_db = double(6.1);
    assert!(!safe(&bins, None));
    bins[4].delta_db = double(f64::NAN);
    assert!(!safe(&bins, None));
    bins[4] = bin(0.0);
    bins[4].new = double(9e-10);
    assert!(!safe(&bins, None));
    bins[4].new = double(1e-9);
    assert!(safe(&bins, None));
    bins[4].old = double(f64::INFINITY);
    assert!(!safe(&bins, None));
    // What lies above half the rate is not looked at.
    bins[4] = bin(0.0);
    bins.push(bin(100.0));
    assert!(safe(&bins, None));
    assert!(!spectral_safe(1, 2, rate, &Vec::new(), &strategy(), None));
}

#[test]
fn a_looser_limit_keeps_the_spectrum() {
    let rate = double(48_000.0);
    let bins = vec![bin(5.0), bin(-5.0), bin(0.0), bin(1.0), bin(2.0)];
    let kept = |change: f64, ceiling: Option<f64>| {
        let mut strategy = strategy();
        strategy.maximum_spectral_change_db = double(change);
        spectral_safe(1, 1, rate, &bins, &strategy, ceiling.map(double))
    };
    assert!(!kept(4.9, None));
    assert!(!kept(5.0, Some(4.9)));
    assert!(kept(5.0, Some(5.0)));
    assert!(kept(5.1, Some(5.0)));
    assert!(kept(5.0, Some(5.1)));
    assert!(kept(5.1, None));
}

fn evidence() -> Vec<Evidence> {
    [TRAINING, HELD_OUT]
        .into_iter()
        .map(|partition| Evidence {
            identity: String::new(),
            sidecar_sha256: String::new(),
            partition,
            record_id: String::new(),
            position_id: String::new(),
            stimulus_reference: String::new(),
            samples_sha256: String::new(),
        })
        .collect()
}

fn evaluation(tap: f64, training: f64, held_out: f64) -> Evaluation {
    Evaluation {
        taps: list(&[tap, 0.0]),
        bins: vec![bin(0.0); 9],
        compared: vec![
            item(TRAINING, 0.0, &[-training], &[-training]),
            item(HELD_OUT, 0.0, &[-held_out], &[-held_out]),
        ],
    }
}

/// A strategy for a grid of one delay by this many strengths.
fn row(strengths: usize) -> TemporalFirConfig {
    let mut strategy = strategy();
    strategy.delays_seconds = list(&[0.001]);
    strategy.strengths = vec![double(0.5); strengths];
    strategy
}

fn selected(evaluations: &Vec<Evaluation>) -> Option<roomeq_temporal::search::Selected> {
    let strategy = row(evaluations.len());
    let evidence = evidence();
    let search = Search::new(&strategy, &evidence, 2, double(48_000.0), None);
    select(search, &vec![1], evaluations)
}

#[test]
fn the_first_of_the_best_candidates_is_picked() {
    let evaluations = vec![
        evaluation(0.125, 2.0, 0.0),
        evaluation(0.25, 3.0, 0.0),
        evaluation(0.5, 3.0, 5.0),
        evaluation(0.75, 0.5, 5.0),
    ];
    let best = selected(&evaluations).unwrap();
    assert_eq!(best.taps, vec![0.25_f32.to_bits(), 0]);
    assert_eq!(float(best.gain), 3.0);
    assert!(!best.confirmed);
    assert_eq!(float(best.training.unwrap().absolute_late_improvement_db), 3.0);
    assert_eq!(float(best.held_out.unwrap().absolute_late_improvement_db), 0.0);
}

#[test]
fn held_out_evidence_confirms_but_does_not_pick() {
    let best = selected(&vec![evaluation(0.125, 2.0, 1.0), evaluation(0.25, 1.5, 9.0)]).unwrap();
    assert_eq!(best.taps, vec![0.125_f32.to_bits(), 0]);
    assert!(best.confirmed);
    assert!(selected(&vec![evaluation(0.125, 0.9, 9.0)]).is_none());
    assert!(selected(&Vec::new()).is_none());
}

#[test]
fn an_unsafe_spectrum_or_another_length_rules_a_candidate_out() {
    let mut unsafe_one = evaluation(0.125, 9.0, 9.0);
    unsafe_one.bins[2] = bin(7.0);
    let mut longer = evaluation(0.125, 9.0, 9.0);
    longer.taps.push(double(0.0));
    let best = selected(&vec![unsafe_one, longer, evaluation(0.1, 2.0, 2.0)]).unwrap();
    // The taps are rounded to singles.
    assert_eq!(best.taps, vec![0.1_f32.to_bits(), 0]);
}

#[test]
fn a_search_asks_for_each_delay_and_then_its_candidates() {
    let mut strategy = row(2);
    strategy.delays_seconds = list(&[0.001, 0.002]);
    let evidence = evidence();
    let mut search = Search::new(&strategy, &evidence, 2, double(48_000.0), None);
    let mut steps = Vec::new();
    let mut tap = 0.0;
    loop {
        let step = search.next();
        steps.push(step);
        match step {
            SearchStep::Delay(_) => search.delay(1).unwrap(),
            SearchStep::Candidate(_, _) => {
                tap += 1.0;
                search.offer(&evaluation(tap, tap, tap));
            }
            SearchStep::Complete => break,
        }
    }
    assert_eq!(
        steps,
        [
            SearchStep::Delay(0),
            SearchStep::Candidate(0, 0),
            SearchStep::Candidate(0, 1),
            SearchStep::Delay(1),
            SearchStep::Candidate(1, 0),
            SearchStep::Candidate(1, 1),
            SearchStep::Complete,
        ]
    );
    let best = search.conclude().unwrap();
    assert_eq!(best.taps[0], 4.0_f32.to_bits());
}

#[test]
fn a_delay_must_fall_inside_the_filter() {
    let strategy = row(1);
    let evidence = evidence();
    for shift in [0, 2, 3] {
        let mut search = Search::new(&strategy, &evidence, 2, double(48_000.0), None);
        let AutoeqError::InvalidMeasurement { message } = search.delay(shift).unwrap_err();
        assert_eq!(
            message,
            "temporal_fir: candidate delay falls outside configured FIR taps"
        );
        assert_eq!(search.next(), SearchStep::Delay(0));
        assert!(check_shifts(&vec![1, shift], 2).is_err());
    }
    assert!(check_shifts(&vec![1, 1], 2).is_ok());
}
