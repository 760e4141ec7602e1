//! The refinement of a synthetic channel, from evidence files held in memory to the report.

use autoeq_artifacts::{ArtifactStore, MemoryArtifactStore};
use autoeq_measurements::{MeasurementOrigin, MeasurementRecord, SourceArtifact};
use roomeq_temporal::digest::sha256;
use roomeq_temporal::error::AutoeqError;
use roomeq_temporal::evidence::Evidence;
use roomeq_temporal::ieee::{doubles, singles, Double};
use roomeq_temporal::intake::EvidenceSource;
use roomeq_temporal::metrics::{Compared, Comparison};
use roomeq_temporal::package_reader::{StoredArray, StoredPackage};
use roomeq_temporal::refinement::{MetricsText, Report, Trial};
use roomeq_temporal::room::{FirConfig, ProcessingMode, RoomConfig, Speaker, SpeakerConfig};
use roomeq_temporal::room_result::{
    write_plugins, ChannelResult, Curve, OutputChain, Plugin, RoomOptimizationResult, StageStatus,
};
use roomeq_temporal::search::Evaluation;
use roomeq_temporal::spectrum::{fft_length, Bin};
use roomeq_temporal::temporal_fir_config::{
    TemporalArrayReference, TemporalFirConfig, TemporalIrEvidence, TemporalIrSidecar,
    TemporalPartition,
};
use serde_json::Value;
use std::collections::BTreeMap;
use std::path::Path;
use std::sync::Arc;

/// Files by path.
type Files = BTreeMap<String, Vec<u8>>;

fn double(x: f64) -> Double {
    Double { bits: x.to_bits() }
}

fn float(x: Double) -> f64 {
    f64::from_bits(x.bits)
}

fn object(members: &[(&str, Value)]) -> Value {
    let mut map = serde_json::Map::new();
    for (key, value) in members {
        map.insert((*key).to_owned(), value.clone());
    }
    Value::Object(map)
}

/// Where a JSON document of a package lies.
fn document(package: &str, name: &str) -> String {
    format!("{package}/{name}.json")
}

fn text(s: &str) -> Value {
    Value::String(s.to_owned())
}

fn wav_bytes(samples: &[f32], channels: u16) -> Vec<u8> {
    let spec = hound::WavSpec {
        channels,
        sample_rate: 48_000,
        bits_per_sample: 32,
        sample_format: hound::SampleFormat::Float,
    };
    let mut bytes = std::io::Cursor::new(Vec::new());
    let mut writer = hound::WavWriter::new(&mut bytes, spec).unwrap();
    for sample in samples {
        writer.write_sample(*sample).unwrap();
    }
    writer.finalize().unwrap();
    bytes.into_inner()
}

fn decode(bytes: &[u8]) -> Vec<f64> {
    let mut reader = hound::WavReader::new(std::io::Cursor::new(bytes)).unwrap();
    reader.samples::<f32>().map(|sample| f64::from(sample.unwrap())).collect()
}

fn impulse_response(tail: f32) -> Vec<f32> {
    let mut samples = vec![0.0_f32; 256];
    samples[64] = 1.0;
    samples[112] = tail;
    samples
}

fn partition_name(partition: TemporalPartition) -> &'static str {
    match partition {
        TemporalPartition::Training => "training",
        TemporalPartition::HeldOut => "held_out",
    }
}

fn record_of(label: &str, partition: TemporalPartition, wav_path: &str, wav: &[u8]) -> MeasurementRecord {
    let curve = serde_json::from_str(
        r#"{"freq":{"v":1,"dim":[3],"data":[20.0,200.0,2000.0]},
            "spl":{"v":1,"dim":[3],"data":[80.0,81.5,79.25]}}"#,
    )
    .unwrap();
    let mut record = MeasurementRecord::from_api(curve, wav_path).unwrap();
    record.id = format!("synthetic:{label}");
    record.provenance.origin = MeasurementOrigin::Recording;
    record.provenance.source_artifacts = vec![SourceArtifact {
        content_hash: Some(sha256(wav)),
        media_type: Some("application/wav".to_owned()),
        byte_length: Some(wav.len() as u64),
        uri: Some(wav_path.to_owned()),
    }];
    record.provenance.extensions.insert(
        "temporal_ir_v1".to_owned(),
        object(&[
            ("wav_path", text(wav_path)),
            ("sha256", text(&sha256(wav))),
            ("anchor_sample", Value::from(48_u64)),
            ("processing_state", text("isolated_raw")),
            ("stimulus_reference", text("synthetic-sweep")),
            ("capture_rate_hz", Value::from(48_000_u64)),
            ("channel", text("L")),
            ("position_id", text(label)),
            ("partition", text(partition_name(partition))),
        ]),
    );
    record
}

fn sidecar_path(label: &str) -> String {
    format!("{label}.wav.provenance.json")
}

fn store_record(files: &mut Files, label: &str, record: &MeasurementRecord) {
    files.insert(sidecar_path(label), serde_json::to_vec(record).unwrap());
}

fn delta(length: usize) -> Vec<f64> {
    let mut taps = vec![0.0; length];
    taps[0] = 1.0;
    taps
}

fn bits(values: &[f64]) -> Vec<Double> {
    values.iter().map(|x| double(*x)).collect()
}

fn plugin((plugin_type, parameters): (&str, &str)) -> Plugin {
    Plugin {
        plugin_type: plugin_type.to_owned(),
        parameters: serde_json::from_str(parameters).unwrap(),
    }
}

/// An output with these plugins, given by type and JSON parameters.
fn chain(name: &str, plugins: &[(&str, &str)]) -> OutputChain {
    OutputChain {
        name: name.to_owned(),
        plugins: plugins.iter().copied().map(plugin).collect(),
        has_drivers: false,
        final_curve: None,
    }
}

/// A curve over three frequencies, with these levels.
fn curve(levels: [f64; 3], phase: Option<[f64; 3]>) -> Curve {
    Curve {
        freq: bits(&[100.0, 1_000.0, 10_000.0]),
        spl: bits(&levels),
        phase: phase.map(|phase| bits(&phase)),
    }
}

fn assert_same_curve(actual: &Curve, expected: &Curve) {
    assert_eq!(actual.freq, expected.freq);
    assert_eq!(actual.spl, expected.spl);
    assert_eq!(actual.phase, expected.phase);
}

fn refined_curve() -> Curve {
    curve([-1.5, 0.25, 3.0], Some([10.0, -20.0, 30.0]))
}

const CONVOLUTION: (&str, &str) = ("convolution", r#"{"ir_file":"L-fir.wav"}"#);
const DELAY: (&str, &str) = ("delay", r#"{"delay_ms":1.0}"#);
const GAIN: (&str, &str) = ("gain", r#"{"gain_db":1.0}"#);

fn result_with(taps: &[f64], plugins: &[(&str, &str)]) -> RoomOptimizationResult {
    RoomOptimizationResult {
        channels: vec![chain("L", plugins)],
        channel_results: vec![ChannelResult {
            name: "L".to_owned(),
            fir_coeffs: Some(bits(taps)),
            final_curve: curve([0.0, 0.0, 0.0], None),
        }],
        stage_outcomes: Vec::new(),
    }
}

fn fixture(held_tail: f32) -> (Files, RoomConfig, RoomOptimizationResult, MemoryArtifactStore) {
    let mut files = Files::new();
    let mut evidence = Vec::new();
    for (label, partition, tail) in [
        ("training", TemporalPartition::Training, 0.5_f32),
        ("held", TemporalPartition::HeldOut, held_tail),
    ] {
        let path = format!("{label}.wav");
        let wav = wav_bytes(&impulse_response(tail), 1);
        let record = record_of(label, partition, &path, &wav);
        store_record(&mut files, label, &record);
        files.insert(path, wav);
        evidence.push(TemporalIrEvidence {
            sidecar_path: sidecar_path(label),
            position_id: label.to_owned(),
            partition,
        });
    }
    let config = RoomConfig {
        temporal_fir: Some(TemporalFirConfig {
            channel: "L".to_owned(),
            evidence,
            frequencies_hz: bits(&[80.0]),
            frequency_weights: bits(&[1.0]),
            window_seconds: double(0.0007),
            starts_seconds: bits(&[0.0, 0.001]),
            delays_seconds: bits(&[0.001]),
            strengths: bits(&[0.4]),
            minimum_late_improvement_db: double(0.1),
            maximum_early_change_db: double(1.0),
            maximum_spectral_change_db: double(12.0),
            minimum_relative_tail_improvement_db: None,
            minimum_absolute_late_improvement_db: None,
            minimum_early_change_db: None,
            maximum_early_increase_db: None,
            minimum_positions: None,
        }),
        processing_mode: ProcessingMode::PhaseLinear,
        fir: Some(FirConfig { taps: 128, max_boost_db: None }),
        speakers: vec![Speaker { name: "L".to_owned(), config: SpeakerConfig::Single }],
        system: None,
    };
    (files, config, result_with(&delta(128), &[CONVOLUTION]), MemoryArtifactStore::new())
}

fn member_text(value: &Value, key: &str) -> Result<String, String> {
    match value[key].as_str() {
        Some(s) => Ok(s.to_owned()),
        None => Err(format!("missing field `{key}`")),
    }
}

fn declaration(sidecar: &[u8]) -> Result<TemporalIrSidecar, String> {
    let document: Value = serde_json::from_slice(sidecar).map_err(|error| error.to_string())?;
    let value = &document["provenance"]["extensions"]["temporal_ir_v1"];
    let array = &value["orcmeasurement"];
    Ok(TemporalIrSidecar {
        wav_path: member_text(value, "wav_path")?,
        sha256: member_text(value, "sha256")?,
        anchor_sample: value["anchor_sample"].as_u64().ok_or("anchor")? as usize,
        processing_state: member_text(value, "processing_state")?,
        stimulus_reference: member_text(value, "stimulus_reference")?,
        capture_rate_hz: value["capture_rate_hz"].as_u64().ok_or("rate")? as u32,
        channel: member_text(value, "channel")?,
        position_id: member_text(value, "position_id")?,
        partition: if value["partition"] == "training" {
            TemporalPartition::Training
        } else {
            TemporalPartition::HeldOut
        },
        orcmeasurement: if array.is_null() {
            None
        } else {
            Some(TemporalArrayReference {
                package_path: member_text(array, "package_path")?,
                array_path: member_text(array, "array_path")?,
                logical_sha256: member_text(array, "logical_sha256")?,
                source_digest: member_text(array, "source_digest")?,
                campaign_id: member_text(array, "campaign_id")?,
            })
        },
    })
}

/// The samples of an array of a package, decoded by the Zarr library.
fn decode_array(files: &Files, package: &str, path: &str) -> Option<Vec<u32>> {
    use_store(files, package).and_then(|store| {
        let array = zarrs::array::Array::open(store, &format!("/arrays/{path}")).ok()?;
        let data: Vec<f32> = array.retrieve_array_subset(&array.subset_all()).ok()?;
        Some(data.iter().map(|sample| sample.to_bits()).collect())
    })
}

fn use_store(files: &Files, package: &str) -> Option<Arc<zarrs::storage::store::MemoryStore>> {
    let store = Arc::new(zarrs::storage::store::MemoryStore::new());
    let prefix = format!("{package}/");
    for (path, bytes) in files {
        if let Some(key) = path.strip_prefix(&prefix) {
            let key = zarrs::storage::StoreKey::new(key).ok()?;
            zarrs::storage::WritableStorageTraits::set(
                store.as_ref(),
                &key,
                bytes.clone().into(),
            )
            .ok()?;
        }
    }
    Some(store)
}

fn fetch_package(files: &Files, array: &TemporalArrayReference) -> StoredPackage {
    let package = array.package_path.as_str();
    let prefix = format!("{package}/arrays/");
    let mut arrays = Vec::new();
    for (path, bytes) in files {
        let inner = path.strip_prefix(&prefix).and_then(|rest| rest.strip_suffix("/zarr.json"));
        if let Some(inner) = inner {
            arrays.push(StoredArray {
                path: inner.to_owned(),
                metadata: bytes.clone(),
                samples: decode_array(files, package, inner),
            });
        }
    }
    StoredPackage {
        extension: Path::new(package).extension().map(|e| e.to_str().unwrap().to_owned()),
        root: files.get(&document(package, "zarr")).cloned(),
        manifest: files.get(&document(package, "manifest")).cloned(),
        arrays,
        record: files
            .get(&format!("{package}/logical.sha256"))
            .map(|bytes| String::from_utf8(bytes.clone()).unwrap()),
    }
}

fn fetch(config: &RoomConfig, files: &Files) -> Vec<EvidenceSource> {
    let mut sources = Vec::new();
    let Some(strategy) = &config.temporal_fir else {
        return sources;
    };
    for item in &strategy.evidence {
        let sidecar = match files.get(&item.sidecar_path) {
            Some(bytes) => Ok(bytes.clone()),
            None => Err(format!("{}: not found", item.sidecar_path)),
        };
        let metadata = match &sidecar {
            Ok(bytes) => declaration(bytes),
            Err(words) => Err(words.clone()),
        };
        let wav = match &metadata {
            Ok(metadata) => match files.get(&metadata.wav_path) {
                Some(bytes) => Ok(bytes.clone()),
                None => Err(format!("{}: not found", metadata.wav_path)),
            },
            Err(words) => Err(words.clone()),
        };
        let channels = match &wav {
            Ok(bytes) => Ok(vec![bits(&decode(bytes))]),
            Err(words) => Err(words.clone()),
        };
        let package = match &metadata {
            Ok(metadata) => match &metadata.orcmeasurement {
                Some(array) => Ok(fetch_package(files, array)),
                None => Err("no package".to_owned()),
            },
            Err(words) => Err(words.clone()),
        };
        sources.push(EvidenceSource {
            sidecar,
            metadata,
            wav,
            channels,
            package,
            objective: Ok(()),
        });
    }
    sources
}

fn validate_evidence(config: &RoomConfig, files: &Files) -> Result<(), AutoeqError> {
    roomeq_temporal::intake::validate_evidence(
        config,
        double(48_000.0),
        48_000,
        &fetch(config, files),
    )
}

fn prepared(config: &RoomConfig, files: &Files, taps: usize) -> Result<Vec<Evidence>, AutoeqError> {
    roomeq_temporal::intake::prepared(
        config,
        double(48_000.0),
        48_000,
        taps,
        &fetch(config, files),
    )
}

/// The energy of a filtered impulse response in each window after its anchor.
fn window_energies(samples: &[f64], taps: &[f64], strategy: &TemporalFirConfig) -> Vec<f64> {
    let mut filtered = vec![0.0; samples.len() + taps.len()];
    for (i, sample) in samples.iter().enumerate() {
        for (j, tap) in taps.iter().enumerate() {
            filtered[i + j] += sample * tap;
        }
    }
    let length = (float(strategy.window_seconds) * 48_000.0).round() as usize;
    strategy
        .starts_seconds
        .iter()
        .map(|start| {
            let from = 48 + (float(*start) * 48_000.0).round() as usize;
            filtered[from..from + length].iter().map(|x| x * x).sum()
        })
        .collect()
}

fn compare(
    samples: &[f64],
    candidate: &[f64],
    baseline: &[f64],
    strategy: &TemporalFirConfig,
) -> Option<Comparison> {
    let old = window_energies(samples, baseline, strategy);
    let new = window_energies(samples, candidate, strategy);
    let mut changes = Vec::new();
    for (old, new) in old.iter().zip(&new) {
        if !(*old > 0.0 && *new > 0.0) {
            return None;
        }
        changes.push(10.0 * (new / old).log10());
    }
    Some(Comparison {
        early_change_db: double(changes[0]),
        relative_tail_changes_db: changes[1..].iter().map(|x| double(x - changes[0])).collect(),
        late_changes_db: changes[1..].iter().map(|x| double(*x)).collect(),
    })
}

fn compared(
    config: &RoomConfig,
    files: &Files,
    candidate: &[f64],
    baseline: &[f64],
) -> Vec<Compared> {
    let strategy = config.temporal_fir.as_ref().unwrap();
    let mut items = Vec::new();
    for (item, source) in strategy.evidence.iter().zip(fetch(config, files)) {
        let comparison = match source.wav {
            Ok(bytes) => compare(&decode(&bytes), candidate, baseline, strategy),
            Err(_) => None,
        };
        items.push(Compared { partition: item.partition, comparison });
    }
    items
}

fn bins(candidate: &[f64], baseline: &[f64]) -> Vec<Bin> {
    let length = fft_length(candidate.len(), baseline.len(), double(48_000.0)).unwrap();
    let fft = rustfft::FftPlanner::<f64>::new().plan_fft_forward(length);
    let spectrum = |taps: &[f64]| {
        let mut bins = vec![rustfft::num_complex::Complex64::new(0.0, 0.0); length];
        for (bin, tap) in bins.iter_mut().zip(taps) {
            bin.re = *tap;
        }
        fft.process(&mut bins);
        bins
    };
    let prior = spectrum(baseline);
    let next = spectrum(candidate);
    prior
        .iter()
        .zip(next.iter())
        .take(length / 2 + 1)
        .map(|(old, new)| {
            let (old, new) = (old.norm(), new.norm());
            Bin {
                old: double(old),
                new: double(new),
                delta_db: double(20.0 * (new / old).log10()),
                boost_db: double(20.0 * new.log10()),
            }
        })
        .collect()
}

fn delivered(taps: &[f64]) -> Vec<f64> {
    doubles(&singles(&bits(taps))).iter().map(|x| float(*x)).collect()
}

fn trial(result: &RoomOptimizationResult, config: &RoomConfig, files: &Files) -> Trial {
    let mut trial = Trial {
        energies: Vec::new(),
        shifts: Vec::new(),
        ceiling: None,
        evaluations: Vec::new(),
        response: Vec::new(),
    };
    let Some(strategy) = &config.temporal_fir else {
        return trial;
    };
    let Ok(plan) = roomeq_temporal::refinement::plan(result, &strategy.channel) else {
        return trial;
    };
    let baseline: Vec<f64> = doubles(&plan.baseline).iter().map(|x| float(*x)).collect();
    for source in fetch(config, files) {
        let energies = match source.wav {
            Ok(bytes) => window_energies(&decode(&bytes), &baseline, strategy),
            Err(_) => Vec::new(),
        };
        trial.energies.push(if energies.iter().all(|energy| *energy > 0.0) {
            Ok(())
        } else {
            Err("a window has no energy".to_owned())
        });
    }
    for delay in &strategy.delays_seconds {
        let shift = (float(*delay) * 48_000.0).round() as usize;
        trial.shifts.push(shift);
        if shift == 0 || shift >= baseline.len() {
            break;
        }
        for strength in &strategy.strengths {
            let mut taps = baseline.clone();
            for index in shift..taps.len() {
                taps[index] -= float(*strength) * baseline[index - shift];
            }
            let rounded = delivered(&taps);
            trial.evaluations.push(Evaluation {
                taps: bits(&taps),
                bins: bins(&rounded, &baseline),
                compared: compared(config, files, &rounded, &baseline),
            });
        }
    }
    trial.response = bits(&[1.0, 1.0, 1.0]);
    trial
}

fn metrics_text(metrics: Option<roomeq_temporal::metrics::Metrics>) -> Option<MetricsText> {
    metrics.map(|metrics| MetricsText {
        relative_tail_improvement_db: format!("{:.6}", float(metrics.relative_tail_improvement_db)),
        absolute_late_improvement_db: format!("{:.6}", float(metrics.absolute_late_improvement_db)),
        early_change_db: format!("{:.6}", float(metrics.early_change_db)),
    })
}

fn apply(
    result: &mut RoomOptimizationResult,
    config: &RoomConfig,
    files: &Files,
    store: &MemoryArtifactStore,
) -> Result<(), AutoeqError> {
    let trial = trial(result, config, files);
    let choice = roomeq_temporal::refinement::decide(
        result,
        config,
        double(48_000.0),
        48_000,
        &fetch(config, files),
        &trial,
    )?;
    let Some(choice) = choice else {
        return Ok(());
    };
    let mut report = Report {
        config_text: b"{\"channel\":\"L\"}".to_vec(),
        training: None,
        held_out: None,
        final_curve: None,
    };
    if let Some(selected) = &choice.selected {
        report.training = metrics_text(selected.training);
        report.held_out = metrics_text(selected.held_out);
        if choice.is_accepted() {
            let file = roomeq_temporal::refinement::exported(&choice, 48_000)?;
            store.write(Path::new(&choice.filename), &file).unwrap();
            report.final_curve = Some(refined_curve());
        }
    }
    roomeq_temporal::refinement::apply(result, &choice, &report);
    Ok(())
}

fn retained(result: &RoomOptimizationResult) -> Vec<f64> {
    result.channel_results[0].fir_coeffs.as_ref().unwrap().iter().map(|x| float(*x)).collect()
}

fn message(error: AutoeqError) -> String {
    match error {
        AutoeqError::InvalidMeasurement { message } => message,
    }
}

fn strategy(config: &mut RoomConfig) -> &mut TemporalFirConfig {
    config.temporal_fir.as_mut().unwrap()
}

#[test]
fn saved_ir_candidate_is_bound_to_export_bytes_and_held_out() {
    let (files, config, mut result, store) = fixture(0.45);
    validate_evidence(&config, &files).unwrap();
    apply(&mut result, &config, &files, &store).unwrap();
    assert_eq!(result.stage_outcomes.last().unwrap().status, StageStatus::Applied);
    assert!((retained(&result)[48] + 0.4).abs() < 1e-6);
    let bytes = store.get(Path::new("L-fir.wav")).unwrap();
    let reader = hound::WavReader::new(std::io::Cursor::new(&bytes)).unwrap();
    assert_eq!(reader.spec().channels, 1);
    let decoded = decode(&bytes);
    let taps = retained(&result);
    assert_eq!(decoded.len(), taps.len());
    assert!(decoded.iter().zip(&taps).all(|(saved, tap)| *saved == (*tap as f32) as f64));
    let mut changed = config.clone();
    strategy(&mut changed).evidence[1].position_id = "wrong".to_owned();
    assert!(validate_evidence(&changed, &files).is_err());
}

#[test]
fn held_out_regression_keeps_baseline_bytes() {
    let (files, config, mut result, store) = fixture(-0.5);
    apply(&mut result, &config, &files, &store).unwrap();
    assert_eq!(result.stage_outcomes.last().unwrap().status, StageStatus::Skipped);
    assert_eq!(retained(&result)[48], 0.0);
    assert!(store.get(Path::new("L-fir.wav")).is_none());
}

#[test]
fn invalid_evidence_and_post_selection_drift_fail_closed() {
    let (files, config, mut result, store) = fixture(0.45);
    let mut silent_baseline = result_with(&vec![0.0; 128], &[CONVOLUTION]);
    assert!(apply(&mut silent_baseline, &config, &files, &store).is_err());
    let settings = config.temporal_fir.as_ref().unwrap();
    let mut baseline = vec![0.0; 513];
    baseline[0] = 1.0;
    let mut aliased = vec![0.0; 513];
    aliased[0] = 0.5;
    aliased[512] = 0.5;
    assert!(!roomeq_temporal::spectrum::spectral_safe(
        aliased.len(),
        baseline.len(),
        double(48_000.0),
        &bins(&aliased, &baseline),
        settings,
        None,
    ));
    assert_eq!(prepared(&config, &files, 128).unwrap().len(), 2);
    let mut boosted = vec![0.0; 128];
    boosted[0] = 2.0;
    boosted[48] = -0.4;
    let items = compared(&config, &files, &boosted, &delta(128));
    let metrics =
        roomeq_temporal::metrics::partition_metrics(&items, TemporalPartition::Training).unwrap();
    assert!(
        float(metrics.relative_tail_improvement_db) > float(settings.minimum_late_improvement_db)
    );
    assert!(float(metrics.absolute_late_improvement_db) < 0.0);
    let mut permissive = settings.clone();
    permissive.maximum_early_change_db = double(10.0);
    assert!(roomeq_temporal::metrics::acceptable(
        &items,
        &permissive,
        TemporalPartition::Training
    )
    .is_none());
    let mut invalid = config.clone();
    strategy(&mut invalid).evidence[1].sidecar_path = "missing.json".to_owned();
    assert!(validate_evidence(&invalid, &files).is_err());
    let mut reused = config.clone();
    strategy(&mut reused).evidence[1].sidecar_path = settings.evidence[0].sidecar_path.clone();
    assert!(validate_evidence(&reused, &files).is_err());
    let mut bad_delay = config.clone();
    strategy(&mut bad_delay).delays_seconds = bits(&[1.0]);
    let mut copy = result_with(&delta(128), &[CONVOLUTION]);
    assert!(apply(&mut copy, &bad_delay, &files, &store).is_err());
    result.channels[0].plugins.push(plugin(DELAY));
    assert!(apply(&mut result, &config, &files, &store).is_err());
    assert!(result.stage_outcomes.is_empty());
    result.channels[0].plugins.pop();
    apply(&mut result, &config, &files, &store).unwrap();
    let verify = |result: &RoomOptimizationResult| {
        roomeq_temporal::refinement::verify_final(result, &config)
    };
    verify(&result).unwrap();
    let kept = retained(&result)[48];
    result.channel_results[0].fir_coeffs.as_mut().unwrap()[48] = double(kept + 0.01);
    assert!(verify(&result).is_err());
    let drifted = retained(&result)[48];
    result.channel_results[0].fir_coeffs.as_mut().unwrap()[48] = double(drifted - 0.01);
    verify(&result).unwrap();
    result.channels[0].plugins.push(plugin(GAIN));
    assert!(verify(&result).is_err());
    result.channels[0].plugins.pop();
    verify(&result).unwrap();
}

#[test]
fn configured_position_and_signed_early_limits_are_enforced() {
    let (files, mut config, _result, _store) = fixture(0.45);
    strategy(&mut config).minimum_positions = Some(3);
    assert!(validate_evidence(&config, &files).is_err());
    strategy(&mut config).minimum_positions = None;
    assert_eq!(prepared(&config, &files, 128).unwrap().len(), 2);
    let baseline = delta(128);
    let items = compared(&config, &files, &baseline, &baseline);
    let settings = strategy(&mut config);
    settings.minimum_late_improvement_db = double(0.0);
    settings.maximum_early_increase_db = Some(double(-0.1));
    assert!(roomeq_temporal::metrics::acceptable(&items, settings, TemporalPartition::Training)
        .is_none());
    settings.maximum_early_increase_db = Some(double(0.25));
    assert!(roomeq_temporal::metrics::acceptable(&items, settings, TemporalPartition::Training)
        .is_some());
}

/// Stores a synthetic package, and returns its array path, campaign, source digest and logical
/// digest.
fn write_package(
    files: &mut Files,
    package: &str,
    position: &str,
    channel: &str,
    samples: &[f32],
) -> (String, String, String, String) {
    let array_path = format!("positions/{position}/{channel}/impulse_response");
    let descriptor = object(&[
        ("path", text(&array_path)),
        ("role", text("impulse_response")),
        ("shape", Value::Array(vec![Value::from(samples.len())])),
        ("units", text("linear_amplitude")),
        ("processingState", text("isolated_physical_output")),
        ("fillValue", Value::from(0)),
        ("chunkLength", Value::from(2)),
        ("compression", text("none")),
    ]);
    let record = object(&[
        ("positionID", text(position)),
        ("channelID", text(channel)),
        ("sampleRate", Value::from(48_000)),
        (
            "acquisition",
            object(&[
                ("transport", text("synthetic")),
                ("microphoneChain", text("synthetic")),
                ("timeReference", text("synthetic-test-reference")),
                ("processingState", text("isolated_physical_output")),
            ]),
        ),
        (
            "quality",
            object(&[
                ("valid", Value::Bool(true)),
                ("acceptedRepeatIndices", Value::Array(vec![Value::from(0), Value::from(1)])),
                ("calculationHash", text("synthetic-calculation")),
            ]),
        ),
        ("timingRepeats", Value::Array(Vec::new())),
    ]);
    let channels = Value::Array(vec![record]);
    let mut message = b"orcmeasurement-logical-v1\0".to_vec();
    for part in ["synthetic-temporal", "synthetic-source-digest", "synthetic", "synthetic"] {
        message.extend_from_slice(part.as_bytes());
    }
    message.extend_from_slice(&serde_json::to_vec(&channels).unwrap());
    message.extend_from_slice(
        format!(
            "\0{array_path}\0impulse_response\0linear_amplitude\0isolated_physical_output\0{}\0",
            samples.len()
        )
        .as_bytes(),
    );
    for sample in samples {
        message.extend_from_slice(&sample.to_le_bytes());
    }
    let logical = sha256(&message);
    let manifest = object(&[
        ("schemaVersion", Value::from(1)),
        ("campaignID", text("synthetic-temporal")),
        ("sourceDigest", text("synthetic-source-digest")),
        ("arrays", Value::Array(vec![descriptor])),
        ("channels", channels),
        ("sourceArtifacts", Value::Array(Vec::new())),
        ("rawWaveformAuthority", Value::Bool(true)),
        ("calibrationStatus", text("synthetic")),
        ("correctionOwner", text("synthetic")),
    ]);
    let root = object(&[("zarr_format", Value::from(3)), ("node_type", text("group"))]);
    let named = |name: &str, configuration: Value| {
        object(&[("name", text(name)), ("configuration", configuration)])
    };
    let metadata = object(&[
        ("zarr_format", Value::from(3)),
        ("node_type", text("array")),
        ("shape", Value::Array(vec![Value::from(samples.len())])),
        ("data_type", text("float32")),
        (
            "chunk_grid",
            named("regular", object(&[("chunk_shape", Value::Array(vec![Value::from(2)]))])),
        ),
        ("chunk_key_encoding", named("default", object(&[("separator", text("/"))]))),
        ("fill_value", Value::from(0)),
        ("codecs", Value::Array(vec![named("bytes", object(&[("endian", text("little"))]))])),
        ("storage_transformers", Value::Array(Vec::new())),
        ("dimension_names", Value::Array(vec![text("sample")])),
        (
            "attributes",
            object(&[
                ("units", text("linear_amplitude")),
                ("processing_state", text("isolated_physical_output")),
                ("role", text("impulse_response")),
                ("logical_path", text(&array_path)),
                ("element_type", text("float32")),
            ]),
        ),
    ]);
    let mut put = |path: String, value: &Value| {
        files.insert(path, serde_json::to_vec(value).unwrap());
    };
    put(document(package, "zarr"), &root);
    put(document(package, "manifest"), &manifest);
    put(format!("{package}/arrays/{array_path}/zarr.json"), &metadata);
    files.insert(format!("{package}/logical.sha256"), format!("{logical}\n").into_bytes());
    for (index, pair) in samples.chunks(2).enumerate() {
        let mut bytes = Vec::new();
        for sample in pair {
            bytes.extend_from_slice(&sample.to_le_bytes());
        }
        files.insert(format!("{package}/arrays/{array_path}/c/{index}"), bytes);
    }
    (
        array_path,
        "synthetic-temporal".to_owned(),
        "synthetic-source-digest".to_owned(),
        logical,
    )
}

fn bind_package(
    record: &mut MeasurementRecord,
    package: &str,
    identity: &(String, String, String, String),
) {
    record.provenance.extensions.get_mut("temporal_ir_v1").unwrap()["orcmeasurement"] =
        object(&[
            ("package_path", text(package)),
            ("array_path", text(&identity.0)),
            ("logical_sha256", text(&identity.3)),
            ("source_digest", text(&identity.2)),
            ("campaign_id", text(&identity.1)),
        ]);
}

#[test]
fn orcmeasurement_array_matches_raw_wav_and_rejects_tampering() {
    let (mut files, config, _, _) = fixture(0.45);
    let wav = files["training.wav"].clone();
    let mut record = record_of("training", TemporalPartition::Training, "training.wav", &wav);
    let package = "synthetic.orcmeasurement";
    let identity = write_package(&mut files, package, "training", "L", &impulse_response(0.5));
    bind_package(&mut record, package, &identity);
    store_record(&mut files, "training", &record);
    validate_evidence(&config, &files).unwrap();

    let mut tampered = record.clone();
    tampered.provenance.extensions.get_mut("temporal_ir_v1").unwrap()["orcmeasurement"]
        ["source_digest"] = text("wrong");
    store_record(&mut files, "training", &tampered);
    assert!(validate_evidence(&config, &files).is_err());
    store_record(&mut files, "training", &record);

    let chunk = format!("{package}/arrays/positions/training/L/impulse_response/c/0");
    let untouched = files[&chunk].clone();
    let mut changed = untouched.clone();
    changed[0] ^= 1;
    files.insert(chunk.clone(), changed);
    assert!(validate_evidence(&config, &files).is_err());
    files.insert(chunk, untouched);

    let manifest = document(package, "manifest");
    let untouched = files[&manifest].clone();
    let mut changed: Value = serde_json::from_slice(&untouched).unwrap();
    changed["schemaVersion"] = Value::from(2);
    files.insert(manifest.clone(), serde_json::to_vec(&changed).unwrap());
    assert!(validate_evidence(&config, &files).is_err());
    files.insert(manifest, untouched);
    validate_evidence(&config, &files).unwrap();

    let metadata = format!("{package}/arrays/positions/training/L/impulse_response/zarr.json");
    let mut changed: Value = serde_json::from_slice(&files[&metadata]).unwrap();
    changed["dimension_names"] = text("sample");
    files.insert(metadata, serde_json::to_vec(&changed).unwrap());
    assert!(validate_evidence(&config, &files).is_err());
}

/// What is said of the evidence after the held-out record is changed.
fn record_refusal(change: impl Fn(&mut MeasurementRecord)) -> String {
    let (mut files, config, _, _) = fixture(0.45);
    let wav = files["held.wav"].clone();
    let mut record = record_of("held", TemporalPartition::HeldOut, "held.wav", &wav);
    change(&mut record);
    store_record(&mut files, "held", &record);
    match validate_evidence(&config, &files) {
        Ok(()) => "accepted".to_owned(),
        Err(error) => message(error),
    }
}

fn set_declared(key: &'static str, to: Value) -> String {
    record_refusal(move |record| {
        record.provenance.extensions.get_mut("temporal_ir_v1").unwrap()[key] = to.clone();
    })
}

/// What is said of the evidence after what was fetched for the second piece is changed.
fn source_refusal(change: impl Fn(&mut EvidenceSource)) -> String {
    let (files, config, _, _) = fixture(0.45);
    let mut sources = fetch(&config, &files);
    change(&mut sources[1]);
    let result = roomeq_temporal::intake::validate_evidence(
        &config,
        double(48_000.0),
        48_000,
        &sources,
    );
    match result {
        Ok(()) => "accepted".to_owned(),
        Err(error) => message(error),
    }
}

#[test]
fn provenance_must_be_valid() {
    assert_eq!(record_refusal(|_| ()), "accepted");
    assert_eq!(
        record_refusal(|record| record.provenance.origin = MeasurementOrigin::Legacy),
        "temporal_fir: sidecar provenance invalid: strict mode does not accept legacy/unknown provenance"
    );
    assert_eq!(
        record_refusal(|record| {
            record.provenance.schema_version = 9;
            record.id = String::new();
        }),
        "temporal_fir: sidecar provenance invalid: unsupported provenance schema version 9; measurement record id is empty"
    );
    assert_eq!(
        record_refusal(|record| record.id = "synthetic:training".to_owned()),
        "temporal_fir: measurement record reused across evidence partitions"
    );
    assert_eq!(
        record_refusal(|record| record.provenance.extensions.clear()),
        "temporal_fir: provenance sidecar lacks temporal_ir_v1"
    );
    assert!(source_refusal(|source| source.sidecar = Ok(b"{}".to_vec()))
        .starts_with("temporal_fir: invalid provenance sidecar: missing field `id`"));
    assert_eq!(
        source_refusal(|source| source.sidecar = Ok(vec![b' '; 16 * 1024 * 1024 + 1])),
        "temporal_fir: provenance sidecar is too large"
    );
    assert!(source_refusal(|source| source.sidecar = Ok(vec![b' '; 16 * 1024 * 1024]))
        .starts_with("temporal_fir: invalid provenance sidecar: EOF"));
    assert_eq!(
        source_refusal(|source| source.sidecar = Err("x.json: gone".to_owned())),
        "temporal_fir: x.json: gone"
    );
}

#[test]
fn the_declaration_must_match_the_configuration() {
    let mismatch = "temporal_fir: IR channel, position, partition, processing state, reference, or sample rate mismatch";
    assert_eq!(set_declared("channel", text("R")), mismatch);
    assert_eq!(set_declared("position_id", text("other")), mismatch);
    assert_eq!(set_declared("partition", text("training")), mismatch);
    assert_eq!(set_declared("processing_state", text("mixed")), mismatch);
    assert_eq!(set_declared("stimulus_reference", text(" \t")), mismatch);
    assert_eq!(set_declared("capture_rate_hz", Value::from(24_000)), mismatch);
    assert_eq!(set_declared("capture_rate_hz", Value::from(72_000)), mismatch);
    assert_eq!(set_declared("capture_rate_hz", Value::from(96_000)), "accepted");
    assert_eq!(
        set_declared("stimulus_reference", text("another sweep")),
        "temporal_fir: IR stimulus references differ"
    );
    assert_eq!(
        source_refusal(|source| source.metadata = Err("missing field `channel`".to_owned())),
        "temporal_fir: invalid temporal_ir_v1: missing field `channel`"
    );
    let (mut files, mut config, _, _) = fixture(0.45);
    let settings = strategy(&mut config);
    settings.evidence[1].position_id = "training".to_owned();
    settings.evidence[1].partition = TemporalPartition::Training;
    let wav = files["held.wav"].clone();
    let mut record = record_of("training", TemporalPartition::Training, "held.wav", &wav);
    record.id = "synthetic:held".to_owned();
    store_record(&mut files, "held", &record);
    assert_eq!(
        message(validate_evidence(&config, &files).unwrap_err()),
        "temporal_fir: duplicate position identity within one evidence partition"
    );
}

#[test]
fn the_wav_file_must_be_the_declared_one() {
    let reused = "temporal_fir: IR byte digest mismatch or training/held-out source reused";
    assert_eq!(set_declared("sha256", text("00")), reused);
    let (files, _, _, _) = fixture(0.45);
    let training = files["training.wav"].clone();
    assert_eq!(
        source_refusal(|source| {
            source.wav = Ok(training.clone());
            source.metadata.as_mut().unwrap().sha256 = sha256(&training);
        }),
        reused
    );
    assert_eq!(
        record_refusal(|record| record.provenance.source_artifacts[0].content_hash = None),
        "temporal_fir: IR WAV is not bound as a source artifact in its provenance sidecar"
    );
    let bound = |file: Vec<u8>| {
        let (mut files, config, _, _) = fixture(0.45);
        let record = record_of("held", TemporalPartition::HeldOut, "held.wav", &file);
        store_record(&mut files, "held", &record);
        let mut sources = fetch(&config, &files);
        sources[1].wav = Ok(file);
        let result = roomeq_temporal::intake::prepared(
            &config,
            double(48_000.0),
            48_000,
            128,
            &sources,
        );
        message(result.unwrap_err())
    };
    assert_eq!(bound(b"not a wave file".to_vec()), "temporal_fir: Ill-formed WAVE file: no RIFF tag found");
    assert_eq!(bound(wav_bytes(&[0.0, 1.0], 2)), "temporal_fir: saved IR WAV must be mono");
    assert_eq!(
        source_refusal(|source| source.wav = Err("held.wav: gone".to_owned())),
        "temporal_fir: held.wav: gone"
    );
}

#[test]
fn the_samples_must_be_new() {
    assert_eq!(
        source_refusal(|source| source.channels = Err("cannot decode".to_owned())),
        "cannot decode"
    );
    assert_eq!(
        source_refusal(|source| source.channels = Ok(Vec::new())),
        "temporal_fir: empty IR WAV"
    );
    let (files, config, _, _) = fixture(0.45);
    let training = fetch(&config, &files).remove(0).channels.unwrap();
    assert_eq!(
        source_refusal(|source| source.channels = Ok(training.clone())),
        "temporal_fir: independent evidence repeats identical decoded samples"
    );
    assert_eq!(
        source_refusal(|source| source.objective = Err("held.wav: too short".to_owned())),
        "temporal_fir: held.wav: too short"
    );
}

#[test]
fn the_package_must_repeat_the_samples() {
    let refusal = |tail: f32, change: fn(&mut Value), fetched: fn(&mut EvidenceSource)| {
        let (mut files, config, _, _) = fixture(0.45);
        let wav = files["held.wav"].clone();
        let mut record = record_of("held", TemporalPartition::HeldOut, "held.wav", &wav);
        let package = "synthetic.orcmeasurement";
        let identity = write_package(&mut files, package, "held", "L", &impulse_response(tail));
        bind_package(&mut record, package, &identity);
        change(
            &mut record.provenance.extensions.get_mut("temporal_ir_v1").unwrap()["orcmeasurement"],
        );
        store_record(&mut files, "held", &record);
        let mut sources = fetch(&config, &files);
        fetched(&mut sources[1]);
        let result = roomeq_temporal::intake::prepared(
            &config,
            double(48_000.0),
            48_000,
            128,
            &sources,
        );
        match result {
            Ok(_) => "accepted".to_owned(),
            Err(error) => message(error),
        }
    };
    let differ = "temporal_fir: orcmeasurement and raw WAV samples or identity differ";
    assert_eq!(refusal(0.45, |_| (), |_| ()), "accepted");
    assert_eq!(refusal(0.5, |_| (), |_| ()), differ);
    assert_eq!(refusal(0.45, |array| array["campaign_id"] = text("x"), |_| ()), differ);
    assert_eq!(
        refusal(0.45, |_| (), |source| {
            source.metadata.as_mut().unwrap().capture_rate_hz = 96_000;
        }),
        differ
    );
    assert_eq!(
        refusal(0.45, |array| array["source_digest"] = text("x"), |_| ()),
        "temporal_fir: orcmeasurement: source digest mismatch"
    );
    assert_eq!(
        refusal(0.45, |array| array["logical_sha256"] = text("x"), |_| ()),
        "temporal_fir: orcmeasurement: expected logical digest mismatch"
    );
    assert_eq!(
        refusal(0.45, |_| (), |source| source.package.as_mut().unwrap().root = Some(Vec::new())),
        "temporal_fir: orcmeasurement: EOF while parsing a value at line 1 column 0"
    );
    assert_eq!(
        refusal(0.45, |array| array["array_path"] = text("positions/held/R/impulse_response"), |_| ()),
        "temporal_fir: orcmeasurement array path does not match position/channel identity"
    );
    assert_eq!(
        refusal(0.45, |_| (), |source| source.package = Err("no such package".to_owned())),
        "temporal_fir: orcmeasurement: no such package"
    );
}

#[test]
fn both_uses_need_evidence_from_enough_positions() {
    let (mut files, mut config, _, _) = fixture(0.45);
    let settings = strategy(&mut config);
    settings.evidence.truncate(1);
    assert_eq!(
        message(validate_evidence(&config, &files).unwrap_err()),
        "temporal_fir: at least one training and one held-out IR are required"
    );
    let (_, mut config, _, _) = fixture(0.45);
    strategy(&mut config).minimum_positions = Some(3);
    assert_eq!(
        message(validate_evidence(&config, &files).unwrap_err()),
        "temporal_fir: insufficient independent positions for temporal qualification"
    );
    let wav = wav_bytes(&impulse_response(0.4), 1);
    let record = record_of("third", TemporalPartition::HeldOut, "third.wav", &wav);
    store_record(&mut files, "third", &record);
    files.insert("third.wav".to_owned(), wav);
    strategy(&mut config).evidence.push(TemporalIrEvidence {
        sidecar_path: sidecar_path("third"),
        position_id: "third".to_owned(),
        partition: TemporalPartition::HeldOut,
    });
    let evidence = prepared(&config, &files, 128).unwrap();
    let ids: Vec<&str> = evidence.iter().map(|item| item.record_id.as_str()).collect();
    assert_eq!(ids, ["synthetic:training", "synthetic:held", "synthetic:third"]);
    assert_eq!(evidence[0].identity, sha256(&files["training.wav"]));
    assert_eq!(evidence[0].sidecar_sha256, sha256(&files[&sidecar_path("training")]));
    assert_eq!(evidence[2].position_id, "third");
    assert_eq!(evidence[2].stimulus_reference, "synthetic-sweep");
}

#[test]
fn without_a_strategy_nothing_is_refined() {
    let (files, mut config, mut result, store) = fixture(0.45);
    config.temporal_fir = None;
    validate_evidence(&config, &files).unwrap();
    assert!(prepared(&config, &files, 128).unwrap().is_empty());
    apply(&mut result, &config, &files, &store).unwrap();
    assert!(result.stage_outcomes.is_empty());
    assert_eq!(retained(&result), delta(128));
    roomeq_temporal::refinement::verify_final(&result, &config).unwrap();
}

#[test]
fn an_accepted_candidate_is_reported_in_full() {
    let (files, config, mut result, store) = fixture(0.45);
    apply(&mut result, &config, &files, &store).unwrap();
    let outcome = result.stage_outcomes.last().unwrap();
    assert_eq!(outcome.stage, "temporal_fir");
    assert!(outcome.checks.is_empty());
    let mut taps = Vec::new();
    for tap in retained(&result) {
        taps.extend_from_slice(&(tap as f32).to_le_bytes());
    }
    let expected = vec![
        "held_out_accepted".to_owned(),
        format!("config_sha256={}", sha256(b"{\"channel\":\"L\"}")),
        format!("selected_taps_sha256={}", sha256(&taps)),
        format!(
            "selected_chain_sha256={}",
            sha256(br#"[{"plugin_type":"convolution","parameters":{"ir_file":"L-fir.wav"}}]"#)
        ),
        "training_minimum_relative_tail_improvement_db=13.979401;minimum_absolute_late_improvement_db=13.979401;maximum_absolute_early_change_db=0.000000".to_owned(),
        "held_out_minimum_relative_tail_improvement_db=19.084853;minimum_absolute_late_improvement_db=19.084853;maximum_absolute_early_change_db=0.000000".to_owned(),
        format!("ir_sha256={}", sha256(&files["training.wav"])),
        format!("sidecar_sha256={}", sha256(&files[&sidecar_path("training")])),
        format!("ir_sha256={}", sha256(&files["held.wav"])),
        format!("sidecar_sha256={}", sha256(&files[&sidecar_path("held")])),
    ];
    assert_eq!(outcome.advisories, expected);
}

#[test]
fn a_skipped_refinement_says_why() {
    let (files, config, mut result, store) = fixture(-0.5);
    apply(&mut result, &config, &files, &store).unwrap();
    let lines = &result.stage_outcomes[0].advisories;
    assert_eq!(lines[0], "held_out_rejected");
    assert!(lines[2].starts_with("training_minimum_relative_tail_improvement_db=13.97"));
    assert!(lines[3].starts_with("held_out_minimum_relative_tail_improvement_db=-5.1"));
    assert_eq!(lines.len(), 8);
    roomeq_temporal::refinement::verify_final(&result, &config).unwrap();

    let (files, mut config, mut result, store) = fixture(0.45);
    strategy(&mut config).minimum_late_improvement_db = double(60.0);
    apply(&mut result, &config, &files, &store).unwrap();
    let outcome = &result.stage_outcomes[0];
    assert_eq!(outcome.status, StageStatus::Skipped);
    assert_eq!(outcome.advisories[0], "no_training_candidate");
    assert_eq!(outcome.advisories.len(), 6);
    assert_eq!(retained(&result), delta(128));
    assert_same_curve(&result.channel_results[0].final_curve, &curve([0.0, 0.0, 0.0], None));
    assert!(result.channels[0].final_curve.is_none());
}

#[test]
fn other_channels_stay_as_they_are() {
    let (files, config, mut result, store) = fixture(0.45);
    result.channels.insert(0, chain("R", &[CONVOLUTION, DELAY]));
    result.channel_results.insert(0, ChannelResult {
        name: "R".to_owned(),
        fir_coeffs: Some(bits(&[0.1, 0.2])),
        final_curve: curve([1.0, 2.0, 3.0], None),
    });
    result.channels[0].final_curve = Some(curve([4.0, 5.0, 6.0], None));
    let text_before = write_plugins(&result.channels[0].plugins);
    apply(&mut result, &config, &files, &store).unwrap();
    assert_eq!(result.channel_results[0].fir_coeffs, Some(bits(&[0.1, 0.2])));
    assert_eq!(write_plugins(&result.channels[0].plugins), text_before);
    let taps = result.channel_results[1].fir_coeffs.as_ref().unwrap();
    assert_eq!(float(taps[48]), f64::from(-0.4_f32));
    assert_same_curve(&result.channel_results[0].final_curve, &curve([1.0, 2.0, 3.0], None));
    let other = result.channels[0].final_curve.as_ref().unwrap();
    assert_same_curve(other, &curve([4.0, 5.0, 6.0], None));
    roomeq_temporal::refinement::verify_final(&result, &config).unwrap();
}

#[test]
fn the_final_curves_follow_the_delivered_filter() {
    let (files, config, mut result, store) = fixture(0.45);
    result.channels[0].final_curve = Some(curve([7.0, 8.0, 9.0], None));
    apply(&mut result, &config, &files, &store).unwrap();
    assert_same_curve(&result.channel_results[0].final_curve, &refined_curve());
    assert_same_curve(result.channels[0].final_curve.as_ref().unwrap(), &refined_curve());

    let (files, config, mut result, store) = fixture(-0.5);
    result.channels[0].final_curve = Some(curve([7.0, 8.0, 9.0], None));
    apply(&mut result, &config, &files, &store).unwrap();
    assert_same_curve(&result.channel_results[0].final_curve, &curve([0.0, 0.0, 0.0], None));
    let kept = result.channels[0].final_curve.as_ref().unwrap();
    assert_same_curve(kept, &curve([7.0, 8.0, 9.0], None));
}

#[test]
fn the_exported_file_holds_the_retained_taps() {
    let (files, config, mut result, store) = fixture(0.45);
    apply(&mut result, &config, &files, &store).unwrap();
    let file = store.get(Path::new("L-fir.wav")).unwrap();
    let taps: Vec<f32> = retained(&result).iter().map(|tap| *tap as f32).collect();
    // The same bytes as where the samples are handed over as floating-point numbers.
    assert_eq!(file, wav_bytes(&taps, 1));
    assert_eq!(file.len(), 68 + 4 * taps.len());
    assert_eq!(&file[..4], b"RIFF");
    assert_eq!(file[68..72], taps[0].to_le_bytes());
    let spec = hound::WavReader::new(std::io::Cursor::new(&file)).unwrap().spec();
    assert_eq!((spec.channels, spec.sample_rate, spec.bits_per_sample), (1, 48_000, 32));
    assert_eq!(spec.sample_format, hound::SampleFormat::Float);
    let digest = roomeq_temporal::digest::sha256(&file[68..]);
    let line = format!("selected_taps_sha256={digest}");
    assert!(result.stage_outcomes[0].advisories.contains(&line));
}

#[test]
fn every_accepted_choice_has_a_file() {
    let choice = |taps: Vec<u32>| roomeq_temporal::refinement::Choice {
        channel: "L".to_owned(),
        filename: "L-fir.wav".to_owned(),
        evidence: Vec::new(),
        selected: Some(roomeq_temporal::search::Selected {
            taps,
            gain: double(1.0),
            training: None,
            held_out: None,
            confirmed: true,
        }),
    };
    let unusual = vec![0, 0x8000_0000, 0x7f80_0000, 0xffc0_0001, 0x7fa0_0000, 1, u32::MAX];
    for rate in [1, 48_000, roomeq_temporal::wav::HIGHEST_RATE] {
        for taps in [Vec::new(), unusual.clone()] {
            let file = roomeq_temporal::refinement::exported(&choice(taps.clone()), rate).unwrap();
            let data: Vec<u8> = taps.iter().flat_map(|tap| tap.to_le_bytes()).collect();
            assert_eq!(file[68..], data);
            let reader = hound::WavReader::new(std::io::Cursor::new(&file)).unwrap();
            assert_eq!((reader.spec().channels, reader.spec().sample_rate), (1, rate));
            assert_eq!(reader.len() as usize, taps.len());
        }
    }
}

#[test]
fn a_target_must_own_one_filter() {
    let (files, config, _, store) = fixture(0.45);
    let refusal = |change: fn(&mut RoomOptimizationResult)| {
        let mut result = result_with(&delta(128), &[GAIN, CONVOLUTION]);
        change(&mut result);
        match apply(&mut result, &config, &files, &store) {
            Ok(()) => "accepted".to_owned(),
            Err(error) => {
                assert!(result.stage_outcomes.is_empty());
                message(error)
            }
        }
    };
    let one = "temporal_fir: target output must own one FIR and optional constant gain only";
    assert_eq!(refusal(|_| ()), "accepted");
    assert_eq!(
        refusal(|result| result.channels.clear()),
        "temporal_fir: target channel has no output chain"
    );
    assert_eq!(refusal(|result| result.channels[0].has_drivers = true), one);
    assert_eq!(refusal(|result| result.channels[0] = chain("L", &[GAIN])), one);
    assert_eq!(
        refusal(|result| result.channels[0] = chain("L", &[CONVOLUTION, CONVOLUTION])),
        one
    );
    assert_eq!(refusal(|result| result.channels[0] = chain("L", &[CONVOLUTION, DELAY])), one);
    assert_eq!(
        refusal(|result| result.channels[0] = chain("L", &[("convolution", "{\"filename\":1}")])),
        "temporal_fir: convolution file identity unavailable"
    );
    assert_eq!(
        refusal(|result| result.channel_results[0].fir_coeffs = None),
        "temporal_fir: target channel has no retained FIR coefficients"
    );
    assert_eq!(
        refusal(|result| result.channel_results.clear()),
        "temporal_fir: target channel has no retained FIR coefficients"
    );
    assert_eq!(
        refusal(|result| result.channel_results[0].fir_coeffs = Some(bits(&[0.0; 128]))),
        "temporal_fir: baseline has invalid recorded-window energy: a window has no energy"
    );
    let both = chain("L", &[("convolution", r#"{"ir_file":"a.wav","filename":"b.wav"}"#)]);
    let mut result = result_with(&delta(128), &[]);
    result.channels[0] = both;
    let plan = roomeq_temporal::refinement::plan(&result, "L").unwrap();
    assert_eq!(plan.filename, "b.wav");
    assert_eq!(plan.baseline[0], 1.0_f32.to_bits());
}

#[test]
fn candidates_must_be_computable() {
    let (files, config, result, _) = fixture(0.45);
    let refusal = |change: fn(&mut Trial)| {
        let mut trial = trial(&result, &config, &files);
        change(&mut trial);
        let decided = roomeq_temporal::refinement::decide(
            &result,
            &config,
            double(48_000.0),
            48_000,
            &fetch(&config, &files),
            &trial,
        );
        match decided {
            Ok(choice) => choice.unwrap().filename,
            Err(error) => message(error),
        }
    };
    let outside = "temporal_fir: candidate delay falls outside configured FIR taps";
    assert_eq!(refusal(|_| ()), "L-fir.wav");
    assert_eq!(refusal(|trial| trial.shifts = vec![0]), outside);
    assert_eq!(refusal(|trial| trial.shifts = vec![128]), outside);
    assert_eq!(refusal(|trial| trial.shifts = vec![127]), "L-fir.wav");
    let zero = "temporal_fir: baseline FIR response has an unrepresentable zero";
    assert_eq!(refusal(|trial| trial.response[2] = double(9e-10)), zero);
    assert_eq!(refusal(|trial| trial.response[2] = double(1e-9)), "L-fir.wav");
    // A zero of the baseline does not matter where nothing is delivered.
    assert_eq!(
        refusal(|trial| {
            trial.response[2] = double(0.0);
            trial.evaluations[0].compared[0].comparison = None;
        }),
        "L-fir.wav"
    );
    assert_eq!(
        refusal(|trial| trial.energies[1] = Err("silent".to_owned())),
        "temporal_fir: baseline has invalid recorded-window energy: silent"
    );
}

#[test]
fn a_final_result_is_the_one_that_was_qualified() {
    let (files, config, _, store) = fixture(0.45);
    let verdict = |change: fn(&mut RoomOptimizationResult)| {
        let mut result = result_with(&delta(128), &[CONVOLUTION]);
        apply(&mut result, &config, &files, &store).unwrap();
        change(&mut result);
        match roomeq_temporal::refinement::verify_final(&result, &config) {
            Ok(()) => "final".to_owned(),
            Err(error) => message(error),
        }
    };
    assert_eq!(verdict(|_| ()), "final");
    assert_eq!(
        verdict(|result| result.stage_outcomes.clear()),
        "temporal_fir: missing temporal FIR outcome"
    );
    assert_eq!(
        verdict(|result| {
            result.stage_outcomes[0].advisories.remove(2);
        }),
        "temporal_fir: selected tap identity missing"
    );
    assert_eq!(
        verdict(|result| result.channel_results[0].fir_coeffs = None),
        "temporal_fir: selected FIR was removed after qualification"
    );
    assert_eq!(
        verdict(|result| result.channel_results[0].fir_coeffs.as_mut().unwrap()[0] = double(2.0)),
        "temporal_fir: selected FIR changed after temporal qualification"
    );
    // A change below what a single can hold is no change of what is delivered.
    assert_eq!(
        verdict(|result| {
            result.channel_results[0].fir_coeffs.as_mut().unwrap()[0] = double(1.0 + 1e-12);
        }),
        "final"
    );
    assert_eq!(
        verdict(|result| {
            result.stage_outcomes[0].advisories.remove(3);
        }),
        "temporal_fir: selected chain identity missing"
    );
    assert_eq!(
        verdict(|result| result.channels.clear()),
        "temporal_fir: selected output chain disappeared"
    );
    assert_eq!(
        verdict(|result| result.channels[0].plugins.push(plugin(GAIN))),
        "temporal_fir: output chain changed after temporal qualification"
    );
    // Only the last report counts, and one that says nothing was applied asks for nothing.
    assert_eq!(
        verdict(|result| {
            let mut later = result.stage_outcomes[0].clone();
            later.status = StageStatus::Skipped;
            result.stage_outcomes.push(later);
            result.channels.clear();
        }),
        "final"
    );
}

#[test]
fn the_order_of_the_evidence_does_not_matter() {
    let (files, config, _, _) = fixture(0.45);
    let mut reordered = config.clone();
    strategy(&mut reordered).evidence.reverse();
    let first = prepared(&config, &files, 128).unwrap();
    let second = prepared(&reordered, &files, 128).unwrap();
    assert_eq!(first.len(), second.len());
    for (a, b) in first.iter().zip(second.iter().rev()) {
        assert_eq!(a.identity, b.identity);
        assert_eq!(a.sidecar_sha256, b.sidecar_sha256);
        assert_eq!(a.partition, b.partition);
    }
}

#[test]
fn the_text_of_plugins_holds_type_and_parameters() {
    let plugins = vec![plugin(GAIN), plugin(("x", r#"{"b":[1,-2.5],"a":null}"#))];
    assert_eq!(
        String::from_utf8(write_plugins(&plugins)).unwrap(),
        r#"[{"plugin_type":"gain","parameters":{"gain_db":1.0}},{"plugin_type":"x","parameters":{"b":[1,-2.5],"a":null}}]"#
    );
    assert_eq!(write_plugins(&Vec::new()), b"[]");
}
