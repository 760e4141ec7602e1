//! Reading packages held in memory, and every reason to refuse one.

use roomeq_temporal::digest::sha256;
use roomeq_temporal::error::ReadError;
use roomeq_temporal::measurement_array::{valid_path, MeasurementImpulse, Request};
use roomeq_temporal::package_reader::{
    open_package, read_orcmeasurement_impulse, StoredArray, StoredPackage,
};
use serde_json::Value;

const IMPULSE: &str = "positions/MLP/FL/impulse_response";
const RESPONSE: &str = "positions/MLP/FL/frequency_response";

fn value(text: &str) -> Value {
    serde_json::from_str(text).unwrap()
}

/// A package with its documents still open to change, and its logical digest.
struct Draft {
    extension: Option<String>,
    root: Value,
    manifest: Value,
    /// Path, metadata and samples of each array.
    arrays: Vec<(String, Value, Vec<f32>)>,
    record: Option<String>,
    source_digest: String,
    logical_digest: String,
    array_path: String,
}

fn metadata(path: &str, role: &str, axis: &str, count: usize) -> Value {
    value(&format!(
        r#"{{"zarr_format":3,"node_type":"array","shape":[{count}],"data_type":"float32",
            "chunk_grid":{{"name":"regular","configuration":{{"chunk_shape":[2]}}}},
            "chunk_key_encoding":{{"name":"default","configuration":{{"separator":"/"}}}},
            "fill_value":0,"codecs":[{{"name":"bytes","configuration":{{"endian":"little"}}}}],
            "storage_transformers":[],"dimension_names":["{axis}"],
            "attributes":{{"units":"linear_amplitude","role":"{role}","logical_path":"{path}",
                "processing_state":"isolated_physical_output"}}}}"#
    ))
}

fn descriptor(path: &str, role: &str, count: usize) -> Value {
    value(&format!(
        r#"{{"path":"{path}","role":"{role}","shape":[{count}],"units":"linear_amplitude",
            "processingState":"isolated_physical_output","fillValue":0,"chunkLength":2,
            "compression":"none"}}"#
    ))
}

fn message(channels: &Value, arrays: &[(&str, &str, &[f32])], artifacts: &[(&str, &str)]) -> Vec<u8> {
    let mut bytes = b"orcmeasurement-logical-v1\0campaignsourcecalibratedowner".to_vec();
    bytes.extend_from_slice(&serde_json::to_vec(channels).unwrap());
    for (role, digest) in artifacts {
        bytes.extend_from_slice(format!("\0{role}\0{digest}").as_bytes());
    }
    for (path, role, samples) in arrays {
        let count = samples.len();
        bytes.extend_from_slice(
            format!("\0{path}\0{role}\0linear_amplitude\0isolated_physical_output\0{count}\0")
                .as_bytes(),
        );
        for sample in *samples {
            bytes.extend_from_slice(&sample.to_le_bytes());
        }
    }
    bytes
}

fn draft() -> Draft {
    let channels = value(
        r#"[{"positionID":"other","channelID":"FL"},
            {"positionID":"MLP","channelID":"FL","sampleRate":48000,
             "acquisition":{"timeReference":"loopback","processingState":"isolated_physical_output"},
             "quality":{"valid":true}}]"#,
    );
    let impulse = [0.0_f32, 1.0, -0.5];
    let response = [0.25_f32, 0.5];
    // The digest takes arrays and artifacts in the order of their paths.
    let logical_digest = sha256(&message(
        &channels,
        &[
            (RESPONSE, "frequency_response", &response),
            (IMPULSE, "impulse_response", &impulse),
        ],
        &[("sweep", "22"), ("raw", "11")],
    ));
    let mut manifest = value(
        r#"{"schemaVersion":1,"campaignID":"campaign","sourceDigest":"source",
            "rawWaveformAuthority":true,"calibrationStatus":"calibrated","correctionOwner":"owner",
            "sourceArtifacts":[{"path":"b","role":"raw","sha256":"11"},
                               {"path":"a","role":"sweep","sha256":"22"}]}"#,
    );
    manifest["channels"] = channels;
    manifest["arrays"] = Value::Array(vec![
        descriptor(IMPULSE, "impulse_response", 3),
        descriptor(RESPONSE, "frequency_response", 2),
    ]);
    Draft {
        extension: Some("orcmeasurement".to_owned()),
        root: value(r#"{"zarr_format":3,"node_type":"group"}"#),
        manifest,
        arrays: vec![
            (
                RESPONSE.to_owned(),
                metadata(RESPONSE, "frequency_response", "frequency", 2),
                response.to_vec(),
            ),
            (
                IMPULSE.to_owned(),
                metadata(IMPULSE, "impulse_response", "sample", 3),
                impulse.to_vec(),
            ),
        ],
        record: Some(format!(" {logical_digest}\n")),
        source_digest: "source".to_owned(),
        logical_digest,
        array_path: IMPULSE.to_owned(),
    }
}

fn read(draft: &Draft) -> Result<MeasurementImpulse, ReadError> {
    let package = StoredPackage {
        extension: draft.extension.clone(),
        root: Some(serde_json::to_vec(&draft.root).unwrap()),
        manifest: Some(serde_json::to_vec(&draft.manifest).unwrap()),
        arrays: draft
            .arrays
            .iter()
            .map(|(path, metadata, samples)| StoredArray {
                path: path.clone(),
                metadata: serde_json::to_vec(metadata).unwrap(),
                samples: Some(samples.iter().map(|sample| sample.to_bits()).collect()),
            })
            .collect(),
        record: draft.record.clone(),
    };
    read_orcmeasurement_impulse(
        &package,
        Request {
            array_path: draft.array_path.clone(),
            source_digest: draft.source_digest.clone(),
            logical_digest: draft.logical_digest.clone(),
        },
    )
}

/// What is said of a package after `change`.
fn refusal(change: impl Fn(&mut Draft)) -> String {
    let mut changed = draft();
    change(&mut changed);
    match read(&changed) {
        Ok(_) => "accepted".to_owned(),
        Err(ReadError::Rejected(message)) => message.to_owned(),
        Err(ReadError::Json(_)) => "json".to_owned(),
        Err(ReadError::Missing(part)) => format!("missing {part}"),
    }
}

#[test]
fn a_whole_package_is_read() {
    let impulse = read(&draft()).unwrap();
    let samples: Vec<f32> = impulse.samples.iter().map(|bits| f32::from_bits(*bits)).collect();
    assert_eq!(samples, [0.0, 1.0, -0.5]);
    assert_eq!(impulse.sample_rate_hz, 48_000);
    assert_eq!(impulse.campaign_id, "campaign");
    assert_eq!(impulse.source_digest, "source");
    assert_eq!(impulse.logical_digest, draft().logical_digest);
    assert_eq!(impulse.processing_state, "isolated_physical_output");
    assert_eq!(impulse.time_reference, "loopback");
}

#[test]
fn the_order_of_arrays_does_not_change_the_identity() {
    assert_eq!(
        refusal(|d| d.manifest["arrays"].as_array_mut().unwrap().reverse()),
        "accepted"
    );
    assert_eq!(
        refusal(|d| d.manifest["sourceArtifacts"].as_array_mut().unwrap().reverse()),
        "accepted"
    );
}

#[test]
fn only_the_expected_package_is_opened() {
    assert_eq!(
        refusal(|d| d.extension = Some("zarr".to_owned())),
        "expected .orcmeasurement directory"
    );
    assert_eq!(refusal(|d| d.extension = None), "expected .orcmeasurement directory");
    assert_eq!(refusal(|d| d.root["zarr_format"] = Value::from(2)), "invalid Zarr root");
    assert_eq!(refusal(|d| d.root["node_type"] = Value::from("array")), "invalid Zarr root");
    assert_eq!(refusal(|d| d.source_digest = "other".to_owned()), "source digest mismatch");
    assert_eq!(
        refusal(|d| d.logical_digest = "0".repeat(64)),
        "expected logical digest mismatch"
    );
    assert_eq!(
        refusal(|d| d.record = Some("0".repeat(64))),
        "package logical digest mismatch"
    );
    assert_eq!(refusal(|d| d.record = None), "missing logical.sha256");
    assert_eq!(
        refusal(|d| d.arrays[0].2[1] = 0.75),
        "package logical digest mismatch"
    );
    assert_eq!(
        refusal(|d| d.manifest["correctionOwner"] = Value::from("x")),
        "package logical digest mismatch"
    );
    assert_eq!(
        refusal(|d| d.manifest["sourceArtifacts"][0]["sha256"] = Value::from("x")),
        "package logical digest mismatch"
    );
}

#[test]
fn the_manifest_is_checked_in_order() {
    let set = |key: &'static str, to: Value| {
        refusal(move |d: &mut Draft| d.manifest[key] = to.clone())
    };
    assert_eq!(set("schemaVersion", Value::from(2)), "only measurement schema v1 is supported");
    assert_eq!(set("schemaVersion", Value::from(-1)), "missing positive integer");
    assert_eq!(set("sourceDigest", Value::Null), "missing string");
    assert_eq!(set("rawWaveformAuthority", Value::from(1)), "raw waveform authority absent");
    assert_eq!(set("campaignID", Value::from(1)), "missing string");
    assert_eq!(set("channels", Value::Null), "missing channels");
    assert_eq!(set("arrays", Value::Null), "missing arrays");
    assert_eq!(set("sourceArtifacts", Value::Null), "missing source artifacts");
    assert_eq!(set("calibrationStatus", Value::Null), "missing string");
    for path in ["positions/MLP/FL", "MLP/FL/impulse_response/x", "positions/MLP/FL/response"] {
        assert_eq!(refusal(|d| d.array_path = path.to_owned()), "invalid impulse path");
    }
    assert_eq!(
        refusal(|d| d.array_path = "positions/MLP/FR/impulse_response".to_owned()),
        "channel not declared"
    );
}

#[test]
fn the_channel_must_be_valid_and_isolated() {
    let set = |path: &'static [&'static str], to: Value| {
        refusal(move |d: &mut Draft| {
            let mut place = &mut d.manifest["channels"][1];
            for key in path {
                place = &mut place[*key];
            }
            *place = to.clone();
        })
    };
    assert_eq!(set(&["quality", "valid"], Value::Bool(false)), "channel quality invalid");
    assert_eq!(set(&["acquisition", "processingState"], Value::Null), "missing string");
    assert_eq!(
        set(&["acquisition", "processingState"], Value::from("mixed")),
        "non-isolated processing state"
    );
    assert_eq!(set(&["sampleRate"], Value::from(0)), "invalid sample rate");
    assert_eq!(set(&["sampleRate"], Value::from(1_u64 << 32)), "invalid sample rate");
    assert_eq!(set(&["sampleRate"], Value::from(48_000.5)), "missing positive integer");
    assert_eq!(set(&["acquisition", "timeReference"], Value::Null), "missing string");
}

#[test]
fn every_array_is_checked() {
    let set = |key: &'static str, to: Value| {
        refusal(move |d: &mut Draft| d.manifest["arrays"][1][key] = to.clone())
    };
    assert_eq!(set("path", Value::Null), "missing string");
    assert_eq!(set("path", Value::from(IMPULSE)), "duplicate array path");
    for path in ["/x", "a/../b", "a//b", "./a", "a/", ""] {
        assert_eq!(set("path", Value::from(path)), "invalid array path", "{path}");
        assert!(!valid_path(path));
    }
    assert!(valid_path("a/b.c"));
    assert_eq!(set("path", Value::from("x")), "missing arrays/x/zarr.json");
    assert_eq!(set("shape", Value::Null), "missing declared shape");
    assert_eq!(set("shape", value("[3]")), "only matching rank-one arrays supported");
    assert_eq!(set("chunkLength", Value::from(3)), "chunk length mismatch");
    assert_eq!(set("chunkLength", Value::Null), "missing positive integer");
    assert_eq!(set("compression", Value::from("gzip")), "compression mismatch");
    assert_eq!(set("fillValue", Value::from(1)), "fill mismatch");
    assert_eq!(set("role", Value::from("impulse_response")), "array metadata mismatch");
    assert_eq!(set("units", Value::from("dB")), "array metadata mismatch");
    assert_eq!(refusal(|d| d.arrays[0].2[0] = f32::NAN), "invalid decoded samples");
    assert_eq!(refusal(|d| d.arrays[0].2.push(0.0)), "invalid decoded samples");
}

#[test]
fn a_joined_path_is_allowed_by_its_parts() {
    let paths = ["a", "a/b.c", "a.", ".b", "", "/x", "x/", ".", "..", "a/../b", "./a"];
    for a in paths {
        for b in paths {
            let joined = format!("{a}/{b}");
            assert_eq!(valid_path(&joined), valid_path(a) && valid_path(b), "{joined}");
        }
    }
    assert!(valid_path("a./.b"));
}

#[test]
fn the_metadata_of_an_array_must_fit() {
    let set = |path: &'static [&'static str], to: Value| {
        refusal(move |d: &mut Draft| {
            let mut place = &mut d.arrays[0].1;
            for key in path {
                place = &mut place[*key];
            }
            *place = to.clone();
        })
    };
    assert_eq!(set(&["data_type"], Value::from("float64")), "unsupported Zarr array");
    assert_eq!(set(&["node_type"], Value::from("group")), "unsupported Zarr array");
    assert_eq!(set(&["chunk_grid", "name"], Value::from("x")), "unsupported Zarr layout");
    assert_eq!(
        set(&["chunk_key_encoding", "configuration", "separator"], Value::from(".")),
        "unsupported Zarr layout"
    );
    assert_eq!(
        set(&["storage_transformers"], value("[{}]")),
        "storage transformers unsupported"
    );
    assert_eq!(set(&["storage_transformers"], Value::Null), "storage transformers unsupported");
    assert_eq!(set(&["shape"], Value::Null), "missing shape");
    assert_eq!(
        set(&["chunk_grid", "configuration", "chunk_shape"], Value::Null),
        "missing chunk shape"
    );
    assert_eq!(
        set(&["chunk_grid", "configuration", "chunk_shape"], value("[0]")),
        "chunk length mismatch"
    );
    assert_eq!(set(&["codecs"], Value::Null), "missing codecs");
    assert_eq!(set(&["codecs"], value("[]")), "unsupported codec pipeline");
    assert_eq!(
        set(&["codecs"], value(r#"[{"name":"bytes","configuration":{"endian":"big"}}]"#)),
        "unsupported codec pipeline"
    );
    let gzip = r#"[{"name":"bytes","configuration":{"endian":"little"}},
                   {"name":"gzip","configuration":{"level":5}}]"#;
    assert_eq!(set(&["codecs"], value(gzip)), "compression mismatch");
    assert_eq!(set(&["codecs"], value(&gzip.replace('5', "10"))), "unsupported compression");
    assert_eq!(
        set(&["codecs"], value(&gzip.replace("gzip", "zstd"))),
        "unsupported compression"
    );
    assert_eq!(set(&["fill_value"], Value::from("NaN")), "invalid fill value");
    assert_eq!(set(&["fill_value"], Value::from(1e39)), "fill mismatch");
    assert_eq!(
        set(&["attributes", "logical_path"], Value::from("x")),
        "array metadata mismatch"
    );
    assert_eq!(
        set(&["dimension_names"], value(r#"["sample"]"#)),
        "dimension metadata mismatch"
    );
}

#[test]
fn compression_may_be_gzip() {
    let accepted = refusal(|d| {
        d.arrays[0].1["codecs"] = value(
            r#"[{"name":"bytes","configuration":{"endian":"little"}},
                {"name":"gzip","configuration":{"level":5}}]"#,
        );
        d.manifest["arrays"][1]["compression"] = value(r#"{"gzip":{"level":5}}"#);
    });
    assert_eq!(accepted, "accepted");
}

#[test]
fn arrays_over_the_limit_are_not_read() {
    let refused = refusal(|d| {
        d.manifest["arrays"][1]["shape"] = value("[32000001]");
        d.arrays[0].1["shape"] = value("[32000001]");
    });
    assert_eq!(refused, "array exceeds local read limit");
}

#[test]
fn the_impulse_must_be_declared_as_one() {
    let both = |manifest_key: &'static str, key: &'static str, to: &'static str| {
        refusal(move |d: &mut Draft| {
            d.manifest["arrays"][0][manifest_key] = Value::from(to);
            d.arrays[1].1["attributes"][key] = Value::from(to);
        })
    };
    assert_eq!(both("units", "units", "dB"), "impulse unit mismatch");
    assert_eq!(
        both("processingState", "processing_state", "x"),
        "impulse processing mismatch"
    );
    let role = refusal(|d| {
        d.manifest["arrays"][0]["role"] = Value::from("x");
        d.arrays[1].1["attributes"]["role"] = Value::from("x");
        d.arrays[1].1["dimension_names"] = value(r#"["frequency"]"#);
    });
    assert_eq!(role, "array role mismatch");
    assert_eq!(
        refusal(|d| d.manifest["arrays"][0]["dimensions"] = value(r#"["time"]"#)),
        "impulse axis mismatch"
    );
    assert_eq!(
        refusal(|d| {
            d.manifest["arrays"].as_array_mut().unwrap().remove(0);
        }),
        "impulse not declared"
    );
}

#[test]
fn parts_that_are_no_json_are_refused() {
    let request = || Request {
        array_path: IMPULSE.to_owned(),
        source_digest: "source".to_owned(),
        logical_digest: String::new(),
    };
    let reading = open_package(Some("orcmeasurement"), request()).unwrap();
    assert!(matches!(reading.root(b"{"), Err(ReadError::Json(_))));
    let reading = open_package(Some("orcmeasurement"), request()).unwrap();
    let reading = reading.root(br#"{"zarr_format":3,"node_type":"group"}"#).unwrap();
    assert!(matches!(reading.manifest(b""), Err(ReadError::Json(_))));
}
