//! What the files behind a piece of evidence say: the provenance record in a sidecar, and the
//! header of a WAV file.

use crate::text::{optional_text, texts};
use vstd::prelude::*;

verus! {

/// What a provenance record says of a measurement.
#[derive(Debug)]
pub struct SidecarRecord {
    /// The identity of the record.
    pub id: String,
    /// The extension that was asked for, as JSON text.
    pub extension: Option<String>,
    /// The content hashes of the source artifacts, where they have one.
    pub source_hashes: Vec<Option<String>>,
}

/// What a [`SidecarRecord`] holds.
pub struct RecordView {
    pub id: Seq<char>,
    pub extension: Option<Seq<char>>,
    pub source_hashes: Seq<Option<Seq<char>>>,
}

impl View for SidecarRecord {
    type V = RecordView;

    open spec fn view(&self) -> RecordView {
        RecordView {
            id: self.id@,
            extension: optional_text(self.extension),
            source_hashes: self.source_hashes@.map_values(
                |hash: Option<String>| optional_text(hash),
            ),
        }
    }
}

/// The record that `serde_json::from_slice` reads as an `autoeq_measurements::MeasurementRecord`
/// out of a sidecar, with its extension `key`, or the words of the parser.
pub uninterp spec fn sidecar_record(sidecar: Seq<u8>, key: Seq<char>) -> Result<
    RecordView,
    Seq<char>,
>;

/// The errors that `autoeq_measurements::MeasurementRecord::validate` finds, in strict mode, in
/// the record of a sidecar, or the words of the parser where the sidecar holds no record.
pub uninterp spec fn strict_errors(sidecar: Seq<u8>) -> Result<Seq<Seq<char>>, Seq<char>>;

/// The number of channels that `hound::WavReader` finds in the header of a WAV file, or its
/// words on what is no such file.
pub uninterp spec fn wav_header(file: Seq<u8>) -> Result<u16, Seq<char>>;

/// Calls `serde_json::from_slice` for an `autoeq_measurements::MeasurementRecord`, and takes
/// over its identity, one extension as compact JSON text, and the content hashes of its source
/// artifacts in their order.
#[verifier::external_body]
pub(crate) fn read_record(sidecar: &[u8], key: &str) -> (r: Result<SidecarRecord, String>)
    ensures
        match r {
            Ok(record) => sidecar_record(sidecar@, key@) == Ok::<RecordView, Seq<char>>(record@),
            Err(words) => sidecar_record(sidecar@, key@) == Err::<RecordView, Seq<char>>(words@),
        },
{
    let parsed = serde_json::from_slice::<autoeq_measurements::MeasurementRecord>(sidecar);
    let record = parsed.map_err(|error| error.to_string())?;
    let artifacts = record.provenance.source_artifacts;
    Ok(SidecarRecord {
        id: record.id,
        extension: record.provenance.extensions.get(key).map(|value| value.to_string()),
        source_hashes: artifacts.into_iter().map(|source| source.content_hash).collect(),
    })
}

/// Calls `autoeq_measurements::MeasurementRecord::validate`, in strict mode, on the record of a
/// sidecar, and returns the errors of its report. A sidecar without a record gives the words of
/// the parser.
#[verifier::external_body]
pub(crate) fn validate_record(sidecar: &[u8]) -> (r: Result<Vec<String>, String>)
    ensures
        match r {
            Ok(errors) => strict_errors(sidecar@) == Ok::<Seq<Seq<char>>, Seq<char>>(
                texts(errors@),
            ),
            Err(words) => strict_errors(sidecar@) == Err::<Seq<Seq<char>>, Seq<char>>(words@),
        },
{
    serde_json::from_slice::<autoeq_measurements::MeasurementRecord>(sidecar)
        .map(|record| record.validate(autoeq_measurements::ValidationMode::Strict).errors)
        .map_err(|error| error.to_string())
}

/// Calls `hound::WavReader::new` on a file in memory, and returns the number of channels of the
/// specification that it found.
#[verifier::external_body]
pub(crate) fn wav_channels(file: &[u8]) -> (r: Result<u16, String>)
    ensures
        match r {
            Ok(channels) => wav_header(file@) == Ok::<u16, Seq<char>>(channels),
            Err(words) => wav_header(file@) == Err::<u16, Seq<char>>(words@),
        },
{
    hound::WavReader::new(std::io::Cursor::new(file))
        .map(|reader| reader.spec().channels)
        .map_err(|error| error.to_string())
}

} // verus!
