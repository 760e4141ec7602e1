//! The evidence that a temporal refinement rests on: what is asked of each saved impulse
//! response, and of the set of all of them.

use crate::digest::{samples_bytes, sha256_text};
use crate::error::invalid_text;
use crate::ieee::{rounded, Double};
use crate::measurement_array::{ImpulseView, RequestView};
use crate::package_reader::{package_read, PackageView};
use crate::provenance::{sidecar_record, strict_errors, wav_header, RecordView};
use crate::temporal_fir_config::{
    TemporalArrayReference, TemporalIrEvidence, TemporalIrSidecar, TemporalPartition,
};
use crate::text::{joined, trimmed};
use vstd::prelude::*;

verus! {

/// The largest sidecar that is read, in bytes.
pub const SIDECAR_LIMIT: usize = 16_777_216;

/// A piece of evidence that qualified.
#[derive(Clone, Debug)]
pub struct Evidence {
    /// The digest of the WAV file.
    pub identity: String,
    /// The digest of the sidecar.
    pub sidecar_sha256: String,
    pub partition: TemporalPartition,
    /// The identity of the provenance record.
    pub record_id: String,
    pub position_id: String,
    /// The stimulus that was captured.
    pub stimulus_reference: String,
    /// The digest of the decoded samples.
    pub samples_sha256: String,
}

/// What an [`Evidence`] says.
pub struct EvidenceView {
    pub identity: Seq<char>,
    pub sidecar_sha256: Seq<char>,
    pub partition: TemporalPartition,
    pub record_id: Seq<char>,
    pub position_id: Seq<char>,
    pub stimulus_reference: Seq<char>,
    pub samples_sha256: Seq<char>,
}

impl View for Evidence {
    type V = EvidenceView;

    open spec fn view(&self) -> EvidenceView {
        EvidenceView {
            identity: self.identity@,
            sidecar_sha256: self.sidecar_sha256@,
            partition: self.partition,
            record_id: self.record_id@,
            position_id: self.position_id@,
            stimulus_reference: self.stimulus_reference@,
            samples_sha256: self.samples_sha256@,
        }
    }
}

/// What a list of evidence says.
pub open spec fn evidence_views(evidence: Seq<Evidence>) -> Seq<EvidenceView> {
    evidence.map_values(|item: Evidence| item@)
}

/// What is asked of a piece of evidence, and what it is taken as.
pub struct ItemView {
    pub position_id: Seq<char>,
    pub partition: TemporalPartition,
}

/// The items that a configuration lists.
pub open spec fn item_views(items: Seq<TemporalIrEvidence>) -> Seq<ItemView> {
    items.map_values(
        |item: TemporalIrEvidence|
            ItemView { position_id: item.position_id@, partition: item.partition },
    )
}

/// How far the evidence of a configuration has been taken in.
pub struct IntakeView {
    pub channel: Seq<char>,
    pub rate: u32,
    pub items: Seq<ItemView>,
    pub minimum_positions: Option<usize>,
    /// The evidence that qualified so far.
    pub accepted: Seq<EvidenceView>,
}

/// Whether two pieces of evidence are independent of each other, and comparable: they come from
/// different records, different files and different samples, stand for different positions or
/// different uses, and share the stimulus.
pub open spec fn independent_evidence(a: EvidenceView, b: EvidenceView) -> bool {
    &&& a.record_id != b.record_id
    &&& a.identity != b.identity
    &&& a.samples_sha256 != b.samples_sha256
    &&& a.partition != b.partition || a.position_id != b.position_id
    &&& a.stimulus_reference == b.stimulus_reference
}

impl IntakeView {
    /// What is asked of the piece that comes next.
    pub open spec fn item(self) -> ItemView {
        self.items[self.accepted.len() as int]
    }

    /// What holds of an intake at every point: what was accepted are the first items, each as
    /// it was declared, and any two of them are independent.
    pub open spec fn wf(self) -> bool {
        &&& self.accepted.len() <= self.items.len()
        &&& forall|i: int|
            0 <= i < self.accepted.len() ==> {
                &&& (#[trigger] self.accepted[i]).partition == self.items[i].partition
                &&& self.accepted[i].position_id == self.items[i].position_id
            }
        &&& forall|i: int, j: int|
            0 <= i < j < self.accepted.len() ==> independent_evidence(
                #[trigger] self.accepted[i],
                #[trigger] self.accepted[j],
            )
    }
}

/// The record in a sidecar, or why the sidecar does not qualify.
pub open spec fn record_checked(intake: IntakeView, sidecar: Seq<u8>) -> Result<
    RecordView,
    Seq<char>,
> {
    if sidecar.len() > SIDECAR_LIMIT {
        Err(invalid_text("provenance sidecar is too large"@))
    } else {
        match sidecar_record(sidecar, "temporal_ir_v1"@) {
            Err(words) => Err(invalid_text("invalid provenance sidecar: "@ + words)),
            Ok(record) => match strict_errors(sidecar) {
                Err(words) => Err(invalid_text("invalid provenance sidecar: "@ + words)),
                Ok(errors) => if errors.len() > 0 {
                    Err(invalid_text("sidecar provenance invalid: "@ + joined(errors, "; "@)))
                } else if exists|i: int|
                    0 <= i < intake.accepted.len() && (#[trigger] intake.accepted[i]).record_id
                        == record.id {
                    Err(invalid_text("measurement record reused across evidence partitions"@))
                } else if record.extension is None {
                    Err(invalid_text("provenance sidecar lacks temporal_ir_v1"@))
                } else {
                    Ok(record)
                },
            },
        }
    }
}

/// Whether what was captured at a rate serves a filter of another: the first rate is at least the
/// second, and a multiple of it.
pub open spec fn rate_serves(captured: u32, rate: u32) -> bool {
    &&& captured >= rate
    &&& if rate == 0 {
        captured == 0
    } else {
        captured % rate == 0
    }
}

/// Whether a declaration is the one of the piece that comes next.
pub open spec fn declaration_matches(intake: IntakeView, metadata: TemporalIrSidecar) -> bool {
    &&& metadata.channel@ == intake.channel
    &&& metadata.position_id@ == intake.item().position_id
    &&& metadata.partition == intake.item().partition
    &&& metadata.processing_state@ == "isolated_raw"@
    &&& trimmed(metadata.stimulus_reference@).len() > 0
    &&& rate_serves(metadata.capture_rate_hz, intake.rate)
}

/// Why the declaration of the next piece does not qualify, if it does not.
pub open spec fn declaration_fault(intake: IntakeView, metadata: TemporalIrSidecar) -> Option<
    Seq<char>,
> {
    if !declaration_matches(intake, metadata) {
        Some(
            invalid_text(
                "IR channel, position, partition, processing state, reference, or sample rate mismatch"@,
            ),
        )
    } else if exists|i: int|
        0 <= i < intake.accepted.len() && (#[trigger] intake.accepted[i]).partition
            == metadata.partition && intake.accepted[i].position_id == metadata.position_id@ {
        Some(invalid_text("duplicate position identity within one evidence partition"@))
    } else if intake.accepted.len() > 0 && intake.accepted[0].stimulus_reference
        != metadata.stimulus_reference@ {
        Some(invalid_text("IR stimulus references differ"@))
    } else {
        None
    }
}

/// Why a WAV file does not qualify, if it does not: it must be the declared one, new, bound by
/// the record, and mono.
pub open spec fn wav_fault(
    intake: IntakeView,
    record: RecordView,
    declared: Seq<char>,
    file: Seq<u8>,
) -> Option<Seq<char>> {
    let digest = sha256_text(file);
    if digest != declared || exists|i: int|
        0 <= i < intake.accepted.len() && (#[trigger] intake.accepted[i]).identity == digest {
        Some(invalid_text("IR byte digest mismatch or training/held-out source reused"@))
    } else if !record.source_hashes.contains(Some(digest)) {
        Some(
            invalid_text("IR WAV is not bound as a source artifact in its provenance sidecar"@),
        )
    } else {
        match wav_header(file) {
            Err(words) => Some(invalid_text(words)),
            Ok(channels) => if channels != 1 {
                Some(invalid_text("saved IR WAV must be mono"@))
            } else {
                None
            },
        }
    }
}

/// The path under which a package holds the impulse response of a channel at a position.
pub open spec fn impulse_array_path(position: Seq<char>, channel: Seq<char>) -> Seq<char> {
    "positions/"@ + position + "/"@ + channel + "/impulse_response"@
}

/// Why decoded samples do not qualify, if they do not: they must be new, and the array that is
/// to repeat them must be the one of the same position and channel.
pub open spec fn samples_fault(
    intake: IntakeView,
    metadata: TemporalIrSidecar,
    samples: Seq<u32>,
) -> Option<Seq<char>> {
    let digest = sha256_text(samples_bytes(samples));
    if exists|i: int|
        0 <= i < intake.accepted.len() && (#[trigger] intake.accepted[i]).samples_sha256 == digest {
        Some(invalid_text("independent evidence repeats identical decoded samples"@))
    } else if metadata.orcmeasurement is Some && metadata.orcmeasurement->0.array_path@
        != impulse_array_path(metadata.position_id@, metadata.channel@) {
        Some(
            invalid_text("orcmeasurement array path does not match position/channel identity"@),
        )
    } else {
        None
    }
}

/// What is asked of the package that a declaration names.
pub open spec fn package_request(array: TemporalArrayReference) -> RequestView {
    RequestView {
        array_path: array.array_path@,
        source_digest: array.source_digest@,
        logical_digest: array.logical_sha256@,
    }
}

/// Whether an impulse is that of the declared package, and repeats the samples of the WAV file,
/// bit by bit.
pub open spec fn impulse_matches(
    metadata: TemporalIrSidecar,
    array: TemporalArrayReference,
    impulse: ImpulseView,
    samples: Seq<u32>,
) -> bool {
    &&& impulse.source_digest == array.source_digest@
    &&& impulse.logical_digest == array.logical_sha256@
    &&& impulse.campaign_id == array.campaign_id@
    &&& impulse.sample_rate_hz == metadata.capture_rate_hz
    &&& impulse.processing_state == "isolated_physical_output"@
    &&& impulse.samples == samples
}

/// What was fetched for a piece of evidence, or the words on why it could not be had.
pub struct SourceView {
    pub sidecar: Result<Seq<u8>, Seq<char>>,
    pub metadata: Result<TemporalIrSidecar, Seq<char>>,
    pub wav: Result<Seq<u8>, Seq<char>>,
    /// The channels that were decoded.
    pub channels: Result<Seq<Seq<Double>>, Seq<char>>,
    /// The package that the declaration names.
    pub package: Result<PackageView, Seq<char>>,
    pub objective: Result<(), Seq<char>>,
}

/// The samples of the first channel, as singles.
pub open spec fn first_channel(channels: Seq<Seq<Double>>) -> Seq<u32> {
    rounded(channels[0])
}

/// The impulse that is read from the package that a declaration names.
pub open spec fn impulse_fetched(
    array: TemporalArrayReference,
    package: Result<PackageView, Seq<char>>,
) -> Result<ImpulseView, Seq<char>> {
    match package {
        Err(words) => Err(words),
        Ok(package) => match package_read(package, package_request(array)) {
            Err(fault) => Err(fault.words()),
            Ok(impulse) => Ok(impulse),
        },
    }
}

/// The samples that the decoded channels and the package of the next piece lead to.
pub open spec fn samples_taken(
    intake: IntakeView,
    metadata: TemporalIrSidecar,
    source: SourceView,
) -> Result<Seq<u32>, Seq<char>> {
    match source.channels {
        Err(words) => Err(words),
        Ok(channels) => if channels.len() == 0 {
            Err(invalid_text("empty IR WAV"@))
        } else {
            let samples = first_channel(channels);
            if samples_fault(intake, metadata, samples) is Some {
                Err(samples_fault(intake, metadata, samples)->0)
            } else if metadata.orcmeasurement is None {
                Ok(samples)
            } else {
                match impulse_fetched(metadata.orcmeasurement->0, source.package) {
                    Err(words) => Err(invalid_text("orcmeasurement: "@ + words)),
                    Ok(impulse) => if impulse_matches(
                        metadata,
                        metadata.orcmeasurement->0,
                        impulse,
                        samples,
                    ) {
                        Ok(samples)
                    } else {
                        Err(
                            invalid_text(
                                "orcmeasurement and raw WAV samples or identity differ"@,
                            ),
                        )
                    },
                }
            }
        },
    }
}

/// The intake with one piece more.
pub open spec fn with_piece(
    intake: IntakeView,
    record_id: Seq<char>,
    sidecar_sha256: Seq<char>,
    metadata: TemporalIrSidecar,
    identity: Seq<char>,
    samples: Seq<u32>,
) -> IntakeView {
    IntakeView {
        accepted: intake.accepted.push(
            EvidenceView {
                identity,
                sidecar_sha256,
                partition: metadata.partition,
                record_id,
                position_id: metadata.position_id@,
                stimulus_reference: metadata.stimulus_reference@,
                samples_sha256: sha256_text(samples_bytes(samples)),
            },
        ),
        ..intake
    }
}

/// What the next piece of evidence leads to.
pub open spec fn piece_taken(intake: IntakeView, source: SourceView) -> Result<
    IntakeView,
    Seq<char>,
> {
    match source.sidecar {
        Err(words) => Err(invalid_text(words)),
        Ok(sidecar) => match record_checked(intake, sidecar) {
            Err(words) => Err(words),
            Ok(record) => match source.metadata {
                Err(words) => Err(invalid_text("invalid temporal_ir_v1: "@ + words)),
                Ok(metadata) => if declaration_fault(intake, metadata) is Some {
                    Err(declaration_fault(intake, metadata)->0)
                } else {
                    match source.wav {
                        Err(words) => Err(invalid_text(words)),
                        Ok(file) => if wav_fault(intake, record, metadata.sha256@, file) is Some {
                            Err(wav_fault(intake, record, metadata.sha256@, file)->0)
                        } else {
                            match samples_taken(intake, metadata, source) {
                                Err(words) => Err(words),
                                Ok(samples) => match source.objective {
                                    Err(words) => Err(invalid_text(words)),
                                    Ok(_) => Ok(
                                        with_piece(
                                            intake,
                                            record.id,
                                            sha256_text(sidecar),
                                            metadata,
                                            sha256_text(file),
                                            samples,
                                        ),
                                    ),
                                },
                            }
                        },
                    }
                },
            },
        },
    }
}

/// The positions that a list of evidence stands for.
pub open spec fn positions(evidence: Seq<EvidenceView>) -> Seq<Seq<char>> {
    evidence.map_values(|item: EvidenceView| item.position_id)
}

/// Whether a list of evidence serves this use.
pub open spec fn serves(evidence: Seq<EvidenceView>, partition: TemporalPartition) -> bool {
    exists|i: int| 0 <= i < evidence.len() && (#[trigger] evidence[i]).partition == partition
}

/// Why a complete set of evidence does not qualify, if it does not: both uses must be served,
/// from enough positions.
pub open spec fn set_fault(intake: IntakeView) -> Option<Seq<char>> {
    if !serves(intake.accepted, TemporalPartition::Training) || !serves(
        intake.accepted,
        TemporalPartition::HeldOut,
    ) {
        Some(invalid_text("at least one training and one held-out IR are required"@))
    } else if intake.minimum_positions is Some && positions(intake.accepted).to_set().len()
        < intake.minimum_positions->0 {
        Some(
            invalid_text("insufficient independent positions for temporal qualification"@),
        )
    } else {
        None
    }
}

} // verus!
