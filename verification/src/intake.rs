//! Taking in the evidence of a configuration, in steps, each between two parts that are fetched
//! for a piece.
//!
//! What a step refuses ends the intake, so nothing that was not qualified is ever used.

use crate::digest::{samples_bytes, samples_sha256, sha256, sha256_text};
use crate::error::{invalid, invalid_text, AutoeqError, Fault};
use crate::evidence::{
    declaration_fault, evidence_views, first_channel, impulse_matches, independent_evidence,
    item_views, package_request, piece_taken, positions, record_checked, samples_fault, serves,
    set_fault, wav_fault, with_piece, Evidence, EvidenceView, IntakeView, ItemView, SourceView,
    SIDECAR_LIMIT,
};
use crate::ieee::{singles, Double};
use crate::measurement_array::{ImpulseView, MeasurementImpulse, Request};
use crate::package_reader::{package_read, read_orcmeasurement_impulse, StoredPackage};
use crate::provenance::{read_record, validate_record, wav_channels, RecordView, SidecarRecord};
use crate::room::RoomConfig;
use crate::settings::{check_settings, settings_fault};
use crate::temporal_fir_config::{TemporalFirConfig, TemporalIrSidecar, TemporalPartition};
use crate::text::{contains_text, join, optional_text, same_text, texts, trim};
use vstd::prelude::*;

verus! {

/// The evidence of a configuration, taken in piece by piece.
#[derive(Debug)]
pub struct Intake<'a> {
    strategy: &'a TemporalFirConfig,
    rate: u32,
    accepted: Vec<Evidence>,
}

impl<'a> View for Intake<'a> {
    type V = IntakeView;

    closed spec fn view(&self) -> IntakeView {
        IntakeView {
            accepted: evidence_views(self.accepted@),
            ..opening(*self.strategy, self.rate)
        }
    }
}

/// The intake before the first piece.
pub open spec fn opening(strategy: TemporalFirConfig, rate: u32) -> IntakeView {
    IntakeView {
        channel: strategy.channel@,
        rate,
        items: item_views(strategy.evidence@),
        minimum_positions: strategy.minimum_positions,
        accepted: Seq::empty(),
    }
}

/// An intake that waits for the sidecar of a piece.
#[derive(Debug)]
pub struct AwaitingSidecar<'a> {
    intake: Intake<'a>,
}

/// What comes next in an intake.
#[derive(Debug)]
pub enum IntakeStep<'a> {
    /// Another piece.
    Piece(AwaitingSidecar<'a>),
    /// No other piece; all of them qualified.
    Complete(Vec<Evidence>),
}

/// Starts to take in the evidence for the refinement of a filter with `tap_count` taps. `rate`
/// is the sample rate as the integer that it was checked to be.
pub fn begin<'a>(
    config: &RoomConfig,
    strategy: &'a TemporalFirConfig,
    sample_rate: Double,
    rate: u32,
    tap_count: usize,
) -> (r: Result<Intake<'a>, AutoeqError>)
    ensures
        match r {
            Ok(intake) => {
                &&& settings_fault(*config, *strategy, sample_rate, rate, tap_count) is None
                &&& intake@ == opening(*strategy, rate)
                &&& intake@.wf()
            },
            Err(e) => settings_fault(*config, *strategy, sample_rate, rate, tap_count) == Some(e@),
        },
{
    check_settings(config, strategy, sample_rate, rate, tap_count)?;
    let intake = Intake { strategy, rate, accepted: Vec::new() };
    assert(intake@.accepted =~= Seq::<EvidenceView>::empty());
    Ok(intake)
}

fn serves_partition(evidence: &Vec<Evidence>, partition: TemporalPartition) -> (r: bool)
    ensures
        r == serves(evidence_views(evidence@), partition),
{
    let mut i: usize = 0;
    while i < evidence.len()
        invariant
            i <= evidence@.len(),
            forall|j: int| 0 <= j < i ==> (#[trigger] evidence@[j]).partition != partition,
        decreases evidence@.len() - i,
    {
        if evidence[i].partition == partition {
            assert(evidence_views(evidence@)[i as int].partition == partition);
            return true;
        }
        i = i + 1;
    }
    false
}

/// How many positions a list of evidence stands for.
fn position_count(evidence: &Vec<Evidence>) -> (r: usize)
    ensures
        r == positions(evidence_views(evidence@)).to_set().len(),
{
    let ghost all = positions(evidence_views(evidence@));
    let mut distinct: Vec<String> = Vec::new();
    let mut i: usize = 0;
    assert(texts(distinct@).to_set() =~= all.take(0).to_set());
    while i < evidence.len()
        invariant
            all == positions(evidence_views(evidence@)),
            i <= evidence@.len(),
            texts(distinct@).no_duplicates(),
            texts(distinct@).to_set() == all.take(i as int).to_set(),
        decreases evidence@.len() - i,
    {
        let position = &evidence[i].position_id;
        assert(all[i as int] == position@);
        assert(all.take(i + 1) =~= all.take(i as int).push(position@));
        proof {
            lemma_push_to_set(all.take(i as int), position@);
        }
        if !contains_text(&distinct, position.as_str()) {
            let ghost before = texts(distinct@);
            distinct.push(position.clone());
            assert(texts(distinct@) =~= before.push(position@));
            proof {
                lemma_push_to_set(before, position@);
            }
        } else {
            assert(texts(distinct@).to_set().contains(position@));
            assert(all.take(i as int).to_set().insert(position@) =~= all.take(i as int).to_set());
        }
        i = i + 1;
    }
    assert(all.take(i as int) =~= all);
    proof {
        texts(distinct@).unique_seq_to_set();
    }
    distinct.len()
}

proof fn lemma_push_to_set(s: Seq<Seq<char>>, x: Seq<char>)
    ensures
        s.push(x).to_set() == s.to_set().insert(x),
{
    assert forall|y: Seq<char>| s.push(x).to_set().contains(y) <==> s.to_set().insert(x).contains(
        y,
    ) by {
        if s.contains(y) {
            let k = choose|k: int| 0 <= k < s.len() && s[k] == y;
            assert(s.push(x)[k] == y);
        }
        if y == x {
            assert(s.push(x)[s.len() as int] == y);
        }
    }
    assert(s.push(x).to_set() =~= s.to_set().insert(x));
}

impl<'a> Intake<'a> {
    /// Goes on to the next piece, or to the check of the whole set when all were taken.
    pub fn advance(self) -> (r: Result<IntakeStep<'a>, AutoeqError>)
        requires
            self@.wf(),
        ensures
            if self@.accepted.len() < self@.items.len() {
                r matches Ok(IntakeStep::Piece(next)) && next.intake() == self@ && next.wf()
            } else {
                match r {
                    Ok(IntakeStep::Piece(_)) => false,
                    Ok(IntakeStep::Complete(evidence)) => {
                        &&& set_fault(self@) is None
                        &&& evidence_views(evidence@) == self@.accepted
                    },
                    Err(e) => set_fault(self@) == Some(e@),
                }
            },
    {
        if self.accepted.len() < self.strategy.evidence.len() {
            return Ok(IntakeStep::Piece(AwaitingSidecar { intake: self }));
        }
        if !serves_partition(&self.accepted, TemporalPartition::Training) || !serves_partition(
            &self.accepted,
            TemporalPartition::HeldOut,
        ) {
            return Err(invalid("at least one training and one held-out IR are required"));
        }
        if let Some(required) = self.strategy.minimum_positions {
            if position_count(&self.accepted) < required {
                return Err(
                    invalid("insufficient independent positions for temporal qualification"),
                );
            }
        }
        Ok(IntakeStep::Complete(self.accepted))
    }

    fn has_record(&self, id: &str) -> (r: bool)
        ensures
            r == exists|i: int|
                0 <= i < self@.accepted.len() && (#[trigger] self@.accepted[i]).record_id == id@,
    {
        let mut i: usize = 0;
        while i < self.accepted.len()
            invariant
                i <= self.accepted@.len(),
                forall|j: int| 0 <= j < i ==> (#[trigger] self@.accepted[j]).record_id != id@,
            decreases self.accepted@.len() - i,
        {
            assert(self@.accepted[i as int] == self.accepted@[i as int]@);
            if same_text(self.accepted[i].record_id.as_str(), id) {
                return true;
            }
            i = i + 1;
        }
        false
    }

    fn has_identity(&self, identity: &str) -> (r: bool)
        ensures
            r == exists|i: int|
                0 <= i < self@.accepted.len() && (#[trigger] self@.accepted[i]).identity
                    == identity@,
    {
        let mut i: usize = 0;
        while i < self.accepted.len()
            invariant
                i <= self.accepted@.len(),
                forall|j: int| 0 <= j < i ==> (#[trigger] self@.accepted[j]).identity != identity@,
            decreases self.accepted@.len() - i,
        {
            assert(self@.accepted[i as int] == self.accepted@[i as int]@);
            if same_text(self.accepted[i].identity.as_str(), identity) {
                return true;
            }
            i = i + 1;
        }
        false
    }

    fn has_samples(&self, digest: &str) -> (r: bool)
        ensures
            r == exists|i: int|
                0 <= i < self@.accepted.len() && (#[trigger] self@.accepted[i]).samples_sha256
                    == digest@,
    {
        let mut i: usize = 0;
        while i < self.accepted.len()
            invariant
                i <= self.accepted@.len(),
                forall|j: int|
                    0 <= j < i ==> (#[trigger] self@.accepted[j]).samples_sha256 != digest@,
            decreases self.accepted@.len() - i,
        {
            assert(self@.accepted[i as int] == self.accepted@[i as int]@);
            if same_text(self.accepted[i].samples_sha256.as_str(), digest) {
                return true;
            }
            i = i + 1;
        }
        false
    }

    fn has_position(&self, partition: TemporalPartition, position: &str) -> (r: bool)
        ensures
            r == exists|i: int|
                0 <= i < self@.accepted.len() && (#[trigger] self@.accepted[i]).partition
                    == partition && self@.accepted[i].position_id == position@,
    {
        let mut i: usize = 0;
        while i < self.accepted.len()
            invariant
                i <= self.accepted@.len(),
                forall|j: int|
                    0 <= j < i ==> !((#[trigger] self@.accepted[j]).partition == partition
                        && self@.accepted[j].position_id == position@),
            decreases self.accepted@.len() - i,
        {
            assert(self@.accepted[i as int] == self.accepted@[i as int]@);
            if self.accepted[i].partition == partition && same_text(
                self.accepted[i].position_id.as_str(),
                position,
            ) {
                return true;
            }
            i = i + 1;
        }
        false
    }
}

impl<'a> AwaitingSidecar<'a> {
    /// The intake that this piece belongs to.
    pub closed spec fn intake(self) -> IntakeView {
        self.intake@
    }

    /// There is a piece to take.
    pub open spec fn wf(self) -> bool {
        self.intake().wf() && self.intake().accepted.len() < self.intake().items.len()
    }

    /// Which of the configured pieces this is.
    pub fn index(&self) -> (r: usize)
        ensures
            r == self.intake().accepted.len(),
    {
        self.intake.accepted.len()
    }

    /// Takes the sidecar.
    pub fn sidecar(self, bytes: &[u8]) -> (r: Result<AwaitingDeclaration<'a>, AutoeqError>)
        requires
            self.wf(),
        ensures
            match r {
                Ok(next) => {
                    &&& next.wf()
                    &&& next.intake() == self.intake()
                    &&& next.sidecar_sha256() == sha256_text(bytes@)
                    &&& record_checked(self.intake(), bytes@) == Ok::<RecordView, Seq<char>>(
                        next.record(),
                    )
                },
                Err(e) => record_checked(self.intake(), bytes@) == Err::<RecordView, Seq<char>>(
                    e@,
                ),
            },
    {
        if bytes.len() > SIDECAR_LIMIT {
            return Err(invalid("provenance sidecar is too large"));
        }
        let record = match read_record(bytes, "temporal_ir_v1") {
            Ok(record) => record,
            Err(words) => {
                let mut message = "invalid provenance sidecar: ".to_owned();
                message.append(words.as_str());
                return Err(invalid(message.as_str()));
            },
        };
        let errors = match validate_record(bytes) {
            Ok(errors) => errors,
            Err(words) => {
                let mut message = "invalid provenance sidecar: ".to_owned();
                message.append(words.as_str());
                return Err(invalid(message.as_str()));
            },
        };
        if errors.len() > 0 {
            let mut message = "sidecar provenance invalid: ".to_owned();
            message.append(join(&errors, "; ").as_str());
            return Err(invalid(message.as_str()));
        }
        if self.intake.has_record(record.id.as_str()) {
            return Err(invalid("measurement record reused across evidence partitions"));
        }
        if record.extension.is_none() {
            return Err(invalid("provenance sidecar lacks temporal_ir_v1"));
        }
        Ok(AwaitingDeclaration { intake: self.intake, record, sidecar_sha256: sha256(bytes) })
    }
}

/// An intake that waits for the declaration in the sidecar of a piece.
#[derive(Debug)]
pub struct AwaitingDeclaration<'a> {
    intake: Intake<'a>,
    record: SidecarRecord,
    sidecar_sha256: String,
}

impl<'a> AwaitingDeclaration<'a> {
    /// The intake that this piece belongs to.
    pub closed spec fn intake(self) -> IntakeView {
        self.intake@
    }

    /// The record in the sidecar.
    pub closed spec fn record(self) -> RecordView {
        self.record@
    }

    /// The digest of the sidecar.
    pub closed spec fn sidecar_sha256(self) -> Seq<char> {
        self.sidecar_sha256@
    }

    /// There is a piece to take, and its record is a new one with a declaration.
    pub open spec fn wf(self) -> bool {
        &&& self.intake().wf()
        &&& self.intake().accepted.len() < self.intake().items.len()
        &&& self.record().extension is Some
        &&& forall|i: int|
            0 <= i < self.intake().accepted.len() ==> {
                (#[trigger] self.intake().accepted[i]).record_id != self.record().id
            }
    }

    /// The declaration, as JSON text.
    pub fn declaration(&self) -> (r: &str)
        requires
            self.wf(),
        ensures
            self.record().extension == Some(r@),
    {
        match &self.record.extension {
            Some(text) => text.as_str(),
            None => "",
        }
    }

    /// Takes the declaration.
    pub fn metadata<'m>(self, metadata: &'m TemporalIrSidecar) -> (r: Result<
        AwaitingWav<'a, 'm>,
        AutoeqError,
    >)
        requires
            self.wf(),
        ensures
            match r {
                Ok(next) => {
                    &&& declaration_fault(self.intake(), *metadata) is None
                    &&& next.wf()
                    &&& next.declared() == self
                    &&& next.metadata() == *metadata
                },
                Err(e) => declaration_fault(self.intake(), *metadata) == Some(e@),
            },
    {
        let item = &self.intake.strategy.evidence[self.intake.accepted.len()];
        let rate = self.intake.rate;
        let captured = metadata.capture_rate_hz;
        assert(self.intake().item() == (ItemView {
            position_id: item.position_id@,
            partition: item.partition,
        }));
        let multiple = if rate == 0 {
            captured == 0
        } else {
            captured % rate == 0
        };
        if !same_text(metadata.channel.as_str(), self.intake.strategy.channel.as_str())
            || !same_text(metadata.position_id.as_str(), item.position_id.as_str())
            || metadata.partition != item.partition || !same_text(
            metadata.processing_state.as_str(),
            "isolated_raw",
        ) || trim(metadata.stimulus_reference.as_str()).unicode_len() == 0 || captured < rate
            || !multiple {
            return Err(
                invalid(
                    "IR channel, position, partition, processing state, reference, or sample rate mismatch",
                ),
            );
        }
        if self.intake.has_position(metadata.partition, metadata.position_id.as_str()) {
            return Err(invalid("duplicate position identity within one evidence partition"));
        }
        if self.intake.accepted.len() > 0 {
            assert(self.intake().accepted[0] == self.intake.accepted@[0]@);
            if !same_text(
                self.intake.accepted[0].stimulus_reference.as_str(),
                metadata.stimulus_reference.as_str(),
            ) {
                return Err(invalid("IR stimulus references differ"));
            }
        }
        Ok(AwaitingWav { declared: self, metadata })
    }
}

/// An intake that waits for the WAV file of a piece.
#[derive(Debug)]
pub struct AwaitingWav<'a, 'm> {
    declared: AwaitingDeclaration<'a>,
    metadata: &'m TemporalIrSidecar,
}

impl<'a, 'm> AwaitingWav<'a, 'm> {
    /// The step before, with the record.
    pub closed spec fn declared(self) -> AwaitingDeclaration<'a> {
        self.declared
    }

    /// The declaration.
    pub closed spec fn metadata(self) -> TemporalIrSidecar {
        *self.metadata
    }

    /// The declaration is the one of the piece.
    pub open spec fn wf(self) -> bool {
        &&& self.declared().wf()
        &&& declaration_fault(self.declared().intake(), self.metadata()) is None
    }

    /// Takes the WAV file.
    pub fn wav(self, file: &[u8]) -> (r: Result<AwaitingSamples<'a, 'm>, AutoeqError>)
        requires
            self.wf(),
        ensures
            match r {
                Ok(next) => {
                    &&& wav_fault(
                        self.declared().intake(),
                        self.declared().record(),
                        self.metadata().sha256@,
                        file@,
                    ) is None
                    &&& next.wf()
                    &&& next.bound() == self
                    &&& next.identity() == sha256_text(file@)
                },
                Err(e) => wav_fault(
                    self.declared().intake(),
                    self.declared().record(),
                    self.metadata().sha256@,
                    file@,
                ) == Some(e@),
            },
    {
        let identity = sha256(file);
        if !same_text(identity.as_str(), self.metadata.sha256.as_str())
            || self.declared.intake.has_identity(identity.as_str()) {
            return Err(invalid("IR byte digest mismatch or training/held-out source reused"));
        }
        if !has_source(&self.declared.record, identity.as_str()) {
            return Err(
                invalid("IR WAV is not bound as a source artifact in its provenance sidecar"),
            );
        }
        match wav_channels(file) {
            Err(words) => return Err(invalid(words.as_str())),
            Ok(channels) => {
                if channels != 1 {
                    return Err(invalid("saved IR WAV must be mono"));
                }
            },
        }
        Ok(AwaitingSamples { bound: self, identity })
    }
}

/// Whether a record names a source artifact with this content hash.
fn has_source(record: &SidecarRecord, hash: &str) -> (r: bool)
    ensures
        r == record@.source_hashes.contains(Some(hash@)),
{
    let mut i: usize = 0;
    while i < record.source_hashes.len()
        invariant
            i <= record.source_hashes@.len(),
            forall|j: int| 0 <= j < i ==> #[trigger] record@.source_hashes[j] != Some(hash@),
        decreases record.source_hashes@.len() - i,
    {
        assert(record@.source_hashes[i as int] == optional_text(
            record.source_hashes@[i as int],
        ));
        if let Some(source) = &record.source_hashes[i] {
            if same_text(source.as_str(), hash) {
                return true;
            }
        }
        i = i + 1;
    }
    false
}

/// An intake that waits for the decoded samples of a piece.
#[derive(Debug)]
pub struct AwaitingSamples<'a, 'm> {
    bound: AwaitingWav<'a, 'm>,
    identity: String,
}

/// What comes after the samples of a piece.
#[derive(Debug)]
pub enum SamplesStep<'a, 'm> {
    /// The array of a package that must repeat them.
    Array(AwaitingImpulse<'a, 'm>),
    /// The objective over them.
    Objective(AwaitingObjective<'a, 'm>),
}

impl<'a, 'm> AwaitingSamples<'a, 'm> {
    /// The step before, with the declaration.
    pub closed spec fn bound(self) -> AwaitingWav<'a, 'm> {
        self.bound
    }

    /// The digest of the WAV file.
    pub closed spec fn identity(self) -> Seq<char> {
        self.identity@
    }

    /// The WAV file is a new one.
    pub open spec fn wf(self) -> bool {
        let accepted = self.bound().declared().intake().accepted;
        &&& self.bound().wf()
        &&& forall|i: int|
            0 <= i < accepted.len() ==> (#[trigger] accepted[i]).identity != self.identity()
    }

    /// Takes the decoded channels; the first one holds the samples.
    pub fn decoded(self, channels: &Vec<Vec<Double>>) -> (r: Result<
        SamplesStep<'a, 'm>,
        AutoeqError,
    >)
        requires
            self.wf(),
        ensures
            ({
                let intake = self.bound().declared().intake();
                let metadata = self.bound().metadata();
                let samples = first_channel(channel_views(channels@));
                if channels@.len() == 0 {
                    r matches Err(e) && e@ == invalid_text("empty IR WAV"@)
                } else {
                    match r {
                        Ok(SamplesStep::Array(next)) => {
                            &&& samples_fault(intake, metadata, samples) is None
                            &&& next.wf()
                            &&& next.piece().fetched() == self
                            &&& next.piece().samples() == samples
                        },
                        Ok(SamplesStep::Objective(next)) => {
                            &&& samples_fault(intake, metadata, samples) is None
                            &&& metadata.orcmeasurement is None
                            &&& next.wf()
                            &&& next.fetched() == self
                            &&& next.samples() == samples
                        },
                        Err(e) => samples_fault(intake, metadata, samples) == Some(e@),
                    }
                }
            }),
    {
        if channels.len() == 0 {
            return Err(invalid("empty IR WAV"));
        }
        let samples = singles(&channels[0]);
        assert(samples@ =~= first_channel(channel_views(channels@)));
        let digest = samples_sha256(samples.as_slice());
        let metadata = self.bound.metadata;
        if self.bound.declared.intake.has_samples(digest.as_str()) {
            return Err(invalid("independent evidence repeats identical decoded samples"));
        }
        let repeated = match &metadata.orcmeasurement {
            Some(array) => {
                let mut path = "positions/".to_owned();
                path.append(metadata.position_id.as_str());
                path.append("/");
                path.append(metadata.channel.as_str());
                path.append("/impulse_response");
                if !same_text(array.array_path.as_str(), path.as_str()) {
                    return Err(
                        invalid(
                            "orcmeasurement array path does not match position/channel identity",
                        ),
                    );
                }
                true
            },
            None => false,
        };
        let piece = AwaitingObjective { fetched: self, samples, samples_sha256: digest };
        if repeated {
            Ok(SamplesStep::Array(AwaitingImpulse { piece }))
        } else {
            Ok(SamplesStep::Objective(piece))
        }
    }
}

/// The samples of each of a list of channels.
pub open spec fn channel_views(channels: Seq<Vec<Double>>) -> Seq<Seq<Double>> {
    channels.map_values(|channel: Vec<Double>| channel@)
}

/// An intake that waits for the array of a package that must repeat the samples of a piece.
#[derive(Debug)]
pub struct AwaitingImpulse<'a, 'm> {
    piece: AwaitingObjective<'a, 'm>,
}

impl<'a, 'm> AwaitingImpulse<'a, 'm> {
    /// The step that follows, with the samples.
    pub closed spec fn piece(self) -> AwaitingObjective<'a, 'm> {
        self.piece
    }

    /// The samples are new, and an array must repeat them.
    pub open spec fn wf(self) -> bool {
        &&& self.piece().wf()
        &&& self.piece().fetched().bound().metadata().orcmeasurement is Some
    }

    /// What to ask of the package: the declared array, of the package with the declared
    /// identities.
    pub fn request(&self) -> (r: Request)
        requires
            self.wf(),
        ensures
            r@ == package_request(self.piece().fetched().bound().metadata().orcmeasurement->0),
    {
        match &self.piece.fetched.bound.metadata.orcmeasurement {
            Some(array) => Request {
                array_path: array.array_path.clone(),
                source_digest: array.source_digest.clone(),
                logical_digest: array.logical_sha256.clone(),
            },
            None => Request {
                array_path: String::new(),
                source_digest: String::new(),
                logical_digest: String::new(),
            },
        }
    }

    /// Takes the impulse that was read from the package.
    pub fn impulse(self, impulse: &MeasurementImpulse) -> (r: Result<
        AwaitingObjective<'a, 'm>,
        AutoeqError,
    >)
        requires
            self.wf(),
        ensures
            ({
                let metadata = self.piece().fetched().bound().metadata();
                let matching = impulse_matches(
                    metadata,
                    metadata.orcmeasurement->0,
                    impulse@,
                    self.piece().samples(),
                );
                match r {
                    Ok(next) => matching && next == self.piece(),
                    Err(e) => !matching && e@ == invalid_text(
                        "orcmeasurement and raw WAV samples or identity differ"@,
                    ),
                }
            }),
    {
        let metadata = self.piece.fetched.bound.metadata;
        let same = match &metadata.orcmeasurement {
            Some(array) => same_text(
                impulse.source_digest.as_str(),
                array.source_digest.as_str(),
            ) && same_text(impulse.logical_digest.as_str(), array.logical_sha256.as_str())
                && same_text(impulse.campaign_id.as_str(), array.campaign_id.as_str())
                && impulse.sample_rate_hz == metadata.capture_rate_hz && same_text(
                impulse.processing_state.as_str(),
                "isolated_physical_output",
            ) && same_samples(&impulse.samples, &self.piece.samples),
            None => false,
        };
        if !same {
            return Err(invalid("orcmeasurement and raw WAV samples or identity differ"));
        }
        Ok(self.piece)
    }
}

fn same_samples(a: &Vec<u32>, b: &Vec<u32>) -> (r: bool)
    ensures
        r == (a@ == b@),
{
    if a.len() != b.len() {
        return false;
    }
    let mut i: usize = 0;
    while i < a.len()
        invariant
            a@.len() == b@.len(),
            i <= a@.len(),
            forall|j: int| 0 <= j < i ==> #[trigger] a@[j] == b@[j],
        decreases a@.len() - i,
    {
        if a[i] != b[i] {
            return false;
        }
        i = i + 1;
    }
    assert(a@ =~= b@);
    true
}

/// An intake that waits for the objective over the samples of a piece.
#[derive(Debug)]
pub struct AwaitingObjective<'a, 'm> {
    fetched: AwaitingSamples<'a, 'm>,
    samples: Vec<u32>,
    samples_sha256: String,
}

impl<'a, 'm> AwaitingObjective<'a, 'm> {
    /// The step before, with the WAV file.
    pub closed spec fn fetched(self) -> AwaitingSamples<'a, 'm> {
        self.fetched
    }

    /// The samples.
    pub closed spec fn samples(self) -> Seq<u32> {
        self.samples@
    }

    /// The digest that was taken of the samples.
    pub closed spec fn samples_sha256(self) -> Seq<char> {
        self.samples_sha256@
    }

    /// The samples are new, and their digest is the one that was taken.
    pub open spec fn wf(self) -> bool {
        let accepted = self.fetched().bound().declared().intake().accepted;
        &&& self.fetched().wf()
        &&& self.samples_sha256() == sha256_text(samples_bytes(self.samples()))
        &&& forall|i: int|
            0 <= i < accepted.len() ==> (#[trigger] accepted[i]).samples_sha256
                != self.samples_sha256()
    }

    /// Takes the piece in, once the objective over its samples is there.
    pub fn accept(self) -> (r: Intake<'a>)
        requires
            self.wf(),
        ensures
            r@ == with_piece(
                self.fetched().bound().declared().intake(),
                self.fetched().bound().declared().record().id,
                self.fetched().bound().declared().sidecar_sha256(),
                self.fetched().bound().metadata(),
                self.fetched().identity(),
                self.samples(),
            ),
            r@.wf(),
    {
        let AwaitingObjective { fetched, samples, samples_sha256 } = self;
        let AwaitingSamples { bound, identity } = fetched;
        let AwaitingWav { declared, metadata } = bound;
        let AwaitingDeclaration { intake, record, sidecar_sha256 } = declared;
        let ghost before = intake@;
        let Intake { strategy, rate, mut accepted } = intake;
        let piece = Evidence {
            identity,
            sidecar_sha256,
            partition: metadata.partition,
            record_id: record.id,
            position_id: metadata.position_id.clone(),
            stimulus_reference: metadata.stimulus_reference.clone(),
            samples_sha256,
        };
        accepted.push(piece);
        let after = Intake { strategy, rate, accepted };
        proof {
            assert(after@.accepted =~= before.accepted.push(piece@));
            lemma_independent_piece_keeps_wf(before, after@, piece@);
        }
        after
    }
}

/// A piece that is independent of all before it keeps what holds of an intake.
pub proof fn lemma_independent_piece_keeps_wf(
    before: IntakeView,
    after: IntakeView,
    piece: EvidenceView,
)
    requires
        before.wf(),
        before.accepted.len() < before.items.len(),
        after.items == before.items,
        after.accepted == before.accepted.push(piece),
        piece.partition == before.item().partition,
        piece.position_id == before.item().position_id,
        before.accepted.len() > 0 ==> before.accepted[0].stimulus_reference
            == piece.stimulus_reference,
        forall|i: int|
            0 <= i < before.accepted.len() ==> {
                &&& (#[trigger] before.accepted[i]).record_id != piece.record_id
                &&& before.accepted[i].identity != piece.identity
                &&& before.accepted[i].samples_sha256 != piece.samples_sha256
                &&& !(before.accepted[i].partition == piece.partition
                    && before.accepted[i].position_id == piece.position_id)
            },
    ensures
        after.wf(),
{
    assert forall|i: int, j: int| 0 <= i < j < after.accepted.len() implies independent_evidence(
        #[trigger] after.accepted[i],
        #[trigger] after.accepted[j],
    ) by {
        assert(after.accepted[i] == before.accepted[i]);
        if j < before.accepted.len() {
            assert(after.accepted[j] == before.accepted[j]);
        } else if i > 0 {
            assert(independent_evidence(before.accepted[0], before.accepted[i]));
        }
    }
    assert forall|i: int| 0 <= i < after.accepted.len() implies {
        &&& (#[trigger] after.accepted[i]).partition == after.items[i].partition
        &&& after.accepted[i].position_id == after.items[i].position_id
    } by {
        if i < before.accepted.len() {
            assert(after.accepted[i] == before.accepted[i]);
        }
    }
}

/// What was fetched for a piece of evidence, or the words on why it could not be had.
#[derive(Debug)]
pub struct EvidenceSource {
    /// The sidecar.
    pub sidecar: Result<Vec<u8>, String>,
    /// What was read out of the declaration in the sidecar.
    pub metadata: Result<TemporalIrSidecar, String>,
    /// The WAV file.
    pub wav: Result<Vec<u8>, String>,
    /// The channels that were decoded from the WAV file.
    pub channels: Result<Vec<Vec<Double>>, String>,
    /// The package, where the declaration names one.
    pub package: Result<StoredPackage, String>,
    /// Whether there is an objective over the samples.
    pub objective: Result<(), String>,
}

impl View for EvidenceSource {
    type V = SourceView;

    open spec fn view(&self) -> SourceView {
        SourceView {
            sidecar: match self.sidecar {
                Ok(bytes) => Ok(bytes@),
                Err(words) => Err(words@),
            },
            metadata: match self.metadata {
                Ok(metadata) => Ok(metadata),
                Err(words) => Err(words@),
            },
            wav: match self.wav {
                Ok(bytes) => Ok(bytes@),
                Err(words) => Err(words@),
            },
            channels: match self.channels {
                Ok(channels) => Ok(channel_views(channels@)),
                Err(words) => Err(words@),
            },
            package: match self.package {
                Ok(package) => Ok(package@),
                Err(words) => Err(words@),
            },
            objective: match self.objective {
                Ok(_) => Ok(()),
                Err(words) => Err(words@),
            },
        }
    }
}

/// What was fetched for each of a list of pieces.
pub open spec fn source_views(sources: Seq<EvidenceSource>) -> Seq<SourceView> {
    sources.map_values(|source: EvidenceSource| source@)
}

/// What the remaining pieces lead to.
pub open spec fn all_taken(intake: IntakeView, sources: Seq<SourceView>) -> Result<
    IntakeView,
    Seq<char>,
>
    decreases intake.items.len() - intake.accepted.len(),
{
    if intake.accepted.len() >= intake.items.len() {
        Ok(intake)
    } else {
        match piece_taken(intake, sources[intake.accepted.len() as int]) {
            Err(words) => Err(words),
            Ok(next) => all_taken(next, sources),
        }
    }
}

/// The evidence for the refinement of a filter, or why it does not qualify.
pub open spec fn evidence_prepared(
    config: RoomConfig,
    sample_rate: Double,
    rate: u32,
    tap_count: usize,
    sources: Seq<SourceView>,
) -> Result<Seq<EvidenceView>, Seq<char>> {
    match config.temporal_fir {
        None => Ok(Seq::empty()),
        Some(strategy) => if settings_fault(config, strategy, sample_rate, rate, tap_count) is Some {
            Err(settings_fault(config, strategy, sample_rate, rate, tap_count)->0)
        } else {
            match all_taken(opening(strategy, rate), sources) {
                Err(words) => Err(words),
                Ok(complete) => if set_fault(complete) is Some {
                    Err(set_fault(complete)->0)
                } else {
                    Ok(complete.accepted)
                },
            }
        },
    }
}

/// Reads the impulse that a piece asks for from the package that was fetched for it.
fn fetch_impulse(request: Request, package: &Result<StoredPackage, String>) -> (r: Result<
    MeasurementImpulse,
    AutoeqError,
>)
    ensures
        match r {
            Ok(impulse) => package is Ok && package_read(package->Ok_0@, request@) == Ok::<
                ImpulseView,
                Fault,
            >(impulse@),
            Err(e) => e@ == invalid_text(
                "orcmeasurement: "@ + (match package {
                    Ok(package) => package_read(package@, request@)->Err_0.words(),
                    Err(words) => words@,
                }),
            ) && (package is Ok ==> package_read(package->Ok_0@, request@) is Err),
        },
{
    let mut message = "orcmeasurement: ".to_owned();
    match package {
        Ok(package) => match read_orcmeasurement_impulse(package, request) {
            Ok(impulse) => return Ok(impulse),
            Err(error) => message.append(error.words()),
        },
        Err(words) => message.append(words.as_str()),
    }
    Err(invalid(message.as_str()))
}

impl<'a> AwaitingSidecar<'a> {
    /// Takes a piece from what was fetched for it.
    fn fetch(self, source: &EvidenceSource) -> (r: Result<Intake<'a>, AutoeqError>)
        requires
            self.wf(),
        ensures
            match r {
                Ok(intake) => {
                    &&& piece_taken(self.intake(), source@) == Ok::<IntakeView, Seq<char>>(intake@)
                    &&& intake@.wf()
                },
                Err(e) => piece_taken(self.intake(), source@) == Err::<IntakeView, Seq<char>>(e@),
            },
    {
        let waiting = match &source.sidecar {
            Ok(bytes) => self.sidecar(bytes.as_slice())?,
            Err(words) => return Err(invalid(words.as_str())),
        };
        let waiting = match &source.metadata {
            Ok(metadata) => waiting.metadata(metadata)?,
            Err(words) => {
                let mut message = "invalid temporal_ir_v1: ".to_owned();
                message.append(words.as_str());
                return Err(invalid(message.as_str()));
            },
        };
        let waiting = match &source.wav {
            Ok(file) => waiting.wav(file.as_slice())?,
            Err(words) => return Err(invalid(words.as_str())),
        };
        let step = match &source.channels {
            Ok(channels) => waiting.decoded(channels)?,
            Err(words) => {
                return Err(AutoeqError::InvalidMeasurement { message: words.clone() });
            },
        };
        let waiting = match step {
            SamplesStep::Objective(waiting) => waiting,
            SamplesStep::Array(waiting) => {
                let impulse = fetch_impulse(waiting.request(), &source.package)?;
                waiting.impulse(&impulse)?
            },
        };
        match &source.objective {
            Ok(_) => Ok(waiting.accept()),
            Err(words) => Err(invalid(words.as_str())),
        }
    }
}

/// Qualifies the evidence for the refinement of a filter with `tap_count` taps, from what was
/// fetched for each piece. `rate` is the sample rate as the integer that it was checked to be.
pub fn prepared(
    config: &RoomConfig,
    sample_rate: Double,
    rate: u32,
    tap_count: usize,
    sources: &Vec<EvidenceSource>,
) -> (r: Result<Vec<Evidence>, AutoeqError>)
    requires
        config.temporal_fir is Some ==> sources@.len() == config.temporal_fir->0.evidence@.len(),
    ensures
        match r {
            Ok(evidence) => evidence_prepared(
                *config,
                sample_rate,
                rate,
                tap_count,
                source_views(sources@),
            ) == Ok::<Seq<EvidenceView>, Seq<char>>(evidence_views(evidence@)),
            Err(e) => evidence_prepared(
                *config,
                sample_rate,
                rate,
                tap_count,
                source_views(sources@),
            ) == Err::<Seq<EvidenceView>, Seq<char>>(e@),
        },
{
    let strategy = match &config.temporal_fir {
        Some(strategy) => strategy,
        None => {
            let none: Vec<Evidence> = Vec::new();
            assert(evidence_views(none@) =~= Seq::<EvidenceView>::empty());
            return Ok(none);
        },
    };
    let mut intake = begin(config, strategy, sample_rate, rate, tap_count)?;
    let ghost fetched = source_views(sources@);
    let ghost start = intake@;
    loop
        invariant
            fetched == source_views(sources@),
            config.temporal_fir == Some(*strategy),
            sources@.len() == strategy.evidence@.len(),
            settings_fault(*config, *strategy, sample_rate, rate, tap_count) is None,
            start == opening(*strategy, rate),
            intake@.wf(),
            intake@.items == start.items,
            all_taken(start, fetched) == all_taken(intake@, fetched),
        decreases start.items.len() - intake@.accepted.len(),
    {
        match intake.advance()? {
            IntakeStep::Piece(next) => {
                let source = &sources[next.index()];
                assert(source@ == fetched[next.intake().accepted.len() as int]);
                intake = next.fetch(source)?;
            },
            IntakeStep::Complete(evidence) => {
                return Ok(evidence);
            },
        }
    }
}

/// The number of taps that a configuration asks for; none without a filter.
pub open spec fn configured_taps(config: RoomConfig) -> usize {
    match config.fir {
        Some(fir) => fir.taps,
        None => 0,
    }
}

/// Checks that the evidence of a configuration qualifies, if it asks for a refinement.
pub fn validate_evidence(
    config: &RoomConfig,
    sample_rate: Double,
    rate: u32,
    sources: &Vec<EvidenceSource>,
) -> (r: Result<(), AutoeqError>)
    requires
        config.temporal_fir is Some ==> sources@.len() == config.temporal_fir->0.evidence@.len(),
    ensures
        ({
            let meant = evidence_prepared(
                *config,
                sample_rate,
                rate,
                configured_taps(*config),
                source_views(sources@),
            );
            match r {
                Ok(_) => meant is Ok,
                Err(e) => meant == Err::<Seq<EvidenceView>, Seq<char>>(e@),
            }
        }),
{
    if config.temporal_fir.is_some() {
        let taps: usize = match &config.fir {
            Some(fir) => fir.taps,
            None => 0,
        };
        prepared(config, sample_rate, rate, taps, sources)?;
    }
    Ok(())
}

/// Evidence is validated for as many taps as the filter is configured with, and for none without a
/// filter.
pub proof fn law_configured_taps_are_those_of_the_filter(config: RoomConfig)
    ensures
        config.fir is Some ==> configured_taps(config) == config.fir->0.taps,
        config.fir is None ==> configured_taps(config) == 0,
{
}

} // verus!
