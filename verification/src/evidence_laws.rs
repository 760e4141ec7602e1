//! What holds of evidence that qualified.

use crate::digest::{samples_bytes, sha256_text};
use crate::evidence::{
    declaration_fault, first_channel, impulse_array_path, impulse_matches, independent_evidence,
    item_views, package_request, piece_taken, positions, rate_serves, record_checked, samples_fault,
    serves, set_fault, wav_fault, EvidenceView, IntakeView, ItemView, SourceView, SIDECAR_LIMIT,
};
use crate::ieee::{rounded, Double};
use crate::intake::{all_taken, evidence_prepared, lemma_independent_piece_keeps_wf, opening};
use crate::measurement_array::RequestView;
use crate::package_reader::package_read;
use crate::provenance::{sidecar_record, strict_errors, wav_header, RecordView};
use crate::room::RoomConfig;
use crate::settings::{settings_fault, settings_usable};
use crate::temporal_fir_config::{TemporalFirConfig, TemporalPartition};
use crate::text::{joined, law_trimming_takes_only_white_space, trimmed, white_space};
use vstd::prelude::*;

verus! {

/// Whether a piece of evidence is what was fetched for it: its digests are those of the sidecar,
/// of the WAV file and of the samples; the record in the sidecar is valid and names the WAV file
/// as a source; the declaration names the WAV file, the channel, a stimulus, and the position and
/// use that are configured; it was captured at a rate that serves the filter; and where it names
/// an array of a package, that array is the one of the channel and position, the package that was
/// read has the declared identities, campaign and rate, and the array repeats the samples.
pub open spec fn bound_to(
    evidence: EvidenceView,
    channel: Seq<char>,
    rate: u32,
    item: ItemView,
    source: SourceView,
) -> bool {
    let sidecar = source.sidecar->Ok_0;
    let record = sidecar_record(sidecar, "temporal_ir_v1"@);
    let metadata = source.metadata->Ok_0;
    let samples = first_channel(source.channels->Ok_0);
    &&& source.sidecar is Ok
    &&& source.metadata is Ok
    &&& source.wav is Ok
    &&& source.channels is Ok
    &&& source.channels->Ok_0.len() > 0
    &&& sidecar.len() <= SIDECAR_LIMIT
    &&& record is Ok
    &&& strict_errors(sidecar) is Ok
    &&& strict_errors(sidecar)->Ok_0.len() == 0
    &&& record->Ok_0.source_hashes.contains(Some(evidence.identity))
    &&& wav_header(source.wav->Ok_0) == Ok::<u16, Seq<char>>(1)
    &&& evidence.record_id == record->Ok_0.id
    &&& evidence.sidecar_sha256 == sha256_text(sidecar)
    &&& evidence.identity == sha256_text(source.wav->Ok_0)
    &&& evidence.identity == metadata.sha256@
    &&& evidence.samples_sha256 == sha256_text(samples_bytes(samples))
    &&& evidence.partition == item.partition
    &&& evidence.position_id == item.position_id
    &&& evidence.stimulus_reference == metadata.stimulus_reference@
    &&& metadata.channel@ == channel
    &&& metadata.position_id@ == item.position_id
    &&& metadata.partition == item.partition
    &&& rate_serves(metadata.capture_rate_hz, rate)
    &&& metadata.processing_state@ == "isolated_raw"@
    &&& trimmed(evidence.stimulus_reference).len() > 0
    &&& metadata.orcmeasurement matches Some(array) ==> {
        let impulse = package_read(source.package->Ok_0, package_request(array));
        &&& array.array_path@ == impulse_array_path(item.position_id, channel)
        &&& source.package is Ok
        &&& impulse is Ok
        &&& impulse_matches(metadata, array, impulse->Ok_0, samples)
    }
}

/// What holds of an intake that was built from what was fetched.
spec fn traced(intake: IntakeView, sources: Seq<SourceView>) -> bool {
    &&& intake.wf()
    &&& forall|i: int|
        0 <= i < intake.accepted.len() ==> bound_to(
            #[trigger] intake.accepted[i],
            intake.channel,
            intake.rate,
            intake.items[i],
            sources[i],
        )
}

proof fn lemma_piece_taken_keeps_traced(intake: IntakeView, sources: Seq<SourceView>)
    requires
        traced(intake, sources),
        intake.accepted.len() < intake.items.len(),
        piece_taken(intake, sources[intake.accepted.len() as int]) is Ok,
    ensures
        traced(piece_taken(intake, sources[intake.accepted.len() as int])->Ok_0, sources),
{
    let source = sources[intake.accepted.len() as int];
    let next = piece_taken(intake, source)->Ok_0;
    let piece = next.accepted.last();
    lemma_independent_piece_keeps_wf(intake, next, piece);
    assert forall|i: int| 0 <= i < next.accepted.len() implies bound_to(
        #[trigger] next.accepted[i],
        next.channel,
        next.rate,
        next.items[i],
        sources[i],
    ) by {
        if i < intake.accepted.len() {
            assert(next.accepted[i] == intake.accepted[i]);
        }
    }
}

proof fn lemma_all_taken_keeps_traced(intake: IntakeView, sources: Seq<SourceView>)
    requires
        traced(intake, sources),
        all_taken(intake, sources) is Ok,
    ensures
        traced(all_taken(intake, sources)->Ok_0, sources),
        all_taken(intake, sources)->Ok_0.items == intake.items,
        all_taken(intake, sources)->Ok_0.channel == intake.channel,
        all_taken(intake, sources)->Ok_0.rate == intake.rate,
        all_taken(intake, sources)->Ok_0.minimum_positions == intake.minimum_positions,
        all_taken(intake, sources)->Ok_0.accepted.len() == intake.items.len(),
    decreases intake.items.len() - intake.accepted.len(),
{
    if intake.accepted.len() < intake.items.len() {
        lemma_piece_taken_keeps_traced(intake, sources);
        lemma_all_taken_keeps_traced(
            piece_taken(intake, sources[intake.accepted.len() as int])->Ok_0,
            sources,
        );
    }
}

/// Evidence that qualified is independent: no two pieces share a record, a file or their
/// samples, no position serves the same use twice, and all share the stimulus.
pub proof fn law_evidence_is_independent(
    config: RoomConfig,
    sample_rate: Double,
    rate: u32,
    tap_count: usize,
    sources: Seq<SourceView>,
    i: int,
    j: int,
)
    requires
        evidence_prepared(config, sample_rate, rate, tap_count, sources) is Ok,
        0 <= i < j < evidence_prepared(config, sample_rate, rate, tap_count, sources)->Ok_0.len(),
    ensures
        ({
            let evidence = evidence_prepared(config, sample_rate, rate, tap_count, sources)->Ok_0;
            independent_evidence(evidence[i], evidence[j])
        }),
{
    lemma_all_taken_keeps_traced(opening(config.temporal_fir->0, rate), sources);
}

/// Evidence that qualified serves both uses, from as many positions as are asked for.
pub proof fn law_evidence_serves_both_uses(
    config: RoomConfig,
    sample_rate: Double,
    rate: u32,
    tap_count: usize,
    sources: Seq<SourceView>,
)
    requires
        config.temporal_fir is Some,
        evidence_prepared(config, sample_rate, rate, tap_count, sources) is Ok,
    ensures
        ({
            let strategy = config.temporal_fir->0;
            let evidence = evidence_prepared(config, sample_rate, rate, tap_count, sources)->Ok_0;
            &&& serves(evidence, TemporalPartition::Training)
            &&& serves(evidence, TemporalPartition::HeldOut)
            &&& strategy.minimum_positions is Some ==> positions(evidence).to_set().len()
                >= strategy.minimum_positions->0
        }),
{
    lemma_all_taken_keeps_traced(opening(config.temporal_fir->0, rate), sources);
}

/// There is one piece of evidence for each that is configured, in the same order, and each is
/// bound to what was fetched for it.
pub proof fn law_every_piece_is_bound(
    config: RoomConfig,
    sample_rate: Double,
    rate: u32,
    tap_count: usize,
    sources: Seq<SourceView>,
    i: int,
)
    requires
        config.temporal_fir is Some,
        evidence_prepared(config, sample_rate, rate, tap_count, sources) is Ok,
        0 <= i < config.temporal_fir->0.evidence@.len(),
    ensures
        ({
            let strategy = config.temporal_fir->0;
            let evidence = evidence_prepared(config, sample_rate, rate, tap_count, sources)->Ok_0;
            &&& evidence.len() == strategy.evidence@.len()
            &&& bound_to(
                evidence[i],
                strategy.channel@,
                rate,
                item_views(strategy.evidence@)[i],
                sources[i],
            )
        }),
{
    lemma_all_taken_keeps_traced(opening(config.temporal_fir->0, rate), sources);
}

/// The piece of evidence that an item and what was fetched for it make, taken alone.
pub open spec fn alone(channel: Seq<char>, rate: u32, item: ItemView, source: SourceView) -> Option<
    EvidenceView,
> {
    let intake = IntakeView {
        channel,
        rate,
        items: seq![item],
        minimum_positions: None,
        accepted: Seq::empty(),
    };
    match piece_taken(intake, source) {
        Ok(next) => Some(next.accepted[0]),
        Err(_) => None,
    }
}

/// What each piece of an intake is, taken alone.
spec fn piece_alone(intake: IntakeView, sources: Seq<SourceView>, i: int) -> Option<EvidenceView> {
    alone(intake.channel, intake.rate, intake.items[i], sources[i])
}

/// A piece is taken exactly if it qualifies alone and is independent of all before it.
proof fn lemma_piece_taken_if_independent(intake: IntakeView, source: SourceView)
    requires
        intake.wf(),
        intake.accepted.len() < intake.items.len(),
    ensures
        ({
            let piece = alone(intake.channel, intake.rate, intake.item(), source);
            let fits = piece is Some && forall|i: int|
                0 <= i < intake.accepted.len() ==> independent_evidence(
                    #[trigger] intake.accepted[i],
                    piece->0,
                );
            &&& piece_taken(intake, source) is Ok <==> fits
            &&& fits ==> piece_taken(intake, source)->Ok_0 == (IntakeView {
                accepted: intake.accepted.push(piece->0),
                ..intake
            })
        }),
{
    let solo = IntakeView {
        channel: intake.channel,
        rate: intake.rate,
        items: seq![intake.item()],
        minimum_positions: None,
        accepted: Seq::empty(),
    };
    assert(solo.item() == intake.item());
    let piece = alone(intake.channel, intake.rate, intake.item(), source);
    let taken = piece_taken(intake, source);
    if taken is Ok {
        let made = taken->Ok_0.accepted.last();
        assert(piece_taken(solo, source) is Ok);
        assert(piece == Some(made));
        assert forall|i: int| 0 <= i < intake.accepted.len() implies independent_evidence(
            #[trigger] intake.accepted[i],
            made,
        ) by {
            if i > 0 {
                assert(independent_evidence(intake.accepted[0], intake.accepted[i]));
            }
        }
    } else if piece is Some && forall|i: int|
        0 <= i < intake.accepted.len() ==> independent_evidence(
            #[trigger] intake.accepted[i],
            piece->0,
        ) {
        let sidecar = source.sidecar->Ok_0;
        let metadata = source.metadata->Ok_0;
        let record = record_checked(solo, sidecar)->Ok_0;
        assert(record_checked(intake, sidecar) == Ok::<RecordView, Seq<char>>(record));
        assert(declaration_fault(intake, metadata) is None) by {
            if intake.accepted.len() > 0 {
                assert(independent_evidence(intake.accepted[0], piece->0));
            }
        }
        assert(wav_fault(intake, record, metadata.sha256@, source.wav->Ok_0) is None);
        assert(samples_fault(intake, metadata, first_channel(source.channels->Ok_0)) is None);
        assert(false);
    }
}

/// Whether every item qualifies alone, and any two are independent.
spec fn all_qualify(intake: IntakeView, sources: Seq<SourceView>) -> bool {
    &&& forall|i: int|
        0 <= i < intake.items.len() ==> (#[trigger] piece_alone(intake, sources, i)) is Some
    &&& forall|i: int, j: int|
        0 <= i < j < intake.items.len() ==> independent_evidence(
            (#[trigger] piece_alone(intake, sources, i))->0,
            (#[trigger] piece_alone(intake, sources, j))->0,
        )
}

proof fn lemma_all_taken_if_all_qualify(intake: IntakeView, sources: Seq<SourceView>)
    requires
        intake.wf(),
        forall|i: int|
            0 <= i < intake.accepted.len() ==> #[trigger] piece_alone(intake, sources, i) == Some(
                intake.accepted[i],
            ),
    ensures
        all_taken(intake, sources) is Ok <==> all_qualify(intake, sources),
        all_taken(intake, sources) is Ok ==> {
            let complete = all_taken(intake, sources)->Ok_0;
            &&& complete.minimum_positions == intake.minimum_positions
            &&& complete.accepted.len() == intake.items.len()
            &&& forall|i: int|
                0 <= i < intake.items.len() ==> Some(#[trigger] complete.accepted[i])
                    == piece_alone(intake, sources, i)
        },
    decreases intake.items.len() - intake.accepted.len(),
{
    let n = intake.accepted.len() as int;
    if n < intake.items.len() {
        let source = sources[n];
        lemma_piece_taken_if_independent(intake, source);
        let piece = piece_alone(intake, sources, n);
        if piece_taken(intake, source) is Ok {
            let next = piece_taken(intake, source)->Ok_0;
            lemma_independent_piece_keeps_wf(intake, next, piece->0);
            assert forall|i: int| 0 <= i < next.accepted.len() implies #[trigger] piece_alone(
                next,
                sources,
                i,
            ) == Some(next.accepted[i]) by {
                assert(piece_alone(next, sources, i) == piece_alone(intake, sources, i));
            }
            lemma_all_taken_if_all_qualify(next, sources);
            assert forall|i: int| piece_alone(next, sources, i) == #[trigger] piece_alone(
                intake,
                sources,
                i,
            ) by {}
            assert(all_qualify(next, sources) <==> all_qualify(intake, sources)) by {
                assert forall|i: int| #[trigger]
                    piece_alone(next, sources, i) == piece_alone(intake, sources, i) by {}
            }
        } else if all_qualify(intake, sources) {
            assert(piece is Some);
            assert forall|i: int| 0 <= i < n implies independent_evidence(
                #[trigger] intake.accepted[i],
                piece->0,
            ) by {
                assert(piece_alone(intake, sources, i) == Some(intake.accepted[i]));
            }
        }
    } else {
        assert forall|i: int, j: int| 0 <= i < j < intake.items.len() implies independent_evidence(
            (#[trigger] piece_alone(intake, sources, i))->0,
            (#[trigger] piece_alone(intake, sources, j))->0,
        ) by {
            assert(independent_evidence(intake.accepted[i], intake.accepted[j]));
        }
    }
}

/// Whether `order` lists each of the first `n` indices once.
pub open spec fn is_reordering(order: Seq<int>, n: int) -> bool {
    &&& order.len() == n
    &&& forall|i: int| 0 <= i < n ==> 0 <= #[trigger] order[i] < n
    &&& forall|i: int, j: int|
        0 <= i < j < n ==> #[trigger] order[i] != #[trigger] order[j]
    &&& forall|k: int| 0 <= k < n ==> #[trigger] order.contains(k)
}

/// Whether a configuration is another one with its evidence listed in this order.
pub open spec fn evidence_reordered(a: RoomConfig, b: RoomConfig, order: Seq<int>) -> bool {
    let listed = a.temporal_fir->0.evidence@;
    let relisted = b.temporal_fir->0.evidence@;
    &&& a.temporal_fir is Some
    &&& b == (RoomConfig {
        temporal_fir: Some(
            TemporalFirConfig {
                evidence: b.temporal_fir->0.evidence,
                ..a.temporal_fir->0
            },
        ),
        ..a
    })
    &&& relisted.len() == listed.len()
    &&& is_reordering(order, listed.len() as int)
    &&& forall|i: int| 0 <= i < listed.len() ==> #[trigger] relisted[i] == listed[order[i]]
}

/// Whether two lists of evidence are the same up to this order.
spec fn same_up_to(a: Seq<EvidenceView>, b: Seq<EvidenceView>, order: Seq<int>) -> bool {
    &&& is_reordering(order, a.len() as int)
    &&& b.len() == a.len()
    &&& forall|i: int| 0 <= i < a.len() ==> #[trigger] b[i] == a[order[i]]
}

proof fn lemma_found_again(
    a: Seq<EvidenceView>,
    b: Seq<EvidenceView>,
    order: Seq<int>,
    k: int,
) -> (i: int)
    requires
        same_up_to(a, b, order),
        0 <= k < a.len(),
    ensures
        0 <= i < b.len(),
        b[i] == a[k],
{
    assert(order.contains(k));
    let i = choose|i: int| 0 <= i < order.len() && order[i] == k;
    assert(b[i] == a[order[i]]);
    i
}

proof fn lemma_set_fault_ignores_order(a: IntakeView, b: IntakeView, order: Seq<int>)
    requires
        same_up_to(a.accepted, b.accepted, order),
        a.minimum_positions == b.minimum_positions,
    ensures
        set_fault(a) == set_fault(b),
{
    let n = a.accepted.len() as int;
    assert forall|partition: TemporalPartition| #[trigger]
        serves(a.accepted, partition) == serves(b.accepted, partition) by {
        if serves(a.accepted, partition) {
            let k = choose|k: int|
                0 <= k < n && (#[trigger] a.accepted[k]).partition == partition;
            let i = lemma_found_again(a.accepted, b.accepted, order, k);
            assert(b.accepted[i].partition == partition);
        }
        if serves(b.accepted, partition) {
            let i = choose|i: int|
                0 <= i < n && (#[trigger] b.accepted[i]).partition == partition;
            assert(a.accepted[order[i]].partition == partition);
        }
    }
    assert(positions(a.accepted).to_set() =~= positions(b.accepted).to_set()) by {
        assert forall|x: Seq<char>|
            positions(a.accepted).to_set().contains(x) <==> positions(
                b.accepted,
            ).to_set().contains(x) by {
            if positions(a.accepted).contains(x) {
                let k = choose|k: int| 0 <= k < n && positions(a.accepted)[k] == x;
                assert(a.accepted[k].position_id == x);
                let i = lemma_found_again(a.accepted, b.accepted, order, k);
                assert(positions(b.accepted)[i] == x);
            }
            if positions(b.accepted).contains(x) {
                let i = choose|i: int| 0 <= i < n && positions(b.accepted)[i] == x;
                assert(b.accepted[i] == a.accepted[order[i]]);
                assert(positions(a.accepted)[order[i]] == x);
            }
        }
    }
}

/// The order in which the evidence is listed does not matter: where one order qualifies, so
/// does the other, with the same pieces in the order that was listed.
pub proof fn law_order_of_evidence_does_not_matter(
    config: RoomConfig,
    reordered: RoomConfig,
    sample_rate: Double,
    rate: u32,
    tap_count: usize,
    sources: Seq<SourceView>,
    reordered_sources: Seq<SourceView>,
    order: Seq<int>,
)
    requires
        evidence_reordered(config, reordered, order),
        sources.len() == order.len(),
        reordered_sources.len() == order.len(),
        forall|i: int|
            0 <= i < order.len() ==> #[trigger] reordered_sources[i] == sources[order[i]],
    ensures
        ({
            let a = evidence_prepared(config, sample_rate, rate, tap_count, sources);
            let b = evidence_prepared(reordered, sample_rate, rate, tap_count, reordered_sources);
            &&& a is Ok <==> b is Ok
            &&& a is Ok ==> b->Ok_0.len() == a->Ok_0.len()
            &&& a is Ok ==> forall|i: int|
                0 <= i < order.len() ==> #[trigger] b->Ok_0[i] == a->Ok_0[order[i]]
        }),
{
    let strategy = config.temporal_fir->0;
    let other = reordered.temporal_fir->0;
    let a = opening(strategy, rate);
    let b = opening(other, rate);
    let n = order.len() as int;
    assert(settings_usable(strategy) == settings_usable(other));
    assert(settings_fault(config, strategy, sample_rate, rate, tap_count) == settings_fault(
        reordered,
        other,
        sample_rate,
        rate,
        tap_count,
    ));
    lemma_all_taken_if_all_qualify(a, sources);
    lemma_all_taken_if_all_qualify(b, reordered_sources);
    assert forall|i: int| 0 <= i < n implies #[trigger] piece_alone(b, reordered_sources, i)
        == piece_alone(a, sources, order[i]) by {
        assert(other.evidence@[i] == strategy.evidence@[order[i]]);
        assert(b.items[i] == a.items[order[i]]);
    }
    lemma_reordered_pieces_qualify(a, b, sources, reordered_sources, order);
    if all_qualify(a, sources) {
        let first = all_taken(a, sources)->Ok_0;
        let second = all_taken(b, reordered_sources)->Ok_0;
        assert forall|i: int| 0 <= i < n implies #[trigger] second.accepted[i]
            == first.accepted[order[i]] by {
            assert(Some(second.accepted[i]) == piece_alone(b, reordered_sources, i));
            assert(Some(first.accepted[order[i]]) == piece_alone(a, sources, order[i]));
        }
        lemma_set_fault_ignores_order(first, second, order);
    }
}

proof fn lemma_reordered_pieces_qualify(
    a: IntakeView,
    b: IntakeView,
    sources: Seq<SourceView>,
    reordered_sources: Seq<SourceView>,
    order: Seq<int>,
)
    requires
        a.items.len() == order.len(),
        b.items.len() == order.len(),
        is_reordering(order, order.len() as int),
        forall|i: int|
            0 <= i < order.len() ==> #[trigger] piece_alone(b, reordered_sources, i) == piece_alone(
                a,
                sources,
                order[i],
            ),
    ensures
        all_qualify(a, sources) <==> all_qualify(b, reordered_sources),
{
    let n = order.len() as int;
    if all_qualify(a, sources) {
        assert forall|i: int, j: int| 0 <= i < j < n implies independent_evidence(
            (#[trigger] piece_alone(b, reordered_sources, i))->0,
            (#[trigger] piece_alone(b, reordered_sources, j))->0,
        ) by {
            let x = piece_alone(a, sources, order[i]);
            let y = piece_alone(a, sources, order[j]);
            if order[i] < order[j] {
                assert(independent_evidence(x->0, y->0));
            } else {
                assert(independent_evidence(y->0, x->0));
            }
        }
        assert forall|i: int| 0 <= i < n implies (
        #[trigger] piece_alone(b, reordered_sources, i)) is Some by {
            assert(piece_alone(a, sources, order[i]) is Some);
        }
    }
    if all_qualify(b, reordered_sources) {
        assert forall|k: int| 0 <= k < n implies (#[trigger] piece_alone(a, sources, k)) is Some by {
            assert(order.contains(k));
            let i = choose|i: int| 0 <= i < n && order[i] == k;
            assert(piece_alone(b, reordered_sources, i) is Some);
        }
        assert forall|k: int, m: int| 0 <= k < m < n implies independent_evidence(
            (#[trigger] piece_alone(a, sources, k))->0,
            (#[trigger] piece_alone(a, sources, m))->0,
        ) by {
            assert(order.contains(k) && order.contains(m));
            let i = choose|i: int| 0 <= i < n && order[i] == k;
            let j = choose|j: int| 0 <= j < n && order[j] == m;
            let x = piece_alone(b, reordered_sources, i);
            let y = piece_alone(b, reordered_sources, j);
            if i < j {
                assert(independent_evidence(x->0, y->0));
            } else {
                assert(independent_evidence(y->0, x->0));
            }
        }
    }
}

/// A piece of evidence is taken exactly if all of this holds. Its sidecar could be fetched, is not
/// too large, and holds a record without errors, with a declaration. The declaration names the
/// channel, the configured position and use, the raw processing state and a stimulus, and a rate
/// that is not below that of the filter and a multiple of it. Its WAV file could be fetched, has
/// the declared digest, which is that of some source artifact of the record, and is mono; its
/// samples could be decoded, and an objective made of them. Where an array of a package is
/// declared, it is the one of the position and channel, and the package gives its impulse, with
/// the declared identities, campaign and rate, and with the same samples. And the piece is
/// independent of all pieces before it: it has a record, a file and samples of its own, stands for
/// another position or use, and shares the stimulus.
pub proof fn law_piece_is_taken_exactly_if(
    intake: IntakeView,
    source: SourceView,
    piece: EvidenceView,
)
    requires
        intake.wf(),
        intake.accepted.len() < intake.items.len(),
    ensures
        piece_taken(intake, source) == Ok::<IntakeView, Seq<char>>(
            IntakeView { accepted: intake.accepted.push(piece), ..intake },
        ) <==> {
            let item = intake.items[intake.accepted.len() as int];
            let sidecar = source.sidecar->Ok_0;
            let record = sidecar_record(sidecar, "temporal_ir_v1"@)->Ok_0;
            let metadata = source.metadata->Ok_0;
            let file = source.wav->Ok_0;
            let samples = rounded(source.channels->Ok_0[0]);
            &&& source.sidecar is Ok && sidecar.len() <= 16_777_216
            &&& sidecar_record(sidecar, "temporal_ir_v1"@) is Ok
            &&& strict_errors(sidecar) is Ok && strict_errors(sidecar)->Ok_0.len() == 0
            &&& record.extension is Some
            &&& source.metadata is Ok
            &&& metadata.channel@ == intake.channel
            &&& metadata.position_id@ == item.position_id
            &&& metadata.partition == item.partition
            &&& metadata.processing_state@ == "isolated_raw"@
            &&& exists|i: int|
                0 <= i < metadata.stimulus_reference@.len() && !white_space(
                    #[trigger] metadata.stimulus_reference@[i],
                )
            &&& metadata.capture_rate_hz >= intake.rate
            &&& metadata.capture_rate_hz == 0 || intake.rate != 0 && metadata.capture_rate_hz
                % intake.rate == 0
            &&& source.wav is Ok
            &&& sha256_text(file) == metadata.sha256@
            &&& exists|i: int|
                0 <= i < record.source_hashes.len() && #[trigger] record.source_hashes[i] == Some(
                    sha256_text(file),
                )
            &&& wav_header(file) == Ok::<u16, Seq<char>>(1)
            &&& source.channels is Ok && source.channels->Ok_0.len() > 0
            &&& source.objective is Ok
            &&& metadata.orcmeasurement matches Some(array) ==> {
                let impulse = package_read(
                    source.package->Ok_0,
                    RequestView {
                        array_path: array.array_path@,
                        source_digest: array.source_digest@,
                        logical_digest: array.logical_sha256@,
                    },
                );
                &&& array.array_path@ == "positions/"@ + item.position_id + "/"@ + intake.channel
                    + "/impulse_response"@
                &&& source.package is Ok
                &&& impulse is Ok
                &&& impulse->Ok_0.source_digest == array.source_digest@
                &&& impulse->Ok_0.logical_digest == array.logical_sha256@
                &&& impulse->Ok_0.campaign_id == array.campaign_id@
                &&& impulse->Ok_0.sample_rate_hz == metadata.capture_rate_hz
                &&& impulse->Ok_0.processing_state == "isolated_physical_output"@
                &&& impulse->Ok_0.samples == samples
            }
            &&& piece.identity == sha256_text(file)
            &&& piece.sidecar_sha256 == sha256_text(sidecar)
            &&& piece.partition == item.partition
            &&& piece.record_id == record.id
            &&& piece.position_id == item.position_id
            &&& piece.stimulus_reference == metadata.stimulus_reference@
            &&& piece.samples_sha256 == sha256_text(samples_bytes(samples))
            &&& forall|i: int|
                0 <= i < intake.accepted.len() ==> {
                    &&& (#[trigger] intake.accepted[i]).record_id != piece.record_id
                    &&& intake.accepted[i].identity != piece.identity
                    &&& intake.accepted[i].samples_sha256 != piece.samples_sha256
                    &&& intake.accepted[i].partition != piece.partition
                        || intake.accepted[i].position_id != piece.position_id
                    &&& intake.accepted[i].stimulus_reference == piece.stimulus_reference
                }
        },
{
    let solo = alone(intake.channel, intake.rate, intake.item(), source);
    lemma_piece_taken_if_independent(intake, source);
    lemma_piece_alone(intake.channel, intake.rate, intake.item(), source);
    if solo is Some {
        let pushed = intake.accepted.push(solo->0);
        assert(pushed.last() == solo->0);
        assert(intake.accepted.push(piece).last() == piece);
    }
    assert forall|i: int| 0 <= i < intake.accepted.len() implies (independent_evidence(
        #[trigger] intake.accepted[i],
        piece,
    ) <==> {
        &&& intake.accepted[i].record_id != piece.record_id
        &&& intake.accepted[i].identity != piece.identity
        &&& intake.accepted[i].samples_sha256 != piece.samples_sha256
        &&& intake.accepted[i].partition != piece.partition || intake.accepted[i].position_id
            != piece.position_id
        &&& intake.accepted[i].stimulus_reference == piece.stimulus_reference
    }) by {}
}

/// When a piece qualifies alone, and what it is then.
proof fn lemma_piece_alone(channel: Seq<char>, rate: u32, item: ItemView, source: SourceView)
    ensures
        ({
            let sidecar = source.sidecar->Ok_0;
            let record = sidecar_record(sidecar, "temporal_ir_v1"@)->Ok_0;
            let metadata = source.metadata->Ok_0;
            let file = source.wav->Ok_0;
            let samples = rounded(source.channels->Ok_0[0]);
            let piece = alone(channel, rate, item, source);
            &&& piece is Some <==> {
                &&& source.sidecar is Ok && sidecar.len() <= 16_777_216
                &&& sidecar_record(sidecar, "temporal_ir_v1"@) is Ok
                &&& strict_errors(sidecar) is Ok && strict_errors(sidecar)->Ok_0.len() == 0
                &&& record.extension is Some
                &&& source.metadata is Ok
                &&& metadata.channel@ == channel
                &&& metadata.position_id@ == item.position_id
                &&& metadata.partition == item.partition
                &&& metadata.processing_state@ == "isolated_raw"@
                &&& exists|i: int|
                    0 <= i < metadata.stimulus_reference@.len() && !white_space(
                        #[trigger] metadata.stimulus_reference@[i],
                    )
                &&& metadata.capture_rate_hz >= rate
                &&& metadata.capture_rate_hz == 0 || rate != 0 && metadata.capture_rate_hz % rate
                    == 0
                &&& source.wav is Ok
                &&& sha256_text(file) == metadata.sha256@
                &&& exists|i: int|
                    0 <= i < record.source_hashes.len() && #[trigger] record.source_hashes[i]
                        == Some(sha256_text(file))
                &&& wav_header(file) == Ok::<u16, Seq<char>>(1)
                &&& source.channels is Ok && source.channels->Ok_0.len() > 0
                &&& source.objective is Ok
                &&& metadata.orcmeasurement matches Some(array) ==> {
                    let impulse = package_read(
                        source.package->Ok_0,
                        RequestView {
                            array_path: array.array_path@,
                            source_digest: array.source_digest@,
                            logical_digest: array.logical_sha256@,
                        },
                    );
                    &&& array.array_path@ == "positions/"@ + item.position_id + "/"@ + channel
                        + "/impulse_response"@
                    &&& source.package is Ok
                    &&& impulse is Ok
                    &&& impulse->Ok_0.source_digest == array.source_digest@
                    &&& impulse->Ok_0.logical_digest == array.logical_sha256@
                    &&& impulse->Ok_0.campaign_id == array.campaign_id@
                    &&& impulse->Ok_0.sample_rate_hz == metadata.capture_rate_hz
                    &&& impulse->Ok_0.processing_state == "isolated_physical_output"@
                    &&& impulse->Ok_0.samples == samples
                }
            }
            &&& piece is Some ==> piece->0 == EvidenceView {
                identity: sha256_text(file),
                sidecar_sha256: sha256_text(sidecar),
                partition: item.partition,
                record_id: record.id,
                position_id: item.position_id,
                stimulus_reference: metadata.stimulus_reference@,
                samples_sha256: sha256_text(samples_bytes(samples)),
            }
        }),
{
    let intake = IntakeView {
        channel,
        rate,
        items: seq![item],
        minimum_positions: None,
        accepted: Seq::empty(),
    };
    assert(intake.item() == item);
    let metadata = source.metadata->Ok_0;
    let bounds = law_trimming_takes_only_white_space(metadata.stimulus_reference@);
    let record = sidecar_record(source.sidecar->Ok_0, "temporal_ir_v1"@)->Ok_0;
    let digest = sha256_text(source.wav->Ok_0);
    assert(record.source_hashes.contains(Some(digest)) <==> exists|i: int|
        0 <= i < record.source_hashes.len() && #[trigger] record.source_hashes[i] == Some(digest));
    if alone(channel, rate, item, source) is Some {
        let taken = piece_taken(intake, source)->Ok_0;
        assert(taken.accepted[0] == taken.accepted.last());
    }
}

/// The evidence of a configuration is had exactly if its settings admit a refinement, each piece
/// qualifies by itself, no two pieces share a record, a file, their samples, or the same position
/// for the same use, all share the stimulus, both uses are served, and there are as many different
/// positions as are asked for.
pub proof fn law_evidence_is_had_exactly_if(
    config: RoomConfig,
    sample_rate: Double,
    rate: u32,
    tap_count: usize,
    sources: Seq<SourceView>,
    evidence: Seq<EvidenceView>,
)
    requires
        config.temporal_fir is Some,
    ensures
        evidence_prepared(config, sample_rate, rate, tap_count, sources) == Ok::<
            Seq<EvidenceView>,
            Seq<char>,
        >(evidence) <==> {
            let strategy = config.temporal_fir->0;
            &&& settings_fault(config, strategy, sample_rate, rate, tap_count) is None
            &&& evidence.len() == strategy.evidence@.len()
            &&& forall|i: int|
                0 <= i < evidence.len() ==> alone(
                    strategy.channel@,
                    rate,
                    ItemView {
                        position_id: strategy.evidence@[i].position_id@,
                        partition: strategy.evidence@[i].partition,
                    },
                    sources[i],
                ) == Some(#[trigger] evidence[i])
            &&& forall|i: int, j: int|
                0 <= i < j < evidence.len() ==> {
                    &&& (#[trigger] evidence[i]).record_id != (#[trigger] evidence[j]).record_id
                    &&& evidence[i].identity != evidence[j].identity
                    &&& evidence[i].samples_sha256 != evidence[j].samples_sha256
                    &&& evidence[i].partition != evidence[j].partition || evidence[i].position_id
                        != evidence[j].position_id
                    &&& evidence[i].stimulus_reference == evidence[j].stimulus_reference
                }
            &&& exists|i: int|
                0 <= i < evidence.len() && (#[trigger] evidence[i]).partition
                    == TemporalPartition::Training
            &&& exists|i: int|
                0 <= i < evidence.len() && (#[trigger] evidence[i]).partition
                    == TemporalPartition::HeldOut
            &&& strategy.minimum_positions is Some ==> evidence.map_values(
                |item: EvidenceView| item.position_id,
            ).to_set().len() >= strategy.minimum_positions->0
        },
{
    let strategy = config.temporal_fir->0;
    let start = opening(strategy, rate);
    lemma_all_taken_if_all_qualify(start, sources);
    assert forall|i: int| 0 <= i < start.items.len() implies #[trigger] piece_alone(
        start,
        sources,
        i,
    ) == alone(
        strategy.channel@,
        rate,
        ItemView {
            position_id: strategy.evidence@[i].position_id@,
            partition: strategy.evidence@[i].partition,
        },
        sources[i],
    ) by {}
    let complete = all_taken(start, sources)->Ok_0;
    if evidence_prepared(config, sample_rate, rate, tap_count, sources) == Ok::<
        Seq<EvidenceView>,
        Seq<char>,
    >(evidence) {
        assert(evidence == complete.accepted);
        assert forall|i: int| 0 <= i < evidence.len() implies alone(
            strategy.channel@,
            rate,
            ItemView {
                position_id: strategy.evidence@[i].position_id@,
                partition: strategy.evidence@[i].partition,
            },
            sources[i],
        ) == Some(#[trigger] evidence[i]) by {
            assert(piece_alone(start, sources, i) == Some(complete.accepted[i]));
        }
        assert forall|i: int, j: int| 0 <= i < j < evidence.len() implies independent_evidence(
            #[trigger] evidence[i],
            #[trigger] evidence[j],
        ) by {
            assert(piece_alone(start, sources, i) == Some(complete.accepted[i]));
            assert(piece_alone(start, sources, j) == Some(complete.accepted[j]));
        }
        assert(positions(evidence) =~= evidence.map_values(
            |item: EvidenceView| item.position_id,
        ));
    }
    if evidence.len() == strategy.evidence@.len() && (forall|i: int|
        0 <= i < evidence.len() ==> alone(
            strategy.channel@,
            rate,
            ItemView {
                position_id: strategy.evidence@[i].position_id@,
                partition: strategy.evidence@[i].partition,
            },
            sources[i],
        ) == Some(#[trigger] evidence[i])) && (forall|i: int, j: int|
        0 <= i < j < evidence.len() ==> independent_evidence(
            #[trigger] evidence[i],
            #[trigger] evidence[j],
        )) {
        assert forall|i: int| 0 <= i < start.items.len() implies #[trigger] piece_alone(
            start,
            sources,
            i,
        ) == Some(evidence[i]) by {
            assert(alone(
                strategy.channel@,
                rate,
                ItemView {
                    position_id: strategy.evidence@[i].position_id@,
                    partition: strategy.evidence@[i].partition,
                },
                sources[i],
            ) == Some(evidence[i]));
        }
        assert forall|i: int, j: int| 0 <= i < j < start.items.len() implies independent_evidence(
            (#[trigger] piece_alone(start, sources, i))->0,
            (#[trigger] piece_alone(start, sources, j))->0,
        ) by {
            assert(independent_evidence(evidence[i], evidence[j]));
        }
        assert(all_qualify(start, sources));
        assert forall|i: int| 0 <= i < evidence.len() implies #[trigger] complete.accepted[i]
            == evidence[i] by {
            assert(piece_alone(start, sources, i) == Some(complete.accepted[i]));
        }
        assert(complete.accepted =~= evidence);
        assert(positions(evidence) =~= evidence.map_values(
            |item: EvidenceView| item.position_id,
        ));
    }
}

/// A piece that is not taken is refused for the first of these reasons that holds of it, in the
/// order in which its parts are fetched.
pub proof fn law_piece_is_refused_for_the_first_reason(intake: IntakeView, source: SourceView)
    requires
        piece_taken(intake, source) is Err,
    ensures
        ({
            let item = intake.items[intake.accepted.len() as int];
            let before = intake.accepted;
            let sidecar = source.sidecar->Ok_0;
            let record = sidecar_record(sidecar, "temporal_ir_v1"@);
            let errors = strict_errors(sidecar);
            let metadata = source.metadata->Ok_0;
            let file = source.wav->Ok_0;
            let header = wav_header(file);
            let samples = rounded(source.channels->Ok_0[0]);
            let array = metadata.orcmeasurement->0;
            let impulse = package_read(
                source.package->Ok_0,
                RequestView {
                    array_path: array.array_path@,
                    source_digest: array.source_digest@,
                    logical_digest: array.logical_sha256@,
                },
            );
            let mark = "temporal_fir: "@;
            piece_taken(intake, source)->Err_0 == if source.sidecar is Err {
                mark + source.sidecar->Err_0
            } else if sidecar.len() > 16_777_216 {
                mark + "provenance sidecar is too large"@
            } else if record is Err {
                mark + ("invalid provenance sidecar: "@ + record->Err_0)
            } else if errors is Err {
                mark + ("invalid provenance sidecar: "@ + errors->Err_0)
            } else if errors->Ok_0.len() > 0 {
                mark + ("sidecar provenance invalid: "@ + joined(errors->Ok_0, "; "@))
            } else if exists|i: int|
                0 <= i < before.len() && (#[trigger] before[i]).record_id == record->Ok_0.id {
                mark + "measurement record reused across evidence partitions"@
            } else if record->Ok_0.extension is None {
                mark + "provenance sidecar lacks temporal_ir_v1"@
            } else if source.metadata is Err {
                mark + ("invalid temporal_ir_v1: "@ + source.metadata->Err_0)
            } else if metadata.channel@ != intake.channel || metadata.position_id@
                != item.position_id || metadata.partition != item.partition
                || metadata.processing_state@ != "isolated_raw"@ || (forall|i: int|
                0 <= i < metadata.stimulus_reference@.len() ==> white_space(
                    #[trigger] metadata.stimulus_reference@[i],
                )) || metadata.capture_rate_hz < intake.rate || metadata.capture_rate_hz > 0 && (
            intake.rate == 0 || metadata.capture_rate_hz % intake.rate != 0) {
                mark
                    + "IR channel, position, partition, processing state, reference, or sample rate mismatch"@
            } else if exists|i: int|
                0 <= i < before.len() && (#[trigger] before[i]).partition == item.partition
                    && before[i].position_id == item.position_id {
                mark + "duplicate position identity within one evidence partition"@
            } else if before.len() > 0 && before[0].stimulus_reference
                != metadata.stimulus_reference@ {
                mark + "IR stimulus references differ"@
            } else if source.wav is Err {
                mark + source.wav->Err_0
            } else if sha256_text(file) != metadata.sha256@ || exists|i: int|
                0 <= i < before.len() && (#[trigger] before[i]).identity == sha256_text(file) {
                mark + "IR byte digest mismatch or training/held-out source reused"@
            } else if forall|i: int|
                0 <= i < record->Ok_0.source_hashes.len() ==> (
                #[trigger] record->Ok_0.source_hashes[i]) != Some(sha256_text(file)) {
                mark + "IR WAV is not bound as a source artifact in its provenance sidecar"@
            } else if header is Err {
                mark + header->Err_0
            } else if header->Ok_0 != 1 {
                mark + "saved IR WAV must be mono"@
            } else if source.channels is Err {
                source.channels->Err_0
            } else if source.channels->Ok_0.len() == 0 {
                mark + "empty IR WAV"@
            } else if exists|i: int|
                0 <= i < before.len() && (#[trigger] before[i]).samples_sha256 == sha256_text(
                    samples_bytes(samples),
                ) {
                mark + "independent evidence repeats identical decoded samples"@
            } else if metadata.orcmeasurement is Some && array.array_path@ != "positions/"@
                + item.position_id + "/"@ + intake.channel + "/impulse_response"@ {
                mark + "orcmeasurement array path does not match position/channel identity"@
            } else if metadata.orcmeasurement is Some && source.package is Err {
                mark + ("orcmeasurement: "@ + source.package->Err_0)
            } else if metadata.orcmeasurement is Some && impulse is Err {
                mark + ("orcmeasurement: "@ + impulse->Err_0.words())
            } else if metadata.orcmeasurement is Some && (impulse->Ok_0.source_digest
                != array.source_digest@ || impulse->Ok_0.logical_digest != array.logical_sha256@
                || impulse->Ok_0.campaign_id != array.campaign_id@ || impulse->Ok_0.sample_rate_hz
                != metadata.capture_rate_hz || impulse->Ok_0.processing_state
                != "isolated_physical_output"@ || impulse->Ok_0.samples != samples) {
                mark + "orcmeasurement and raw WAV samples or identity differ"@
            } else {
                mark + source.objective->Err_0
            }
        }),
{
    let metadata = source.metadata->Ok_0;
    let bounds = law_trimming_takes_only_white_space(metadata.stimulus_reference@);
    let record = sidecar_record(source.sidecar->Ok_0, "temporal_ir_v1"@)->Ok_0;
    let digest = sha256_text(source.wav->Ok_0);
    assert(record.source_hashes.contains(Some(digest)) <==> exists|i: int|
        0 <= i < record.source_hashes.len() && #[trigger] record.source_hashes[i] == Some(digest));
}

/// A complete set is refused where one of the uses is not served, and otherwise where there are
/// too few positions.
pub proof fn law_set_is_refused_for_the_first_reason(intake: IntakeView)
    ensures
        ({
            let training = exists|i: int|
                0 <= i < intake.accepted.len() && (#[trigger] intake.accepted[i]).partition
                    == TemporalPartition::Training;
            let held_out = exists|i: int|
                0 <= i < intake.accepted.len() && (#[trigger] intake.accepted[i]).partition
                    == TemporalPartition::HeldOut;
            let found = intake.accepted.map_values(
                |item: EvidenceView| item.position_id,
            ).to_set().len();
            set_fault(intake) == if !training || !held_out {
                Some("temporal_fir: "@ + "at least one training and one held-out IR are required"@)
            } else if intake.minimum_positions is Some && found < intake.minimum_positions->0 {
                Some(
                    "temporal_fir: "@
                        + "insufficient independent positions for temporal qualification"@,
                )
            } else {
                None
            }
        }),
{
    assert(positions(intake.accepted) =~= intake.accepted.map_values(
        |item: EvidenceView| item.position_id,
    ));
}

/// The first reason decides how evidence is refused: that of the settings, or else that of the
/// first piece that is not taken after those before it were, or else that of the complete set.
pub proof fn law_evidence_is_refused_for_the_first_reason(
    config: RoomConfig,
    sample_rate: Double,
    rate: u32,
    tap_count: usize,
    sources: Seq<SourceView>,
    accepted: Seq<EvidenceView>,
)
    requires
        config.temporal_fir is Some,
        accepted.len() <= config.temporal_fir->0.evidence@.len(),
        forall|i: int|
            0 <= i < accepted.len() ==> alone(
                config.temporal_fir->0.channel@,
                rate,
                ItemView {
                    position_id: config.temporal_fir->0.evidence@[i].position_id@,
                    partition: config.temporal_fir->0.evidence@[i].partition,
                },
                sources[i],
            ) == Some(#[trigger] accepted[i]),
        forall|i: int, j: int|
            0 <= i < j < accepted.len() ==> {
                &&& (#[trigger] accepted[i]).record_id != (#[trigger] accepted[j]).record_id
                &&& accepted[i].identity != accepted[j].identity
                &&& accepted[i].samples_sha256 != accepted[j].samples_sha256
                &&& accepted[i].partition != accepted[j].partition || accepted[i].position_id
                    != accepted[j].position_id
                &&& accepted[i].stimulus_reference == accepted[j].stimulus_reference
            },
    ensures
        ({
            let strategy = config.temporal_fir->0;
            let settings = settings_fault(config, strategy, sample_rate, rate, tap_count);
            let read = evidence_prepared(config, sample_rate, rate, tap_count, sources);
            let intake = IntakeView {
                channel: strategy.channel@,
                rate,
                items: Seq::new(
                    strategy.evidence@.len(),
                    |i: int|
                        ItemView {
                            position_id: strategy.evidence@[i].position_id@,
                            partition: strategy.evidence@[i].partition,
                        },
                ),
                minimum_positions: strategy.minimum_positions,
                accepted,
            };
            &&& settings is Some ==> read == Err::<Seq<EvidenceView>, Seq<char>>(settings->0)
            &&& settings is None && accepted.len() < strategy.evidence@.len() && piece_taken(
                intake,
                sources[accepted.len() as int],
            ) is Err ==> read == Err::<Seq<EvidenceView>, Seq<char>>(
                piece_taken(intake, sources[accepted.len() as int])->Err_0,
            )
            &&& settings is None && accepted.len() == strategy.evidence@.len() && set_fault(intake)
                is Some ==> read == Err::<Seq<EvidenceView>, Seq<char>>(set_fault(intake)->0)
        }),
{
    let strategy = config.temporal_fir->0;
    let start = opening(strategy, rate);
    let intake = IntakeView { accepted, ..start };
    assert(start.items =~= Seq::new(
        strategy.evidence@.len(),
        |i: int|
            ItemView {
                position_id: strategy.evidence@[i].position_id@,
                partition: strategy.evidence@[i].partition,
            },
    ));
    assert forall|i: int| 0 <= i < accepted.len() implies #[trigger] piece_alone(start, sources, i)
        == Some(accepted[i]) by {
        assert(alone(
            strategy.channel@,
            rate,
            ItemView {
                position_id: strategy.evidence@[i].position_id@,
                partition: strategy.evidence@[i].partition,
            },
            sources[i],
        ) == Some(accepted[i]));
    }
    assert(accepted.take(0) =~= Seq::empty());
    lemma_first_pieces_are_taken(start, sources, accepted, 0);
}

proof fn lemma_first_pieces_are_taken(
    start: IntakeView,
    sources: Seq<SourceView>,
    accepted: Seq<EvidenceView>,
    n: int,
)
    requires
        accepted.len() <= start.items.len(),
        0 <= n <= accepted.len(),
        forall|i: int|
            0 <= i < accepted.len() ==> #[trigger] piece_alone(start, sources, i) == Some(
                accepted[i],
            ),
        forall|i: int, j: int|
            0 <= i < j < accepted.len() ==> independent_evidence(
                #[trigger] accepted[i],
                #[trigger] accepted[j],
            ),
    ensures
        all_taken(IntakeView { accepted: accepted.take(n), ..start }, sources) == all_taken(
            IntakeView { accepted, ..start },
            sources,
        ),
    decreases accepted.len() - n,
{
    if n < accepted.len() {
        let intake = IntakeView { accepted: accepted.take(n), ..start };
        let source = sources[n];
        assert(intake.wf()) by {
            assert forall|i: int| 0 <= i < n implies {
                &&& (#[trigger] intake.accepted[i]).partition == intake.items[i].partition
                &&& intake.accepted[i].position_id == intake.items[i].position_id
            } by {
                assert(piece_alone(start, sources, i) == Some(accepted[i]));
                lemma_piece_alone(start.channel, start.rate, start.items[i], sources[i]);
            }
            assert forall|i: int, j: int| 0 <= i < j < n implies independent_evidence(
                #[trigger] intake.accepted[i],
                #[trigger] intake.accepted[j],
            ) by {
                assert(independent_evidence(accepted[i], accepted[j]));
            }
        }
        lemma_piece_taken_if_independent(intake, source);
        assert(piece_alone(start, sources, n) == Some(accepted[n]));
        assert forall|i: int| 0 <= i < n implies independent_evidence(
            #[trigger] intake.accepted[i],
            accepted[n],
        ) by {
            assert(independent_evidence(accepted[i], accepted[n]));
        }
        assert(accepted.take(n).push(accepted[n]) =~= accepted.take(n + 1));
        lemma_first_pieces_are_taken(start, sources, accepted, n + 1);
    } else {
        assert(accepted.take(n) =~= accepted);
    }
}

} // verus!
