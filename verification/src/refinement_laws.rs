//! What holds of refinements beyond the single steps: which outputs can be refined, what is
//! reported, and what a final result is held against.

use crate::digest::{samples_bytes, sha256_text};
use crate::evidence::{EvidenceView, SourceView};
use crate::ieee::{rounded, Double};
use crate::intake::evidence_prepared;
use crate::json::JsonView;
use crate::refinement::{
    advisories, chosen, energy_fault, evidence_lines, final_fault, has_zero, last_report,
    law_drift_is_refused, law_recorded_result_is_final, metrics_lines, planned, recorded,
    selection_lines, settled, sole_convolution, value_of, ChoiceView, PlanView, ReportView,
    TrialView,
};
use crate::room::RoomConfig;
use crate::room_result::{
    chain_names, channel_names, name_index, plugins_text, OutcomeView, PluginView, ResultView,
    StageStatus,
};
use crate::search::{best_of, Bench};
use crate::spectrum::LEAST_MAGNITUDE;
use vstd::prelude::*;

verus! {

/// The report that counts is the last one of the stage: it is found behind reports of other
/// stages, and there is none only where the stage reported nothing.
pub proof fn law_last_report_of_the_stage_counts(outcomes: Seq<OutcomeView>)
    ensures
        match last_report(outcomes) {
            None => forall|i: int|
                0 <= i < outcomes.len() ==> (#[trigger] outcomes[i]).stage != "temporal_fir"@,
            Some(report) => exists|k: int|
                {
                    &&& 0 <= k < outcomes.len()
                    &&& #[trigger] outcomes[k] == report
                    &&& outcomes[k].stage == "temporal_fir"@
                    &&& forall|j: int|
                        k < j < outcomes.len() ==> (#[trigger] outcomes[j]).stage
                            != "temporal_fir"@
                },
        },
    decreases outcomes.len(),
{
    if outcomes.len() > 0 {
        if outcomes.last().stage == "temporal_fir"@ {
            assert(outcomes[outcomes.len() - 1] == outcomes.last());
        } else {
            let rest = outcomes.drop_last();
            law_last_report_of_the_stage_counts(rest);
            if last_report(rest) is None {
                assert forall|i: int| 0 <= i < outcomes.len() implies (
                #[trigger] outcomes[i]).stage != "temporal_fir"@ by {
                    if i < rest.len() {
                        assert(outcomes[i] == rest[i]);
                    }
                }
            } else {
                let k = choose|k: int|
                    {
                        &&& 0 <= k < rest.len()
                        &&& #[trigger] rest[k] == last_report(rest)->0
                        &&& rest[k].stage == "temporal_fir"@
                        &&& forall|j: int|
                            k < j < rest.len() ==> (#[trigger] rest[j]).stage != "temporal_fir"@
                    };
                assert(outcomes[k] == rest[k]);
                assert forall|j: int| k < j < outcomes.len() implies (
                #[trigger] outcomes[j]).stage != "temporal_fir"@ by {
                    if j < rest.len() {
                        assert(outcomes[j] == rest[j]);
                    }
                }
            }
        }
    }
}

/// The reports of the stage, in their order.
pub open spec fn own_reports(outcomes: Seq<OutcomeView>) -> Seq<OutcomeView>
    decreases outcomes.len(),
{
    if outcomes.len() == 0 {
        Seq::empty()
    } else if outcomes.last().stage == "temporal_fir"@ {
        own_reports(outcomes.drop_last()).push(outcomes.last())
    } else {
        own_reports(outcomes.drop_last())
    }
}

proof fn lemma_last_of_own_reports(outcomes: Seq<OutcomeView>)
    ensures
        last_report(outcomes) == if own_reports(outcomes).len() == 0 {
            None
        } else {
            Some(own_reports(outcomes).last())
        },
    decreases outcomes.len(),
{
    if outcomes.len() > 0 {
        lemma_last_of_own_reports(outcomes.drop_last());
    }
}

/// Reports of other stages do not matter to the final check: two results that differ only in
/// these are final, or refused, alike.
pub proof fn law_other_stages_do_not_matter(a: ResultView, b: ResultView, config: RoomConfig)
    requires
        a.channels == b.channels,
        a.channel_results == b.channel_results,
        own_reports(a.stage_outcomes) == own_reports(b.stage_outcomes),
    ensures
        final_fault(a, config) == final_fault(b, config),
{
    lemma_last_of_own_reports(a.stage_outcomes);
    lemma_last_of_own_reports(b.stage_outcomes);
}

proof fn lemma_report_behind_others(outcomes: Seq<OutcomeView>, others: Seq<OutcomeView>)
    requires
        forall|i: int| 0 <= i < others.len() ==> (#[trigger] others[i]).stage != "temporal_fir"@,
    ensures
        last_report(outcomes + others) == last_report(outcomes),
    decreases others.len(),
{
    if others.len() == 0 {
        assert(outcomes + others =~= outcomes);
    } else {
        let all = outcomes + others;
        assert(all.last() == others[others.len() - 1]);
        assert(all.drop_last() =~= outcomes + others.drop_last());
        assert forall|i: int| 0 <= i < others.drop_last().len() implies (
        #[trigger] others.drop_last()[i]).stage != "temporal_fir"@ by {
            assert(others.drop_last()[i] == others[i]);
        }
        lemma_report_behind_others(outcomes, others.drop_last());
    }
}

/// Drift is refused, and nothing else is, also where other stages report later: as long as the
/// stage itself reports nothing more, a result is final exactly if the filter of the channel and
/// the plugins of its output still have the reported identities.
pub proof fn law_drift_is_refused_behind_other_stages(
    result: ResultView,
    choice: ChoiceView,
    report: ReportView,
    config: RoomConfig,
    later: ResultView,
    others: Seq<OutcomeView>,
)
    requires
        config.temporal_fir is Some,
        config.temporal_fir->0.channel@ == choice.channel,
        choice.accepted(),
        forall|i: int| 0 <= i < others.len() ==> (#[trigger] others[i]).stage != "temporal_fir"@,
        later.stage_outcomes == recorded(result, choice, report).stage_outcomes + others,
    ensures
        final_fault(later, config) is None <==> {
            &&& later.taps(choice.channel) is Some
            &&& sha256_text(samples_bytes(rounded(later.taps(choice.channel)->0))) == sha256_text(
                samples_bytes(choice.selected->0.taps),
            )
            &&& later.chain(choice.channel) is Some
            &&& sha256_text(plugins_text(later.chain(choice.channel)->0.plugins)) == sha256_text(
                plugins_text(result.chain(choice.channel)->0.plugins),
            )
        },
{
    let earlier = ResultView {
        stage_outcomes: recorded(result, choice, report).stage_outcomes,
        ..later
    };
    lemma_report_behind_others(earlier.stage_outcomes, others);
    law_drift_is_refused(result, choice, report, config, earlier);
    assert(final_fault(later, config) == final_fault(earlier, config));
}

/// Whatever is decided, the result that records it stays final when other stages report later.
pub proof fn law_recorded_result_stays_final_behind_other_stages(
    result: ResultView,
    config: RoomConfig,
    sample_rate: Double,
    rate: u32,
    sources: Seq<SourceView>,
    trial: TrialView,
    choice: ChoiceView,
    report: ReportView,
    others: Seq<OutcomeView>,
)
    requires
        chosen(result, config, sample_rate, rate, sources, trial) == Ok::<
            Option<ChoiceView>,
            Seq<char>,
        >(Some(choice)),
        forall|i: int| 0 <= i < others.len() ==> (#[trigger] others[i]).stage != "temporal_fir"@,
    ensures
        ({
            let after = recorded(result, choice, report);
            final_fault(
                ResultView { stage_outcomes: after.stage_outcomes + others, ..after },
                config,
            ) is None
        }),
{
    let after = recorded(result, choice, report);
    lemma_report_behind_others(after.stage_outcomes, others);
    law_recorded_result_is_final(
        result,
        config,
        sample_rate,
        rate,
        sources,
        trial,
        choice,
        report,
    );
}

/// A result without a report of the stage is refused where a refinement is configured; one whose
/// last report of the stage is not that it was applied is final, whatever became of the filter.
pub proof fn law_only_an_applied_report_binds(result: ResultView, config: RoomConfig)
    requires
        config.temporal_fir is Some,
    ensures
        (forall|i: int|
            0 <= i < result.stage_outcomes.len() ==> (#[trigger] result.stage_outcomes[i]).stage
                != "temporal_fir"@) ==> final_fault(result, config) == Some(
            "temporal_fir: "@ + "missing temporal FIR outcome"@,
        ),
        forall|k: int|
            {
                &&& 0 <= k < result.stage_outcomes.len()
                &&& (#[trigger] result.stage_outcomes[k]).stage == "temporal_fir"@
                &&& result.stage_outcomes[k].status != StageStatus::Applied
                &&& forall|j: int|
                    k < j < result.stage_outcomes.len() ==> (
                    #[trigger] result.stage_outcomes[j]).stage != "temporal_fir"@
            } ==> final_fault(result, config) is None,
{
    law_last_report_of_the_stage_counts(result.stage_outcomes);
}

/// Of the lines with a mark the first one counts, and what it says is what follows the mark.
pub proof fn law_first_marked_line_counts(
    lines: Seq<Seq<char>>,
    mark: Seq<char>,
    k: int,
    value: Seq<char>,
)
    ensures
        0 <= k < lines.len() && lines[k] == mark + value && (forall|j: int|
            0 <= j < k ==> !mark.is_prefix_of(#[trigger] lines[j])) ==> value_of(lines, mark)
            == Some(value),
        (forall|j: int| 0 <= j < lines.len() ==> !mark.is_prefix_of(#[trigger] lines[j]))
            ==> value_of(lines, mark) is None,
    decreases lines.len(),
{
    if lines.len() > 0 {
        let rest = lines.drop_first();
        law_first_marked_line_counts(rest, mark, k - 1, value);
        if 0 <= k < lines.len() && lines[k] == mark + value && forall|j: int|
            0 <= j < k ==> !mark.is_prefix_of(#[trigger] lines[j]) {
            if k == 0 {
                assert(mark.is_prefix_of(mark + value));
                assert((mark + value).skip(mark.len() as int) =~= value);
            } else {
                assert(!mark.is_prefix_of(lines[0]));
                assert(rest[k - 1] == lines[k]);
                assert forall|j: int| 0 <= j < k - 1 implies !mark.is_prefix_of(
                    #[trigger] rest[j],
                ) by {
                    assert(rest[j] == lines[j + 1]);
                }
            }
        }
        if forall|j: int| 0 <= j < lines.len() ==> !mark.is_prefix_of(#[trigger] lines[j]) {
            assert(!mark.is_prefix_of(lines[0]));
            assert forall|j: int| 0 <= j < rest.len() implies !mark.is_prefix_of(
                #[trigger] rest[j],
            ) by {
                assert(rest[j] == lines[j + 1]);
            }
        }
    }
}

/// Under a name the first entry counts.
pub proof fn law_first_entry_of_a_name_counts(result: ResultView, name: Seq<char>, k: int)
    ensures
        0 <= k < result.channels.len() && result.channels[k].name == name && (forall|j: int|
            0 <= j < k ==> (#[trigger] result.channels[j]).name != name) ==> result.chain(name)
            == Some(result.channels[k]),
        (forall|j: int|
            0 <= j < result.channels.len() ==> (#[trigger] result.channels[j]).name != name)
            ==> result.chain(name) is None,
        0 <= k < result.channel_results.len() && result.channel_results[k].name == name && (forall|
            j: int,
        |
            0 <= j < k ==> (#[trigger] result.channel_results[j]).name != name) ==> result.channel(
            name,
        ) == Some(result.channel_results[k]) && result.taps(name)
            == result.channel_results[k].fir_coeffs,
        (forall|j: int|
            0 <= j < result.channel_results.len() ==> (
            #[trigger] result.channel_results[j]).name != name) ==> result.taps(name) is None,
{
    let chains = chain_names(result.channels);
    let channels = channel_names(result.channel_results);
    lemma_first_of_name(chains, name, k);
    lemma_first_of_name(channels, name, k);
    assert forall|j: int| 0 <= j < chains.len() implies #[trigger] chains[j]
        == result.channels[j].name by {}
    assert forall|j: int| 0 <= j < channels.len() implies #[trigger] channels[j]
        == result.channel_results[j].name by {}
}

proof fn lemma_first_of_name(names: Seq<Seq<char>>, name: Seq<char>, k: int)
    ensures
        0 <= k < names.len() && names[k] == name && (forall|j: int|
            0 <= j < k ==> #[trigger] names[j] != name) ==> name_index(names, name) == Some(k),
        (forall|j: int| 0 <= j < names.len() ==> #[trigger] names[j] != name) ==> name_index(
            names,
            name,
        ) is None,
    decreases names.len(),
{
    if names.len() > 0 {
        let rest = names.drop_last();
        lemma_first_of_name(rest, name, k);
        assert forall|j: int| 0 <= j < rest.len() implies #[trigger] rest[j] == names[j] by {}
    }
}

/// An output can be refined if it feeds no drivers of its own, one of its plugins is a
/// convolution with a file, all others are gains, and its channel has taps. The baseline is these
/// taps rounded to singles, and the file is the one under `filename`, or else under `ir_file`.
pub proof fn law_refinable_output_is_planned(
    result: ResultView,
    name: Seq<char>,
    k: int,
    file: Seq<char>,
    taps: Seq<Double>,
)
    requires
        result.chain(name) is Some,
        !result.chain(name)->0.has_drivers,
        0 <= k < result.chain(name)->0.plugins.len(),
        result.chain(name)->0.plugins[k].plugin_type == "convolution"@,
        forall|j: int|
            0 <= j < result.chain(name)->0.plugins.len() && j != k ==> (
            #[trigger] result.chain(name)->0.plugins[j]).plugin_type == "gain"@,
        ({
            let parameters = result.chain(name)->0.plugins[k].parameters;
            ||| parameters.member("filename"@) == JsonView::Text(file)
            ||| parameters.member("filename"@) !is Text && parameters.member("ir_file"@)
                == JsonView::Text(file)
        }),
        result.taps(name) == Some(taps),
    ensures
        planned(result, name) == Ok::<PlanView, Seq<char>>(
            PlanView { filename: file, baseline: rounded(taps) },
        ),
{
    let plugins = result.chain(name)->0.plugins;
    assert(sole_convolution(plugins, k));
    let m = choose|m: int| sole_convolution(plugins, m);
    lemma_only_one_convolution(plugins, k, m);
}

proof fn lemma_only_one_convolution(plugins: Seq<PluginView>, k: int, m: int)
    requires
        sole_convolution(plugins, k),
        sole_convolution(plugins, m),
    ensures
        k == m,
{
    reveal_strlit("convolution");
    reveal_strlit("gain");
    if k != m {
        assert(plugins[k].plugin_type == "gain"@);
        assert("convolution"@.len() != "gain"@.len());
    }
}

/// What is planned can be refined: the output feeds no drivers of its own, one of its plugins is
/// a convolution with a file, all others are gains, and its channel has taps.
pub proof fn law_planned_output_is_refinable(result: ResultView, name: Seq<char>)
    requires
        planned(result, name) is Ok,
    ensures
        result.chain(name) is Some,
        !result.chain(name)->0.has_drivers,
        result.taps(name) is Some,
        exists|k: int|
            #![trigger result.chain(name)->0.plugins[k]]
            {
                let plugin = result.chain(name)->0.plugins[k];
                &&& 0 <= k < result.chain(name)->0.plugins.len()
                &&& plugin.plugin_type == "convolution"@
                &&& plugin.parameters.member("filename"@) is Text
                    || plugin.parameters.member("ir_file"@) is Text
                &&& forall|j: int|
                    0 <= j < result.chain(name)->0.plugins.len() && j != k ==> (
                    #[trigger] result.chain(name)->0.plugins[j]).plugin_type == "gain"@
            },
{
    let plugins = result.chain(name)->0.plugins;
    let k = choose|k: int| sole_convolution(plugins, k);
    assert(plugins[k].plugin_type == "convolution"@);
}

/// The baseline can be compared exactly if it has a valid energy at each piece; otherwise the
/// words of the first piece without one are repeated.
pub proof fn law_first_invalid_energy_counts(energies: Seq<Result<(), Seq<char>>>, k: int)
    ensures
        energy_fault(energies) is None <==> forall|i: int|
            0 <= i < energies.len() ==> (#[trigger] energies[i]) is Ok,
        0 <= k < energies.len() && energies[k] is Err && (forall|j: int|
            0 <= j < k ==> (#[trigger] energies[j]) is Ok) ==> energy_fault(energies) == Some(
            "temporal_fir: "@ + ("baseline has invalid recorded-window energy: "@
                + energies[k]->Err_0),
        ),
    decreases energies.len(),
{
    if energies.len() > 0 {
        let rest = energies.drop_first();
        law_first_invalid_energy_counts(rest, k - 1);
        assert forall|i: int| 0 <= i < rest.len() implies #[trigger] rest[i] == energies[i + 1] by {}
        if energies[0] is Ok {
            if energy_fault(rest) is None {
                assert forall|i: int| 0 <= i < energies.len() implies (
                #[trigger] energies[i]) is Ok by {
                    if i > 0 {
                        assert(rest[i - 1] is Ok);
                    }
                }
            }
            if forall|i: int| 0 <= i < energies.len() ==> (#[trigger] energies[i]) is Ok {
                assert forall|i: int| 0 <= i < rest.len() implies (#[trigger] rest[i]) is Ok by {
                    assert(energies[i + 1] is Ok);
                }
            }
            if 0 <= k < energies.len() && energies[k] is Err && forall|j: int|
                0 <= j < k ==> (#[trigger] energies[j]) is Ok {
                assert(rest[k - 1] == energies[k]);
                assert forall|j: int| 0 <= j < k - 1 implies (#[trigger] rest[j]) is Ok by {
                    assert(energies[j + 1] is Ok);
                }
            }
        }
    }
}

/// A choice stands exactly if nothing is delivered, or the baseline has a magnitude of at least
/// one thousand-millionth at every frequency.
pub proof fn law_only_representable_baselines_are_replaced(
    choice: ChoiceView,
    response: Seq<Double>,
)
    ensures
        settled(choice, response) is Ok <==> choice.selected is None
            || !choice.selected->0.confirmed || forall|i: int|
            0 <= i < response.len() ==> (#[trigger] response[i]).nan() || (Double {
                bits: 0x3e11_2e0b_e826_d695,
            }).at_most(response[i]),
        settled(choice, response) is Ok ==> settled(choice, response)->Ok_0 == choice,
        settled(choice, response) is Err ==> settled(choice, response)->Err_0 == "temporal_fir: "@
            + "baseline FIR response has an unrepresentable zero"@,
{
    if choice.accepted() {
        if !has_zero(response) {
            assert forall|i: int| 0 <= i < response.len() implies (#[trigger] response[i]).nan()
                || (Double { bits: 0x3e11_2e0b_e826_d695 }).at_most(response[i]) by {
                assert(!response[i].below(Double { bits: LEAST_MAGNITUDE }));
            }
        }
    }
}

proof fn lemma_evidence_lines(evidence: Seq<EvidenceView>, i: int)
    requires
        0 <= i < evidence.len(),
    ensures
        evidence_lines(evidence).len() == 2 * evidence.len(),
        evidence_lines(evidence)[2 * i] == "ir_sha256="@ + evidence[i].identity,
        evidence_lines(evidence)[2 * i + 1] == "sidecar_sha256="@ + evidence[i].sidecar_sha256,
    decreases evidence.len(),
{
    let rest = evidence.drop_last();
    if rest.len() > 0 {
        lemma_evidence_lines(rest, if i < rest.len() { i } else { 0 });
    } else {
        assert(evidence_lines(rest).len() == 0);
    }
    if i < rest.len() {
        assert(rest[i] == evidence[i]);
    }
}

/// The stage reports, in this order: why it decided as it did, and the identity of its settings;
/// of a delivery the identities of the taps and of the plugins that play them; the metrics over
/// the training and the held-out evidence, as far as there are any; and last the identities of
/// the file and of the sidecar of each piece of evidence, piece by piece. It is applied exactly if
/// a candidate was picked and confirmed.
pub proof fn law_report_tells_the_decision(
    result: ResultView,
    choice: ChoiceView,
    report: ReportView,
    i: int,
)
    ensures
        ({
            let outcome = recorded(result, choice, report).stage_outcomes.last();
            let lines = outcome.advisories;
            let pieces = choice.evidence.len();
            let delivered = choice.selected is Some && choice.selected->0.confirmed;
            let first = if delivered { 4int } else { 2int };
            let second = if report.training is Some { first + 1 } else { first };
            let last = if report.held_out is Some { second + 1 } else { second };
            &&& outcome.stage == "temporal_fir"@
            &&& outcome.checks.len() == 0
            &&& outcome.status == if delivered {
                StageStatus::Applied
            } else {
                StageStatus::Skipped
            }
            &&& lines.len() == last + 2 * pieces
            &&& delivered ==> lines[0] == "held_out_accepted"@
            &&& choice.selected is Some && !delivered ==> lines[0] == "held_out_rejected"@
            &&& choice.selected is None ==> lines[0] == "no_training_candidate"@
            &&& lines[1] == "config_sha256="@ + sha256_text(report.config_text)
            &&& delivered ==> lines[2] == "selected_taps_sha256="@ + sha256_text(
                samples_bytes(choice.selected->0.taps),
            )
            &&& delivered ==> lines[3] == "selected_chain_sha256="@ + sha256_text(
                plugins_text(result.chain(choice.channel)->0.plugins),
            )
            &&& report.training is Some ==> lines[first]
                == "training_minimum_relative_tail_improvement_db="@
                + report.training->0.relative_tail_improvement_db
                + ";minimum_absolute_late_improvement_db="@
                + report.training->0.absolute_late_improvement_db
                + ";maximum_absolute_early_change_db="@ + report.training->0.early_change_db
            &&& report.held_out is Some ==> lines[second]
                == "held_out_minimum_relative_tail_improvement_db="@
                + report.held_out->0.relative_tail_improvement_db
                + ";minimum_absolute_late_improvement_db="@
                + report.held_out->0.absolute_late_improvement_db
                + ";maximum_absolute_early_change_db="@ + report.held_out->0.early_change_db
            &&& 0 <= i < pieces ==> {
                &&& lines[last + 2 * i] == "ir_sha256="@ + choice.evidence[i].identity
                &&& lines[last + 2 * i + 1] == "sidecar_sha256="@
                    + choice.evidence[i].sidecar_sha256
            }
        }),
{
    let chain = result.chain(choice.channel);
    let lines = advisories(choice, report, chain);
    assert(recorded(result, choice, report).stage_outcomes.last().advisories == lines);
    let opening = seq![choice.reason(), "config_sha256="@ + sha256_text(report.config_text)];
    let selection = selection_lines(choice, chain);
    let training = metrics_lines("training"@, report.training);
    let held_out = metrics_lines("held_out"@, report.held_out);
    let evidence = evidence_lines(choice.evidence);
    assert(lines == opening + selection + training + held_out + evidence);
    if choice.evidence.len() > 0 {
        lemma_evidence_lines(choice.evidence, if 0 <= i < choice.evidence.len() { i } else { 0 });
    }
    reveal_strlit("training");
    reveal_strlit("held_out");
    reveal_strlit("_minimum_relative_tail_improvement_db=");
    reveal_strlit("training_minimum_relative_tail_improvement_db=");
    reveal_strlit("held_out_minimum_relative_tail_improvement_db=");
    assert("training"@ + "_minimum_relative_tail_improvement_db="@
        =~= "training_minimum_relative_tail_improvement_db="@);
    assert("held_out"@ + "_minimum_relative_tail_improvement_db="@
        =~= "held_out_minimum_relative_tail_improvement_db="@);
}

/// A decision is made exactly if the output can be refined, the evidence qualifies for it, the
/// baseline has a valid energy at each piece, each delay falls inside the filter, and, where a
/// filter is to be delivered, the baseline can be divided by. It then is for the configured channel
/// and the planned file, with that evidence and the best of the candidates.
pub proof fn law_decision_is_made_exactly_if(
    result: ResultView,
    config: RoomConfig,
    sample_rate: Double,
    rate: u32,
    sources: Seq<SourceView>,
    trial: TrialView,
    choice: ChoiceView,
)
    requires
        config.temporal_fir is Some,
    ensures
        chosen(result, config, sample_rate, rate, sources, trial) == Ok::<
            Option<ChoiceView>,
            Seq<char>,
        >(Some(choice)) <==> {
            let strategy = config.temporal_fir->0;
            let plan = planned(result, strategy.channel@)->Ok_0;
            let taps = plan.baseline.len() as usize;
            &&& planned(result, strategy.channel@) is Ok
            &&& evidence_prepared(config, sample_rate, rate, taps, sources) == Ok::<
                Seq<EvidenceView>,
                Seq<char>,
            >(choice.evidence)
            &&& forall|i: int|
                0 <= i < trial.energies.len() ==> (#[trigger] trial.energies[i]) is Ok
            &&& forall|i: int|
                0 <= i < trial.shifts.len() ==> 0 < #[trigger] trial.shifts[i]
                    < plan.baseline.len()
            &&& choice.channel == strategy.channel@
            &&& choice.filename == plan.filename
            &&& choice.selected == best_of(
                Bench { strategy, taps, sample_rate, ceiling: trial.ceiling },
                trial.evaluations,
            )
            &&& choice.selected is Some && choice.selected->0.confirmed ==> forall|i: int|
                0 <= i < trial.response.len() ==> (#[trigger] trial.response[i]).nan() || (Double {
                    bits: 0x3e11_2e0b_e826_d695,
                }).at_most(trial.response[i])
        },
{
    law_first_invalid_energy_counts(trial.energies, 0);
    let strategy = config.temporal_fir->0;
    if planned(result, strategy.channel@) is Ok {
        let plan = planned(result, strategy.channel@)->Ok_0;
        let taps = plan.baseline.len() as usize;
        let selected = best_of(
            Bench { strategy, taps, sample_rate, ceiling: trial.ceiling },
            trial.evaluations,
        );
        let made = ChoiceView {
            channel: strategy.channel@,
            filename: plan.filename,
            evidence: evidence_prepared(config, sample_rate, rate, taps, sources)->Ok_0,
            selected,
        };
        law_only_representable_baselines_are_replaced(made, trial.response);
    }
}

/// An output that cannot be refined is refused for the first of these reasons.
pub proof fn law_output_is_refused_for_the_first_reason(result: ResultView, name: Seq<char>, k: int)
    requires
        planned(result, name) is Err,
    ensures
        ({
            let chain = result.chain(name)->0;
            let mark = "temporal_fir: "@;
            let words = planned(result, name)->Err_0;
            let sole = 0 <= k < chain.plugins.len() && chain.plugins[k].plugin_type
                == "convolution"@ && !chain.has_drivers && forall|j: int|
                0 <= j < chain.plugins.len() && j != k ==> (
                #[trigger] chain.plugins[j]).plugin_type == "gain"@;
            let named = chain.plugins[k].parameters.member("filename"@) is Text
                || chain.plugins[k].parameters.member("ir_file"@) is Text;
            &&& result.chain(name) is None ==> words == mark + "target channel has no output chain"@
            &&& result.chain(name) is Some && (chain.has_drivers || forall|m: int|
                #![trigger result.chain(name)->0.plugins[m]]
                0 <= m < chain.plugins.len() && result.chain(name)->0.plugins[m].plugin_type
                    == "convolution"@ ==> exists|j: int|
                    #![trigger result.chain(name)->0.plugins[j]]
                    0 <= j < chain.plugins.len() && j != m && result.chain(
                        name,
                    )->0.plugins[j].plugin_type != "gain"@) ==> words == mark
                + "target output must own one FIR and optional constant gain only"@
            &&& result.chain(name) is Some && sole && !named ==> words == mark
                + "convolution file identity unavailable"@
            &&& result.chain(name) is Some && sole && named ==> words == mark
                + "target channel has no retained FIR coefficients"@
        }),
{
    if result.chain(name) is Some {
        let plugins = result.chain(name)->0.plugins;
        let m = choose|m: int| sole_convolution(plugins, m);
        if exists|m: int| sole_convolution(plugins, m) {
            assert(plugins[m].plugin_type == "convolution"@);
        }
        if sole_convolution(plugins, k) {
            lemma_only_one_convolution(plugins, k, m);
        }
    }
}

/// Where the last report of the stage is that it was applied, a result is final exactly if the
/// first line with the mark of the taps tells the digest of the retained taps, as singles, and the
/// first one with the mark of the plugins that of the plugins of the output.
pub proof fn law_final_check_compares_both_identities(
    result: ResultView,
    config: RoomConfig,
    k: int,
)
    requires
        config.temporal_fir is Some,
        0 <= k < result.stage_outcomes.len(),
        result.stage_outcomes[k].stage == "temporal_fir"@,
        result.stage_outcomes[k].status == StageStatus::Applied,
        forall|j: int|
            k < j < result.stage_outcomes.len() ==> (#[trigger] result.stage_outcomes[j]).stage
                != "temporal_fir"@,
    ensures
        ({
            let lines = result.stage_outcomes[k].advisories;
            let name = config.temporal_fir->0.channel@;
            let taps_line = value_of(lines, "selected_taps_sha256="@);
            let chain_line = value_of(lines, "selected_chain_sha256="@);
            let mark = "temporal_fir: "@;
            final_fault(result, config) == if taps_line is None {
                Some(mark + "selected tap identity missing"@)
            } else if result.taps(name) is None {
                Some(mark + "selected FIR was removed after qualification"@)
            } else if taps_line != Some(
                sha256_text(samples_bytes(rounded(result.taps(name)->0))),
            ) {
                Some(mark + "selected FIR changed after temporal qualification"@)
            } else if chain_line is None {
                Some(mark + "selected chain identity missing"@)
            } else if result.chain(name) is None {
                Some(mark + "selected output chain disappeared"@)
            } else if chain_line != Some(
                sha256_text(plugins_text(result.chain(name)->0.plugins)),
            ) {
                Some(mark + "output chain changed after temporal qualification"@)
            } else {
                None
            }
        }),
{
    law_last_report_of_the_stage_counts(result.stage_outcomes);
}

/// Where no decision can be made, the first of these reasons is given.
pub proof fn law_decision_is_refused_for_the_first_reason(
    result: ResultView,
    config: RoomConfig,
    sample_rate: Double,
    rate: u32,
    sources: Seq<SourceView>,
    trial: TrialView,
    k: int,
)
    requires
        config.temporal_fir is Some,
        chosen(result, config, sample_rate, rate, sources, trial) is Err,
    ensures
        ({
            let strategy = config.temporal_fir->0;
            let plan = planned(result, strategy.channel@);
            let taps = plan->Ok_0.baseline.len() as usize;
            let evidence = evidence_prepared(config, sample_rate, rate, taps, sources);
            let energetic = forall|i: int|
                0 <= i < trial.energies.len() ==> (#[trigger] trial.energies[i]) is Ok;
            let inside = forall|i: int|
                0 <= i < trial.shifts.len() ==> 0 < #[trigger] trial.shifts[i]
                    < plan->Ok_0.baseline.len();
            let words = chosen(result, config, sample_rate, rate, sources, trial)->Err_0;
            &&& plan is Err ==> words == plan->Err_0
            &&& plan is Ok && evidence is Err ==> words == evidence->Err_0
            &&& plan is Ok && evidence is Ok && 0 <= k < trial.energies.len()
                && trial.energies[k] is Err && (forall|j: int|
                0 <= j < k ==> (#[trigger] trial.energies[j]) is Ok) ==> words
                == "temporal_fir: "@ + ("baseline has invalid recorded-window energy: "@
                + trial.energies[k]->Err_0)
            &&& plan is Ok && evidence is Ok && energetic && !inside ==> words
                == "temporal_fir: "@ + "candidate delay falls outside configured FIR taps"@
            &&& plan is Ok && evidence is Ok && energetic && inside ==> words
                == "temporal_fir: "@ + "baseline FIR response has an unrepresentable zero"@
        }),
{
    law_first_invalid_energy_counts(trial.energies, k);
}

} // verus!
