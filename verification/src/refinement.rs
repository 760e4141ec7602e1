//! The temporal refinement of one output: what it starts from, what it decides, how the decision
//! is recorded, and whether the result still is the one that was qualified.

use crate::digest::{samples_bytes, samples_sha256, sha256, sha256_text};
use crate::error::{invalid, invalid_text, AutoeqError};
use crate::evidence::{evidence_views, item_views, Evidence, EvidenceView, ItemView, SourceView};
use crate::evidence_laws::law_every_piece_is_bound;
use crate::ieee::{doubles, law_rounding_is_idempotent, rounded, singles, wide, Double};
use crate::intake::{evidence_prepared, prepared, source_views, EvidenceSource};
use crate::json::{content, json_of, JsonView};
use crate::metrics::accepted_gain;
use crate::provenance::wav_header;
use crate::room::RoomConfig;
use crate::room_result::{
    lemma_delivery, optional_curve, plugins_text, write_plugins, ChainView, ChannelView, Curve,
    CurveView,
    OutcomeView, OutputChain, PluginView, ResultView, RoomOptimizationResult, StageOutcome,
    StageStatus,
};
use crate::search::{
    as_selected, best_of, check_shifts, complete, evaluation_views, grid_size, is_first_best,
    law_best_candidate_is_picked, optional_selected, select, shifts_inside, training_gain, Bench,
    Evaluation, EvaluationView, Search, Selected, SelectedView,
};
use crate::spectrum::{comparable_length, spectrum_kept, LEAST_MAGNITUDE};
use crate::temporal_fir_config::{TemporalFirConfig, TemporalPartition};
use crate::text::{same_text, strip_prefix, stripped, texts};
use crate::wav::{
    law_written_samples_are_read_back, wav_file, wav_samples, write_mono, HIGHEST_RATE,
    MOST_SAMPLES,
};
use vstd::prelude::*;

verus! {

/// Whether the plugin at `k` is a convolution, and every other one a gain.
pub open spec fn sole_convolution(plugins: Seq<PluginView>, k: int) -> bool {
    &&& 0 <= k < plugins.len()
    &&& plugins[k].plugin_type == "convolution"@
    &&& forall|j: int|
        0 <= j < plugins.len() && j != k ==> (#[trigger] plugins[j]).plugin_type == "gain"@
}

/// Whether an output owns one FIR filter, besides gains only.
pub open spec fn refinable(chain: ChainView) -> bool {
    !chain.has_drivers && exists|k: int| sole_convolution(chain.plugins, k)
}

/// The file that a convolution is loaded from.
pub open spec fn convolution_file(parameters: JsonView) -> Option<Seq<char>> {
    match parameters.member("filename"@).text() {
        Some(file) => Some(file),
        None => parameters.member("ir_file"@).text(),
    }
}

/// What a refinement starts from.
pub struct PlanView {
    /// The file of the filter.
    pub filename: Seq<char>,
    /// The taps of the filter, as they are delivered.
    pub baseline: Seq<u32>,
}

/// What the refinement of a channel starts from, or why it cannot be refined.
pub open spec fn planned(result: ResultView, channel: Seq<char>) -> Result<PlanView, Seq<char>> {
    match result.chain(channel) {
        None => Err(invalid_text("target channel has no output chain"@)),
        Some(chain) => if !refinable(chain) {
            Err(invalid_text("target output must own one FIR and optional constant gain only"@))
        } else {
            let k = choose|k: int| sole_convolution(chain.plugins, k);
            match convolution_file(chain.plugins[k].parameters) {
                None => Err(invalid_text("convolution file identity unavailable"@)),
                Some(filename) => match result.taps(channel) {
                    None => Err(
                        invalid_text("target channel has no retained FIR coefficients"@),
                    ),
                    Some(taps) => Ok(PlanView { filename, baseline: rounded(taps) }),
                },
            }
        },
    }
}

/// What a refinement starts from.
#[derive(Clone, Debug)]
pub struct Plan {
    /// The file of the filter.
    pub filename: String,
    /// The taps of the filter, as they are delivered.
    pub baseline: Vec<u32>,
}

impl View for Plan {
    type V = PlanView;

    open spec fn view(&self) -> PlanView {
        PlanView { filename: self.filename@, baseline: self.baseline@ }
    }
}

/// Where the only convolution of an output stands.
fn find_convolution(chain: &OutputChain) -> (r: Option<usize>)
    ensures
        match r {
            Some(k) => refinable(chain@) && sole_convolution(chain@.plugins, k as int),
            None => !refinable(chain@),
        },
{
    if chain.has_drivers {
        return None;
    }
    let mut found: Option<usize> = None;
    let mut i: usize = 0;
    while i < chain.plugins.len()
        invariant
            i <= chain.plugins@.len(),
            match found {
                None => forall|j: int|
                    0 <= j < i ==> (#[trigger] chain@.plugins[j]).plugin_type == "gain"@,
                Some(k) => {
                    &&& k < i
                    &&& chain@.plugins[k as int].plugin_type == "convolution"@
                    &&& forall|j: int|
                        0 <= j < i && j != k ==> (#[trigger] chain@.plugins[j]).plugin_type
                            == "gain"@
                },
            },
        decreases chain.plugins@.len() - i,
    {
        let plugin_type = chain.plugins[i].plugin_type.as_str();
        assert(chain@.plugins[i as int].plugin_type == plugin_type@);
        proof {
            lemma_plugin_types_differ();
        }
        if same_text(plugin_type, "convolution") {
            if found.is_some() {
                assert(chain@.plugins[found->0 as int].plugin_type == "convolution"@);
                return None;
            }
            found = Some(i);
        } else if !same_text(plugin_type, "gain") {
            return None;
        }
        i = i + 1;
    }
    proof {
        lemma_plugin_types_differ();
        if found is Some {
            assert(sole_convolution(chain@.plugins, found->0 as int));
        }
    }
    found
}

proof fn lemma_plugin_types_differ()
    ensures
        "convolution"@ != "gain"@,
{
    reveal_strlit("convolution");
    reveal_strlit("gain");
    assert("convolution"@.len() != "gain"@.len());
}

/// The file that a convolution is loaded from.
fn file_of(parameters: &serde_json::Value) -> (r: Option<String>)
    ensures
        match r {
            Some(file) => convolution_file(content(*parameters)) == Some(file@),
            None => convolution_file(content(*parameters)) is None,
        },
{
    let parameters = json_of(parameters);
    match parameters.member("filename").as_text() {
        Some(file) => Some(file.to_owned()),
        None => match parameters.member("ir_file").as_text() {
            Some(file) => Some(file.to_owned()),
            None => None,
        },
    }
}

/// Finds what the refinement of a channel starts from.
pub fn plan(result: &RoomOptimizationResult, channel: &str) -> (r: Result<Plan, AutoeqError>)
    ensures
        match r {
            Ok(plan) => planned(result@, channel@) == Ok::<PlanView, Seq<char>>(plan@),
            Err(e) => planned(result@, channel@) == Err::<PlanView, Seq<char>>(e@),
        },
{
    let chain = match result.find_chain(channel) {
        Some(k) => {
            assert(result@.channels[k as int] == result.channels@[k as int]@);
            &result.channels[k]
        },
        None => return Err(invalid("target channel has no output chain")),
    };
    let k: usize = match find_convolution(chain) {
        Some(k) => k,
        None => {
            return Err(invalid("target output must own one FIR and optional constant gain only"));
        },
    };
    proof {
        lemma_plugin_types_differ();
        let chosen = choose|k: int| sole_convolution(chain@.plugins, k);
        assert(chosen == k);
        assert(chain@.plugins[k as int] == chain.plugins@[k as int]@);
    }
    let filename = match file_of(&chain.plugins[k].parameters) {
        Some(file) => file,
        None => return Err(invalid("convolution file identity unavailable")),
    };
    if let Some(k) = result.find_channel(channel) {
        assert(result@.channel_results[k as int] == result.channel_results@[k as int]@);
        if let Some(taps) = &result.channel_results[k].fir_coeffs {
            return Ok(Plan { filename, baseline: singles(taps) });
        }
    }
    Err(invalid("target channel has no retained FIR coefficients"))
}

/// Why the baseline cannot be compared, if it cannot: it has no valid energy in a recorded
/// window.
pub open spec fn energy_fault(energies: Seq<Result<(), Seq<char>>>) -> Option<Seq<char>>
    decreases energies.len(),
{
    if energies.len() == 0 {
        None
    } else if energies[0] is Err {
        Some(
            invalid_text(
                "baseline has invalid recorded-window energy: "@ + energies[0]->Err_0,
            ),
        )
    } else {
        energy_fault(energies.drop_first())
    }
}

/// What was said of each energy.
pub open spec fn energy_views(energies: Seq<Result<(), String>>) -> Seq<Result<(), Seq<char>>> {
    energies.map_values(
        |energy: Result<(), String>|
            match energy {
                Ok(_) => Ok::<(), Seq<char>>(()),
                Err(words) => Err::<(), Seq<char>>(words@),
            },
    )
}

/// Checks the energy of the baseline at each piece of evidence.
pub fn check_energies(energies: &Vec<Result<(), String>>) -> (r: Result<(), AutoeqError>)
    ensures
        match r {
            Ok(_) => energy_fault(energy_views(energies@)) is None,
            Err(e) => energy_fault(energy_views(energies@)) == Some(e@),
        },
{
    let ghost all = energy_views(energies@);
    let mut i: usize = 0;
    assert(all.skip(0) =~= all);
    while i < energies.len()
        invariant
            all == energy_views(energies@),
            i <= energies@.len(),
            energy_fault(all) == energy_fault(all.skip(i as int)),
        decreases energies@.len() - i,
    {
        assert(all.skip(i as int)[0] == all[i as int]);
        if let Err(words) = &energies[i] {
            let mut message = "baseline has invalid recorded-window energy: ".to_owned();
            message.append(words.as_str());
            return Err(invalid(message.as_str()));
        }
        assert(all.skip(i as int).drop_first() =~= all.skip(i + 1));
        i = i + 1;
    }
    Ok(())
}

/// Whether the response of the baseline has a magnitude, at some frequency, that cannot be
/// divided by.
pub open spec fn has_zero(response: Seq<Double>) -> bool {
    exists|i: int|
        0 <= i < response.len() && (#[trigger] response[i]).below(
            Double { bits: LEAST_MAGNITUDE },
        )
}

fn contains_zero(response: &Vec<Double>) -> (r: bool)
    ensures
        r == has_zero(response@),
{
    let mut i: usize = 0;
    while i < response.len()
        invariant
            i <= response@.len(),
            forall|j: int|
                0 <= j < i ==> !(#[trigger] response@[j]).below(Double { bits: LEAST_MAGNITUDE }),
        decreases response@.len() - i,
    {
        if response[i].is_below(Double { bits: LEAST_MAGNITUDE }) {
            return true;
        }
        i = i + 1;
    }
    false
}

/// What a refinement decided.
#[derive(Clone, Debug)]
pub struct Choice {
    pub channel: String,
    /// The file of the filter.
    pub filename: String,
    pub evidence: Vec<Evidence>,
    /// The candidate that the training evidence picked.
    pub selected: Option<Selected>,
}

/// What a [`Choice`] says.
pub struct ChoiceView {
    pub channel: Seq<char>,
    pub filename: Seq<char>,
    pub evidence: Seq<EvidenceView>,
    pub selected: Option<SelectedView>,
}

impl View for Choice {
    type V = ChoiceView;

    open spec fn view(&self) -> ChoiceView {
        ChoiceView {
            channel: self.channel@,
            filename: self.filename@,
            evidence: evidence_views(self.evidence@),
            selected: optional_selected(self.selected),
        }
    }
}

impl ChoiceView {
    /// Whether a candidate was picked that the held-out evidence accepts.
    pub open spec fn accepted(self) -> bool {
        self.selected is Some && self.selected->0.confirmed
    }

    /// What becomes of the stage.
    pub open spec fn status(self) -> StageStatus {
        if self.accepted() {
            StageStatus::Applied
        } else {
            StageStatus::Skipped
        }
    }

    /// Why.
    pub open spec fn reason(self) -> Seq<char> {
        if self.accepted() {
            "held_out_accepted"@
        } else if self.selected is Some {
            "held_out_rejected"@
        } else {
            "no_training_candidate"@
        }
    }
}

impl Choice {
    /// Whether a candidate was picked that the held-out evidence accepts.
    pub fn is_accepted(&self) -> (r: bool)
        ensures
            r == self@.accepted(),
    {
        match &self.selected {
            Some(selected) => selected.confirmed,
            None => false,
        }
    }
}

/// What the end of a search leads to: a candidate that is to be delivered must not divide by a
/// zero of the baseline.
pub open spec fn settled(choice: ChoiceView, response: Seq<Double>) -> Result<
    ChoiceView,
    Seq<char>,
> {
    if choice.accepted() && has_zero(response) {
        Err(invalid_text("baseline FIR response has an unrepresentable zero"@))
    } else {
        Ok(choice)
    }
}

/// The choice that the end of a search makes.
pub open spec fn choice_of(
    strategy: TemporalFirConfig,
    plan: PlanView,
    evidence: Seq<EvidenceView>,
    selected: Option<SelectedView>,
) -> ChoiceView {
    ChoiceView { channel: strategy.channel@, filename: plan.filename, evidence, selected }
}

/// Makes the choice at the end of a search. `response` holds the magnitudes of the baseline at
/// the frequencies of the final curve.
pub fn settle(
    strategy: &TemporalFirConfig,
    plan: Plan,
    evidence: Vec<Evidence>,
    selected: Option<Selected>,
    response: &Vec<Double>,
) -> (r: Result<Choice, AutoeqError>)
    ensures
        ({
            let choice = choice_of(
                *strategy,
                plan@,
                evidence_views(evidence@),
                optional_selected(selected),
            );
            match r {
                Ok(done) => settled(choice, response@) == Ok::<ChoiceView, Seq<char>>(done@),
                Err(e) => settled(choice, response@) == Err::<ChoiceView, Seq<char>>(e@),
            }
        }),
{
    let choice = Choice {
        channel: strategy.channel.clone(),
        filename: plan.filename,
        evidence,
        selected,
    };
    if choice.is_accepted() && contains_zero(response) {
        return Err(invalid("baseline FIR response has an unrepresentable zero"));
    }
    Ok(choice)
}

/// What was computed with the taps of the baseline and of the candidates.
#[derive(Debug)]
pub struct Trial {
    /// Whether the baseline has a valid energy at each piece of evidence.
    pub energies: Vec<Result<(), String>>,
    /// The delays of the candidates, in samples.
    pub shifts: Vec<usize>,
    /// The highest level that is allowed, where the configuration limits it.
    pub ceiling: Option<Double>,
    /// The candidates, in the order in which they are tried.
    pub evaluations: Vec<Evaluation>,
    /// The magnitudes of the baseline at the frequencies of the final curve.
    pub response: Vec<Double>,
}

/// What a [`Trial`] says.
pub struct TrialView {
    pub energies: Seq<Result<(), Seq<char>>>,
    pub shifts: Seq<usize>,
    pub ceiling: Option<Double>,
    pub evaluations: Seq<EvaluationView>,
    pub response: Seq<Double>,
}

impl View for Trial {
    type V = TrialView;

    open spec fn view(&self) -> TrialView {
        TrialView {
            energies: energy_views(self.energies@),
            shifts: self.shifts@,
            ceiling: self.ceiling,
            evaluations: evaluation_views(self.evaluations@),
            response: self.response@,
        }
    }
}

/// What the candidates of a trial are judged by.
pub open spec fn bench_of(
    strategy: TemporalFirConfig,
    plan: PlanView,
    sample_rate: Double,
    trial: TrialView,
) -> Bench {
    Bench {
        strategy,
        taps: plan.baseline.len() as usize,
        sample_rate,
        ceiling: trial.ceiling,
    }
}

/// What a configuration uses its evidence for, piece by piece.
pub open spec fn configured_uses(strategy: TemporalFirConfig) -> Seq<TemporalPartition> {
    item_views(strategy.evidence@).map_values(|item: ItemView| item.partition)
}

/// Whether a trial is complete: the level is limited where it is to be, there is a magnitude of
/// the filter for each frequency of the final curve, an energy for each piece of evidence and a
/// delay in samples for each configured one, and, where these are usable, a complete evaluation
/// for each delay and strength.
pub open spec fn fits(
    trial: TrialView,
    result: ResultView,
    config: RoomConfig,
    sample_rate: Double,
) -> bool {
    config.temporal_fir matches Some(strategy) ==> {
        &&& trial.ceiling is Some <==> config.fir is Some && config.fir->0.max_boost_db is Some
        &&& planned(result, strategy.channel@) matches Ok(plan) ==> {
            &&& trial.response.len() == result.channel(strategy.channel@)->0.final_curve.freq.len()
            &&& trial.energies.len() == strategy.evidence@.len()
            &&& trial.shifts.len() == strategy.delays_seconds@.len()
            &&& energy_fault(trial.energies) is None && shifts_inside(
                trial.shifts,
                plan.baseline.len(),
            ) ==> {
                &&& trial.evaluations.len() == grid_size(strategy)
                &&& forall|i: int|
                    0 <= i < trial.evaluations.len() ==> complete(
                        bench_of(strategy, plan, sample_rate, trial),
                        configured_uses(strategy),
                        #[trigger] trial.evaluations[i],
                    )
            }
        }
    }
}

/// What a refinement decides, or why it is refused. Without a strategy there is nothing to
/// decide.
pub open spec fn chosen(
    result: ResultView,
    config: RoomConfig,
    sample_rate: Double,
    rate: u32,
    sources: Seq<SourceView>,
    trial: TrialView,
) -> Result<Option<ChoiceView>, Seq<char>> {
    match config.temporal_fir {
        None => Ok(None),
        Some(strategy) => match planned(result, strategy.channel@) {
            Err(words) => Err(words),
            Ok(plan) => {
                let taps = plan.baseline.len() as usize;
                match evidence_prepared(config, sample_rate, rate, taps, sources) {
                    Err(words) => Err(words),
                    Ok(evidence) => if energy_fault(trial.energies) is Some {
                        Err(energy_fault(trial.energies)->0)
                    } else if !shifts_inside(trial.shifts, plan.baseline.len()) {
                        Err(invalid_text("candidate delay falls outside configured FIR taps"@))
                    } else {
                        let selected = best_of(
                            bench_of(strategy, plan, sample_rate, trial),
                            trial.evaluations,
                        );
                        let choice = choice_of(strategy, plan, evidence, selected);
                        match settled(choice, trial.response) {
                            Err(words) => Err(words),
                            Ok(choice) => Ok(Some(choice)),
                        }
                    },
                }
            },
        },
    }
}

/// What may have been decided.
pub open spec fn optional_choice(choice: Option<Choice>) -> Option<ChoiceView> {
    match choice {
        Some(choice) => Some(choice@),
        None => None,
    }
}

/// Decides on the refinement that a configuration asks for. Without a strategy there is nothing
/// to decide.
pub fn decide(
    result: &RoomOptimizationResult,
    config: &RoomConfig,
    sample_rate: Double,
    rate: u32,
    sources: &Vec<EvidenceSource>,
    trial: &Trial,
) -> (r: Result<Option<Choice>, AutoeqError>)
    requires
        config.temporal_fir is Some ==> sources@.len() == config.temporal_fir->0.evidence@.len(),
        fits(trial@, result@, *config, sample_rate),
    ensures
        match r {
            Ok(choice) => chosen(
                result@,
                *config,
                sample_rate,
                rate,
                source_views(sources@),
                trial@,
            ) == Ok::<Option<ChoiceView>, Seq<char>>(optional_choice(choice)),
            Err(e) => chosen(
                result@,
                *config,
                sample_rate,
                rate,
                source_views(sources@),
                trial@,
            ) == Err::<Option<ChoiceView>, Seq<char>>(e@),
        },
{
    let strategy = match &config.temporal_fir {
        Some(strategy) => strategy,
        None => return Ok(None),
    };
    let start = plan(result, strategy.channel.as_str())?;
    let taps: usize = start.baseline.len();
    let evidence = prepared(config, sample_rate, rate, taps, sources)?;
    check_energies(&trial.energies)?;
    check_shifts(&trial.shifts, taps)?;
    let search = Search::new(strategy, &evidence, taps, sample_rate, trial.ceiling);
    proof {
        let fetched = source_views(sources@);
        let bench = bench_of(*strategy, start@, sample_rate, trial@);
        assert(search.bench() == bench);
        assert forall|i: int| 0 <= i < strategy.evidence@.len() implies {
            &&& search.partitions().len() == strategy.evidence@.len()
            &&& search.partitions()[i] == configured_uses(*strategy)[i]
        } by {
            law_every_piece_is_bound(*config, sample_rate, rate, taps, fetched, i);
        }
        lemma_evidence_is_configured(*config, sample_rate, rate, taps, fetched);
        assert(search.partitions() =~= configured_uses(*strategy));
        assert forall|i: int| 0 <= i < trial.evaluations@.len() implies complete(
            search.bench(),
            search.partitions(),
            (#[trigger] trial.evaluations@[i])@,
        ) by {
            assert(trial@.evaluations[i] == trial.evaluations@[i]@);
        }
    }
    let selected = select(search, &trial.shifts, &trial.evaluations);
    Ok(Some(settle(strategy, start, evidence, selected, &trial.response)?))
}

/// There is a piece of evidence for each that is configured.
proof fn lemma_evidence_is_configured(
    config: RoomConfig,
    sample_rate: Double,
    rate: u32,
    taps: usize,
    sources: Seq<SourceView>,
)
    requires
        config.temporal_fir is Some,
        evidence_prepared(config, sample_rate, rate, taps, sources) is Ok,
    ensures
        evidence_prepared(config, sample_rate, rate, taps, sources)->Ok_0.len()
            == config.temporal_fir->0.evidence@.len(),
{
    assert(config.temporal_fir->0.evidence@.len() > 0);
    law_every_piece_is_bound(config, sample_rate, rate, taps, sources, 0);
}

/// Metrics as they are reported, with their numbers written out.
#[derive(Clone, Debug)]
pub struct MetricsText {
    pub relative_tail_improvement_db: String,
    pub absolute_late_improvement_db: String,
    pub early_change_db: String,
}

/// What a [`MetricsText`] says.
pub struct MetricsTextView {
    pub relative_tail_improvement_db: Seq<char>,
    pub absolute_late_improvement_db: Seq<char>,
    pub early_change_db: Seq<char>,
}

impl View for MetricsText {
    type V = MetricsTextView;

    open spec fn view(&self) -> MetricsTextView {
        MetricsTextView {
            relative_tail_improvement_db: self.relative_tail_improvement_db@,
            absolute_late_improvement_db: self.absolute_late_improvement_db@,
            early_change_db: self.early_change_db@,
        }
    }
}

/// What is said where metrics may be missing.
pub open spec fn optional_metrics(text: Option<MetricsText>) -> Option<MetricsTextView> {
    match text {
        Some(text) => Some(text@),
        None => None,
    }
}

/// What is written of a choice besides what it says itself.
#[derive(Clone, Debug)]
pub struct Report {
    /// The strategy, as JSON text.
    pub config_text: Vec<u8>,
    /// The metrics of the candidate that was picked, over the training evidence.
    pub training: Option<MetricsText>,
    /// The metrics of the candidate that was picked, over the held-out evidence.
    pub held_out: Option<MetricsText>,
    /// The final curve of the channel with the filter that is delivered, where one is.
    pub final_curve: Option<Curve>,
}

/// What a [`Report`] says.
pub struct ReportView {
    pub config_text: Seq<u8>,
    pub training: Option<MetricsTextView>,
    pub held_out: Option<MetricsTextView>,
    pub final_curve: Option<CurveView>,
}

impl View for Report {
    type V = ReportView;

    open spec fn view(&self) -> ReportView {
        ReportView {
            config_text: self.config_text@,
            training: optional_metrics(self.training),
            held_out: optional_metrics(self.held_out),
            final_curve: optional_curve(self.final_curve),
        }
    }
}

/// Whether a report has metrics where the choice has them, and a curve where a filter is
/// delivered.
pub open spec fn reports_on(report: ReportView, choice: ChoiceView) -> bool {
    &&& report.training is Some <==> choice.selected is Some && choice.selected->0.training is Some
    &&& report.held_out is Some <==> choice.selected is Some && choice.selected->0.held_out is Some
    &&& report.final_curve is Some <==> choice.accepted()
}

/// The line on the metrics over the evidence of one use; none where there are no metrics.
pub open spec fn metrics_lines(label: Seq<char>, text: Option<MetricsTextView>) -> Seq<Seq<char>> {
    match text {
        None => Seq::empty(),
        Some(text) => seq![
            label + "_minimum_relative_tail_improvement_db="@ + text.relative_tail_improvement_db
                + ";minimum_absolute_late_improvement_db="@ + text.absolute_late_improvement_db
                + ";maximum_absolute_early_change_db="@ + text.early_change_db,
        ],
    }
}

/// The lines on the identities of the evidence, piece by piece.
pub open spec fn evidence_lines(evidence: Seq<EvidenceView>) -> Seq<Seq<char>>
    decreases evidence.len(),
{
    if evidence.len() == 0 {
        Seq::empty()
    } else {
        evidence_lines(evidence.drop_last()) + seq![
            "ir_sha256="@ + evidence.last().identity,
            "sidecar_sha256="@ + evidence.last().sidecar_sha256,
        ]
    }
}

/// The lines on the identities of what is delivered; none where nothing is.
pub open spec fn selection_lines(choice: ChoiceView, chain: Option<ChainView>) -> Seq<Seq<char>> {
    if choice.accepted() {
        seq![
            "selected_taps_sha256="@ + sha256_text(samples_bytes(choice.selected->0.taps)),
            "selected_chain_sha256="@ + sha256_text(plugins_text(chain->0.plugins)),
        ]
    } else {
        Seq::empty()
    }
}

/// What is said of a choice.
pub open spec fn advisories(
    choice: ChoiceView,
    report: ReportView,
    chain: Option<ChainView>,
) -> Seq<Seq<char>> {
    seq![choice.reason(), "config_sha256="@ + sha256_text(report.config_text)] + selection_lines(
        choice,
        chain,
    ) + metrics_lines("training"@, report.training) + metrics_lines("held_out"@, report.held_out)
        + evidence_lines(choice.evidence)
}

/// The result after a choice: where it is accepted, the channel has the filter that was picked
/// and the final curve with it, and its output the same curve. The stage is reported.
pub open spec fn recorded(
    result: ResultView,
    choice: ChoiceView,
    report: ReportView,
) -> ResultView {
    let refined = if choice.accepted() {
        result.with_delivery(
            choice.channel,
            wide(choice.selected->0.taps),
            report.final_curve->0,
        )
    } else {
        result
    };
    ResultView {
        stage_outcomes: result.stage_outcomes.push(
            OutcomeView {
                stage: "temporal_fir"@,
                status: choice.status(),
                checks: Seq::empty(),
                advisories: advisories(choice, report, result.chain(choice.channel)),
            },
        ),
        ..refined
    }
}

/// `head` followed by `tail`.
fn concatenated(head: &str, tail: &str) -> (r: String)
    ensures
        r@ == head@ + tail@,
{
    let mut r = head.to_owned();
    r.append(tail);
    r
}

fn push_metrics(lines: &mut Vec<String>, label: &str, text: &Option<MetricsText>)
    ensures
        texts(final(lines)@) == texts(old(lines)@) + metrics_lines(label@, optional_metrics(*text)),
{
    let ghost before = texts(lines@);
    match text {
        Some(text) => {
            let mut line = label.to_owned();
            line.append("_minimum_relative_tail_improvement_db=");
            line.append(text.relative_tail_improvement_db.as_str());
            line.append(";minimum_absolute_late_improvement_db=");
            line.append(text.absolute_late_improvement_db.as_str());
            line.append(";maximum_absolute_early_change_db=");
            line.append(text.early_change_db.as_str());
            let ghost written = line@;
            lines.push(line);
            assert(texts(lines@) =~= before + seq![written]);
        },
        None => {
            assert(texts(lines@) =~= before + Seq::<Seq<char>>::empty());
        },
    }
}

fn push_evidence(lines: &mut Vec<String>, evidence: &Vec<Evidence>)
    ensures
        texts(final(lines)@) == texts(old(lines)@) + evidence_lines(evidence_views(evidence@)),
{
    let ghost before = texts(lines@);
    let ghost all = evidence_views(evidence@);
    let mut i: usize = 0;
    assert(all.take(0) =~= Seq::<EvidenceView>::empty());
    assert(texts(lines@) =~= before + evidence_lines(all.take(0)));
    while i < evidence.len()
        invariant
            all == evidence_views(evidence@),
            i <= evidence@.len(),
            texts(lines@) == before + evidence_lines(all.take(i as int)),
        decreases evidence@.len() - i,
    {
        let ghost so_far = texts(lines@);
        let ghost item = all[i as int];
        lines.push(concatenated("ir_sha256=", evidence[i].identity.as_str()));
        lines.push(concatenated("sidecar_sha256=", evidence[i].sidecar_sha256.as_str()));
        i = i + 1;
        proof {
            assert(all.take(i as int).drop_last() =~= all.take(i - 1));
            assert(all.take(i as int).last() == item);
            assert(texts(lines@) =~= so_far + seq![
                "ir_sha256="@ + item.identity,
                "sidecar_sha256="@ + item.sidecar_sha256,
            ]);
            assert(texts(lines@) =~= before + evidence_lines(all.take(i as int)));
        }
    }
    assert(all.take(i as int) =~= all);
}

/// Records a choice in the result: where it is accepted, the channel gets the filter that was
/// picked and the final curve with it, and its output the same curve. The stage is reported.
pub fn apply(result: &mut RoomOptimizationResult, choice: &Choice, report: &Report)
    requires
        reports_on(report@, choice@),
        choice@.accepted() ==> old(result)@.chain(choice@.channel) is Some && old(result)@.taps(
            choice@.channel,
        ) is Some,
    ensures
        final(result)@ == recorded(old(result)@, choice@, report@),
{
    let ghost before = result@;
    let mut lines: Vec<String> = Vec::new();
    let accepted = choice.is_accepted();
    let reason: &str = if accepted {
        "held_out_accepted"
    } else if choice.selected.is_some() {
        "held_out_rejected"
    } else {
        "no_training_candidate"
    };
    lines.push(reason.to_owned());
    lines.push(concatenated("config_sha256=", sha256(report.config_text.as_slice()).as_str()));
    let ghost opening = seq![
        choice@.reason(),
        "config_sha256="@ + sha256_text(report@.config_text),
    ];
    assert(texts(lines@) =~= opening);
    if let Some(selected) = &choice.selected {
        if accepted {
            let taps_sha256 = samples_sha256(selected.taps.as_slice());
            lines.push(concatenated("selected_taps_sha256=", taps_sha256.as_str()));
            if let Some(k) = result.find_chain(choice.channel.as_str()) {
                let chain_sha256 = sha256(write_plugins(&result.channels[k].plugins).as_slice());
                lines.push(concatenated("selected_chain_sha256=", chain_sha256.as_str()));
                assert(before.channels[k as int] == result.channels@[k as int]@);
            }
            if let Some(curve) = &report.final_curve {
                result.deliver(choice.channel.as_str(), doubles(&selected.taps), curve);
            }
        }
    }
    let ghost chain = before.chain(choice@.channel);
    let ghost selection = selection_lines(choice@, chain);
    assert(texts(lines@) =~= opening + selection);
    push_metrics(&mut lines, "training", &report.training);
    push_metrics(&mut lines, "held_out", &report.held_out);
    push_evidence(&mut lines, &choice.evidence);
    assert(texts(lines@) =~= advisories(choice@, report@, chain));
    let status = if accepted {
        StageStatus::Applied
    } else {
        StageStatus::Skipped
    };
    let outcome = StageOutcome {
        stage: "temporal_fir".to_owned(),
        status,
        checks: Vec::new(),
        advisories: lines,
    };
    let ghost reported = outcome@;
    assert(reported.checks =~= Seq::<Seq<char>>::empty());
    let ghost outcomes = result@.stage_outcomes;
    result.stage_outcomes.push(outcome);
    proof {
        assert(result@.stage_outcomes =~= outcomes.push(reported));
        assert(outcomes =~= before.stage_outcomes);
        assert(result@.channels =~= recorded(before, choice@, report@).channels);
        assert(result@.channel_results =~= recorded(before, choice@, report@).channel_results);
    }
}

/// The file in which the filter that is delivered is stored: a mono WAV file of its taps, bit by
/// bit. There is one for every choice that is accepted.
pub fn exported(choice: &Choice, rate: u32) -> (r: Result<Vec<u8>, AutoeqError>)
    requires
        choice@.accepted(),
        0 < rate <= HIGHEST_RATE,
        choice@.selected->0.taps.len() <= MOST_SAMPLES,
    ensures
        r is Ok,
        r->Ok_0@ == wav_file(rate, choice@.selected->0.taps),
        wav_samples(r->Ok_0@) == choice@.selected->0.taps,
        wav_header(r->Ok_0@) == Ok::<u16, Seq<char>>(1),
{
    let taps: &Vec<u32> = &choice.selected.as_ref().unwrap().taps;
    proof {
        law_written_samples_are_read_back(rate, taps@);
    }
    match write_mono(taps.as_slice(), rate) {
        Ok(file) => Ok(file),
        Err(words) => Err(invalid(words.as_str())),
    }
}

/// The last report of the temporal refinement.
pub open spec fn last_report(outcomes: Seq<OutcomeView>) -> Option<OutcomeView>
    decreases outcomes.len(),
{
    if outcomes.len() == 0 {
        None
    } else if outcomes.last().stage == "temporal_fir"@ {
        Some(outcomes.last())
    } else {
        last_report(outcomes.drop_last())
    }
}

/// What follows `prefix` in the first line that starts with it.
pub open spec fn value_of(lines: Seq<Seq<char>>, prefix: Seq<char>) -> Option<Seq<char>>
    decreases lines.len(),
{
    if lines.len() == 0 {
        None
    } else if stripped(lines[0], prefix) is Some {
        stripped(lines[0], prefix)
    } else {
        value_of(lines.drop_first(), prefix)
    }
}

/// Why a final result is not the one that was qualified, if it is not.
pub open spec fn final_fault(result: ResultView, config: RoomConfig) -> Option<Seq<char>> {
    match config.temporal_fir {
        None => None,
        Some(strategy) => match last_report(result.stage_outcomes) {
            None => Some(invalid_text("missing temporal FIR outcome"@)),
            Some(outcome) => if outcome.status != StageStatus::Applied {
                None
            } else {
                delivery_fault(
                    value_of(outcome.advisories, "selected_taps_sha256="@),
                    value_of(outcome.advisories, "selected_chain_sha256="@),
                    result.taps(strategy.channel@),
                    result.chain(strategy.channel@),
                )
            },
        },
    }
}

/// Why a filter and its output are not those with these identities, if they are not.
pub open spec fn delivery_fault(
    taps_sha256: Option<Seq<char>>,
    chain_sha256: Option<Seq<char>>,
    taps: Option<Seq<Double>>,
    chain: Option<ChainView>,
) -> Option<Seq<char>> {
    if taps_sha256 is None {
        Some(invalid_text("selected tap identity missing"@))
    } else if taps is None {
        Some(invalid_text("selected FIR was removed after qualification"@))
    } else if sha256_text(samples_bytes(rounded(taps->0))) != taps_sha256->0 {
        Some(invalid_text("selected FIR changed after temporal qualification"@))
    } else if chain_sha256 is None {
        Some(invalid_text("selected chain identity missing"@))
    } else if chain is None {
        Some(invalid_text("selected output chain disappeared"@))
    } else if sha256_text(plugins_text(chain->0.plugins)) != chain_sha256->0 {
        Some(invalid_text("output chain changed after temporal qualification"@))
    } else {
        None
    }
}

fn find_report(outcomes: &Vec<StageOutcome>) -> (r: Option<&StageOutcome>)
    ensures
        ({
            let all = outcomes@.map_values(|outcome: StageOutcome| outcome@);
            match r {
                Some(outcome) => last_report(all) == Some(outcome@),
                None => last_report(all) is None,
            }
        }),
{
    let ghost all = outcomes@.map_values(|outcome: StageOutcome| outcome@);
    let mut n: usize = outcomes.len();
    assert(all.take(n as int) =~= all);
    while n > 0
        invariant
            all == outcomes@.map_values(|outcome: StageOutcome| outcome@),
            n <= outcomes@.len(),
            last_report(all) == last_report(all.take(n as int)),
        decreases n,
    {
        assert(all.take(n as int).last() == outcomes@[n - 1]@);
        if same_text(outcomes[n - 1].stage.as_str(), "temporal_fir") {
            return Some(&outcomes[n - 1]);
        }
        assert(all.take(n as int).drop_last() =~= all.take(n - 1));
        n = n - 1;
    }
    None
}

fn find_value<'a>(lines: &'a Vec<String>, prefix: &str) -> (r: Option<&'a str>)
    ensures
        match r {
            Some(value) => value_of(texts(lines@), prefix@) == Some(value@),
            None => value_of(texts(lines@), prefix@) is None,
        },
{
    let ghost all = texts(lines@);
    let mut i: usize = 0;
    assert(all.skip(0) =~= all);
    while i < lines.len()
        invariant
            all == texts(lines@),
            i <= lines@.len(),
            value_of(all, prefix@) == value_of(all.skip(i as int), prefix@),
        decreases lines@.len() - i,
    {
        assert(all.skip(i as int)[0] == lines@[i as int]@);
        if let Some(value) = strip_prefix(lines[i].as_str(), prefix) {
            return Some(value);
        }
        assert(all.skip(i as int).drop_first() =~= all.skip(i + 1));
        i = i + 1;
    }
    None
}

/// Checks that a final result is the one that was qualified: the filter and the output of the
/// channel are those whose identities were reported.
pub fn verify_final(result: &RoomOptimizationResult, config: &RoomConfig) -> (r: Result<
    (),
    AutoeqError,
>)
    ensures
        match r {
            Ok(_) => final_fault(result@, *config) is None,
            Err(e) => final_fault(result@, *config) == Some(e@),
        },
{
    let strategy = match &config.temporal_fir {
        Some(strategy) => strategy,
        None => return Ok(()),
    };
    let outcome = match find_report(&result.stage_outcomes) {
        Some(outcome) => outcome,
        None => return Err(invalid("missing temporal FIR outcome")),
    };
    if outcome.status != StageStatus::Applied {
        return Ok(());
    }
    let expected = match find_value(&outcome.advisories, "selected_taps_sha256=") {
        Some(expected) => expected,
        None => return Err(invalid("selected tap identity missing")),
    };
    let taps = match result.find_channel(strategy.channel.as_str()) {
        Some(k) => {
            assert(result@.channel_results[k as int] == result.channel_results@[k as int]@);
            &result.channel_results[k].fir_coeffs
        },
        None => &None,
    };
    let taps = match taps {
        Some(taps) => taps,
        None => return Err(invalid("selected FIR was removed after qualification")),
    };
    let actual = samples_sha256(singles(taps).as_slice());
    if !same_text(actual.as_str(), expected) {
        return Err(invalid("selected FIR changed after temporal qualification"));
    }
    let expected_chain = match find_value(&outcome.advisories, "selected_chain_sha256=") {
        Some(expected) => expected,
        None => return Err(invalid("selected chain identity missing")),
    };
    let chain = match result.find_chain(strategy.channel.as_str()) {
        Some(k) => {
            assert(result@.channels[k as int] == result.channels@[k as int]@);
            &result.channels[k]
        },
        None => return Err(invalid("selected output chain disappeared")),
    };
    let actual_chain = sha256(write_plugins(&chain.plugins).as_slice());
    if !same_text(actual_chain.as_str(), expected_chain) {
        return Err(invalid("output chain changed after temporal qualification"));
    }
    Ok(())
}

/// The identities that are reported of what is delivered are the ones that are found again.
proof fn lemma_identities_are_found(
    choice: ChoiceView,
    report: ReportView,
    chain: Option<ChainView>,
)
    requires
        choice.accepted(),
    ensures
        value_of(advisories(choice, report, chain), "selected_taps_sha256="@) == Some(
            sha256_text(samples_bytes(choice.selected->0.taps)),
        ),
        value_of(advisories(choice, report, chain), "selected_chain_sha256="@) == Some(
            sha256_text(plugins_text(chain->0.plugins)),
        ),
{
    reveal_strlit("selected_taps_sha256=");
    reveal_strlit("selected_chain_sha256=");
    reveal_strlit("held_out_accepted");
    reveal_strlit("config_sha256=");
    let taps = "selected_taps_sha256="@;
    let chains = "selected_chain_sha256="@;
    let taps_sha256 = sha256_text(samples_bytes(choice.selected->0.taps));
    let chain_sha256 = sha256_text(plugins_text(chain->0.plugins));
    let lines = advisories(choice, report, chain);
    let second = lines.drop_first();
    let third = second.drop_first();
    let fourth = third.drop_first();
    assert(lines[0] == choice.reason());
    assert(second[0] == "config_sha256="@ + sha256_text(report.config_text));
    assert(third[0] == taps + taps_sha256);
    assert(fourth[0] == chains + chain_sha256);
    assert(lines[0][0] == 'h');
    assert(second[0][0] == 'c');
    assert(taps[0] == 's' && chains[0] == 's');
    assert(third[0][9] == 't');
    assert(chains[9] == 'c');
    assert(stripped(lines[0], taps) is None);
    assert(stripped(lines[0], chains) is None);
    assert(stripped(second[0], taps) is None);
    assert(stripped(second[0], chains) is None);
    assert(stripped(third[0], chains) is None);
    assert(taps.is_prefix_of(third[0]));
    assert(third[0].skip(taps.len() as int) =~= taps_sha256);
    assert(chains.is_prefix_of(fourth[0]));
    assert(fourth[0].skip(chains.len() as int) =~= chain_sha256);
    assert(value_of(third, taps) == Some(taps_sha256));
    assert(value_of(second, taps) == Some(taps_sha256));
    assert(value_of(fourth, chains) == Some(chain_sha256));
    assert(value_of(third, chains) == Some(chain_sha256));
    assert(value_of(second, chains) == Some(chain_sha256));
}

proof fn lemma_report_is_last(result: ResultView, choice: ChoiceView, report: ReportView)
    ensures
        ({
            let after = recorded(result, choice, report);
            last_report(after.stage_outcomes) == Some(
                OutcomeView {
                    stage: "temporal_fir"@,
                    status: choice.status(),
                    checks: Seq::empty(),
                    advisories: advisories(choice, report, result.chain(choice.channel)),
                },
            )
        }),
{
    let outcome = OutcomeView {
        stage: "temporal_fir"@,
        status: choice.status(),
        checks: Seq::empty(),
        advisories: advisories(choice, report, result.chain(choice.channel)),
    };
    assert(recorded(result, choice, report).stage_outcomes.last() == outcome);
}

/// The refinement is optional: without a strategy nothing is asked of the evidence, nothing is
/// decided, and every result is final.
pub proof fn law_refinement_is_optional(
    result: ResultView,
    config: RoomConfig,
    sample_rate: Double,
    rate: u32,
    tap_count: usize,
    sources: Seq<SourceView>,
    trial: TrialView,
)
    requires
        config.temporal_fir is None,
    ensures
        evidence_prepared(config, sample_rate, rate, tap_count, sources) == Ok::<
            Seq<EvidenceView>,
            Seq<char>,
        >(Seq::empty()),
        chosen(result, config, sample_rate, rate, sources, trial) == Ok::<
            Option<ChoiceView>,
            Seq<char>,
        >(None),
        final_fault(result, config) is None,
{
}

/// A choice is only made on a result that can be refined.
proof fn lemma_chosen_result_is_planned(
    result: ResultView,
    config: RoomConfig,
    sample_rate: Double,
    rate: u32,
    sources: Seq<SourceView>,
    trial: TrialView,
    choice: ChoiceView,
)
    requires
        chosen(result, config, sample_rate, rate, sources, trial) == Ok::<
            Option<ChoiceView>,
            Seq<char>,
        >(Some(choice)),
    ensures
        config.temporal_fir is Some,
        choice.channel == config.temporal_fir->0.channel@,
        result.chain(choice.channel) is Some,
        result.taps(choice.channel) is Some,
        choice.selected == best_of(
            bench_of(
                config.temporal_fir->0,
                planned(result, choice.channel)->Ok_0,
                sample_rate,
                trial,
            ),
            trial.evaluations,
        ),
{
}

/// Whatever is decided, the result that records it is final: what was delivered is found again
/// as it was reported.
pub proof fn law_recorded_result_is_final(
    result: ResultView,
    config: RoomConfig,
    sample_rate: Double,
    rate: u32,
    sources: Seq<SourceView>,
    trial: TrialView,
    choice: ChoiceView,
    report: ReportView,
)
    requires
        chosen(result, config, sample_rate, rate, sources, trial) == Ok::<
            Option<ChoiceView>,
            Seq<char>,
        >(Some(choice)),
    ensures
        final_fault(recorded(result, choice, report), config) is None,
{
    lemma_chosen_result_is_planned(result, config, sample_rate, rate, sources, trial, choice);
    lemma_report_is_last(result, choice, report);
    if choice.accepted() {
        lemma_picked_taps_are_singles(
            result,
            config,
            sample_rate,
            rate,
            sources,
            trial,
            choice,
        );
        law_only_the_accepted_filter_changes(result, choice, report);
        lemma_identities_are_found(choice, report, result.chain(choice.channel));
    }
}

/// What drifts after it was delivered is refused: while the report stands, a result is final
/// exactly if the filter of the channel and its output still have the reported identities.
pub proof fn law_drift_is_refused(
    result: ResultView,
    choice: ChoiceView,
    report: ReportView,
    config: RoomConfig,
    later: ResultView,
)
    requires
        config.temporal_fir is Some,
        config.temporal_fir->0.channel@ == choice.channel,
        choice.accepted(),
        later.stage_outcomes == recorded(result, choice, report).stage_outcomes,
    ensures
        final_fault(later, config) is None <==> {
            &&& later.taps(choice.channel) is Some
            &&& sha256_text(samples_bytes(rounded(later.taps(choice.channel)->0))) == sha256_text(
                samples_bytes(choice.selected->0.taps),
            )
            &&& later.chain(choice.channel) is Some
            &&& sha256_text(plugins_text(later.chain(choice.channel)->0.plugins)) == sha256_text(
                plugins_text(result.chain(choice.channel)->0.plugins),
            )
        },
{
    lemma_report_is_last(result, choice, report);
    lemma_identities_are_found(choice, report, result.chain(choice.channel));
}

/// Nothing else changes: one report is added, and all other channels and outputs stay as they
/// are. Unless the choice is accepted, so do the channel and its output; where it is accepted,
/// the channel has the filter that was picked and the final curve with it, and its output has
/// that same curve and is otherwise the same.
pub proof fn law_only_the_accepted_filter_changes(
    result: ResultView,
    choice: ChoiceView,
    report: ReportView,
)
    requires
        result.chain(choice.channel) is Some,
        result.channel(choice.channel) is Some,
    ensures
        ({
            let after = recorded(result, choice, report);
            &&& after.stage_outcomes.len() == result.stage_outcomes.len() + 1
            &&& after.stage_outcomes.drop_last() == result.stage_outcomes
            &&& forall|name: Seq<char>|
                name != choice.channel ==> #[trigger] after.channel(name) == result.channel(name)
            &&& forall|name: Seq<char>|
                name != choice.channel ==> #[trigger] after.chain(name) == result.chain(name)
            &&& !choice.accepted() ==> {
                &&& after.channel_results == result.channel_results
                &&& after.channels == result.channels
            }
            &&& choice.accepted() ==> {
                &&& after.channel(choice.channel) == Some(
                    ChannelView {
                        name: choice.channel,
                        fir_coeffs: Some(wide(choice.selected->0.taps)),
                        final_curve: report.final_curve->0,
                    },
                )
                &&& after.chain(choice.channel) == Some(
                    ChainView {
                        final_curve: Some(report.final_curve->0),
                        ..result.chain(choice.channel)->0
                    },
                )
            }
        }),
{
    let after = recorded(result, choice, report);
    assert(after.stage_outcomes.drop_last() =~= result.stage_outcomes);
    if choice.accepted() {
        let taps = wide(choice.selected->0.taps);
        let curve = report.final_curve->0;
        lemma_delivery(result, choice.channel, taps, curve);
        let refined = result.with_delivery(choice.channel, taps, curve);
        assert forall|name: Seq<char>| name != choice.channel implies #[trigger] after.channel(name)
            == result.channel(name) by {
            assert(refined.channel(name) == result.channel(name));
        }
        assert forall|name: Seq<char>| name != choice.channel implies #[trigger] after.chain(name)
            == result.chain(name) by {
            assert(refined.chain(name) == result.chain(name));
        }
    }
}

/// What is delivered was qualified: it is one of the candidates, it keeps the spectrum, and both
/// the training and the held-out evidence accept it.
pub proof fn law_delivered_candidate_is_qualified(
    result: ResultView,
    config: RoomConfig,
    sample_rate: Double,
    rate: u32,
    sources: Seq<SourceView>,
    trial: TrialView,
    choice: ChoiceView,
)
    requires
        chosen(result, config, sample_rate, rate, sources, trial) == Ok::<
            Option<ChoiceView>,
            Seq<char>,
        >(Some(choice)),
        choice.accepted(),
    ensures
        exists|k: int| #[trigger]
            qualified(
                bench_of(
                    config.temporal_fir->0,
                    planned(result, choice.channel)->Ok_0,
                    sample_rate,
                    trial,
                ),
                trial.evaluations,
                k,
            ) && choice.selected->0.taps == rounded(trial.evaluations[k].taps),
{
    lemma_chosen_result_is_planned(result, config, sample_rate, rate, sources, trial, choice);
    let bench = bench_of(
        config.temporal_fir->0,
        planned(result, choice.channel)->Ok_0,
        sample_rate,
        trial,
    );
    law_best_candidate_is_picked(bench, trial.evaluations);
    let k = choose|k: int|
        0 <= k < trial.evaluations.len() && #[trigger] is_first_best(bench, trial.evaluations, k)
            && choice.selected->0 == as_selected(
            bench,
            trial.evaluations[k],
            training_gain(bench, trial.evaluations[k])->0,
        );
    assert(qualified(bench, trial.evaluations, k));
}

/// Whether the candidate at `k` keeps the spectrum, and is accepted by the evidence of both uses.
pub open spec fn qualified(bench: Bench, evaluations: Seq<EvaluationView>, k: int) -> bool {
    let candidate = evaluations[k];
    let length = comparable_length(candidate.taps.len() as usize, bench.taps, bench.sample_rate);
    &&& 0 <= k < evaluations.len()
    &&& spectrum_kept(length, candidate.bins, bench.strategy, bench.ceiling)
    &&& accepted_gain(candidate.compared, bench.strategy, TemporalPartition::Training) is Some
    &&& accepted_gain(candidate.compared, bench.strategy, TemporalPartition::HeldOut) is Some
}

proof fn lemma_energies_are_valid(energies: Seq<Result<(), Seq<char>>>, i: int)
    requires
        energy_fault(energies) is None,
        0 <= i < energies.len(),
    ensures
        energies[i] is Ok,
    decreases energies.len(),
{
    if i > 0 {
        lemma_energies_are_valid(energies.drop_first(), i - 1);
        assert(energies.drop_first()[i - 1] == energies[i]);
    }
}

/// Nothing is decided on a baseline that cannot be compared, nor with a delay that falls outside
/// the filter.
pub proof fn law_unusable_inputs_are_refused(
    result: ResultView,
    config: RoomConfig,
    sample_rate: Double,
    rate: u32,
    sources: Seq<SourceView>,
    trial: TrialView,
    choice: ChoiceView,
)
    requires
        chosen(result, config, sample_rate, rate, sources, trial) == Ok::<
            Option<ChoiceView>,
            Seq<char>,
        >(Some(choice)),
    ensures
        forall|i: int| 0 <= i < trial.energies.len() ==> (#[trigger] trial.energies[i]) is Ok,
        forall|i: int|
            0 <= i < trial.shifts.len() ==> 0 < #[trigger] trial.shifts[i] < planned(
                result,
                choice.channel,
            )->Ok_0.baseline.len(),
        choice.accepted() ==> !has_zero(trial.response),
{
    assert forall|i: int| 0 <= i < trial.energies.len() implies (
    #[trigger] trial.energies[i]) is Ok by {
        lemma_energies_are_valid(trial.energies, i);
    }
}

/// The whole grid is tried: there is an evaluation for each delay and strength, and none that
/// qualifies improves more over the training evidence than what is picked.
pub proof fn law_whole_grid_is_tried(
    result: ResultView,
    config: RoomConfig,
    sample_rate: Double,
    rate: u32,
    sources: Seq<SourceView>,
    trial: TrialView,
    choice: ChoiceView,
    j: int,
)
    requires
        fits(trial, result, config, sample_rate),
        chosen(result, config, sample_rate, rate, sources, trial) == Ok::<
            Option<ChoiceView>,
            Seq<char>,
        >(Some(choice)),
    ensures
        trial.evaluations.len() == grid_size(config.temporal_fir->0),
        trial.shifts.len() == config.temporal_fir->0.delays_seconds@.len(),
        ({
            let gain = training_gain(
                bench_of(
                    config.temporal_fir->0,
                    planned(result, choice.channel)->Ok_0,
                    sample_rate,
                    trial,
                ),
                trial.evaluations[j],
            );
            0 <= j < grid_size(config.temporal_fir->0) && gain is Some ==> choice.selected is Some
                && gain->0.at_most(choice.selected->0.gain)
        }),
{
    lemma_chosen_result_is_planned(result, config, sample_rate, rate, sources, trial, choice);
    let bench = bench_of(
        config.temporal_fir->0,
        planned(result, choice.channel)->Ok_0,
        sample_rate,
        trial,
    );
    law_best_candidate_is_picked(bench, trial.evaluations);
}

/// Taking the steps one by one decides the same: a plan, the evidence, the energies, a search
/// over delays and candidates, and the choice at its end.
pub proof fn law_steps_lead_to_the_decision(
    result: ResultView,
    config: RoomConfig,
    sample_rate: Double,
    rate: u32,
    sources: Seq<SourceView>,
    trial: TrialView,
    plan: PlanView,
    evidence: Seq<EvidenceView>,
    selected: Option<SelectedView>,
    choice: ChoiceView,
)
    requires
        config.temporal_fir is Some,
        planned(result, config.temporal_fir->0.channel@) == Ok::<PlanView, Seq<char>>(plan),
        evidence_prepared(
            config,
            sample_rate,
            rate,
            plan.baseline.len() as usize,
            sources,
        ) == Ok::<Seq<EvidenceView>, Seq<char>>(evidence),
        energy_fault(trial.energies) is None,
        shifts_inside(trial.shifts, plan.baseline.len()),
        selected == best_of(
            bench_of(config.temporal_fir->0, plan, sample_rate, trial),
            trial.evaluations,
        ),
        settled(
            choice_of(config.temporal_fir->0, plan, evidence, selected),
            trial.response,
        ) == Ok::<ChoiceView, Seq<char>>(choice),
    ensures
        chosen(result, config, sample_rate, rate, sources, trial) == Ok::<
            Option<ChoiceView>,
            Seq<char>,
        >(Some(choice)),
{
}

/// What is picked is singles: they stay the same when they are read as doubles and rounded again.
proof fn lemma_picked_taps_are_singles(
    result: ResultView,
    config: RoomConfig,
    sample_rate: Double,
    rate: u32,
    sources: Seq<SourceView>,
    trial: TrialView,
    choice: ChoiceView,
)
    requires
        chosen(result, config, sample_rate, rate, sources, trial) == Ok::<
            Option<ChoiceView>,
            Seq<char>,
        >(Some(choice)),
        choice.accepted(),
    ensures
        rounded(wide(choice.selected->0.taps)) == choice.selected->0.taps,
{
    law_delivered_candidate_is_qualified(
        result,
        config,
        sample_rate,
        rate,
        sources,
        trial,
        choice,
    );
    let bench = bench_of(
        config.temporal_fir->0,
        planned(result, choice.channel)->Ok_0,
        sample_rate,
        trial,
    );
    let k = choose|k: int| #[trigger]
        qualified(bench, trial.evaluations, k) && choice.selected->0.taps == rounded(
            trial.evaluations[k].taps,
        );
    law_rounding_is_idempotent(trial.evaluations[k].taps);
}

/// The report of a delivery names the digest of the taps.
proof fn lemma_report_names_the_taps(
    choice: ChoiceView,
    report: ReportView,
    chain: Option<ChainView>,
)
    requires
        choice.accepted(),
    ensures
        advisories(choice, report, chain).contains(
            "selected_taps_sha256="@ + sha256_text(samples_bytes(choice.selected->0.taps)),
        ),
{
    let lines = advisories(choice, report, chain);
    assert(lines[2] == "selected_taps_sha256="@ + sha256_text(
        samples_bytes(choice.selected->0.taps),
    ));
}

/// What is retained is what is exported: the taps that the result keeps are singles, the very
/// ones that were picked and that the exported file holds, and the report names the digest of
/// these.
pub proof fn law_retained_taps_are_the_exported_ones(
    result: ResultView,
    config: RoomConfig,
    sample_rate: Double,
    rate: u32,
    sources: Seq<SourceView>,
    trial: TrialView,
    choice: ChoiceView,
    report: ReportView,
)
    requires
        chosen(result, config, sample_rate, rate, sources, trial) == Ok::<
            Option<ChoiceView>,
            Seq<char>,
        >(Some(choice)),
        choice.accepted(),
    ensures
        ({
            let after = recorded(result, choice, report);
            let taps = after.taps(choice.channel)->0;
            let file = wav_file(rate, choice.selected->0.taps);
            &&& after.taps(choice.channel) is Some
            &&& rounded(taps) == choice.selected->0.taps
            &&& wav_samples(file) == rounded(taps)
            &&& wide(wav_samples(file)) == taps
            &&& after.stage_outcomes.last().advisories.contains(
                "selected_taps_sha256="@ + sha256_text(samples_bytes(wav_samples(file))),
            )
        }),
{
    law_written_samples_are_read_back(rate, choice.selected->0.taps);
    lemma_chosen_result_is_planned(result, config, sample_rate, rate, sources, trial, choice);
    lemma_picked_taps_are_singles(
        result,
        config,
        sample_rate,
        rate,
        sources,
        trial,
        choice,
    );
    lemma_report_names_the_taps(choice, report, result.chain(choice.channel));
    law_only_the_accepted_filter_changes(result, choice, report);
}

} // verus!
