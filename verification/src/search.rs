//! The choice among candidate filters: the training evidence picks one, and the held-out
//! evidence confirms it or not.

use crate::error::{invalid, invalid_text, AutoeqError};
use crate::evidence::{evidence_views, Evidence, EvidenceView};
use crate::ieee::{rounded, singles, Double};
use crate::metrics::{
    accepted_gain, acceptable, compared_views, law_candidate_is_accepted_exactly_within_the_limits,
    measured, of_partition, partition_metrics, Compared, ComparedView, Metrics,
};
use crate::spectrum::{comparable_length, spectral_safe, spectrum_kept, Bin};
use crate::temporal_fir_config::{TemporalFirConfig, TemporalPartition};
use vstd::prelude::*;

verus! {

/// A candidate, and how it compares with the baseline once its taps are rounded to singles.
#[derive(Clone, Debug)]
pub struct Evaluation {
    /// The taps, before they are rounded.
    pub taps: Vec<Double>,
    /// What the rounded taps do to the spectrum.
    pub bins: Vec<Bin>,
    /// What the rounded taps change at each piece of evidence.
    pub compared: Vec<Compared>,
}

/// What an [`Evaluation`] says.
pub struct EvaluationView {
    pub taps: Seq<Double>,
    pub bins: Seq<Bin>,
    pub compared: Seq<ComparedView>,
}

impl View for Evaluation {
    type V = EvaluationView;

    open spec fn view(&self) -> EvaluationView {
        EvaluationView {
            taps: self.taps@,
            bins: self.bins@,
            compared: compared_views(self.compared@),
        }
    }
}

/// What a list of evaluations says.
pub open spec fn evaluation_views(evaluations: Seq<Evaluation>) -> Seq<EvaluationView> {
    evaluations.map_values(|evaluation: Evaluation| evaluation@)
}

/// The candidate that the training evidence picked.
#[derive(Clone, Debug)]
pub struct Selected {
    /// The taps that are delivered.
    pub taps: Vec<u32>,
    /// Its improvement over the training evidence.
    pub gain: Double,
    /// Its metrics over the training evidence.
    pub training: Option<Metrics>,
    /// Its metrics over the held-out evidence.
    pub held_out: Option<Metrics>,
    /// Whether the held-out evidence accepts it.
    pub confirmed: bool,
}

/// What a [`Selected`] says.
pub struct SelectedView {
    pub taps: Seq<u32>,
    pub gain: Double,
    pub training: Option<Metrics>,
    pub held_out: Option<Metrics>,
    pub confirmed: bool,
}

impl View for Selected {
    type V = SelectedView;

    open spec fn view(&self) -> SelectedView {
        SelectedView {
            taps: self.taps@,
            gain: self.gain,
            training: self.training,
            held_out: self.held_out,
            confirmed: self.confirmed,
        }
    }
}

/// What may have been picked.
pub open spec fn optional_selected(selected: Option<Selected>) -> Option<SelectedView> {
    match selected {
        Some(selected) => Some(selected@),
        None => None,
    }
}

/// What candidates are judged by.
pub struct Bench {
    pub strategy: TemporalFirConfig,
    /// The number of taps of the baseline.
    pub taps: usize,
    pub sample_rate: Double,
    /// The highest level that is allowed, where there is one.
    pub ceiling: Option<Double>,
}

/// The improvement of a candidate over the training evidence, where it keeps the spectrum and
/// the training evidence accepts it.
pub open spec fn training_gain(bench: Bench, evaluation: EvaluationView) -> Option<Double> {
    let length = comparable_length(evaluation.taps.len() as usize, bench.taps, bench.sample_rate);
    if spectrum_kept(length, evaluation.bins, bench.strategy, bench.ceiling) {
        accepted_gain(evaluation.compared, bench.strategy, TemporalPartition::Training)
    } else {
        None
    }
}

/// A candidate with this improvement, as the one that was picked.
pub open spec fn as_selected(
    bench: Bench,
    evaluation: EvaluationView,
    gain: Double,
) -> SelectedView {
    SelectedView {
        taps: rounded(evaluation.taps),
        gain,
        training: measured(evaluation.compared, TemporalPartition::Training),
        held_out: measured(evaluation.compared, TemporalPartition::HeldOut),
        confirmed: accepted_gain(
            evaluation.compared,
            bench.strategy,
            TemporalPartition::HeldOut,
        ) is Some,
    }
}

/// The better one of what was picked so far and one more candidate; what was picked first wins
/// between equals.
pub open spec fn better(
    bench: Bench,
    best: Option<SelectedView>,
    evaluation: EvaluationView,
) -> Option<SelectedView> {
    match training_gain(bench, evaluation) {
        None => best,
        Some(gain) => if best is None || best->0.gain.below(gain) {
            Some(as_selected(bench, evaluation, gain))
        } else {
            best
        },
    }
}

/// The best of a list of candidates.
pub open spec fn best_of(bench: Bench, evaluations: Seq<EvaluationView>) -> Option<SelectedView>
    decreases evaluations.len(),
{
    if evaluations.len() == 0 {
        None
    } else {
        better(bench, best_of(bench, evaluations.drop_last()), evaluations.last())
    }
}

/// Whether an evaluation is complete: there is a bin for each frequency, and a comparison for
/// each piece of evidence.
pub open spec fn complete(
    bench: Bench,
    partitions: Seq<TemporalPartition>,
    evaluation: EvaluationView,
) -> bool {
    let length = comparable_length(evaluation.taps.len() as usize, bench.taps, bench.sample_rate);
    &&& length is Some ==> evaluation.bins.len() > length->0 / 2
    &&& evaluation.compared.len() == partitions.len()
    &&& forall|i: int|
        0 <= i < partitions.len() ==> (#[trigger] evaluation.compared[i]).partition
            == partitions[i]
}

/// What the evidence is used for, piece by piece.
pub open spec fn partitions(evidence: Seq<EvidenceView>) -> Seq<TemporalPartition> {
    evidence.map_values(|item: EvidenceView| item.partition)
}

/// What a search asks for next.
#[derive(Clone, Copy, Debug, PartialEq, Eq, Structural)]
pub enum SearchStep {
    /// The configured delay with this index, in samples.
    Delay(usize),
    /// The candidate for the delay and the strength with these indices.
    Candidate(usize, usize),
    /// Nothing; the whole grid was tried.
    Complete,
}

/// What a search over `delays` by `strengths` candidates asks for after so many delays were
/// given and so many candidates tried: each delay, and then its candidates, one for each
/// strength.
pub open spec fn step_after(delays: nat, strengths: nat, given: nat, tried: nat) -> SearchStep {
    if tried < given * strengths {
        SearchStep::Candidate((given - 1) as usize, (tried - (given - 1) * strengths) as usize)
    } else if given < delays {
        SearchStep::Delay(given as usize)
    } else {
        SearchStep::Complete
    }
}

/// Whether every delay, in samples, falls inside the filter.
pub open spec fn shifts_inside(shifts: Seq<usize>, taps: nat) -> bool {
    forall|i: int| 0 <= i < shifts.len() ==> 0 < #[trigger] shifts[i] < taps
}

/// How many candidates a strategy asks for.
pub open spec fn grid_size(strategy: TemporalFirConfig) -> nat {
    strategy.delays_seconds@.len() * strategy.strengths@.len()
}

/// A search over the grid of candidates that a strategy asks for.
pub struct Search<'a> {
    strategy: &'a TemporalFirConfig,
    evidence: &'a Vec<Evidence>,
    taps: usize,
    sample_rate: Double,
    ceiling: Option<Double>,
    best: Option<Selected>,
    /// How many delays were given.
    given: usize,
    /// How many candidates of the last of these delays are left.
    left: usize,
    shifts: Ghost<Seq<usize>>,
    tried: Ghost<Seq<EvaluationView>>,
}

impl<'a> Search<'a> {
    /// What candidates are judged by.
    pub closed spec fn bench(self) -> Bench {
        Bench {
            strategy: *self.strategy,
            taps: self.taps,
            sample_rate: self.sample_rate,
            ceiling: self.ceiling,
        }
    }

    /// What the evidence is used for.
    pub closed spec fn partitions(self) -> Seq<TemporalPartition> {
        partitions(evidence_views(self.evidence@))
    }

    /// The delays that were given, in samples.
    pub closed spec fn shifts(self) -> Seq<usize> {
        self.shifts@
    }

    /// The candidates that were tried.
    pub closed spec fn tried(self) -> Seq<EvaluationView> {
        self.tried@
    }

    /// What is asked for next.
    pub open spec fn step(self) -> SearchStep {
        step_after(
            self.bench().strategy.delays_seconds@.len(),
            self.bench().strategy.strengths@.len(),
            self.shifts().len(),
            self.tried().len(),
        )
    }

    /// What holds of a search at every point: the best of the tried candidates is kept, and they
    /// are the first ones of the grid.
    pub closed spec fn wf(self) -> bool {
        let delays = self.strategy.delays_seconds@.len();
        let strengths = self.strategy.strengths@.len();
        &&& optional_selected(self.best) == best_of(self.bench(), self.tried@)
        &&& self.given == self.shifts@.len()
        &&& self.given <= delays
        &&& self.left <= strengths
        &&& self.tried@.len() + self.left == self.given * strengths
        &&& shifts_inside(self.shifts@, self.taps as nat)
    }

    /// Starts a search for a filter with this many taps; `ceiling` is the highest level that is
    /// allowed.
    pub fn new(
        strategy: &'a TemporalFirConfig,
        evidence: &'a Vec<Evidence>,
        taps: usize,
        sample_rate: Double,
        ceiling: Option<Double>,
    ) -> (r: Search<'a>)
        ensures
            r.wf(),
            r.bench() == (Bench { strategy: *strategy, taps, sample_rate, ceiling }),
            r.partitions() == partitions(evidence_views(evidence@)),
            r.shifts() == Seq::<usize>::empty(),
            r.tried() == Seq::<EvaluationView>::empty(),
    {
        Search {
            strategy,
            evidence,
            taps,
            sample_rate,
            ceiling,
            best: None,
            given: 0,
            left: 0,
            shifts: Ghost(Seq::empty()),
            tried: Ghost(Seq::empty()),
        }
    }

    /// What is asked for next.
    pub fn next(&self) -> (r: SearchStep)
        requires
            self.wf(),
        ensures
            r == self.step(),
    {
        let strengths: usize = self.strategy.strengths.len();
        if self.left > 0 {
            proof {
                let given = self.given as int;
                let n = strengths as int;
                assert(given == 0 ==> given * n == 0) by (nonlinear_arith);
                assert(given * n == (given - 1) * n + n) by (nonlinear_arith);
            }
            SearchStep::Candidate(self.given - 1, strengths - self.left)
        } else if self.given < self.strategy.delays_seconds.len() {
            SearchStep::Delay(self.given)
        } else {
            SearchStep::Complete
        }
    }

    /// Takes the next delay, in samples. It must fall inside the filter.
    pub fn delay(&mut self, shift: usize) -> (r: Result<(), AutoeqError>)
        requires
            old(self).wf(),
            old(self).step() is Delay,
        ensures
            final(self).wf(),
            final(self).bench() == old(self).bench(),
            final(self).partitions() == old(self).partitions(),
            final(self).tried() == old(self).tried(),
            match r {
                Ok(_) => {
                    &&& 0 < shift < old(self).bench().taps
                    &&& final(self).shifts() == old(self).shifts().push(shift)
                },
                Err(e) => {
                    &&& !(0 < shift < old(self).bench().taps)
                    &&& e@ == invalid_text("candidate delay falls outside configured FIR taps"@)
                    &&& final(self).shifts() == old(self).shifts()
                },
            },
    {
        check_shift(shift, self.taps)?;
        assert(self.given < self.strategy.delays_seconds.len());
        proof {
            let given = self.given as int;
            let n = self.strategy.strengths@.len() as int;
            assert((given + 1) * n == given * n + n) by (nonlinear_arith);
        }
        self.given = self.given + 1;
        self.left = self.strategy.strengths.len();
        self.shifts = Ghost(self.shifts@.push(shift));
        Ok(())
    }

    /// Tries the next candidate.
    pub fn offer(&mut self, evaluation: &Evaluation)
        requires
            old(self).wf(),
            old(self).step() is Candidate,
            complete(old(self).bench(), old(self).partitions(), evaluation@),
        ensures
            final(self).wf(),
            final(self).bench() == old(self).bench(),
            final(self).partitions() == old(self).partitions(),
            final(self).shifts() == old(self).shifts(),
            final(self).tried() == old(self).tried().push(evaluation@),
    {
        self.judge(evaluation);
        self.left = self.left - 1;
        self.tried = Ghost(self.tried@.push(evaluation@));
        proof {
            assert(self.tried@.drop_last() =~= old(self).tried@);
        }
    }

    /// Keeps a candidate if it is better than the best so far.
    fn judge(&mut self, evaluation: &Evaluation)
        requires
            complete(old(self).bench(), old(self).partitions(), evaluation@),
        ensures
            optional_selected(final(self).best) == better(
                old(self).bench(),
                optional_selected(old(self).best),
                evaluation@,
            ),
            final(self).strategy == old(self).strategy,
            final(self).evidence == old(self).evidence,
            final(self).taps == old(self).taps,
            final(self).sample_rate == old(self).sample_rate,
            final(self).ceiling == old(self).ceiling,
            final(self).given == old(self).given,
            final(self).left == old(self).left,
            final(self).shifts == old(self).shifts,
            final(self).tried == old(self).tried,
    {
        if !spectral_safe(
            evaluation.taps.len(),
            self.taps,
            self.sample_rate,
            &evaluation.bins,
            self.strategy,
            self.ceiling,
        ) {
            return ;
        }
        let gain = match acceptable(
            &evaluation.compared,
            self.strategy,
            TemporalPartition::Training,
        ) {
            Some(gain) => gain,
            None => return ,
        };
        let improves = match &self.best {
            Some(best) => best.gain.is_below(gain),
            None => true,
        };
        if improves {
            self.best = Some(
                Selected {
                    taps: singles(&evaluation.taps),
                    gain,
                    training: partition_metrics(&evaluation.compared, TemporalPartition::Training),
                    held_out: partition_metrics(&evaluation.compared, TemporalPartition::HeldOut),
                    confirmed: acceptable(
                        &evaluation.compared,
                        self.strategy,
                        TemporalPartition::HeldOut,
                    ).is_some(),
                },
            );
        }
    }

    /// Ends the search with the best candidate, once the whole grid was tried.
    pub fn conclude(self) -> (r: Option<Selected>)
        requires
            self.wf(),
            self.step() is Complete,
        ensures
            optional_selected(r) == best_of(self.bench(), self.tried()),
            self.tried().len() == grid_size(self.bench().strategy),
            self.shifts().len() == self.bench().strategy.delays_seconds@.len(),
            shifts_inside(self.shifts(), self.bench().taps as nat),
    {
        self.best
    }
}

/// Checks that a delay, in samples, falls inside a filter with `taps` taps.
fn check_shift(shift: usize, taps: usize) -> (r: Result<(), AutoeqError>)
    ensures
        r is Ok <==> 0 < shift < taps,
        r matches Err(e) ==> e@ == invalid_text(
            "candidate delay falls outside configured FIR taps"@,
        ),
{
    if shift == 0 || shift >= taps {
        return Err(invalid("candidate delay falls outside configured FIR taps"));
    }
    Ok(())
}

/// Checks that every delay, in samples, falls inside a filter with `taps` taps.
pub fn check_shifts(shifts: &Vec<usize>, taps: usize) -> (r: Result<(), AutoeqError>)
    ensures
        r is Ok <==> shifts_inside(shifts@, taps as nat),
        r matches Err(e) ==> e@ == invalid_text(
            "candidate delay falls outside configured FIR taps"@,
        ),
{
    let mut i: usize = 0;
    while i < shifts.len()
        invariant
            i <= shifts@.len(),
            forall|j: int| 0 <= j < i ==> 0 < #[trigger] shifts@[j] < taps,
        decreases shifts@.len() - i,
    {
        check_shift(shifts[i], taps)?;
        i = i + 1;
    }
    Ok(())
}

/// The best candidate of the whole grid, from the delays in samples and the evaluations of the
/// candidates, delay by delay and strength by strength.
pub fn select<'a>(
    search: Search<'a>,
    shifts: &Vec<usize>,
    evaluations: &Vec<Evaluation>,
) -> (r: Option<Selected>)
    requires
        search.wf(),
        search.shifts().len() == 0,
        search.tried().len() == 0,
        shifts@.len() == search.bench().strategy.delays_seconds@.len(),
        shifts_inside(shifts@, search.bench().taps as nat),
        evaluations@.len() == grid_size(search.bench().strategy),
        forall|i: int|
            0 <= i < evaluations@.len() ==> complete(
                search.bench(),
                search.partitions(),
                (#[trigger] evaluations@[i])@,
            ),
    ensures
        optional_selected(r) == best_of(search.bench(), evaluation_views(evaluations@)),
{
    let ghost all = evaluation_views(evaluations@);
    let ghost bench = search.bench();
    let ghost uses = search.partitions();
    let ghost delays = bench.strategy.delays_seconds@.len();
    let ghost strengths = bench.strategy.strengths@.len();
    let mut running = search;
    let count: usize = evaluations.len();
    let mut d: usize = 0;
    let mut k: usize = 0;
    assert(running.tried() =~= all.take(0));
    loop
        invariant
            all == evaluation_views(evaluations@),
            bench == search.bench(),
            count == evaluations@.len(),
            running.wf(),
            running.bench() == bench,
            running.partitions() == uses,
            running.shifts().len() == d,
            running.tried() == all.take(k as int),
            delays == bench.strategy.delays_seconds@.len(),
            strengths == bench.strategy.strengths@.len(),
            d <= delays,
            k <= evaluations@.len(),
            shifts@.len() == delays,
            shifts_inside(shifts@, bench.taps as nat),
            evaluations@.len() == delays * strengths,
            forall|j: int|
                0 <= j < evaluations@.len() ==> complete(
                    bench,
                    uses,
                    (#[trigger] evaluations@[j])@,
                ),
        decreases delays - d + (evaluations@.len() - k),
    {
        assert(running.tried().len() == k);
        match running.next() {
            SearchStep::Delay(_) => {
                if running.delay(shifts[d]).is_err() {
                    return None;
                }
                d = d + 1;
            },
            SearchStep::Candidate(_, _) => {
                assert(k < evaluations@.len()) by {
                    assert(d * strengths <= delays * strengths) by (nonlinear_arith)
                        requires
                            d <= delays,
                    ;
                }
                running.offer(&evaluations[k]);
                k = k + 1;
                assert(running.tried() =~= all.take(k as int));
            },
            SearchStep::Complete => {
                let best = running.conclude();
                assert(all.take(k as int) =~= all);
                return best;
            },
        }
    }
}

proof fn lemma_gain_is_a_number(bench: Bench, evaluation: EvaluationView)
    requires
        training_gain(bench, evaluation) is Some,
    ensures
        !training_gain(bench, evaluation)->0.nan(),
{
}

/// The candidate that is picked is the best one: no candidate that qualifies improves more, and
/// of those that improve as much it is the first. None is picked only where none qualifies.
pub proof fn law_best_candidate_is_picked(bench: Bench, evaluations: Seq<EvaluationView>)
    ensures
        match best_of(bench, evaluations) {
            None => forall|j: int|
                0 <= j < evaluations.len() ==> training_gain(
                    bench,
                    #[trigger] evaluations[j],
                ) is None,
            Some(best) => exists|k: int|
                0 <= k < evaluations.len() && #[trigger] is_first_best(bench, evaluations, k)
                    && best == as_selected(
                    bench,
                    evaluations[k],
                    training_gain(bench, evaluations[k])->0,
                ),
        },
    decreases evaluations.len(),
{
    if evaluations.len() > 0 {
        let rest = evaluations.drop_last();
        let last = evaluations.last();
        let before = best_of(bench, rest);
        let n = rest.len() as int;
        law_best_candidate_is_picked(bench, rest);
        if training_gain(bench, last) is Some {
            lemma_gain_is_a_number(bench, last);
        }
        if before is None {
            assert forall|j: int| 0 <= j < n implies training_gain(
                bench,
                #[trigger] evaluations[j],
            ) is None by {
                assert(evaluations[j] == rest[j]);
            }
            if training_gain(bench, last) is Some {
                assert(is_first_best(bench, evaluations, n));
            }
        } else {
            let k = choose|k: int|
                0 <= k < rest.len() && #[trigger] is_first_best(bench, rest, k) && before->0
                    == as_selected(bench, rest[k], training_gain(bench, rest[k])->0);
            let gain = training_gain(bench, rest[k])->0;
            lemma_gain_is_a_number(bench, rest[k]);
            assert forall|j: int|
                0 <= j < n && training_gain(bench, #[trigger] evaluations[j]) is Some implies {
                &&& training_gain(bench, evaluations[j])->0.at_most(gain)
                &&& j < k ==> training_gain(bench, evaluations[j])->0.below(gain)
            } by {
                assert(evaluations[j] == rest[j]);
            }
            assert(evaluations[k] == rest[k]);
            if training_gain(bench, last) is Some && gain.below(training_gain(bench, last)->0) {
                assert(is_first_best(bench, evaluations, n));
            } else {
                assert(is_first_best(bench, evaluations, k));
            }
        }
    }
}

/// Whether a candidate qualifies, no other one that qualifies improves more, and every earlier
/// one improves less.
pub open spec fn is_first_best(bench: Bench, evaluations: Seq<EvaluationView>, k: int) -> bool {
    let gain = training_gain(bench, evaluations[k])->0;
    &&& training_gain(bench, evaluations[k]) is Some
    &&& forall|j: int|
        0 <= j < evaluations.len() && training_gain(bench, #[trigger] evaluations[j]) is Some ==> {
            &&& training_gain(bench, evaluations[j])->0.at_most(gain)
            &&& j < k ==> training_gain(bench, evaluations[j])->0.below(gain)
        }
}

/// Whether two candidates are the same as far as the training evidence can tell.
pub open spec fn same_in_training(a: EvaluationView, b: EvaluationView) -> bool {
    &&& a.taps == b.taps
    &&& a.bins == b.bins
    &&& of_partition(a.compared, TemporalPartition::Training) == of_partition(
        b.compared,
        TemporalPartition::Training,
    )
}

/// The held-out evidence has no say in the choice: candidates that are the same to the training
/// evidence lead to the same pick.
pub proof fn law_held_out_evidence_does_not_pick(
    bench: Bench,
    a: Seq<EvaluationView>,
    b: Seq<EvaluationView>,
)
    requires
        a.len() == b.len(),
        forall|i: int| 0 <= i < a.len() ==> same_in_training(#[trigger] a[i], b[i]),
    ensures
        best_of(bench, a) is Some <==> best_of(bench, b) is Some,
        best_of(bench, a) is Some ==> {
            &&& best_of(bench, a)->0.taps == best_of(bench, b)->0.taps
            &&& best_of(bench, a)->0.gain == best_of(bench, b)->0.gain
            &&& best_of(bench, a)->0.training == best_of(bench, b)->0.training
        },
    decreases a.len(),
{
    if a.len() > 0 {
        assert forall|i: int| 0 <= i < a.drop_last().len() implies same_in_training(
            #[trigger] a.drop_last()[i],
            b.drop_last()[i],
        ) by {
            assert(same_in_training(a[i], b[i]));
        }
        law_held_out_evidence_does_not_pick(bench, a.drop_last(), b.drop_last());
        assert(same_in_training(a[a.len() - 1], b[b.len() - 1]));
        assert(training_gain(bench, a.last()) == training_gain(bench, b.last()));
    }
}

/// Whether a candidate keeps the spectrum and is accepted by the training evidence.
pub open spec fn qualifies(bench: Bench, evaluation: EvaluationView) -> bool {
    &&& spectrum_kept(
        comparable_length(evaluation.taps.len() as usize, bench.taps, bench.sample_rate),
        evaluation.bins,
        bench.strategy,
        bench.ceiling,
    )
    &&& accepted_gain(evaluation.compared, bench.strategy, TemporalPartition::Training) is Some
}

/// What candidates are ranked by is the smaller one of their two improvements over the training
/// evidence, that of the relative tail and that of the late energy. None of the candidates that
/// keep the spectrum and are accepted in training has a larger one than the candidate that is
/// picked, and those before it have smaller ones. What is delivered are its taps, with its
/// metrics over both uses; and it is confirmed exactly if the held-out evidence accepts it.
pub proof fn law_largest_of_the_smaller_improvements_is_picked(
    bench: Bench,
    evaluations: Seq<EvaluationView>,
)
    requires
        !bench.strategy.minimum_late_improvement_db.nan(),
        bench.strategy.minimum_relative_tail_improvement_db is Some
            ==> !bench.strategy.minimum_relative_tail_improvement_db->0.nan(),
        bench.strategy.minimum_absolute_late_improvement_db is Some
            ==> !bench.strategy.minimum_absolute_late_improvement_db->0.nan(),
    ensures
        best_of(bench, evaluations) is None <==> forall|j: int|
            0 <= j < evaluations.len() ==> !qualifies(bench, #[trigger] evaluations[j]),
        best_of(bench, evaluations) is Some ==> exists|k: int|
            {
                let best = best_of(bench, evaluations)->0;
                let picked = measured(evaluations[k].compared, TemporalPartition::Training)->0;
                &&& 0 <= k < evaluations.len()
                &&& qualifies(bench, #[trigger] evaluations[k])
                &&& best.taps == rounded(evaluations[k].taps)
                &&& best.training == Some(picked)
                &&& best.held_out == measured(evaluations[k].compared, TemporalPartition::HeldOut)
                &&& best.confirmed <==> accepted_gain(
                    evaluations[k].compared,
                    bench.strategy,
                    TemporalPartition::HeldOut,
                ) is Some
                &&& best.gain.rank() == vstd::math::min(
                    picked.relative_tail_improvement_db.rank(),
                    picked.absolute_late_improvement_db.rank(),
                )
                &&& forall|j: int|
                    0 <= j < evaluations.len() && qualifies(bench, #[trigger] evaluations[j]) ==> {
                        let other = measured(
                            evaluations[j].compared,
                            TemporalPartition::Training,
                        )->0;
                        let improvement = vstd::math::min(
                            other.relative_tail_improvement_db.rank(),
                            other.absolute_late_improvement_db.rank(),
                        );
                        &&& improvement <= best.gain.rank()
                        &&& j < k ==> improvement < best.gain.rank()
                    }
            },
{
    assert forall|j: int| 0 <= j < evaluations.len() implies {
        &&& training_gain(bench, #[trigger] evaluations[j]) is Some <==> qualifies(
            bench,
            evaluations[j],
        )
        &&& qualifies(bench, evaluations[j]) ==> {
            let other = measured(evaluations[j].compared, TemporalPartition::Training)->0;
            &&& measured(evaluations[j].compared, TemporalPartition::Training) is Some
            &&& training_gain(bench, evaluations[j])->0.rank() == vstd::math::min(
                other.relative_tail_improvement_db.rank(),
                other.absolute_late_improvement_db.rank(),
            )
        }
    } by {
        law_candidate_is_accepted_exactly_within_the_limits(
            evaluations[j].compared,
            bench.strategy,
            TemporalPartition::Training,
        );
    }
    law_best_candidate_is_picked(bench, evaluations);
    if best_of(bench, evaluations) is Some {
        let best = best_of(bench, evaluations)->0;
        let k = choose|k: int|
            0 <= k < evaluations.len() && #[trigger] is_first_best(bench, evaluations, k) && best
                == as_selected(bench, evaluations[k], training_gain(bench, evaluations[k])->0);
        assert(qualifies(bench, evaluations[k]));
    }
}

/// A search walks the whole grid, delay by delay and strength by strength: it asks for a delay
/// when all candidates of the delays before it were tried, then for the candidate of each
/// strength in turn, and for nothing more after the last one.
pub proof fn law_grid_is_walked_in_order(
    delays: nat,
    strengths: nat,
    delay: nat,
    strength: nat,
)
    requires
        delays <= usize::MAX,
        strengths <= usize::MAX,
        delay < delays,
        strength < strengths,
    ensures
        step_after(delays, strengths, delay, delay * strengths) == SearchStep::Delay(
            delay as usize,
        ),
        step_after(delays, strengths, delay + 1, delay * strengths + strength)
            == SearchStep::Candidate(delay as usize, strength as usize),
        step_after(delays, strengths, delays, delays * strengths) == SearchStep::Complete,
{
    assert((delay + 1) * strengths == delay * strengths + strengths) by (nonlinear_arith);
}

} // verus!
