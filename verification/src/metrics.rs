//! How a candidate filter compares with the baseline, over the evidence of one use.

use crate::ieee::{lowers, raises, Double};
use crate::settings::ZERO;
use crate::temporal_fir_config::{TemporalFirConfig, TemporalPartition};
use vstd::prelude::*;

verus! {

/// The bits of minus infinity.
pub const MINUS_INFINITY: u64 = 0xfff0_0000_0000_0000;

/// What a candidate changes at one piece of evidence, in decibels.
#[derive(Clone, Debug)]
pub struct Comparison {
    /// The change of the early energy.
    pub early_change_db: Double,
    /// The change of the tail relative to the early energy, window by window.
    pub relative_tail_changes_db: Vec<Double>,
    /// The change of the late energy, window by window.
    pub late_changes_db: Vec<Double>,
}

/// One piece of evidence, and what a candidate changes there, where that can be compared.
#[derive(Clone, Debug)]
pub struct Compared {
    pub partition: TemporalPartition,
    pub comparison: Option<Comparison>,
}

/// What a [`Comparison`] says.
pub struct ComparisonView {
    pub early_change_db: Double,
    pub relative_tail_changes_db: Seq<Double>,
    pub late_changes_db: Seq<Double>,
}

/// What a [`Compared`] says.
pub struct ComparedView {
    pub partition: TemporalPartition,
    pub comparison: Option<ComparisonView>,
}

impl View for Comparison {
    type V = ComparisonView;

    open spec fn view(&self) -> ComparisonView {
        ComparisonView {
            early_change_db: self.early_change_db,
            relative_tail_changes_db: self.relative_tail_changes_db@,
            late_changes_db: self.late_changes_db@,
        }
    }
}

impl View for Compared {
    type V = ComparedView;

    open spec fn view(&self) -> ComparedView {
        ComparedView {
            partition: self.partition,
            comparison: match self.comparison {
                Some(comparison) => Some(comparison@),
                None => None,
            },
        }
    }
}

/// What a list of comparisons says.
pub open spec fn compared_views(items: Seq<Compared>) -> Seq<ComparedView> {
    items.map_values(|item: Compared| item@)
}

/// How much a candidate improves on the baseline, over the evidence of one use, in decibels.
#[derive(Clone, Copy, Debug, PartialEq, Eq, Structural)]
pub struct Metrics {
    /// The least improvement of the relative tail.
    pub relative_tail_improvement_db: Double,
    /// The least improvement of the late energy.
    pub absolute_late_improvement_db: Double,
    /// The largest change of the early energy, in either direction.
    pub early_change_db: Double,
}

/// The largest of `values`; minus infinity where there is none.
pub open spec fn greatest(values: Seq<Double>) -> Double
    decreases values.len(),
{
    if values.len() == 0 {
        Double { bits: MINUS_INFINITY }
    } else {
        greatest(values.drop_last()).larger(values.last())
    }
}

/// The smallest of `values`, of which there is at least one.
pub open spec fn least(values: Seq<Double>) -> Double
    decreases values.len(),
{
    if values.len() <= 1 {
        values[0]
    } else {
        least(values.drop_last()).smaller(values.last())
    }
}

/// The comparisons at the evidence of one use.
pub open spec fn of_partition(
    items: Seq<ComparedView>,
    partition: TemporalPartition,
) -> Seq<ComparedView>
    decreases items.len(),
{
    if items.len() == 0 {
        Seq::empty()
    } else if items.last().partition == partition {
        of_partition(items.drop_last(), partition).push(items.last())
    } else {
        of_partition(items.drop_last(), partition)
    }
}

/// How much the relative tail improves at one piece: as much as in its worst window.
pub open spec fn relative_gain(item: ComparedView) -> Double {
    greatest(item.comparison->0.relative_tail_changes_db).opposite()
}

/// How much the late energy improves at one piece: as much as in its worst window.
pub open spec fn absolute_gain(item: ComparedView) -> Double {
    greatest(item.comparison->0.late_changes_db).opposite()
}

/// Whether a piece can be compared, with finite improvements.
pub open spec fn measurable(item: ComparedView) -> bool {
    item.comparison is Some && relative_gain(item).finite() && absolute_gain(item).finite()
}

/// How much the relative tail improves at each piece.
pub open spec fn relative_gains(items: Seq<ComparedView>) -> Seq<Double> {
    items.map_values(|item: ComparedView| relative_gain(item))
}

/// How much the late energy improves at each piece.
pub open spec fn absolute_gains(items: Seq<ComparedView>) -> Seq<Double> {
    items.map_values(|item: ComparedView| absolute_gain(item))
}

/// The largest early change at any piece, in either direction; zero where there is none.
pub open spec fn largest_early(items: Seq<ComparedView>) -> Double
    decreases items.len(),
{
    if items.len() == 0 {
        Double { bits: ZERO }
    } else {
        largest_early(items.drop_last()).larger(
            items.last().comparison->0.early_change_db.modulus(),
        )
    }
}

/// The metrics over the evidence of one use. There are none without evidence, or where a piece
/// of it cannot be compared.
pub open spec fn measured(items: Seq<ComparedView>, partition: TemporalPartition) -> Option<
    Metrics,
> {
    let chosen = of_partition(items, partition);
    if chosen.len() > 0 && forall|i: int|
        0 <= i < chosen.len() ==> measurable(#[trigger] chosen[i]) {
        Some(
            Metrics {
                relative_tail_improvement_db: least(relative_gains(chosen)),
                absolute_late_improvement_db: least(absolute_gains(chosen)),
                early_change_db: largest_early(chosen),
            },
        )
    } else {
        None
    }
}

/// The limit that counts where one of its own may tighten the general one: the larger of the
/// two.
pub open spec fn limit_or(own: Option<Double>, general: Double) -> Double {
    match own {
        Some(own) => own.larger(general),
        None => general,
    }
}

/// Whether the early change at one piece stays within the signed limits that are set.
pub open spec fn early_within(strategy: TemporalFirConfig, item: ComparedView) -> bool {
    let change = item.comparison->0.early_change_db;
    &&& item.comparison is Some
    &&& strategy.minimum_early_change_db is Some ==> strategy.minimum_early_change_db->0.at_most(
        change,
    )
    &&& strategy.maximum_early_increase_db is Some ==> change.at_most(
        strategy.maximum_early_increase_db->0,
    )
}

/// Whether metrics and comparisons stay within the limits of a strategy.
pub open spec fn within_limits(
    strategy: TemporalFirConfig,
    metrics: Metrics,
    chosen: Seq<ComparedView>,
) -> bool {
    &&& metrics.early_change_db.at_most(strategy.maximum_early_change_db)
    &&& limit_or(
        strategy.minimum_relative_tail_improvement_db,
        strategy.minimum_late_improvement_db,
    ).at_most(metrics.relative_tail_improvement_db)
    &&& limit_or(
        strategy.minimum_absolute_late_improvement_db,
        strategy.minimum_late_improvement_db,
    ).at_most(metrics.absolute_late_improvement_db)
    &&& forall|i: int|
        0 <= i < chosen.len() ==> early_within(strategy, #[trigger] chosen[i])
}

/// The improvement of a candidate that the evidence of one use accepts.
pub open spec fn accepted_gain(
    items: Seq<ComparedView>,
    strategy: TemporalFirConfig,
    partition: TemporalPartition,
) -> Option<Double> {
    match measured(items, partition) {
        None => None,
        Some(metrics) => if within_limits(strategy, metrics, of_partition(items, partition)) {
            Some(
                metrics.relative_tail_improvement_db.smaller(
                    metrics.absolute_late_improvement_db,
                ),
            )
        } else {
            None
        },
    }
}

fn maximum_of(values: &Vec<Double>) -> (r: Double)
    ensures
        r == greatest(values@),
{
    let mut r = Double { bits: MINUS_INFINITY };
    let mut i: usize = 0;
    while i < values.len()
        invariant
            i <= values@.len(),
            r == greatest(values@.take(i as int)),
        decreases values@.len() - i,
    {
        r = r.maximum(values[i]);
        i = i + 1;
        assert(values@.take(i as int).drop_last() =~= values@.take(i - 1));
    }
    assert(values@.take(i as int) =~= values@);
    r
}

/// The smaller of two numbers, of which the first may be missing.
fn minimum_of(so_far: Option<Double>, x: Double) -> (r: Double)
    ensures
        r == (match so_far {
            Some(y) => y.smaller(x),
            None => x,
        }),
{
    match so_far {
        Some(y) => y.minimum(x),
        None => x,
    }
}

/// How much a candidate improves on the baseline, over the evidence of one use. There are no
/// metrics without evidence, or where a piece of it cannot be compared.
pub fn partition_metrics(items: &Vec<Compared>, partition: TemporalPartition) -> (r: Option<
    Metrics,
>)
    ensures
        r == measured(compared_views(items@), partition),
{
    let ghost all = compared_views(items@);
    let mut relative: Option<Double> = None;
    let mut absolute: Option<Double> = None;
    let mut early = Double { bits: ZERO };
    let mut i: usize = 0;
    assert(all.take(0) =~= Seq::<ComparedView>::empty());
    while i < items.len()
        invariant
            all == compared_views(items@),
            i <= items@.len(),
            ({
                let chosen = of_partition(all.take(i as int), partition);
                &&& forall|j: int| 0 <= j < chosen.len() ==> measurable(#[trigger] chosen[j])
                &&& early == largest_early(chosen)
                &&& chosen.len() == 0 ==> relative is None && absolute is None
                &&& chosen.len() > 0 ==> relative == Some(least(relative_gains(chosen)))
                    && absolute == Some(least(absolute_gains(chosen)))
            }),
        decreases items@.len() - i,
    {
        let ghost before = of_partition(all.take(i as int), partition);
        let item = &items[i];
        proof {
            assert(all.take(i + 1).drop_last() =~= all.take(i as int));
            assert(all.take(i + 1).last() == item@);
        }
        if item.partition == partition {
            let ghost after = of_partition(all.take(i + 1), partition);
            assert(after == before.push(item@));
            proof {
                lemma_chosen_stays(all, partition, i + 1);
            }
            assert(of_partition(all, partition)[before.len() as int] == item@);
            let comparison = match &item.comparison {
                Some(comparison) => comparison,
                None => {
                    assert(!measurable(of_partition(all, partition)[before.len() as int]));
                    return None;
                },
            };
            early = early.maximum(comparison.early_change_db.absolute());
            let relative_gain = maximum_of(&comparison.relative_tail_changes_db).negated();
            let absolute_gain = maximum_of(&comparison.late_changes_db).negated();
            if !relative_gain.is_finite() || !absolute_gain.is_finite() {
                assert(!measurable(of_partition(all, partition)[before.len() as int]));
                return None;
            }
            proof {
                assert(after.drop_last() =~= before);
                assert(relative_gains(after).drop_last() =~= relative_gains(before));
                assert(absolute_gains(after).drop_last() =~= absolute_gains(before));
            }
            relative = Some(minimum_of(relative, relative_gain));
            absolute = Some(minimum_of(absolute, absolute_gain));
        }
        i = i + 1;
    }
    assert(all.take(i as int) =~= all);
    match (relative, absolute) {
        (Some(relative), Some(absolute)) => Some(
            Metrics {
                relative_tail_improvement_db: relative,
                absolute_late_improvement_db: absolute,
                early_change_db: early,
            },
        ),
        _ => None,
    }
}

/// A comparison that is chosen among the first ones is chosen among all.
proof fn lemma_chosen_stays(all: Seq<ComparedView>, partition: TemporalPartition, n: int)
    requires
        0 <= n <= all.len(),
    ensures
        ({
            let first = of_partition(all.take(n), partition);
            let chosen = of_partition(all, partition);
            &&& first.len() <= chosen.len()
            &&& forall|j: int| 0 <= j < first.len() ==> #[trigger] chosen[j] == first[j]
        }),
    decreases all.len(),
{
    if n < all.len() {
        lemma_chosen_stays(all.drop_last(), partition, n);
        assert(all.drop_last().take(n) =~= all.take(n));
    } else {
        assert(all.take(n) =~= all);
    }
}

/// The improvement of a candidate, where the evidence of one use accepts it.
pub fn acceptable(
    items: &Vec<Compared>,
    strategy: &TemporalFirConfig,
    partition: TemporalPartition,
) -> (r: Option<Double>)
    ensures
        r == accepted_gain(compared_views(items@), *strategy, partition),
{
    let metrics = match partition_metrics(items, partition) {
        Some(metrics) => metrics,
        None => return None,
    };
    let relative = metrics.relative_tail_improvement_db;
    let absolute = metrics.absolute_late_improvement_db;
    let relative_limit = effective_limit(
        strategy.minimum_relative_tail_improvement_db,
        strategy.minimum_late_improvement_db,
    );
    let absolute_limit = effective_limit(
        strategy.minimum_absolute_late_improvement_db,
        strategy.minimum_late_improvement_db,
    );
    if metrics.early_change_db.is_at_most(strategy.maximum_early_change_db)
        && relative_limit.is_at_most(relative) && absolute_limit.is_at_most(absolute)
        && early_changes_within(items, strategy, partition) {
        Some(relative.minimum(absolute))
    } else {
        None
    }
}

fn effective_limit(own: Option<Double>, general: Double) -> (r: Double)
    ensures
        r == limit_or(own, general),
{
    match own {
        Some(own) => own.maximum(general),
        None => general,
    }
}

fn is_early_within(strategy: &TemporalFirConfig, item: &Compared) -> (r: bool)
    ensures
        r == early_within(*strategy, item@),
{
    match &item.comparison {
        None => false,
        Some(comparison) => {
            let change = comparison.early_change_db;
            let high_enough = match strategy.minimum_early_change_db {
                Some(minimum) => minimum.is_at_most(change),
                None => true,
            };
            let low_enough = match strategy.maximum_early_increase_db {
                Some(maximum) => change.is_at_most(maximum),
                None => true,
            };
            high_enough && low_enough
        },
    }
}

fn early_changes_within(
    items: &Vec<Compared>,
    strategy: &TemporalFirConfig,
    partition: TemporalPartition,
) -> (r: bool)
    ensures
        ({
            let chosen = of_partition(compared_views(items@), partition);
            r == (forall|i: int|
                0 <= i < chosen.len() ==> early_within(*strategy, #[trigger] chosen[i]))
        }),
{
    let ghost all = compared_views(items@);
    let mut i: usize = 0;
    assert(all.take(0) =~= Seq::<ComparedView>::empty());
    while i < items.len()
        invariant
            all == compared_views(items@),
            i <= items@.len(),
            ({
                let chosen = of_partition(all.take(i as int), partition);
                forall|j: int|
                    0 <= j < chosen.len() ==> early_within(*strategy, #[trigger] chosen[j])
            }),
        decreases items@.len() - i,
    {
        let item = &items[i];
        let ghost before = of_partition(all.take(i as int), partition);
        proof {
            assert(all.take(i + 1).drop_last() =~= all.take(i as int));
            assert(all.take(i + 1).last() == item@);
        }
        if item.partition == partition && !is_early_within(strategy, item) {
            proof {
                lemma_chosen_stays(all, partition, i + 1);
            }
            assert(of_partition(all, partition)[before.len() as int] == item@);
            return false;
        }
        i = i + 1;
    }
    assert(all.take(i as int) =~= all);
    true
}

proof fn lemma_greatest_bounds(values: Seq<Double>, k: int)
    requires
        0 <= k < values.len(),
        !values[k].nan(),
    ensures
        !greatest(values).nan(),
        values[k].rank() <= greatest(values).rank(),
    decreases values.len(),
{
    lemma_greatest_is_number(values.drop_last());
    if k < values.len() - 1 {
        lemma_greatest_bounds(values.drop_last(), k);
    }
}

proof fn lemma_greatest_is_number(values: Seq<Double>)
    ensures
        !greatest(values).nan(),
    decreases values.len(),
{
    if values.len() > 0 {
        lemma_greatest_is_number(values.drop_last());
    }
}

proof fn lemma_least_bounds(values: Seq<Double>, k: int)
    requires
        0 <= k < values.len(),
        forall|i: int| 0 <= i < values.len() ==> !(#[trigger] values[i]).nan(),
    ensures
        !least(values).nan(),
        least(values).rank() <= values[k].rank(),
    decreases values.len(),
{
    if values.len() > 1 {
        let rest = values.drop_last();
        lemma_least_bounds(rest, if k < rest.len() { k } else { 0 });
    }
}

proof fn lemma_largest_early_bounds(items: Seq<ComparedView>, k: int)
    requires
        0 <= k < items.len(),
        !items[k].comparison->0.early_change_db.nan(),
    ensures
        !largest_early(items).nan(),
        items[k].comparison->0.early_change_db.magnitude() <= largest_early(items).rank(),
    decreases items.len(),
{
    lemma_largest_early_is_number(items.drop_last());
    if k < items.len() - 1 {
        lemma_largest_early_bounds(items.drop_last(), k);
    }
}

proof fn lemma_largest_early_is_number(items: Seq<ComparedView>)
    ensures
        !largest_early(items).nan(),
    decreases items.len(),
{
    if items.len() > 0 {
        lemma_largest_early_is_number(items.drop_last());
    }
}

/// A comparison is chosen for its use, and only for that.
pub proof fn law_partition_is_exact(items: Seq<ComparedView>, partition: TemporalPartition)
    ensures
        forall|item: ComparedView|
            #[trigger] of_partition(items, partition).contains(item) <==> items.contains(item)
                && item.partition == partition,
    decreases items.len(),
{
    let chosen = of_partition(items, partition);
    if items.len() > 0 {
        let rest = of_partition(items.drop_last(), partition);
        law_partition_is_exact(items.drop_last(), partition);
        assert forall|item: ComparedView| #[trigger]
            chosen.contains(item) <==> items.contains(item) && item.partition == partition by {
            assert(rest.contains(item) <==> items.drop_last().contains(item) && item.partition
                == partition);
            if chosen.contains(item) {
                let k = choose|k: int| 0 <= k < chosen.len() && chosen[k] == item;
                if k < rest.len() {
                    assert(rest[k] == item);
                    let m = choose|m: int|
                        0 <= m < items.drop_last().len() && items.drop_last()[m] == item;
                    assert(items[m] == item);
                } else {
                    assert(items[items.len() - 1] == item);
                }
            }
            if items.contains(item) && item.partition == partition {
                let m = choose|m: int| 0 <= m < items.len() && items[m] == item;
                if m < items.len() - 1 {
                    assert(items.drop_last()[m] == item);
                    let k = choose|k: int| 0 <= k < rest.len() && rest[k] == item;
                    assert(chosen[k] == item);
                } else {
                    assert(chosen[chosen.len() - 1] == item);
                }
            }
        }
    }
}

/// The metrics bound every window of every piece of evidence of the use: no change of the
/// relative tail or of the late energy undercuts the stated improvement, and no early change
/// exceeds the stated one.
pub proof fn law_metrics_bound_every_window(
    items: Seq<ComparedView>,
    partition: TemporalPartition,
    i: int,
    k: int,
)
    requires
        measured(items, partition) is Some,
        0 <= i < of_partition(items, partition).len(),
    ensures
        ({
            let metrics = measured(items, partition)->0;
            let comparison = of_partition(items, partition)[i].comparison->0;
            let relative = comparison.relative_tail_changes_db;
            let late = comparison.late_changes_db;
            &&& 0 <= k < relative.len() && !relative[k].nan()
                ==> metrics.relative_tail_improvement_db.at_most(relative[k].opposite())
            &&& 0 <= k < late.len() && !late[k].nan()
                ==> metrics.absolute_late_improvement_db.at_most(late[k].opposite())
            &&& !comparison.early_change_db.nan() ==> comparison.early_change_db.modulus().at_most(
                metrics.early_change_db,
            )
        }),
{
    let chosen = of_partition(items, partition);
    let item = chosen[i];
    let relative = item.comparison->0.relative_tail_changes_db;
    let late = item.comparison->0.late_changes_db;
    assert forall|j: int| 0 <= j < chosen.len() implies {
        &&& !(#[trigger] relative_gains(chosen)[j]).nan()
        &&& !absolute_gains(chosen)[j].nan()
    } by {
        assert(measurable(chosen[j]));
    }
    lemma_least_bounds(relative_gains(chosen), i);
    lemma_least_bounds(absolute_gains(chosen), i);
    if 0 <= k < relative.len() && !relative[k].nan() {
        lemma_greatest_bounds(relative, k);
    }
    if 0 <= k < late.len() && !late[k].nan() {
        lemma_greatest_bounds(late, k);
    }
    if !item.comparison->0.early_change_db.nan() {
        lemma_largest_early_bounds(chosen, i);
    }
}

/// What the evidence of a use accepts stays within the limits at every piece: each window
/// improves by the limit that counts, the early change stays within the limit in either
/// direction and within the signed limits, and the improvement that is stated is the smaller of
/// the two.
pub proof fn law_accepted_candidate_is_within_every_limit(
    items: Seq<ComparedView>,
    strategy: TemporalFirConfig,
    partition: TemporalPartition,
    i: int,
    k: int,
)
    requires
        accepted_gain(items, strategy, partition) is Some,
        0 <= i < of_partition(items, partition).len(),
    ensures
        ({
            let gain = accepted_gain(items, strategy, partition)->0;
            let item = of_partition(items, partition)[i];
            let comparison = item.comparison->0;
            let relative = comparison.relative_tail_changes_db;
            let late = comparison.late_changes_db;
            &&& early_within(strategy, item)
            &&& !comparison.early_change_db.nan() ==> comparison.early_change_db.modulus().at_most(
                strategy.maximum_early_change_db,
            )
            &&& 0 <= k < relative.len() && !relative[k].nan() ==> {
                &&& limit_or(
                    strategy.minimum_relative_tail_improvement_db,
                    strategy.minimum_late_improvement_db,
                ).at_most(relative[k].opposite())
                &&& gain.at_most(relative[k].opposite())
            }
            &&& 0 <= k < late.len() && !late[k].nan() ==> {
                &&& limit_or(
                    strategy.minimum_absolute_late_improvement_db,
                    strategy.minimum_late_improvement_db,
                ).at_most(late[k].opposite())
                &&& gain.at_most(late[k].opposite())
            }
        }),
{
    law_metrics_bound_every_window(items, partition, i, k);
}

/// A strategy without its optional limits.
pub open spec fn without_optional_limits(strategy: TemporalFirConfig) -> TemporalFirConfig {
    TemporalFirConfig {
        minimum_relative_tail_improvement_db: None,
        minimum_absolute_late_improvement_db: None,
        minimum_early_change_db: None,
        maximum_early_increase_db: None,
        ..strategy
    }
}

/// The optional limits only tighten: what a strategy accepts with them, it accepts without them,
/// with the same improvement.
pub proof fn law_optional_limits_only_tighten(
    items: Seq<ComparedView>,
    strategy: TemporalFirConfig,
    partition: TemporalPartition,
)
    requires
        !strategy.minimum_late_improvement_db.nan(),
        accepted_gain(items, strategy, partition) is Some,
    ensures
        accepted_gain(items, without_optional_limits(strategy), partition) == accepted_gain(
            items,
            strategy,
            partition,
        ),
{
    let loose = without_optional_limits(strategy);
    let chosen = of_partition(items, partition);
    assert forall|i: int| 0 <= i < chosen.len() implies early_within(loose, #[trigger] chosen[i]) by {
        assert(early_within(strategy, chosen[i]));
    }
}

/// Whether a strategy asks for no more than another one does.
pub open spec fn looser(loose: TemporalFirConfig, tight: TemporalFirConfig) -> bool {
    &&& tight.maximum_early_change_db.at_most(loose.maximum_early_change_db)
    &&& limit_or(
        loose.minimum_relative_tail_improvement_db,
        loose.minimum_late_improvement_db,
    ).at_most(
        limit_or(tight.minimum_relative_tail_improvement_db, tight.minimum_late_improvement_db),
    )
    &&& limit_or(
        loose.minimum_absolute_late_improvement_db,
        loose.minimum_late_improvement_db,
    ).at_most(
        limit_or(tight.minimum_absolute_late_improvement_db, tight.minimum_late_improvement_db),
    )
    &&& lowers(loose.minimum_early_change_db, tight.minimum_early_change_db)
    &&& raises(loose.maximum_early_increase_db, tight.maximum_early_increase_db)
}

/// Looser limits accept what tighter ones do, with the same improvement.
pub proof fn law_looser_limits_accept_the_same(
    items: Seq<ComparedView>,
    loose: TemporalFirConfig,
    tight: TemporalFirConfig,
    partition: TemporalPartition,
)
    requires
        looser(loose, tight),
        accepted_gain(items, tight, partition) is Some,
    ensures
        accepted_gain(items, loose, partition) == accepted_gain(items, tight, partition),
{
    let chosen = of_partition(items, partition);
    assert forall|i: int| 0 <= i < chosen.len() implies early_within(loose, #[trigger] chosen[i]) by {
        assert(early_within(tight, chosen[i]));
    }
}

/// The smallest value is one of the values.
proof fn lemma_least_is_met(values: Seq<Double>) -> (k: int)
    requires
        values.len() > 0,
    ensures
        0 <= k < values.len(),
        least(values) == values[k],
    decreases values.len(),
{
    if values.len() == 1 {
        0
    } else {
        let rest = values.drop_last();
        let k = lemma_least_is_met(rest);
        if least(values) == values.last() {
            values.len() - 1
        } else {
            k
        }
    }
}

/// The largest early change is zero, or that of one of the pieces.
proof fn lemma_largest_early_is_met(items: Seq<ComparedView>)
    ensures
        largest_early(items).rank() >= 0,
        largest_early(items).rank() > 0 ==> exists|k: int|
            0 <= k < items.len() && !(#[trigger] items[k]).comparison->0.early_change_db.nan()
                && items[k].comparison->0.early_change_db.magnitude() == largest_early(
                items,
            ).rank(),
    decreases items.len(),
{
    if items.len() > 0 {
        let rest = items.drop_last();
        lemma_largest_early_is_met(rest);
        lemma_largest_early_is_number(rest);
        let last = items[items.len() - 1].comparison->0.early_change_db;
        if largest_early(items) == largest_early(rest) {
            if largest_early(rest).rank() > 0 {
                let k = choose|k: int|
                    0 <= k < rest.len() && !(#[trigger] rest[k]).comparison->0.early_change_db.nan()
                        && rest[k].comparison->0.early_change_db.magnitude() == largest_early(
                        rest,
                    ).rank();
                assert(items[k] == rest[k]);
            }
        } else {
            assert(largest_early(items) == last.modulus());
        }
    }
}

/// More pieces improve no more, and change the early energy no less.
proof fn lemma_more_pieces_gain_no_more(some: Seq<ComparedView>, all: Seq<ComparedView>)
    requires
        some.len() > 0,
        all.len() > 0,
        forall|i: int| 0 <= i < some.len() ==> all.contains(#[trigger] some[i]),
        forall|i: int| 0 <= i < all.len() ==> measurable(#[trigger] all[i]),
    ensures
        !least(relative_gains(all)).nan(),
        !least(absolute_gains(all)).nan(),
        !largest_early(all).nan(),
        least(relative_gains(all)).rank() <= least(relative_gains(some)).rank(),
        least(absolute_gains(all)).rank() <= least(absolute_gains(some)).rank(),
        largest_early(some).rank() <= largest_early(all).rank(),
{
    assert forall|j: int| 0 <= j < all.len() implies {
        &&& !(#[trigger] relative_gains(all)[j]).nan()
        &&& !absolute_gains(all)[j].nan()
    } by {
        assert(measurable(all[j]));
    }
    let k = lemma_least_is_met(relative_gains(some));
    assert(all.contains(some[k]));
    lemma_least_bounds(relative_gains(all), all.index_of(some[k]));
    let k = lemma_least_is_met(absolute_gains(some));
    assert(all.contains(some[k]));
    lemma_least_bounds(absolute_gains(all), all.index_of(some[k]));
    lemma_largest_early_is_number(all);
    lemma_largest_early_is_met(all);
    lemma_largest_early_is_met(some);
    if largest_early(some).rank() > 0 {
        let k = choose|k: int|
            0 <= k < some.len() && !(#[trigger] some[k]).comparison->0.early_change_db.nan()
                && some[k].comparison->0.early_change_db.magnitude() == largest_early(some).rank();
        assert(all.contains(some[k]));
        lemma_largest_early_bounds(all, all.index_of(some[k]));
    }
}

/// Whether two lists hold the same comparisons at the evidence of one use.
pub open spec fn same_evidence(
    a: Seq<ComparedView>,
    b: Seq<ComparedView>,
    partition: TemporalPartition,
) -> bool {
    forall|item: ComparedView|
        #![trigger a.contains(item)]
        #![trigger b.contains(item)]
        item.partition == partition ==> (a.contains(item) <==> b.contains(item))
}

/// What is chosen of one list is chosen of the other, piece by piece.
proof fn lemma_chosen_of_both(
    a: Seq<ComparedView>,
    b: Seq<ComparedView>,
    partition: TemporalPartition,
)
    requires
        same_evidence(a, b, partition),
    ensures
        ({
            let chosen = of_partition(a, partition);
            forall|i: int|
                0 <= i < chosen.len() ==> of_partition(b, partition).contains(#[trigger] chosen[i])
        }),
{
    law_partition_is_exact(a, partition);
    law_partition_is_exact(b, partition);
    let chosen = of_partition(a, partition);
    assert forall|i: int| 0 <= i < chosen.len() implies of_partition(b, partition).contains(
        #[trigger] chosen[i],
    ) by {
        assert(chosen.contains(chosen[i]));
        assert(a.contains(chosen[i]));
    }
}

/// Where the one list can be measured, so can the other, and no early change falls outside the
/// limits there that stays within them here.
proof fn lemma_measured_alike(
    a: Seq<ComparedView>,
    b: Seq<ComparedView>,
    strategy: TemporalFirConfig,
    partition: TemporalPartition,
)
    requires
        same_evidence(a, b, partition),
        measured(a, partition) is Some,
    ensures
        measured(b, partition) is Some,
        accepted_gain(a, strategy, partition) is Some ==> {
            let chosen = of_partition(b, partition);
            forall|i: int|
                0 <= i < chosen.len() ==> early_within(strategy, #[trigger] chosen[i])
        },
{
    let left = of_partition(a, partition);
    let right = of_partition(b, partition);
    lemma_chosen_of_both(a, b, partition);
    lemma_chosen_of_both(b, a, partition);
    assert(right.contains(left[0]));
    assert forall|i: int| 0 <= i < right.len() implies {
        &&& measurable(#[trigger] right[i])
        &&& accepted_gain(a, strategy, partition) is Some ==> early_within(strategy, right[i])
    } by {
        assert(left.contains(right[i]));
        let k = left.index_of(right[i]);
        assert(measurable(left[k]));
        assert(accepted_gain(a, strategy, partition) is Some ==> early_within(strategy, left[k]));
    }
}

/// The metrics depend on the evidence of the use alone: not on its order, nor on how often a
/// comparison is listed, nor on the evidence of the other use. The same holds of what is
/// accepted, and of the improvement.
pub proof fn law_metrics_depend_on_the_evidence_of_the_use(
    a: Seq<ComparedView>,
    b: Seq<ComparedView>,
    strategy: TemporalFirConfig,
    partition: TemporalPartition,
)
    requires
        same_evidence(a, b, partition),
    ensures
        measured(a, partition) is Some <==> measured(b, partition) is Some,
        measured(a, partition) is Some ==> {
            let left = measured(a, partition)->0;
            let right = measured(b, partition)->0;
            &&& left.relative_tail_improvement_db.rank()
                == right.relative_tail_improvement_db.rank()
            &&& left.absolute_late_improvement_db.rank()
                == right.absolute_late_improvement_db.rank()
            &&& left.early_change_db.rank() == right.early_change_db.rank()
        },
        accepted_gain(a, strategy, partition) is Some <==> accepted_gain(
            b,
            strategy,
            partition,
        ) is Some,
        accepted_gain(a, strategy, partition) is Some ==> accepted_gain(
            a,
            strategy,
            partition,
        )->0.rank() == accepted_gain(b, strategy, partition)->0.rank(),
{
    if measured(a, partition) is Some {
        lemma_measured_alike(a, b, strategy, partition);
    }
    if measured(b, partition) is Some {
        lemma_measured_alike(b, a, strategy, partition);
    }
    if measured(a, partition) is Some {
        lemma_chosen_of_both(a, b, partition);
        lemma_chosen_of_both(b, a, partition);
        lemma_more_pieces_gain_no_more(of_partition(a, partition), of_partition(b, partition));
        lemma_more_pieces_gain_no_more(of_partition(b, partition), of_partition(a, partition));
    }
}

/// Whether the changes of a list of windows have a largest one that is finite: some window has a
/// finite change, and none has an infinite one that is positive. What is not a number is no
/// change.
pub open spec fn has_finite_worst(changes: Seq<Double>) -> bool {
    &&& exists|k: int| 0 <= k < changes.len() && (#[trigger] changes[k]).finite()
    &&& forall|k: int|
        0 <= k < changes.len() ==> (#[trigger] changes[k]).finite() || changes[k].nan()
            || changes[k].negative()
}

/// The largest change is minus infinity, or that of one of the windows.
proof fn lemma_greatest_is_met(values: Seq<Double>)
    ensures
        greatest(values).rank() == (Double { bits: MINUS_INFINITY }).rank() || exists|k: int|
            0 <= k < values.len() && !(#[trigger] values[k]).nan() && values[k].rank() == greatest(
                values,
            ).rank(),
    decreases values.len(),
{
    if values.len() > 0 {
        let rest = values.drop_last();
        lemma_greatest_is_met(rest);
        lemma_greatest_is_number(rest);
        let last = values[values.len() - 1];
        if greatest(values) == greatest(rest) {
            if exists|k: int|
                0 <= k < rest.len() && !(#[trigger] rest[k]).nan() && rest[k].rank() == greatest(
                    rest,
                ).rank() {
                let k = choose|k: int|
                    0 <= k < rest.len() && !(#[trigger] rest[k]).nan() && rest[k].rank()
                        == greatest(rest).rank();
                assert(values[k] == rest[k]);
            }
        } else {
            assert(greatest(values) == last);
            assert(!values[values.len() - 1].nan());
        }
    }
}

proof fn lemma_finite_worst(values: Seq<Double>)
    ensures
        greatest(values).opposite().finite() <==> has_finite_worst(values),
        has_finite_worst(values) ==> exists|k: int|
            0 <= k < values.len() && !(#[trigger] values[k]).nan() && values[k].rank() == greatest(
                values,
            ).rank(),
        greatest(values).opposite().rank() == -greatest(values).rank(),
{
    lemma_greatest_is_met(values);
    lemma_greatest_is_number(values);
    let worst = greatest(values);
    if worst.opposite().finite() {
        let k = choose|k: int|
            0 <= k < values.len() && !(#[trigger] values[k]).nan() && values[k].rank()
                == worst.rank();
        assert(values[k].finite());
        assert forall|j: int| 0 <= j < values.len() implies (#[trigger] values[j]).finite()
            || values[j].nan() || values[j].negative() by {
            if !values[j].nan() {
                lemma_greatest_bounds(values, j);
            }
        }
    }
    if has_finite_worst(values) {
        let k = choose|k: int| 0 <= k < values.len() && (#[trigger] values[k]).finite();
        lemma_greatest_bounds(values, k);
        let m = choose|m: int|
            0 <= m < values.len() && !(#[trigger] values[m]).nan() && values[m].rank()
                == worst.rank();
        assert(values[m].finite() || values[m].negative());
    }
}

/// There are metrics exactly if there is evidence of the use, all of it can be compared, and the
/// worst changes of each piece are finite.
pub proof fn law_metrics_exist_exactly_if(items: Seq<ComparedView>, partition: TemporalPartition)
    ensures
        measured(items, partition) is Some <==> {
            &&& exists|i: int| 0 <= i < items.len() && (#[trigger] items[i]).partition == partition
            &&& forall|i: int|
                0 <= i < items.len() && (#[trigger] items[i]).partition == partition ==> {
                    &&& items[i].comparison is Some
                    &&& has_finite_worst(items[i].comparison->0.relative_tail_changes_db)
                    &&& has_finite_worst(items[i].comparison->0.late_changes_db)
                }
        },
{
    let chosen = of_partition(items, partition);
    law_partition_is_exact(items, partition);
    assert forall|item: ComparedView| #[trigger] measurable(item) <==> {
        &&& item.comparison is Some
        &&& has_finite_worst(item.comparison->0.relative_tail_changes_db)
        &&& has_finite_worst(item.comparison->0.late_changes_db)
    } by {
        lemma_finite_worst(item.comparison->0.relative_tail_changes_db);
        lemma_finite_worst(item.comparison->0.late_changes_db);
    }
    if measured(items, partition) is Some {
        assert(chosen.contains(chosen[0]));
        let first = items.index_of(chosen[0]);
        assert(items[first].partition == partition);
        assert forall|i: int|
            0 <= i < items.len() && (#[trigger] items[i]).partition == partition implies measurable(
            items[i],
        ) by {
            assert(items.contains(items[i]));
            assert(chosen.contains(items[i]));
            assert(measurable(chosen[chosen.index_of(items[i])]));
        }
    }
    if (exists|i: int| 0 <= i < items.len() && (#[trigger] items[i]).partition == partition)
        && forall|i: int|
        0 <= i < items.len() && (#[trigger] items[i]).partition == partition ==> measurable(
            items[i],
        ) {
        let i = choose|i: int| 0 <= i < items.len() && (#[trigger] items[i]).partition == partition;
        assert(items.contains(items[i]));
        assert(chosen.contains(items[i]));
        assert forall|j: int| 0 <= j < chosen.len() implies measurable(#[trigger] chosen[j]) by {
            assert(chosen.contains(chosen[j]));
            assert(items.contains(chosen[j]));
            assert(measurable(items[items.index_of(chosen[j])]));
        }
    }
}

/// The metrics are those of the worst windows: over all pieces of the use and all their windows,
/// no relative tail and no late energy improves by less than is stated, and some window improves
/// by just that; no early energy changes by more than is stated, in either direction, and some
/// changes by just that, unless none changes.
pub proof fn law_metrics_are_those_of_the_worst_windows(
    items: Seq<ComparedView>,
    partition: TemporalPartition,
)
    requires
        measured(items, partition) is Some,
    ensures
        ({
            let relative = measured(items, partition)->0.relative_tail_improvement_db;
            !relative.nan() && forall|i: int, k: int|
                #![trigger items[i].comparison->0.relative_tail_changes_db[k]]
                0 <= i < items.len() && items[i].partition == partition && 0 <= k
                    < items[i].comparison->0.relative_tail_changes_db.len()
                    && !items[i].comparison->0.relative_tail_changes_db[k].nan() ==> relative.rank()
                    <= -items[i].comparison->0.relative_tail_changes_db[k].rank()
        }),
        ({
            let relative = measured(items, partition)->0.relative_tail_improvement_db;
            exists|i: int, k: int|
                #![trigger items[i].comparison->0.relative_tail_changes_db[k]]
                0 <= i < items.len() && items[i].partition == partition && 0 <= k
                    < items[i].comparison->0.relative_tail_changes_db.len()
                    && !items[i].comparison->0.relative_tail_changes_db[k].nan() && relative.rank()
                    == -items[i].comparison->0.relative_tail_changes_db[k].rank()
        }),
        ({
            let absolute = measured(items, partition)->0.absolute_late_improvement_db;
            !absolute.nan() && forall|i: int, k: int|
                #![trigger items[i].comparison->0.late_changes_db[k]]
                0 <= i < items.len() && items[i].partition == partition && 0 <= k
                    < items[i].comparison->0.late_changes_db.len()
                    && !items[i].comparison->0.late_changes_db[k].nan() ==> absolute.rank()
                    <= -items[i].comparison->0.late_changes_db[k].rank()
        }),
        ({
            let absolute = measured(items, partition)->0.absolute_late_improvement_db;
            exists|i: int, k: int|
                #![trigger items[i].comparison->0.late_changes_db[k]]
                0 <= i < items.len() && items[i].partition == partition && 0 <= k
                    < items[i].comparison->0.late_changes_db.len()
                    && !items[i].comparison->0.late_changes_db[k].nan() && absolute.rank()
                    == -items[i].comparison->0.late_changes_db[k].rank()
        }),
        ({
            let early = measured(items, partition)->0.early_change_db;
            &&& !early.nan()
            &&& early.rank() >= 0
            &&& forall|i: int|
                0 <= i < items.len() && (#[trigger] items[i]).partition == partition
                    && !items[i].comparison->0.early_change_db.nan() ==> -early.rank()
                    <= items[i].comparison->0.early_change_db.rank() <= early.rank()
            &&& early.rank() == 0 || exists|i: int|
                0 <= i < items.len() && (#[trigger] items[i]).partition == partition
                    && !items[i].comparison->0.early_change_db.nan() && (
                items[i].comparison->0.early_change_db.rank() == early.rank()
                    || items[i].comparison->0.early_change_db.rank() == -early.rank())
        }),
{
    let chosen = of_partition(items, partition);
    let metrics = measured(items, partition)->0;
    law_partition_is_exact(items, partition);
    assert forall|j: int| 0 <= j < chosen.len() implies {
        &&& !(#[trigger] relative_gains(chosen)[j]).nan()
        &&& !absolute_gains(chosen)[j].nan()
    } by {
        assert(measurable(chosen[j]));
    }
    assert forall|i: int| 0 <= i < items.len() && (#[trigger] items[i]).partition == partition
        implies {
        let j = chosen.index_of(items[i]);
        0 <= j < chosen.len() && chosen[j] == items[i]
    } by {
        assert(items.contains(items[i]));
        assert(chosen.contains(items[i]));
    }
    lemma_least_bounds(relative_gains(chosen), 0);
    lemma_least_bounds(absolute_gains(chosen), 0);
    lemma_largest_early_is_number(chosen);
    lemma_largest_early_is_met(chosen);
    assert forall|i: int, k: int|
        #![trigger items[i].comparison->0.relative_tail_changes_db[k]]
        0 <= i < items.len() && items[i].partition == partition && 0 <= k
            < items[i].comparison->0.relative_tail_changes_db.len()
            && !items[i].comparison->0.relative_tail_changes_db[k].nan() implies
        metrics.relative_tail_improvement_db.rank()
            <= -items[i].comparison->0.relative_tail_changes_db[k].rank() by {
        let j = chosen.index_of(items[i]);
        lemma_least_bounds(relative_gains(chosen), j);
        lemma_greatest_bounds(items[i].comparison->0.relative_tail_changes_db, k);
        lemma_finite_worst(items[i].comparison->0.relative_tail_changes_db);
    }
    assert forall|i: int, k: int|
        #![trigger items[i].comparison->0.late_changes_db[k]]
        0 <= i < items.len() && items[i].partition == partition && 0 <= k
            < items[i].comparison->0.late_changes_db.len()
            && !items[i].comparison->0.late_changes_db[k].nan() implies
        metrics.absolute_late_improvement_db.rank()
            <= -items[i].comparison->0.late_changes_db[k].rank() by {
        let j = chosen.index_of(items[i]);
        lemma_least_bounds(absolute_gains(chosen), j);
        lemma_greatest_bounds(items[i].comparison->0.late_changes_db, k);
        lemma_finite_worst(items[i].comparison->0.late_changes_db);
    }
    assert forall|i: int|
        0 <= i < items.len() && (#[trigger] items[i]).partition == partition
            && !items[i].comparison->0.early_change_db.nan() implies
        -metrics.early_change_db.rank() <= items[i].comparison->0.early_change_db.rank()
            <= metrics.early_change_db.rank() by {
        lemma_largest_early_bounds(chosen, chosen.index_of(items[i]));
    }
    lemma_worst_windows_are_met(items, partition);
    if metrics.early_change_db.rank() > 0 {
        let j = choose|j: int|
            0 <= j < chosen.len() && !(#[trigger] chosen[j]).comparison->0.early_change_db.nan()
                && chosen[j].comparison->0.early_change_db.magnitude() == largest_early(
                chosen,
            ).rank();
        assert(chosen.contains(chosen[j]));
        let i = items.index_of(chosen[j]);
        assert(items.contains(chosen[j]));
        assert(items[i].partition == partition);
    }
}

proof fn lemma_worst_windows_are_met(items: Seq<ComparedView>, partition: TemporalPartition)
    requires
        measured(items, partition) is Some,
    ensures
        exists|i: int, k: int|
            #![trigger items[i].comparison->0.relative_tail_changes_db[k]]
            0 <= i < items.len() && items[i].partition == partition && 0 <= k
                < items[i].comparison->0.relative_tail_changes_db.len()
                && !items[i].comparison->0.relative_tail_changes_db[k].nan() && measured(
                items,
                partition,
            )->0.relative_tail_improvement_db.rank()
                == -items[i].comparison->0.relative_tail_changes_db[k].rank(),
        exists|i: int, k: int|
            #![trigger items[i].comparison->0.late_changes_db[k]]
            0 <= i < items.len() && items[i].partition == partition && 0 <= k
                < items[i].comparison->0.late_changes_db.len()
                && !items[i].comparison->0.late_changes_db[k].nan() && measured(
                items,
                partition,
            )->0.absolute_late_improvement_db.rank()
                == -items[i].comparison->0.late_changes_db[k].rank(),
{
    let chosen = of_partition(items, partition);
    law_partition_is_exact(items, partition);
    let j = lemma_least_is_met(relative_gains(chosen));
    assert(measurable(chosen[j]));
    assert(chosen.contains(chosen[j]));
    assert(items.contains(chosen[j]));
    let i = items.index_of(chosen[j]);
    let windows = items[i].comparison->0.relative_tail_changes_db;
    lemma_finite_worst(windows);
    let k = choose|k: int|
        0 <= k < windows.len() && !(#[trigger] windows[k]).nan() && windows[k].rank() == greatest(
            windows,
        ).rank();
    assert(!items[i].comparison->0.relative_tail_changes_db[k].nan());
    let j = lemma_least_is_met(absolute_gains(chosen));
    assert(measurable(chosen[j]));
    assert(chosen.contains(chosen[j]));
    assert(items.contains(chosen[j]));
    let i = items.index_of(chosen[j]);
    let windows = items[i].comparison->0.late_changes_db;
    lemma_finite_worst(windows);
    let k = choose|k: int|
        0 <= k < windows.len() && !(#[trigger] windows[k]).nan() && windows[k].rank() == greatest(
            windows,
        ).rank();
    assert(!items[i].comparison->0.late_changes_db[k].nan());
}

/// A candidate is accepted exactly if it can be measured and stays within each limit that is set:
/// the general ones, those of its own for the tail and the late energy, and the signed ones for
/// the early energy at each piece. The improvement that is stated is the smaller one of the two.
pub proof fn law_candidate_is_accepted_exactly_within_the_limits(
    items: Seq<ComparedView>,
    strategy: TemporalFirConfig,
    partition: TemporalPartition,
)
    requires
        !strategy.minimum_late_improvement_db.nan(),
        strategy.minimum_relative_tail_improvement_db is Some
            ==> !strategy.minimum_relative_tail_improvement_db->0.nan(),
        strategy.minimum_absolute_late_improvement_db is Some
            ==> !strategy.minimum_absolute_late_improvement_db->0.nan(),
    ensures
        accepted_gain(items, strategy, partition) is Some <==> {
            let metrics = measured(items, partition)->0;
            &&& measured(items, partition) is Some
            &&& metrics.early_change_db.at_most(strategy.maximum_early_change_db)
            &&& strategy.minimum_late_improvement_db.at_most(metrics.relative_tail_improvement_db)
            &&& strategy.minimum_late_improvement_db.at_most(metrics.absolute_late_improvement_db)
            &&& strategy.minimum_relative_tail_improvement_db is None
                || strategy.minimum_relative_tail_improvement_db->0.at_most(
                metrics.relative_tail_improvement_db,
            )
            &&& strategy.minimum_absolute_late_improvement_db is None
                || strategy.minimum_absolute_late_improvement_db->0.at_most(
                metrics.absolute_late_improvement_db,
            )
            &&& forall|i: int|
                0 <= i < items.len() && (#[trigger] items[i]).partition == partition ==> {
                    let change = items[i].comparison->0.early_change_db;
                    &&& strategy.minimum_early_change_db is None
                        || strategy.minimum_early_change_db->0.at_most(change)
                    &&& strategy.maximum_early_increase_db is None || change.at_most(
                        strategy.maximum_early_increase_db->0,
                    )
                }
        },
        accepted_gain(items, strategy, partition) is Some ==> accepted_gain(
            items,
            strategy,
            partition,
        )->0.rank() == vstd::math::min(
            measured(items, partition)->0.relative_tail_improvement_db.rank(),
            measured(items, partition)->0.absolute_late_improvement_db.rank(),
        ),
{
    if measured(items, partition) is Some {
        law_metrics_exist_exactly_if(items, partition);
        law_metrics_are_those_of_the_worst_windows(items, partition);
        let chosen = of_partition(items, partition);
        law_partition_is_exact(items, partition);
        assert((forall|i: int|
            0 <= i < items.len() && (#[trigger] items[i]).partition == partition ==> early_within(
                strategy,
                items[i],
            )) <==> (forall|j: int|
            0 <= j < chosen.len() ==> early_within(strategy, #[trigger] chosen[j]))) by {
            if forall|i: int|
                0 <= i < items.len() && (#[trigger] items[i]).partition == partition
                    ==> early_within(strategy, items[i]) {
                assert forall|j: int| 0 <= j < chosen.len() implies early_within(
                    strategy,
                    #[trigger] chosen[j],
                ) by {
                    assert(chosen.contains(chosen[j]));
                    assert(items.contains(chosen[j]));
                    assert(early_within(strategy, items[items.index_of(chosen[j])]));
                }
            }
            if forall|j: int|
                0 <= j < chosen.len() ==> early_within(strategy, #[trigger] chosen[j]) {
                assert forall|i: int|
                    0 <= i < items.len() && (#[trigger] items[i]).partition == partition implies
                    early_within(strategy, items[i]) by {
                    assert(items.contains(items[i]));
                    assert(chosen.contains(items[i]));
                    assert(early_within(strategy, chosen[chosen.index_of(items[i])]));
                }
            }
        }
    }
}

} // verus!
