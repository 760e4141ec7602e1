//! The part of an optimization result that the temporal refinement reads and changes.

use crate::ieee::Double;
use crate::json::{
    array_value, compact, content, contents, copy_value, object_value, owned_entries, text_value,
    value_text, JsonView,
};
use crate::text::{same_text, texts};
use vstd::prelude::*;

verus! {

/// A frequency response.
#[derive(Clone, Debug)]
pub struct Curve {
    /// The frequencies, in hertz.
    pub freq: Vec<Double>,
    /// The levels, in decibels.
    pub spl: Vec<Double>,
    /// The phases, in degrees, where they are known.
    pub phase: Option<Vec<Double>>,
}

/// What a [`Curve`] holds.
pub struct CurveView {
    pub freq: Seq<Double>,
    pub spl: Seq<Double>,
    pub phase: Option<Seq<Double>>,
}

/// The numbers of a list that may be missing.
pub open spec fn optional_numbers(numbers: Option<Vec<Double>>) -> Option<Seq<Double>> {
    match numbers {
        Some(numbers) => Some(numbers@),
        None => None,
    }
}

impl View for Curve {
    type V = CurveView;

    open spec fn view(&self) -> CurveView {
        CurveView {
            freq: self.freq@,
            spl: self.spl@,
            phase: optional_numbers(self.phase),
        }
    }
}

/// What a curve that may be missing holds.
pub open spec fn optional_curve(curve: Option<Curve>) -> Option<CurveView> {
    match curve {
        Some(curve) => Some(curve@),
        None => None,
    }
}

fn copy_numbers(numbers: &Vec<Double>) -> (r: Vec<Double>)
    ensures
        r@ == numbers@,
{
    let r = numbers.clone();
    assert(r@ =~= numbers@);
    r
}

impl Curve {
    /// A copy of the curve.
    pub fn copy(&self) -> (r: Curve)
        ensures
            r@ == self@,
    {
        Curve {
            freq: copy_numbers(&self.freq),
            spl: copy_numbers(&self.spl),
            phase: match &self.phase {
                Some(phase) => Some(copy_numbers(phase)),
                None => None,
            },
        }
    }
}

/// A processing step of an output.
#[derive(Debug)]
pub struct Plugin {
    pub plugin_type: String,
    pub parameters: serde_json::Value,
}

/// The processing of one output.
#[derive(Debug)]
pub struct OutputChain {
    pub name: String,
    pub plugins: Vec<Plugin>,
    /// Whether the output feeds drivers of its own.
    pub has_drivers: bool,
    /// The response with all processing, where it is known.
    pub final_curve: Option<Curve>,
}

/// What was optimized for one channel.
#[derive(Clone, Debug)]
pub struct ChannelResult {
    pub name: String,
    /// The taps of its FIR filter, where there is one.
    pub fir_coeffs: Option<Vec<Double>>,
    /// The response with all processing.
    pub final_curve: Curve,
}

/// What became of a stage.
#[derive(Clone, Copy, Debug, PartialEq, Eq, Structural)]
pub enum StageStatus {
    Applied,
    Skipped,
    /// Anything else.
    Other,
}

/// The report of a stage.
#[derive(Clone, Debug)]
pub struct StageOutcome {
    pub stage: String,
    pub status: StageStatus,
    pub checks: Vec<String>,
    pub advisories: Vec<String>,
}

/// The result of optimizing a room. The first entry under a name is the one that counts.
#[derive(Debug)]
pub struct RoomOptimizationResult {
    pub channels: Vec<OutputChain>,
    pub channel_results: Vec<ChannelResult>,
    pub stage_outcomes: Vec<StageOutcome>,
}

/// What a [`Plugin`] is.
pub struct PluginView {
    pub plugin_type: Seq<char>,
    pub parameters: JsonView,
}

/// What an [`OutputChain`] is.
pub struct ChainView {
    pub name: Seq<char>,
    pub plugins: Seq<PluginView>,
    pub has_drivers: bool,
    pub final_curve: Option<CurveView>,
}

/// What a [`ChannelResult`] is.
pub struct ChannelView {
    pub name: Seq<char>,
    pub fir_coeffs: Option<Seq<Double>>,
    pub final_curve: CurveView,
}

/// What a [`StageOutcome`] says.
pub struct OutcomeView {
    pub stage: Seq<char>,
    pub status: StageStatus,
    pub checks: Seq<Seq<char>>,
    pub advisories: Seq<Seq<char>>,
}

/// What a [`RoomOptimizationResult`] is.
pub struct ResultView {
    pub channels: Seq<ChainView>,
    pub channel_results: Seq<ChannelView>,
    pub stage_outcomes: Seq<OutcomeView>,
}

impl View for Plugin {
    type V = PluginView;

    open spec fn view(&self) -> PluginView {
        PluginView { plugin_type: self.plugin_type@, parameters: content(self.parameters) }
    }
}

/// What a list of plugins is.
pub open spec fn plugin_views(plugins: Seq<Plugin>) -> Seq<PluginView> {
    plugins.map_values(|plugin: Plugin| plugin@)
}

/// A plugin as a JSON value: its type, and then its parameters.
pub open spec fn plugin_value(plugin: PluginView) -> JsonView {
    JsonView::Object(
        seq![
            ("plugin_type"@, JsonView::Text(plugin.plugin_type)),
            ("parameters"@, plugin.parameters),
        ],
    )
}

/// A list of plugins as JSON text.
pub open spec fn plugins_text(plugins: Seq<PluginView>) -> Seq<u8> {
    compact(JsonView::Array(plugins.map_values(|plugin: PluginView| plugin_value(plugin))))
}

/// A plugin as a JSON value.
fn value_of(plugin: &Plugin) -> (r: serde_json::Value)
    ensures
        content(r) == plugin_value(plugin@),
{
    let mut members: Vec<(String, serde_json::Value)> = Vec::new();
    members.push(("plugin_type".to_owned(), text_value(plugin.plugin_type.as_str())));
    members.push(("parameters".to_owned(), copy_value(&plugin.parameters)));
    proof {
        reveal_strlit("plugin_type");
        reveal_strlit("parameters");
        assert("plugin_type"@.len() != "parameters"@.len());
        assert(owned_entries(members@) =~= plugin_value(plugin@)->Object_0);
    }
    object_value(members)
}

/// Writes plugins as JSON text.
pub fn write_plugins(plugins: &Vec<Plugin>) -> (r: Vec<u8>)
    ensures
        r@ == plugins_text(plugin_views(plugins@)),
{
    let ghost all = plugin_views(plugins@).map_values(|plugin: PluginView| plugin_value(plugin));
    let mut values: Vec<serde_json::Value> = Vec::new();
    let mut i: usize = 0;
    while i < plugins.len()
        invariant
            all == plugin_views(plugins@).map_values(|plugin: PluginView| plugin_value(plugin)),
            i <= plugins@.len(),
            values@.len() == i,
            forall|j: int| 0 <= j < i ==> content(#[trigger] values@[j]) == all[j],
        decreases plugins@.len() - i,
    {
        values.push(value_of(&plugins[i]));
        i = i + 1;
    }
    assert(contents(values@) =~= all);
    match value_text(&array_value(values)) {
        Ok(text) => text,
        Err(_) => Vec::new(),
    }
}

impl View for OutputChain {
    type V = ChainView;

    open spec fn view(&self) -> ChainView {
        ChainView {
            name: self.name@,
            plugins: plugin_views(self.plugins@),
            has_drivers: self.has_drivers,
            final_curve: optional_curve(self.final_curve),
        }
    }
}

impl View for ChannelResult {
    type V = ChannelView;

    open spec fn view(&self) -> ChannelView {
        ChannelView {
            name: self.name@,
            fir_coeffs: optional_numbers(self.fir_coeffs),
            final_curve: self.final_curve@,
        }
    }
}

impl View for StageOutcome {
    type V = OutcomeView;

    open spec fn view(&self) -> OutcomeView {
        OutcomeView {
            stage: self.stage@,
            status: self.status,
            checks: texts(self.checks@),
            advisories: texts(self.advisories@),
        }
    }
}

impl View for RoomOptimizationResult {
    type V = ResultView;

    open spec fn view(&self) -> ResultView {
        ResultView {
            channels: self.channels@.map_values(|chain: OutputChain| chain@),
            channel_results: self.channel_results@.map_values(|channel: ChannelResult| channel@),
            stage_outcomes: self.stage_outcomes@.map_values(|outcome: StageOutcome| outcome@),
        }
    }
}

/// Where a name stands first, from the front.
pub open spec fn name_index(names: Seq<Seq<char>>, name: Seq<char>) -> Option<int>
    decreases names.len(),
{
    if names.len() == 0 {
        None
    } else {
        match name_index(names.drop_last(), name) {
            Some(k) => Some(k),
            None => if names.last() == name {
                Some(names.len() - 1)
            } else {
                None
            },
        }
    }
}

/// The names of a list of outputs.
pub open spec fn chain_names(chains: Seq<ChainView>) -> Seq<Seq<char>> {
    chains.map_values(|chain: ChainView| chain.name)
}

/// The names of a list of results.
pub open spec fn channel_names(channels: Seq<ChannelView>) -> Seq<Seq<char>> {
    channels.map_values(|channel: ChannelView| channel.name)
}

/// Where the first output of this name stands.
pub open spec fn chain_index(chains: Seq<ChainView>, name: Seq<char>) -> Option<int> {
    name_index(chain_names(chains), name)
}

/// Where the first result of this name stands.
pub open spec fn channel_index(channels: Seq<ChannelView>, name: Seq<char>) -> Option<int> {
    name_index(channel_names(channels), name)
}

impl ResultView {
    /// The output of this name.
    pub open spec fn chain(self, name: Seq<char>) -> Option<ChainView> {
        match chain_index(self.channels, name) {
            Some(k) => Some(self.channels[k]),
            None => None,
        }
    }

    /// The result of this name.
    pub open spec fn channel(self, name: Seq<char>) -> Option<ChannelView> {
        match channel_index(self.channel_results, name) {
            Some(k) => Some(self.channel_results[k]),
            None => None,
        }
    }

    /// The taps of the channel of this name.
    pub open spec fn taps(self, name: Seq<char>) -> Option<Seq<Double>> {
        match self.channel(name) {
            Some(channel) => channel.fir_coeffs,
            None => None,
        }
    }

    /// This result with other taps and another final curve for the channel of this name, and
    /// with the same curve for its output.
    pub open spec fn with_delivery(
        self,
        name: Seq<char>,
        taps: Seq<Double>,
        curve: CurveView,
    ) -> ResultView {
        let c = chain_index(self.channels, name)->0;
        let k = channel_index(self.channel_results, name)->0;
        ResultView {
            channels: self.channels.update(
                c,
                ChainView { final_curve: Some(curve), ..self.channels[c] },
            ),
            channel_results: self.channel_results.update(
                k,
                ChannelView { fir_coeffs: Some(taps), final_curve: curve, name },
            ),
            ..self
        }
    }
}

/// A name stands where it is found, and first there.
pub proof fn lemma_name_index(names: Seq<Seq<char>>, name: Seq<char>, n: int)
    requires
        0 <= n <= names.len(),
    ensures
        match name_index(names.take(n), name) {
            Some(k) => 0 <= k < n && names[k] == name && name_index(names, name) == Some(k),
            None => true,
        },
    decreases names.len() + n,
{
    if n < names.len() {
        lemma_name_index(names.drop_last(), name, n);
        assert(names.drop_last().take(n) =~= names.take(n));
    } else if n > 0 {
        assert(names.take(n) =~= names);
        lemma_name_index(names, name, n - 1);
        assert(names.drop_last() =~= names.take(n - 1));
    }
}

/// A delivery changes the channel of this name and its output, and nothing else.
pub proof fn lemma_delivery(
    result: ResultView,
    name: Seq<char>,
    taps: Seq<Double>,
    curve: CurveView,
)
    requires
        result.chain(name) is Some,
        result.channel(name) is Some,
    ensures
        ({
            let after = result.with_delivery(name, taps, curve);
            &&& after.chain(name) == Some(
                ChainView { final_curve: Some(curve), ..result.chain(name)->0 },
            )
            &&& after.channel(name) == Some(
                ChannelView { name, fir_coeffs: Some(taps), final_curve: curve },
            )
            &&& after.stage_outcomes == result.stage_outcomes
            &&& forall|other: Seq<char>|
                other != name ==> #[trigger] after.chain(other) == result.chain(other)
            &&& forall|other: Seq<char>|
                other != name ==> #[trigger] after.channel(other) == result.channel(other)
        }),
{
    let after = result.with_delivery(name, taps, curve);
    let chains = chain_names(result.channels);
    let channels = channel_names(result.channel_results);
    assert(chains.take(chains.len() as int) =~= chains);
    assert(channels.take(channels.len() as int) =~= channels);
    lemma_name_index(chains, name, chains.len() as int);
    lemma_name_index(channels, name, channels.len() as int);
    assert(chain_names(after.channels) =~= chains);
    assert(channel_names(after.channel_results) =~= channels);
    assert forall|other: Seq<char>| other != name implies #[trigger] after.chain(other)
        == result.chain(other) by {
        lemma_name_index(chains, other, chains.len() as int);
    }
    assert forall|other: Seq<char>| other != name implies #[trigger] after.channel(other)
        == result.channel(other) by {
        lemma_name_index(channels, other, channels.len() as int);
    }
}

impl RoomOptimizationResult {
    /// Where the output of this name stands.
    pub fn find_chain(&self, name: &str) -> (r: Option<usize>)
        ensures
            match r {
                Some(k) => k < self.channels@.len() && chain_index(self@.channels, name@) == Some(
                    k as int,
                ),
                None => chain_index(self@.channels, name@) is None,
            },
    {
        let ghost names = chain_names(self@.channels);
        let mut i: usize = 0;
        while i < self.channels.len()
            invariant
                names == chain_names(self@.channels),
                i <= self.channels@.len(),
                name_index(names.take(i as int), name@) is None,
            decreases self.channels@.len() - i,
        {
            proof {
                assert(names.take(i + 1).drop_last() =~= names.take(i as int));
                assert(names.take(i + 1).last() == self.channels@[i as int].name@);
            }
            if same_text(self.channels[i].name.as_str(), name) {
                proof {
                    lemma_name_index(names, name@, i + 1);
                }
                return Some(i);
            }
            i = i + 1;
        }
        assert(names.take(i as int) =~= names);
        None
    }

    /// Where the result of this name stands.
    pub fn find_channel(&self, name: &str) -> (r: Option<usize>)
        ensures
            match r {
                Some(k) => k < self.channel_results@.len() && channel_index(
                    self@.channel_results,
                    name@,
                ) == Some(k as int),
                None => channel_index(self@.channel_results, name@) is None,
            },
    {
        let ghost names = channel_names(self@.channel_results);
        let mut i: usize = 0;
        while i < self.channel_results.len()
            invariant
                names == channel_names(self@.channel_results),
                i <= self.channel_results@.len(),
                name_index(names.take(i as int), name@) is None,
            decreases self.channel_results@.len() - i,
        {
            proof {
                assert(names.take(i + 1).drop_last() =~= names.take(i as int));
                assert(names.take(i + 1).last() == self.channel_results@[i as int].name@);
            }
            if same_text(self.channel_results[i].name.as_str(), name) {
                proof {
                    lemma_name_index(names, name@, i + 1);
                }
                return Some(i);
            }
            i = i + 1;
        }
        assert(names.take(i as int) =~= names);
        None
    }

    /// Gives the channel of this name other taps and another final curve, and its output the
    /// same curve.
    pub fn deliver(&mut self, name: &str, taps: Vec<Double>, curve: &Curve)
        requires
            old(self)@.chain(name@) is Some,
            old(self)@.channel(name@) is Some,
        ensures
            final(self)@ == old(self)@.with_delivery(name@, taps@, curve@),
    {
        let ghost before = self@;
        let ghost chains = chain_names(before.channels);
        let ghost channels = channel_names(before.channel_results);
        proof {
            assert(chains.take(chains.len() as int) =~= chains);
            assert(channels.take(channels.len() as int) =~= channels);
            lemma_name_index(chains, name@, chains.len() as int);
            lemma_name_index(channels, name@, channels.len() as int);
        }
        if let Some(k) = self.find_chain(name) {
            let ghost chain = before.channels[k as int];
            self.channels[k].final_curve = Some(curve.copy());
            assert(self@.channels =~= before.channels.update(
                k as int,
                ChainView { final_curve: Some(curve@), ..chain },
            ));
        }
        assert(self@.channel_results == before.channel_results);
        if let Some(k) = self.find_channel(name) {
            let delivered = ChannelResult {
                name: name.to_owned(),
                fir_coeffs: Some(taps),
                final_curve: curve.copy(),
            };
            let ghost expected = delivered@;
            self.channel_results.set(k, delivered);
            assert(self@.channel_results =~= before.channel_results.update(k as int, expected));
        }
    }
}

/// Plugins are written as a JSON array, in their order, of objects with the type and then the
/// parameters.
pub proof fn law_plugins_are_written_in_order(plugins: Seq<PluginView>, i: int) -> (values: Seq<
    JsonView,
>)
    ensures
        plugins_text(plugins) == compact(JsonView::Array(values)),
        values.len() == plugins.len(),
        0 <= i < plugins.len() ==> {
            let members = values[i]->Object_0;
            &&& values[i] is Object
            &&& members.len() == 2
            &&& members[0] == ("plugin_type"@, JsonView::Text(plugins[i].plugin_type))
            &&& members[1] == ("parameters"@, plugins[i].parameters)
        },
{
    plugins.map_values(|plugin: PluginView| plugin_value(plugin))
}

} // verus!
