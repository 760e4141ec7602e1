//! Reading of impulse responses out of `.orcmeasurement` packages, schema version 1.
//!
//! A package is a Zarr v3 directory with a manifest. Its arrays are of rank one and hold
//! singles, in regular chunks of little-endian bytes, with or without gzip. The impulse that is
//! read is usable only after the caller has qualified its raw source independently.

use crate::error::{ensure, Fault, ReadError, ReadResult};
use crate::ieee::single_finite;
use crate::json::{compact, document, models, Json, JsonView};
use crate::logical_digest::{logical_digest, logical_identity};
use crate::text::{characters, same_text, split, split_on, texts, trimmed};
use crate::zarr_array::{array_count, samples_qualify, READ_LIMIT};
use vstd::prelude::*;

verus! {

/// The text of a string value.
pub open spec fn text_of(value: JsonView) -> Result<Seq<char>, Fault> {
    match value.text() {
        Some(s) => Ok(s),
        None => Err(Fault::Rejected("missing string"@)),
    }
}

/// The value of an integer that is not negative.
pub open spec fn number_of(value: JsonView) -> Result<u64, Fault> {
    match value.integer() {
        Some(n) => Ok(n),
        None => Err(Fault::Rejected("missing positive integer"@)),
    }
}

/// The text of a string value.
pub fn string(value: &Json) -> (r: ReadResult<&str>)
    ensures
        match r {
            Ok(s) => text_of(value@) == Ok::<Seq<char>, Fault>(s@),
            Err(e) => text_of(value@) == Err::<Seq<char>, Fault>(e@),
        },
{
    match value.as_text() {
        Some(s) => Ok(s),
        None => Err(ReadError::Rejected("missing string")),
    }
}

/// The value of an integer that is not negative.
pub fn number(value: &Json) -> (r: ReadResult<u64>)
    ensures
        match r {
            Ok(n) => number_of(value@) == Ok::<u64, Fault>(n),
            Err(e) => number_of(value@) == Err::<u64, Fault>(e@),
        },
{
    match value.as_integer() {
        Some(n) => Ok(n),
        None => Err(ReadError::Rejected("missing positive integer")),
    }
}

/// Whether a path stays below the place that it is joined to: it is relative, none of its
/// parts is empty or names the current place, and two dots stand nowhere in a row.
pub open spec fn path_allowed(path: Seq<char>) -> bool {
    &&& !(path.len() > 0 && path[0] == '/')
    &&& forall|i: int| 0 <= i < path.len() - 1 ==> !(#[trigger] path[i] == '.' && path[i + 1] == '.')
    &&& forall|i: int|
        0 <= i < split_on(path, '/').len() ==> {
            &&& (#[trigger] split_on(path, '/')[i]).len() > 0
            &&& split_on(path, '/')[i] != seq!['.']
        }
}

/// Whether a path stays below the place that it is joined to.
pub fn valid_path(path: &str) -> (r: bool)
    ensures
        r == path_allowed(path@),
{
    let chars = characters(path);
    if chars.len() > 0 && chars[0] == '/' {
        return false;
    }
    let mut i: usize = 0;
    while i < chars.len() && i + 1 < chars.len()
        invariant
            chars@ == path@,
            i <= chars@.len(),
            forall|j: int|
                0 <= j < i && j < path@.len() - 1 ==> !(#[trigger] path@[j] == '.' && path@[j + 1]
                    == '.'),
        decreases chars@.len() - i,
    {
        if chars[i] == '.' && chars[i + 1] == '.' {
            assert(path@[i as int] == '.' && path@[i + 1] == '.');
            return false;
        }
        i = i + 1;
    }
    let parts = split(path, '/');
    let mut k: usize = 0;
    proof {
        reveal_strlit(".");
        assert("."@ =~= seq!['.']);
    }
    while k < parts.len()
        invariant
            texts(parts@) == split_on(path@, '/'),
            k <= parts@.len(),
            "."@ == seq!['.'],
            forall|j: int|
                0 <= j < k ==> {
                    &&& (#[trigger] split_on(path@, '/')[j]).len() > 0
                    &&& split_on(path@, '/')[j] != seq!['.']
                },
        decreases parts@.len() - k,
    {
        assert(split_on(path@, '/')[k as int] == parts@[k as int]@);
        if parts[k].as_str().is_empty() || same_text(parts[k].as_str(), ".") {
            return false;
        }
        k = k + 1;
    }
    true
}

spec fn no_double_dot(s: Seq<char>) -> bool {
    forall|i: int| 0 <= i < s.len() - 1 ==> !(#[trigger] s[i] == '.' && s[i + 1] == '.')
}

proof fn lemma_pieces_keep_dots_apart(s: Seq<char>)
    requires
        no_double_dot(s),
    ensures
        split_on(s, '/').len() > 0,
        split_on(s, '/').last().len() <= s.len(),
        split_on(s, '/').last() == s.skip(s.len() - split_on(s, '/').last().len()),
        forall|k: int|
            0 <= k < split_on(s, '/').len() ==> no_double_dot(#[trigger] split_on(s, '/')[k]),
    decreases s.len(),
{
    let pieces = split_on(s, '/');
    if s.len() == 0 {
        assert(pieces.last() =~= s.skip(0));
    } else {
        let shorter = s.drop_last();
        assert(no_double_dot(shorter)) by {
            assert forall|i: int| 0 <= i < shorter.len() - 1 implies !(#[trigger] shorter[i] == '.'
                && shorter[i + 1] == '.') by {
                assert(s[i] == shorter[i] && s[i + 1] == shorter[i + 1]);
            }
        }
        lemma_pieces_keep_dots_apart(shorter);
        let before = split_on(shorter, '/');
        let last = pieces.last();
        assert(last =~= s.skip(s.len() - last.len()));
        assert(no_double_dot(last)) by {
            assert forall|i: int| 0 <= i < last.len() - 1 implies !(#[trigger] last[i] == '.'
                && last[i + 1] == '.') by {
                let j = s.len() - last.len() + i;
                assert(last[i] == s[j] && last[i + 1] == s[j + 1]);
            }
        }
        assert forall|k: int| 0 <= k < pieces.len() implies no_double_dot(#[trigger] pieces[k]) by {
            if k < pieces.len() - 1 {
                assert(pieces[k] == before[k]);
            }
        }
    }
}

/// No part of an allowed path leads up: none is empty, `.` or `..`.
pub proof fn law_allowed_path_never_leads_up(path: Seq<char>, part: int)
    requires
        path_allowed(path),
        0 <= part < split_on(path, '/').len(),
    ensures
        split_on(path, '/')[part].len() > 0,
        split_on(path, '/')[part] != seq!['.'],
        split_on(path, '/')[part] != seq!['.', '.'],
{
    assert(no_double_dot(path));
    lemma_pieces_keep_dots_apart(path);
    let piece = split_on(path, '/')[part];
    assert(no_double_dot(piece));
    if piece == seq!['.', '.'] {
        assert(piece[0int] == '.' && piece[0int + 1] == '.');
    }
}

/// The parts of two paths that are joined are the parts of the one and then those of the other.
pub proof fn lemma_joined_parts(a: Seq<char>, b: Seq<char>)
    ensures
        split_on(a + seq!['/'] + b, '/') == split_on(a, '/') + split_on(b, '/'),
        split_on(b, '/').len() > 0,
    decreases b.len(),
{
    let path = a + seq!['/'] + b;
    if b.len() == 0 {
        assert(path.drop_last() =~= a);
        assert(split_on(path, '/') =~= split_on(a, '/') + split_on(b, '/'));
    } else {
        let shorter = b.drop_last();
        lemma_joined_parts(a, shorter);
        assert(path.drop_last() =~= a + seq!['/'] + shorter);
        assert(path.last() == b.last());
        assert(split_on(path, '/') =~= split_on(a, '/') + split_on(b, '/'));
    }
}

pub proof fn lemma_leading_separator(s: Seq<char>)
    requires
        s.len() > 0,
        s[0] == '/',
    ensures
        split_on(s, '/').len() > 1,
        split_on(s, '/')[0].len() == 0,
    decreases s.len(),
{
    if s.len() > 1 {
        lemma_leading_separator(s.drop_last());
    } else {
        assert(split_on(s.drop_last(), '/') == seq![Seq::<char>::empty()]);
    }
}

/// Two paths that are joined are allowed exactly if each of them is.
pub proof fn law_joined_path_is_allowed_by_parts(a: Seq<char>, b: Seq<char>)
    ensures
        path_allowed(a + seq!['/'] + b) <==> path_allowed(a) && path_allowed(b),
{
    let path = a + seq!['/'] + b;
    let left = split_on(a, '/');
    let right = split_on(b, '/');
    let parts = split_on(path, '/');
    lemma_joined_parts(a, b);
    lemma_joined_parts(b, a);
    if path_allowed(path) {
        assert forall|i: int| 0 <= i < left.len() implies {
            &&& (#[trigger] left[i]).len() > 0
            &&& left[i] != seq!['.']
        } by {
            assert(parts[i] == left[i]);
        }
        assert forall|i: int| 0 <= i < right.len() implies {
            &&& (#[trigger] right[i]).len() > 0
            &&& right[i] != seq!['.']
        } by {
            assert(parts[left.len() + i] == right[i]);
        }
        if a.len() > 0 && a[0] == '/' {
            lemma_leading_separator(a);
            assert(left[0].len() > 0);
        }
        if b.len() > 0 && b[0] == '/' {
            lemma_leading_separator(b);
            assert(right[0].len() > 0);
        }
        assert forall|i: int| 0 <= i < a.len() - 1 implies !(#[trigger] a[i] == '.' && a[i + 1]
            == '.') by {
            assert(path[i] == a[i] && path[i + 1] == a[i + 1]);
        }
        assert forall|i: int| 0 <= i < b.len() - 1 implies !(#[trigger] b[i] == '.' && b[i + 1]
            == '.') by {
            let j = a.len() + 1 + i;
            assert(path[j] == b[i] && path[j + 1] == b[i + 1]);
        }
    }
    if path_allowed(a) && path_allowed(b) {
        assert(left[0].len() > 0);
        assert(a.len() > 0);
        assert(path[0] == a[0]);
        assert forall|i: int| 0 <= i < parts.len() implies {
            &&& (#[trigger] parts[i]).len() > 0
            &&& parts[i] != seq!['.']
        } by {
            if i < left.len() {
                assert(parts[i] == left[i]);
            } else {
                assert(parts[i] == right[i - left.len()]);
            }
        }
        assert forall|i: int| 0 <= i < path.len() - 1 implies !(#[trigger] path[i] == '.' && path[i
            + 1] == '.') by {
            if i + 1 < a.len() {
                assert(path[i] == a[i] && path[i + 1] == a[i + 1]);
            } else if i > a.len() {
                let j = i - a.len() - 1;
                assert(path[i] == b[j] && path[i + 1] == b[j + 1]);
            } else {
                assert(path[a.len() as int] == '/');
            }
        }
    }
}

/// What is asked of a package.
#[derive(Debug)]
pub struct Request {
    /// The manifest path of the array, as in `positions/MLP/FL/impulse_response`.
    pub array_path: String,
    /// The source identity that the package must declare.
    pub source_digest: String,
    /// The logical identity that the package must have.
    pub logical_digest: String,
}

/// What a [`Request`] says.
pub struct RequestView {
    pub array_path: Seq<char>,
    pub source_digest: Seq<char>,
    pub logical_digest: Seq<char>,
}

impl View for Request {
    type V = RequestView;

    open spec fn view(&self) -> RequestView {
        RequestView {
            array_path: self.array_path@,
            source_digest: self.source_digest@,
            logical_digest: self.logical_digest@,
        }
    }
}

/// What the manifest says of the impulse that is asked for.
#[derive(Debug)]
pub struct Header {
    pub campaign_id: String,
    pub source_digest: String,
    pub processing_state: String,
    pub sample_rate_hz: u32,
    pub time_reference: String,
}

/// What a [`Header`] says.
pub struct HeaderView {
    pub campaign_id: Seq<char>,
    pub source_digest: Seq<char>,
    pub processing_state: Seq<char>,
    pub sample_rate_hz: u32,
    pub time_reference: Seq<char>,
}

impl View for Header {
    type V = HeaderView;

    open spec fn view(&self) -> HeaderView {
        HeaderView {
            campaign_id: self.campaign_id@,
            source_digest: self.source_digest@,
            processing_state: self.processing_state@,
            sample_rate_hz: self.sample_rate_hz,
            time_reference: self.time_reference@,
        }
    }
}

/// The first of `channels` that is recorded under this position and channel.
pub open spec fn find_channel(
    channels: Seq<JsonView>,
    position: Seq<char>,
    channel: Seq<char>,
) -> Option<JsonView>
    decreases channels.len(),
{
    if channels.len() == 0 {
        None
    } else if channels[0].member("positionID"@).is_text(position) && channels[0].member(
        "channelID"@,
    ).is_text(channel) {
        Some(channels[0])
    } else {
        find_channel(channels.drop_first(), position, channel)
    }
}

/// Whether a path names the impulse response of a channel at a position.
pub open spec fn is_impulse_path(path: Seq<char>) -> bool {
    let parts = split_on(path, '/');
    parts.len() == 4 && parts[0] == "positions"@ && parts[3] == "impulse_response"@
}

/// What the record of the channel says of the impulse, or why the channel does not qualify.
pub open spec fn channel_header(
    channel: JsonView,
    campaign_id: Seq<char>,
    source_digest: Seq<char>,
) -> Result<HeaderView, Fault> {
    let state = channel.member("acquisition"@).member("processingState"@);
    let rate = channel.member("sampleRate"@);
    let reference = channel.member("acquisition"@).member("timeReference"@);
    if channel.member("quality"@).member("valid"@) != JsonView::Bool(true) {
        Err(Fault::Rejected("channel quality invalid"@))
    } else if state.text() is None {
        Err(Fault::Rejected("missing string"@))
    } else if !state.is_text("isolated_physical_output"@) {
        Err(Fault::Rejected("non-isolated processing state"@))
    } else if rate.integer() is None {
        Err(Fault::Rejected("missing positive integer"@))
    } else if rate.integer()->0 == 0 || rate.integer()->0 > u32::MAX {
        Err(Fault::Rejected("invalid sample rate"@))
    } else if reference.text() is None {
        Err(Fault::Rejected("missing string"@))
    } else {
        Ok(
            HeaderView {
                campaign_id,
                source_digest,
                processing_state: state.text()->0,
                sample_rate_hz: rate.integer()->0 as u32,
                time_reference: reference.text()->0,
            },
        )
    }
}

/// What the manifest says of the impulse, or why the package does not qualify.
pub open spec fn manifest_header(manifest: JsonView, request: RequestView) -> Result<
    HeaderView,
    Fault,
> {
    let version = manifest.member("schemaVersion"@);
    let source = manifest.member("sourceDigest"@);
    let campaign = manifest.member("campaignID"@);
    let parts = split_on(request.array_path, '/');
    let channels = manifest.member("channels"@).items();
    if version.integer() is None {
        Err(Fault::Rejected("missing positive integer"@))
    } else if version.integer() != Some(1u64) {
        Err(Fault::Rejected("only measurement schema v1 is supported"@))
    } else if source.text() is None {
        Err(Fault::Rejected("missing string"@))
    } else if !source.is_text(request.source_digest) {
        Err(Fault::Rejected("source digest mismatch"@))
    } else if manifest.member("rawWaveformAuthority"@) != JsonView::Bool(true) {
        Err(Fault::Rejected("raw waveform authority absent"@))
    } else if campaign.text() is None {
        Err(Fault::Rejected("missing string"@))
    } else if !is_impulse_path(request.array_path) {
        Err(Fault::Rejected("invalid impulse path"@))
    } else if channels is None {
        Err(Fault::Rejected("missing channels"@))
    } else {
        match find_channel(channels->0, parts[1], parts[2]) {
            None => Err(Fault::Rejected("channel not declared"@)),
            Some(channel) => channel_header(channel, campaign.text()->0, source.text()->0),
        }
    }
}

/// Whether an outcome is the one that is meant.
pub open spec fn agrees<T: View>(r: ReadResult<T>, meant: Result<T::V, Fault>) -> bool {
    match r {
        Ok(value) => meant == Ok::<T::V, Fault>(value@),
        Err(error) => meant == Err::<T::V, Fault>(error@),
    }
}

fn declared_channel<'a>(
    channels: &'a Vec<Json>,
    position: &str,
    channel: &str,
) -> (r: Option<&'a Json>)
    ensures
        match r {
            Some(found) => find_channel(models(channels@), position@, channel@)
                == Some(found@),
            None => find_channel(models(channels@), position@, channel@) is None,
        },
{
    let ghost all = models(channels@);
    let mut i: usize = 0;
    assert(all.skip(0) =~= all);
    while i < channels.len()
        invariant
            all == models(channels@),
            i <= channels@.len(),
            find_channel(all.skip(i as int), position@, channel@) == find_channel(
                all,
                position@,
                channel@,
            ),
        decreases channels@.len() - i,
    {
        let candidate = &channels[i];
        assert(all.skip(i as int)[0] == candidate@);
        if candidate.member("positionID").is_text(position) && candidate.member("channelID").is_text(
            channel,
        ) {
            return Some(candidate);
        }
        assert(all.skip(i as int).drop_first() =~= all.skip(i + 1));
        i = i + 1;
    }
    None
}

/// Checks the record of a channel, and takes from it what is said of the impulse.
fn check_channel(channel: &Json, campaign_id: &str, source_digest: &str) -> (r: ReadResult<Header>)
    ensures
        agrees(r, channel_header(channel@, campaign_id@, source_digest@)),
{
    ensure(channel.member("quality").member("valid").is_true(), "channel quality invalid")?;
    let processing_state = string(channel.member("acquisition").member("processingState"))?;
    ensure(
        same_text(processing_state, "isolated_physical_output"),
        "non-isolated processing state",
    )?;
    let rate = number(channel.member("sampleRate"))?;
    ensure(rate <= u32::MAX as u64, "invalid sample rate")?;
    let sample_rate_hz: u32 = rate as u32;
    ensure(sample_rate_hz > 0, "invalid sample rate")?;
    let time_reference = string(channel.member("acquisition").member("timeReference"))?;
    Ok(
        Header {
            campaign_id: campaign_id.to_owned(),
            source_digest: source_digest.to_owned(),
            processing_state: processing_state.to_owned(),
            sample_rate_hz,
            time_reference: time_reference.to_owned(),
        },
    )
}

/// Checks the manifest, and takes from it what is said of the impulse.
pub fn check_manifest(manifest: &Json, request: &Request) -> (r: ReadResult<Header>)
    ensures
        agrees(r, manifest_header(manifest@, request@)),
{
    let version = number(manifest.member("schemaVersion"))?;
    ensure(version == 1, "only measurement schema v1 is supported")?;
    let source_digest = string(manifest.member("sourceDigest"))?;
    ensure(
        same_text(source_digest, request.source_digest.as_str()),
        "source digest mismatch",
    )?;
    ensure(manifest.member("rawWaveformAuthority").is_true(), "raw waveform authority absent")?;
    let campaign_id = string(manifest.member("campaignID"))?;
    let parts = split(request.array_path.as_str(), '/');
    proof {
        assert(parts@.len() == texts(parts@).len());
        assert(forall|i: int| 0 <= i < parts@.len() ==> texts(parts@)[i] == (#[trigger] parts@[i])@);
    }
    ensure(
        parts.len() == 4 && same_text(parts[0].as_str(), "positions") && same_text(
            parts[3].as_str(),
            "impulse_response",
        ),
        "invalid impulse path",
    )?;
    let channels = match manifest.member("channels").as_items() {
        Some(channels) => channels,
        None => return Err(ReadError::Rejected("missing channels")),
    };
    match declared_channel(channels, parts[1].as_str(), parts[2].as_str()) {
        Some(found) => check_channel(found, campaign_id, source_digest),
        None => Err(ReadError::Rejected("channel not declared")),
    }
}

/// An impulse response, with what its package says of it. The samples are singles, given by
/// their bits.
#[derive(Clone, Debug)]
pub struct MeasurementImpulse {
    pub samples: Vec<u32>,
    pub sample_rate_hz: u32,
    pub campaign_id: String,
    pub source_digest: String,
    pub logical_digest: String,
    pub processing_state: String,
    pub time_reference: String,
}

/// What a [`MeasurementImpulse`] holds.
pub struct ImpulseView {
    pub samples: Seq<u32>,
    pub sample_rate_hz: u32,
    pub campaign_id: Seq<char>,
    pub source_digest: Seq<char>,
    pub logical_digest: Seq<char>,
    pub processing_state: Seq<char>,
    pub time_reference: Seq<char>,
}

impl View for MeasurementImpulse {
    type V = ImpulseView;

    open spec fn view(&self) -> ImpulseView {
        ImpulseView {
            samples: self.samples@,
            sample_rate_hz: self.sample_rate_hz,
            campaign_id: self.campaign_id@,
            source_digest: self.source_digest@,
            logical_digest: self.logical_digest@,
            processing_state: self.processing_state@,
            time_reference: self.time_reference@,
        }
    }
}

/// How far the arrays of a package have been read.
pub struct ScanView {
    pub request: RequestView,
    pub manifest: JsonView,
    /// The compact text of the channels in the manifest.
    pub channels_text: Seq<u8>,
    pub header: HeaderView,
    /// The paths of the arrays that were read, in the order of the manifest.
    pub seen: Seq<Seq<char>>,
    /// The samples of these arrays.
    pub values: Seq<Seq<u32>>,
    /// How many samples they are together.
    pub total: usize,
    /// Which of them is the impulse that is asked for.
    pub selected: Option<nat>,
}

/// The arrays that a manifest declares.
pub open spec fn declared(manifest: JsonView) -> Option<Seq<JsonView>> {
    manifest.member("arrays"@).items()
}

impl ScanView {
    /// The descriptor of the array that comes next.
    pub open spec fn descriptor(self) -> JsonView {
        declared(self.manifest)->0[self.values.len() as int]
    }

    /// The arrays that were read, with their descriptors.
    pub open spec fn arrays(self) -> Seq<(JsonView, Seq<u32>)> {
        Seq::new(self.values.len(), |i: int| (declared(self.manifest)->0[i], self.values[i]))
    }

    /// What holds of a scan at every point: the manifest qualified; the arrays that were read
    /// are the first declared ones, under distinct paths that stay inside the package; their
    /// samples are finite and within the limit; and the impulse is selected once it was met.
    #[verifier::opaque]
    pub open spec fn wf(self) -> bool {
        &&& manifest_header(self.manifest, self.request) == Ok::<HeaderView, Fault>(self.header)
        &&& declared(self.manifest) is Some
        &&& self.values.len() <= declared(self.manifest)->0.len()
        &&& self.seen.len() == self.values.len()
        &&& forall|i: int|
            0 <= i < self.seen.len() ==> {
                &&& declared(self.manifest)->0[i].member("path"@).text() == Some(
                    #[trigger] self.seen[i],
                )
                &&& path_allowed(self.seen[i])
            }
        &&& forall|i: int, j: int|
            0 <= i < j < self.seen.len() ==> #[trigger] self.seen[i] != #[trigger] self.seen[j]
        &&& forall|i: int, k: int|
            0 <= i < self.values.len() && 0 <= k < self.values[i].len() ==> single_finite(
                #[trigger] self.values[i][k],
            )
        &&& self.total == sample_count(self.values)
        &&& self.total <= READ_LIMIT
        &&& match self.selected {
            Some(k) => {
                &&& k < self.seen.len()
                &&& self.seen[k as int] == self.request.array_path
                &&& impulse_fault(
                    declared(self.manifest)->0[k as int],
                    self.header.processing_state,
                ) is None
            },
            None => !self.seen.contains(self.request.array_path),
        }
    }
}

/// How many samples there are together.
pub open spec fn sample_count(values: Seq<Seq<u32>>) -> nat
    decreases values.len(),
{
    if values.len() == 0 {
        0
    } else {
        sample_count(values.drop_last()) + values.last().len()
    }
}

/// Why a descriptor is not one of the impulse, if it is not.
pub open spec fn impulse_fault(descriptor: JsonView, processing_state: Seq<char>) -> Option<
    Seq<char>,
> {
    let dimensions = descriptor.member("dimensions"@);
    if !descriptor.member("role"@).is_text("impulse_response"@) {
        Some("array role mismatch"@)
    } else if !descriptor.member("units"@).is_text("linear_amplitude"@) {
        Some("impulse unit mismatch"@)
    } else if !descriptor.member("processingState"@).is_text(processing_state) {
        Some("impulse processing mismatch"@)
    } else if !(dimensions == JsonView::Null || (dimensions.items() is Some
        && dimensions.items()->0.len() == 1 && dimensions.item(0).is_text("sample"@))) {
        Some("impulse axis mismatch"@)
    } else {
        None
    }
}

/// Whether the root document is the one of a Zarr v3 group.
pub open spec fn root_qualifies(root: JsonView) -> bool {
    root.member("zarr_format"@).integer() == Some(3u64) && root.member("node_type"@).is_text(
        "group"@,
    )
}

/// What the root document leads to.
pub open spec fn root_checked(text: Seq<u8>) -> Result<(), Fault> {
    match document(text) {
        Err(words) => Err(Fault::Json(words)),
        Ok(root) => if root_qualifies(root) {
            Ok(())
        } else {
            Err(Fault::Rejected("invalid Zarr root"@))
        },
    }
}

/// What the manifest leads to: a scan that has read no array yet.
pub open spec fn opened(text: Seq<u8>, request: RequestView) -> Result<ScanView, Fault> {
    match document(text) {
        Err(words) => Err(Fault::Json(words)),
        Ok(manifest) => match manifest_header(manifest, request) {
            Err(fault) => Err(fault),
            Ok(header) => if declared(manifest) is None {
                Err(Fault::Rejected("missing arrays"@))
            } else {
                Ok(
                    ScanView {
                        request,
                        manifest,
                        channels_text: compact(manifest.member("channels"@)),
                        header,
                        seen: Seq::empty(),
                        values: Seq::empty(),
                        total: 0,
                        selected: None,
                    },
                )
            },
        },
    }
}

/// The path of the array that comes next, or why it is not read.
pub open spec fn next_path(scan: ScanView) -> Result<Seq<char>, Fault> {
    match scan.descriptor().member("path"@).text() {
        None => Err(Fault::Rejected("missing string"@)),
        Some(path) => if scan.seen.contains(path) {
            Err(Fault::Rejected("duplicate array path"@))
        } else if !path_allowed(path) {
            Err(Fault::Rejected("invalid array path"@))
        } else {
            Ok(path)
        },
    }
}

/// How many samples the metadata of the next array promise, or why they do not qualify.
pub open spec fn counted(scan: ScanView, text: Seq<u8>) -> Result<usize, Fault> {
    match document(text) {
        Err(words) => Err(Fault::Json(words)),
        Ok(meta) => array_count(scan.descriptor(), meta),
    }
}

/// What the samples of the next array lead to.
pub open spec fn taken(
    scan: ScanView,
    path: Seq<char>,
    count: usize,
    samples: Seq<u32>,
) -> Result<ScanView, Fault> {
    let is_impulse = path == scan.request.array_path;
    let fault = impulse_fault(scan.descriptor(), scan.header.processing_state);
    if !samples_qualify(samples, count) {
        Err(Fault::Rejected("invalid decoded samples"@))
    } else if scan.total + samples.len() > usize::MAX {
        Err(Fault::Rejected("package too large"@))
    } else if scan.total + samples.len() > READ_LIMIT {
        Err(Fault::Rejected("package exceeds local read limit"@))
    } else if is_impulse && fault is Some {
        Err(Fault::Rejected(fault->0))
    } else {
        Ok(
            ScanView {
                seen: scan.seen.push(path),
                values: scan.values.push(samples),
                total: (scan.total + samples.len()) as usize,
                selected: if is_impulse {
                    Some(scan.values.len())
                } else {
                    scan.selected
                },
                ..scan
            },
        )
    }
}

/// What a complete scan leads to: the impulse, with the identity of the package that was
/// read.
pub open spec fn concluded(scan: ScanView) -> Result<ImpulseView, Fault> {
    match scan.selected {
        None => Err(Fault::Rejected("impulse not declared"@)),
        Some(k) => match logical_identity(scan.manifest, scan.channels_text, scan.arrays()) {
            Err(fault) => Err(fault),
            Ok(identity) => Ok(
                ImpulseView {
                    samples: scan.values[k as int],
                    sample_rate_hz: scan.header.sample_rate_hz,
                    campaign_id: scan.header.campaign_id,
                    source_digest: scan.header.source_digest,
                    logical_digest: identity,
                    processing_state: scan.header.processing_state,
                    time_reference: scan.header.time_reference,
                },
            ),
        },
    }
}

/// What the identity on record leads to: it must be that of the package, and the one that was
/// asked for.
pub open spec fn identified(
    impulse: ImpulseView,
    expected: Seq<char>,
    recorded: Seq<char>,
) -> Result<ImpulseView, Fault> {
    if trimmed(recorded) != impulse.logical_digest {
        Err(Fault::Rejected("package logical digest mismatch"@))
    } else if expected != impulse.logical_digest {
        Err(Fault::Rejected("expected logical digest mismatch"@))
    } else {
        Ok(impulse)
    }
}

} // verus!
