//! What holds of packages: which ones are read, and what is read from them.

use crate::error::Fault;
use crate::ieee::single_finite;
use crate::json::{compact, document, JsonNumber, JsonView};
use crate::logical_digest::logical_identity;
use crate::measurement_array::{
    declared, find_channel, lemma_joined_parts, lemma_leading_separator, manifest_header, next_path,
    opened, path_allowed, sample_count, taken, HeaderView, ImpulseView, RequestView, ScanView,
};
use crate::package_reader::{
    all_read, array_node, array_read, complete_scan, find_array, law_every_array_is_checked,
    lemma_all_read_keeps_wf, lemma_opened_wf, metadata_file, package_read, read_as_stored,
    ArrayView, PackageView,
};
use crate::text::{split_on, trimmed};
use crate::zarr_array::{array_count, law_array_qualifies_exactly_if, samples_qualify};
use vstd::prelude::*;

verus! {

/// A path stays inside its package exactly if none of its parts is empty or a single dot, and no
/// two dots stand in a row.
pub proof fn law_path_is_allowed_exactly_if(path: Seq<char>)
    ensures
        path_allowed(path) <==> {
            &&& forall|i: int|
                0 <= i < split_on(path, '/').len() ==> (#[trigger] split_on(path, '/')[i]).len() > 0
                    && split_on(path, '/')[i] != seq!['.']
            &&& forall|i: int, j: int|
                0 <= i < path.len() && j == i + 1 && j < path.len() ==> !(#[trigger] path[i] == '.'
                    && #[trigger] path[j] == '.')
        },
{
    if path.len() > 0 && path[0] == '/' {
        lemma_leading_separator(path);
        assert(split_on(path, '/')[0].len() == 0);
    }
    if path_allowed(path) {
        assert forall|i: int, j: int|
            0 <= i < path.len() && j == i + 1 && j < path.len() implies !(#[trigger] path[i] == '.'
            && #[trigger] path[j] == '.') by {
            assert(!(path[i] == '.' && path[i + 1] == '.'));
        }
    } else if forall|i: int, j: int|
        0 <= i < path.len() && j == i + 1 && j < path.len() ==> !(#[trigger] path[i] == '.'
            && #[trigger] path[j] == '.') {
        assert forall|i: int| 0 <= i < path.len() - 1 implies !(#[trigger] path[i] == '.' && path[i
            + 1] == '.') by {
            assert(!(path[i] == '.' && path[i + 1] == '.'));
        }
    }
}

/// Under a position and a channel the first record counts.
pub proof fn law_first_record_of_a_channel_counts(
    channels: Seq<JsonView>,
    position: Seq<char>,
    channel: Seq<char>,
    k: int,
)
    ensures
        0 <= k < channels.len() && channels[k].member("positionID"@) == JsonView::Text(position)
            && channels[k].member("channelID"@) == JsonView::Text(channel) && (forall|j: int|
            0 <= j < k ==> (#[trigger] channels[j]).member("positionID"@) != JsonView::Text(
                position,
            ) || channels[j].member("channelID"@) != JsonView::Text(channel)) ==> find_channel(
            channels,
            position,
            channel,
        ) == Some(channels[k]),
        (forall|j: int|
            0 <= j < channels.len() ==> (#[trigger] channels[j]).member("positionID"@)
                != JsonView::Text(position) || channels[j].member("channelID"@) != JsonView::Text(
                channel,
            )) ==> find_channel(channels, position, channel) is None,
        find_channel(channels, position, channel) is Some ==> exists|i: int|
            0 <= i < channels.len() && find_channel(channels, position, channel) == Some(
                #[trigger] channels[i],
            ) && channels[i].member("positionID"@) == JsonView::Text(position)
                && channels[i].member("channelID"@) == JsonView::Text(channel),
    decreases channels.len(),
{
    if channels.len() > 0 {
        let rest = channels.drop_first();
        law_first_record_of_a_channel_counts(rest, position, channel, k - 1);
        assert forall|j: int| 0 <= j < rest.len() implies #[trigger] rest[j] == channels[j + 1] by {}
        let named = channels[0].member("positionID"@) == JsonView::Text(position)
            && channels[0].member("channelID"@) == JsonView::Text(channel);
        if !named {
            if 0 <= k < channels.len() && channels[k].member("positionID"@) == JsonView::Text(
                position,
            ) && channels[k].member("channelID"@) == JsonView::Text(channel) && forall|j: int|
                0 <= j < k ==> (#[trigger] channels[j]).member("positionID"@) != JsonView::Text(
                    position,
                ) || channels[j].member("channelID"@) != JsonView::Text(channel) {
                assert(rest[k - 1] == channels[k]);
                assert forall|j: int| 0 <= j < k - 1 implies (#[trigger] rest[j]).member(
                    "positionID"@,
                ) != JsonView::Text(position) || rest[j].member("channelID"@) != JsonView::Text(
                    channel,
                ) by {
                    assert(channels[j + 1] == rest[j]);
                }
            }
            if forall|j: int|
                0 <= j < channels.len() ==> (#[trigger] channels[j]).member("positionID"@)
                    != JsonView::Text(position) || channels[j].member("channelID"@)
                    != JsonView::Text(channel) {
                assert forall|j: int| 0 <= j < rest.len() implies (#[trigger] rest[j]).member(
                    "positionID"@,
                ) != JsonView::Text(position) || rest[j].member("channelID"@) != JsonView::Text(
                    channel,
                ) by {
                    assert(channels[j + 1] == rest[j]);
                }
            }
            if find_channel(rest, position, channel) is Some {
                let i = choose|i: int|
                    0 <= i < rest.len() && find_channel(rest, position, channel) == Some(
                        #[trigger] rest[i],
                    ) && rest[i].member("positionID"@) == JsonView::Text(position)
                        && rest[i].member("channelID"@) == JsonView::Text(channel);
                assert(channels[i + 1] == rest[i]);
            }
        } else {
            assert(find_channel(channels, position, channel) == Some(channels[0]));
        }
    }
}

/// A manifest qualifies exactly if all of this holds, and then it says this of the impulse. It has
/// schema version one, the source identity that is asked for, raw waveform authority and a
/// campaign. The path that is asked for names the impulse response of a channel at a position,
/// which is recorded. Its record is of valid quality, states that the physical output was isolated,
/// and has a positive rate that fits into 32 bits, and a time reference.
pub proof fn law_manifest_qualifies_exactly_if(
    manifest: JsonView,
    request: RequestView,
    header: HeaderView,
)
    ensures
        manifest_header(manifest, request) == Ok::<HeaderView, Fault>(header) <==> {
            let parts = split_on(request.array_path, '/');
            let channels = manifest.member("channels"@);
            let found = find_channel(channels->Array_0, parts[1], parts[2]);
            let acquisition = found->0.member("acquisition"@);
            &&& manifest.member("schemaVersion"@) == JsonView::Number(JsonNumber::Unsigned(1))
            &&& manifest.member("sourceDigest"@) == JsonView::Text(request.source_digest)
            &&& manifest.member("rawWaveformAuthority"@) == JsonView::Bool(true)
            &&& manifest.member("campaignID"@) == JsonView::Text(header.campaign_id)
            &&& parts.len() == 4
            &&& parts[0] == "positions"@
            &&& parts[3] == "impulse_response"@
            &&& channels is Array
            &&& found is Some
            &&& found->0.member("quality"@).member("valid"@) == JsonView::Bool(true)
            &&& acquisition.member("processingState"@) == JsonView::Text(
                "isolated_physical_output"@,
            )
            &&& acquisition.member("timeReference"@) == JsonView::Text(header.time_reference)
            &&& found->0.member("sampleRate"@) == JsonView::Number(
                JsonNumber::Unsigned(header.sample_rate_hz as u64),
            )
            &&& header.sample_rate_hz > 0
            &&& header.source_digest == request.source_digest
            &&& header.processing_state == "isolated_physical_output"@
        },
{
    let parts = split_on(request.array_path, '/');
    let channels = manifest.member("channels"@);
    let found = find_channel(channels->Array_0, parts[1], parts[2]);
    if manifest_header(manifest, request) is Ok {
        let rate = found->0.member("sampleRate"@).integer()->0;
        assert(rate as u32 as u64 == rate);
    }
}

/// The parts of the path of an impulse response are its position and its channel.
pub proof fn law_impulse_path_names_position_and_channel(
    position: Seq<char>,
    channel: Seq<char>,
)
    requires
        !position.contains('/'),
        !channel.contains('/'),
    ensures
        split_on("positions/"@ + position + "/"@ + channel + "/impulse_response"@, '/') == seq![
            "positions"@,
            position,
            channel,
            "impulse_response"@,
        ],
{
    reveal_strlit("positions/");
    reveal_strlit("positions");
    reveal_strlit("/");
    reveal_strlit("/impulse_response");
    reveal_strlit("impulse_response");
    let slash = seq!['/'];
    let whole = "positions"@ + slash + (position + slash + (channel + slash
        + "impulse_response"@));
    assert("positions/"@ + position + "/"@ + channel + "/impulse_response"@ =~= whole);
    lemma_joined_parts("positions"@, position + slash + (channel + slash + "impulse_response"@));
    lemma_joined_parts(position, channel + slash + "impulse_response"@);
    lemma_joined_parts(channel, "impulse_response"@);
    assert(!"positions"@.contains('/'));
    assert(!"impulse_response"@.contains('/'));
    lemma_parts_of_one("positions"@);
    lemma_parts_of_one(position);
    lemma_parts_of_one(channel);
    lemma_parts_of_one("impulse_response"@);
    assert(split_on(whole, '/') =~= seq!["positions"@, position, channel, "impulse_response"@]);
}

proof fn lemma_parts_of_one(s: Seq<char>)
    requires
        !s.contains('/'),
    ensures
        split_on(s, '/') == seq![s],
    decreases s.len(),
{
    if s.len() == 0 {
        assert(s =~= Seq::<char>::empty());
        assert(split_on(s, '/') =~= seq![s]);
    } else {
        let rest = s.drop_last();
        assert(!rest.contains('/')) by {
            if rest.contains('/') {
                let k = choose|k: int| 0 <= k < rest.len() && rest[k] == '/';
                assert(s[k] == '/');
            }
        }
        lemma_parts_of_one(rest);
        assert(s.last() != '/') by {
            if s.last() == '/' {
                assert(s[s.len() - 1] == '/');
            }
        }
        assert(rest.push(s.last()) =~= s);
        assert(split_on(s, '/') =~= seq![s]);
    }
}

/// Under a path the first stored array counts.
pub proof fn law_first_array_of_a_path_counts(arrays: Seq<ArrayView>, path: Seq<char>, k: int)
    ensures
        0 <= k < arrays.len() && arrays[k].path == path && (forall|j: int|
            0 <= j < k ==> (#[trigger] arrays[j]).path != path) ==> find_array(arrays, path)
            == Some(arrays[k]),
        (forall|j: int| 0 <= j < arrays.len() ==> (#[trigger] arrays[j]).path != path)
            ==> find_array(arrays, path) is None,
    decreases arrays.len(),
{
    if arrays.len() > 0 {
        let rest = arrays.drop_first();
        law_first_array_of_a_path_counts(rest, path, k - 1);
        assert forall|j: int| 0 <= j < rest.len() implies #[trigger] rest[j] == arrays[j + 1] by {}
        if arrays[0].path != path {
            if 0 <= k < arrays.len() && arrays[k].path == path && forall|j: int|
                0 <= j < k ==> (#[trigger] arrays[j]).path != path {
                assert(rest[k - 1] == arrays[k]);
                assert forall|j: int| 0 <= j < k - 1 implies (#[trigger] rest[j]).path != path by {
                    assert(arrays[j + 1] == rest[j]);
                }
            }
            if forall|j: int| 0 <= j < arrays.len() ==> (#[trigger] arrays[j]).path != path {
                assert forall|j: int| 0 <= j < rest.len() implies (#[trigger] rest[j]).path
                    != path by {
                    assert(arrays[j + 1] == rest[j]);
                }
            }
        } else {
            assert(find_array(arrays, path) == Some(arrays[0]));
        }
    }
}

/// Whether the array at `i` can be read: it is declared under a path that stays inside the package
/// and that none before it has; it is stored there, with metadata that qualify; and its samples,
/// which are these, are as many as the metadata promise, and finite.
pub open spec fn readable(
    descriptors: Seq<JsonView>,
    arrays: Seq<ArrayView>,
    values: Seq<Seq<u32>>,
    i: int,
) -> bool {
    let path = descriptors[i].member("path"@)->Text_0;
    let array = find_array(arrays, path)->0;
    let count = array_count(descriptors[i], document(array.metadata)->Ok_0);
    &&& descriptors[i].member("path"@) is Text
    &&& path_allowed(path)
    &&& forall|j: int|
        0 <= j < i ==> (#[trigger] descriptors[j]).member("path"@) != JsonView::Text(path)
    &&& find_array(arrays, path) is Some
    &&& document(array.metadata) is Ok
    &&& count is Ok
    &&& array.samples == Some(values[i])
    &&& values[i].len() == count->Ok_0
    &&& forall|k: int|
        0 <= k < values[i].len() ==> single_finite(#[trigger] values[i][k])
}

/// Where the array that is asked for stands among the first ones, if it stands there.
spec fn met(descriptors: Seq<JsonView>, path: Seq<char>, n: int) -> Option<nat>
    decreases n,
{
    if n <= 0 {
        None
    } else if descriptors[n - 1].member("path"@) == JsonView::Text(path) {
        Some((n - 1) as nat)
    } else {
        met(descriptors, path, n - 1)
    }
}

/// How far a scan has come that has read the first arrays without a fault.
spec fn scanned(
    start: ScanView,
    descriptors: Seq<JsonView>,
    values: Seq<Seq<u32>>,
    n: int,
) -> ScanView {
    ScanView {
        seen: Seq::new(n as nat, |i: int| descriptors[i].member("path"@)->Text_0),
        values: values.take(n),
        total: sample_count(values.take(n)) as usize,
        selected: met(descriptors, start.request.array_path, n),
        ..start
    }
}

proof fn lemma_met(descriptors: Seq<JsonView>, path: Seq<char>, k: int, n: int)
    requires
        0 <= k < n <= descriptors.len(),
        descriptors[k].member("path"@) == JsonView::Text(path),
        forall|j: int|
            k < j < n ==> (#[trigger] descriptors[j]).member("path"@) != JsonView::Text(path),
    ensures
        met(descriptors, path, n) == Some(k as nat),
    decreases n,
{
    if n - 1 > k {
        assert(descriptors[n - 1].member("path"@) != JsonView::Text(path));
        lemma_met(descriptors, path, k, n - 1);
    }
}

proof fn lemma_not_met(descriptors: Seq<JsonView>, path: Seq<char>, n: int)
    requires
        0 <= n <= descriptors.len(),
        forall|j: int|
            0 <= j < n ==> (#[trigger] descriptors[j]).member("path"@) != JsonView::Text(path),
    ensures
        met(descriptors, path, n) is None,
    decreases n,
{
    if n > 0 {
        assert(descriptors[n - 1].member("path"@) != JsonView::Text(path));
        lemma_not_met(descriptors, path, n - 1);
    }
}

/// Whether an array that is asked for is declared as an impulse response, in linear amplitude, in
/// this processing state, along samples.
pub open spec fn declares_impulse(descriptor: JsonView, processing_state: Seq<char>) -> bool {
    let axes = descriptor.member("dimensions"@);
    &&& descriptor.member("role"@) == JsonView::Text("impulse_response"@)
    &&& descriptor.member("units"@) == JsonView::Text("linear_amplitude"@)
    &&& descriptor.member("processingState"@) == JsonView::Text(processing_state)
    &&& axes == JsonView::Null || axes is Array && axes->Array_0.len() == 1 && axes->Array_0[0]
        == JsonView::Text("sample"@)
}

/// Whether the first arrays can be read, and the one that is asked for is declared as an impulse,
/// if it is among them.
pub open spec fn in_order(
    descriptors: Seq<JsonView>,
    arrays: Seq<ArrayView>,
    values: Seq<Seq<u32>>,
    path: Seq<char>,
    processing_state: Seq<char>,
    n: int,
) -> bool {
    &&& forall|i: int| 0 <= i < n ==> #[trigger] readable(descriptors, arrays, values, i)
    &&& forall|i: int|
        0 <= i < n && (#[trigger] descriptors[i]).member("path"@) == JsonView::Text(path)
            ==> declares_impulse(descriptors[i], processing_state)
    &&& sample_count(values.take(n)) <= 32_000_000
}

proof fn lemma_count_grows(values: Seq<Seq<u32>>, n: int)
    requires
        0 <= n <= values.len(),
    ensures
        sample_count(values.take(n)) <= sample_count(values),
    decreases values.len() - n,
{
    if n < values.len() {
        lemma_count_grows(values, n + 1);
        assert(values.take(n + 1).drop_last() =~= values.take(n));
    } else {
        assert(values.take(n) =~= values);
    }
}

proof fn lemma_path_comes_next(
    start: ScanView,
    descriptors: Seq<JsonView>,
    arrays: Seq<ArrayView>,
    values: Seq<Seq<u32>>,
    n: int,
)
    requires
        declared(start.manifest) == Some(descriptors),
        0 <= n < descriptors.len(),
        n <= values.len(),
        forall|i: int| 0 <= i < n ==> #[trigger] readable(descriptors, arrays, values, i),
    ensures
        ({
            let scan = scanned(start, descriptors, values, n);
            let path = descriptors[n].member("path"@);
            &&& scan.descriptor() == descriptors[n]
            &&& next_path(scan) == if path !is Text {
                Err::<Seq<char>, Fault>(Fault::Rejected("missing string"@))
            } else if exists|j: int|
                0 <= j < n && (#[trigger] descriptors[j]).member("path"@) == path {
                Err::<Seq<char>, Fault>(Fault::Rejected("duplicate array path"@))
            } else if !path_allowed(path->Text_0) {
                Err::<Seq<char>, Fault>(Fault::Rejected("invalid array path"@))
            } else {
                Ok::<Seq<char>, Fault>(path->Text_0)
            }
        }),
{
    let scan = scanned(start, descriptors, values, n);
    let path = descriptors[n].member("path"@);
    if path is Text {
        if scan.seen.contains(path->Text_0) {
            let j = choose|j: int| 0 <= j < scan.seen.len() && scan.seen[j] == path->Text_0;
            assert(readable(descriptors, arrays, values, j));
            assert(descriptors[j].member("path"@) == path);
        }
        if exists|j: int| 0 <= j < n && (#[trigger] descriptors[j]).member("path"@) == path {
            let j = choose|j: int| 0 <= j < n && (#[trigger] descriptors[j]).member("path"@) == path;
            assert(scan.seen[j] == path->Text_0);
        }
    }
}

proof fn lemma_readable_array_is_read(
    start: ScanView,
    descriptors: Seq<JsonView>,
    arrays: Seq<ArrayView>,
    values: Seq<Seq<u32>>,
    n: int,
)
    requires
        declared(start.manifest) == Some(descriptors),
        0 <= n < descriptors.len(),
        n < values.len(),
        in_order(
            descriptors,
            arrays,
            values,
            start.request.array_path,
            start.header.processing_state,
            n + 1,
        ),
    ensures
        array_read(scanned(start, descriptors, values, n), arrays) == Ok::<ScanView, Fault>(
            scanned(start, descriptors, values, n + 1),
        ),
{
    let scan = scanned(start, descriptors, values, n);
    let next = scanned(start, descriptors, values, n + 1);
    assert(readable(descriptors, arrays, values, n));
    let path = descriptors[n].member("path"@)->Text_0;
    lemma_path_comes_next(start, descriptors, arrays, values, n);
    let array = find_array(arrays, path)->0;
    let count = array_count(descriptors[n], document(array.metadata)->Ok_0)->Ok_0;
    assert(samples_qualify(values[n], count));
    assert(values.take(n + 1).drop_last() =~= values.take(n));
    assert(scan.total == sample_count(values.take(n)));
    let after = taken(scan, path, count, values[n])->Ok_0;
    assert(taken(scan, path, count, values[n]) is Ok);
    assert(after.seen =~= next.seen);
    assert(after.values =~= next.values);
    assert(array_read(scan, arrays) == taken(scan, path, count, values[n]));
    assert(after == next);
}

proof fn lemma_in_order_before(
    descriptors: Seq<JsonView>,
    arrays: Seq<ArrayView>,
    values: Seq<Seq<u32>>,
    path: Seq<char>,
    processing_state: Seq<char>,
    m: int,
    n: int,
)
    requires
        0 <= m <= n <= values.len(),
        in_order(descriptors, arrays, values, path, processing_state, n),
    ensures
        in_order(descriptors, arrays, values, path, processing_state, m),
{
    lemma_count_grows(values.take(n), m);
    assert(values.take(n).take(m) =~= values.take(m));
}

/// After the first arrays the scan goes on from there.
proof fn lemma_readable_arrays_are_read(
    start: ScanView,
    descriptors: Seq<JsonView>,
    arrays: Seq<ArrayView>,
    values: Seq<Seq<u32>>,
    m: int,
    n: int,
)
    requires
        declared(start.manifest) == Some(descriptors),
        0 <= m <= n <= descriptors.len(),
        n <= values.len(),
        in_order(
            descriptors,
            arrays,
            values,
            start.request.array_path,
            start.header.processing_state,
            n,
        ),
    ensures
        all_read(scanned(start, descriptors, values, m), arrays) == all_read(
            scanned(start, descriptors, values, n),
            arrays,
        ),
    decreases n - m,
{
    if m < n {
        lemma_in_order_before(
            descriptors,
            arrays,
            values,
            start.request.array_path,
            start.header.processing_state,
            m + 1,
            n,
        );
        lemma_readable_array_is_read(start, descriptors, arrays, values, m);
        lemma_readable_arrays_are_read(start, descriptors, arrays, values, m + 1, n);
    }
}

/// A package whose documents qualify is read from the first array on.
proof fn lemma_scan_starts(package: PackageView, request: RequestView, values: Seq<Seq<u32>>)
    requires
        package.manifest is Some,
        document(package.manifest->0) is Ok,
        manifest_header(document(package.manifest->0)->Ok_0, request) is Ok,
        document(package.manifest->0)->Ok_0.member("arrays"@) is Array,
    ensures
        ({
            let manifest = document(package.manifest->0)->Ok_0;
            let start = opened(package.manifest->0, request)->Ok_0;
            &&& opened(package.manifest->0, request) is Ok
            &&& start.manifest == manifest
            &&& start.request == request
            &&& start.header == manifest_header(manifest, request)->Ok_0
            &&& start.channels_text == compact(manifest.member("channels"@))
            &&& declared(start.manifest) == Some(manifest.member("arrays"@)->Array_0)
            &&& scanned(start, manifest.member("arrays"@)->Array_0, values, 0) == start
        }),
{
    let manifest = document(package.manifest->0)->Ok_0;
    let start = opened(package.manifest->0, request)->Ok_0;
    let fresh = scanned(start, manifest.member("arrays"@)->Array_0, values, 0);
    assert(fresh.seen =~= Seq::empty());
    assert(fresh.values =~= Seq::empty());
    assert(sample_count(values.take(0)) == 0);
}

/// A package that is in order is read. It has the extension of a package, a root document that is
/// a Zarr v3 group, and a manifest that qualifies for what is asked; every declared array can be
/// read, and together they are within the limit; the one that is asked for is declared as an
/// impulse response, in linear amplitude, in the processing state of the record, along samples; and
/// the identity of the manifest and all samples is the one on record, white space around it aside,
/// and the one that is asked for. Then the impulse has the samples of that array, with what the
/// manifest says of it.
pub proof fn law_package_in_order_is_read(
    package: PackageView,
    request: RequestView,
    header: HeaderView,
    values: Seq<Seq<u32>>,
    selected: int,
)
    requires
        package.extension == Some("orcmeasurement"@),
        package.root is Some,
        document(package.root->0) is Ok,
        document(package.root->0)->Ok_0.member("zarr_format"@) == JsonView::Number(
            JsonNumber::Unsigned(3),
        ),
        document(package.root->0)->Ok_0.member("node_type"@) == JsonView::Text("group"@),
        package.manifest is Some,
        document(package.manifest->0) is Ok,
        manifest_header(document(package.manifest->0)->Ok_0, request) == Ok::<HeaderView, Fault>(
            header,
        ),
        document(package.manifest->0)->Ok_0.member("arrays"@) is Array,
        values.len() == document(package.manifest->0)->Ok_0.member("arrays"@)->Array_0.len(),
        forall|i: int|
            0 <= i < values.len() ==> #[trigger] readable(
                document(package.manifest->0)->Ok_0.member("arrays"@)->Array_0,
                package.arrays,
                values,
                i,
            ),
        sample_count(values) <= 32_000_000,
        0 <= selected < values.len(),
        ({
            let manifest = document(package.manifest->0)->Ok_0;
            let descriptor = manifest.member("arrays"@)->Array_0[selected];
            &&& descriptor.member("path"@) == JsonView::Text(request.array_path)
            &&& declares_impulse(descriptor, header.processing_state)
            &&& logical_identity(
                manifest,
                compact(manifest.member("channels"@)),
                Seq::new(
                    values.len(),
                    |i: int| (manifest.member("arrays"@)->Array_0[i], values[i]),
                ),
            ) == Ok::<Seq<char>, Fault>(request.logical_digest)
        }),
        package.record is Some,
        trimmed(package.record->0) == request.logical_digest,
    ensures
        package_read(package, request) == Ok::<ImpulseView, Fault>(
            ImpulseView {
                samples: values[selected],
                sample_rate_hz: header.sample_rate_hz,
                campaign_id: header.campaign_id,
                source_digest: header.source_digest,
                logical_digest: request.logical_digest,
                processing_state: header.processing_state,
                time_reference: header.time_reference,
            },
        ),
{
    let manifest = document(package.manifest->0)->Ok_0;
    let descriptors = manifest.member("arrays"@)->Array_0;
    let n = descriptors.len() as int;
    lemma_scan_starts(package, request, values);
    let start = opened(package.manifest->0, request)->Ok_0;
    assert forall|i: int|
        0 <= i < n && (#[trigger] descriptors[i]).member("path"@) == JsonView::Text(
            request.array_path,
        ) implies i == selected by {
        assert(readable(descriptors, package.arrays, values, i));
        assert(readable(descriptors, package.arrays, values, selected));
    }
    assert(values.take(n) =~= values);
    lemma_met(descriptors, request.array_path, selected, n);
    lemma_readable_arrays_are_read(start, descriptors, package.arrays, values, 0, n);
    let complete = scanned(start, descriptors, values, n);
    assert(complete.arrays() =~= Seq::new(
        values.len(),
        |i: int| (manifest.member("arrays"@)->Array_0[i], values[i]),
    ));
}

/// Only a package that is in order is read: all that is asked of one for it to be read holds of
/// each that was.
pub proof fn law_read_package_is_in_order(package: PackageView, request: RequestView) -> (read: (
    Seq<Seq<u32>>,
    int,
))
    requires
        package_read(package, request) is Ok,
    ensures
        package.extension == Some("orcmeasurement"@),
        package.root is Some,
        document(package.root->0) is Ok,
        document(package.root->0)->Ok_0.member("zarr_format"@) == JsonView::Number(
            JsonNumber::Unsigned(3),
        ),
        document(package.root->0)->Ok_0.member("node_type"@) == JsonView::Text("group"@),
        package.manifest is Some,
        document(package.manifest->0) is Ok,
        manifest_header(document(package.manifest->0)->Ok_0, request) is Ok,
        document(package.manifest->0)->Ok_0.member("arrays"@) is Array,
        read.0.len() == document(package.manifest->0)->Ok_0.member("arrays"@)->Array_0.len(),
        forall|i: int|
            0 <= i < read.0.len() ==> #[trigger] readable(
                document(package.manifest->0)->Ok_0.member("arrays"@)->Array_0,
                package.arrays,
                read.0,
                i,
            ),
        sample_count(read.0) <= 32_000_000,
        0 <= read.1 < read.0.len(),
        ({
            let manifest = document(package.manifest->0)->Ok_0;
            let header = manifest_header(manifest, request)->Ok_0;
            let descriptor = manifest.member("arrays"@)->Array_0[read.1];
            &&& descriptor.member("path"@) == JsonView::Text(request.array_path)
            &&& declares_impulse(descriptor, header.processing_state)
            &&& logical_identity(
                manifest,
                compact(manifest.member("channels"@)),
                Seq::new(
                    read.0.len(),
                    |i: int| (manifest.member("arrays"@)->Array_0[i], read.0[i]),
                ),
            ) == Ok::<Seq<char>, Fault>(request.logical_digest)
            &&& package_read(package, request)->Ok_0 == ImpulseView {
                samples: read.0[read.1],
                sample_rate_hz: header.sample_rate_hz,
                campaign_id: header.campaign_id,
                source_digest: header.source_digest,
                logical_digest: request.logical_digest,
                processing_state: header.processing_state,
                time_reference: header.time_reference,
            }
        }),
        package.record is Some,
        trimmed(package.record->0) == request.logical_digest,
{
    let scan = complete_scan(package, request);
    let manifest = document(package.manifest->0)->Ok_0;
    let descriptors = manifest.member("arrays"@)->Array_0;
    law_every_array_is_checked(package, request);
    lemma_complete_scan(package, request);
    reveal(ScanView::wf);
    let values = scan.values;
    let selected = scan.selected->0 as int;
    assert(scan.arrays() =~= Seq::new(
        values.len(),
        |i: int| (manifest.member("arrays"@)->Array_0[i], values[i]),
    ));
    assert forall|i: int| 0 <= i < values.len() implies #[trigger] readable(
        descriptors,
        package.arrays,
        values,
        i,
    ) by {
        assert(read_as_stored(scan, package.arrays, i));
        let path = scan.seen[i];
        assert(descriptors[i].member("path"@).text() == Some(path));
        assert forall|j: int| 0 <= j < i implies (#[trigger] descriptors[j]).member("path"@)
            != JsonView::Text(path) by {
            assert(scan.seen[j] != scan.seen[i]);
            assert(descriptors[j].member("path"@).text() == Some(scan.seen[j]));
        }
        assert forall|k: int| 0 <= k < values[i].len() implies single_finite(
            #[trigger] values[i][k],
        ) by {
            assert(single_finite(scan.values[i][k]));
        }
    }
    assert(scan.seen[selected] == request.array_path);
    assert(descriptors[selected].member("path"@).text() == Some(scan.seen[selected]));
    (values, selected)
}

/// What a scan keeps of the manifest.
proof fn lemma_complete_scan(package: PackageView, request: RequestView)
    requires
        package_read(package, request) is Ok,
    ensures
        ({
            let scan = complete_scan(package, request);
            let manifest = document(package.manifest->0)->Ok_0;
            &&& scan.manifest == manifest
            &&& scan.request == request
            &&& scan.channels_text == compact(manifest.member("channels"@))
            &&& scan.header == manifest_header(manifest, request)->Ok_0
        }),
{
    let start = opened(package.manifest->0, request)->Ok_0;
    lemma_opened_wf(package.manifest->0, request);
    lemma_all_read_keeps_wf(start, package.arrays);
}

/// How many samples there are together: those of the first lists, and those of the rest.
pub proof fn law_samples_are_counted_together(a: Seq<Seq<u32>>, b: Seq<Seq<u32>>, one: Seq<u32>)
    ensures
        sample_count(a + b) == sample_count(a) + sample_count(b),
        sample_count(seq![one]) == one.len(),
        sample_count(Seq::empty()) == 0,
    decreases b.len(),
{
    assert(seq![one].drop_last() =~= Seq::empty());
    assert(sample_count(seq![one].drop_last()) == 0);
    if b.len() == 0 {
        assert(a + b =~= a);
    } else {
        law_samples_are_counted_together(a, b.drop_last(), one);
        assert((a + b).drop_last() =~= a + b.drop_last());
        assert((a + b).last() == b.last());
    }
}

/// A manifest that does not qualify is refused for the first of these reasons.
pub proof fn law_manifest_is_refused_for_the_first_reason(
    manifest: JsonView,
    request: RequestView,
)
    requires
        manifest_header(manifest, request) is Err,
    ensures
        ({
            let version = manifest.member("schemaVersion"@);
            let parts = split_on(request.array_path, '/');
            let channels = manifest.member("channels"@);
            let found = find_channel(channels->Array_0, parts[1], parts[2]);
            let acquisition = found->0.member("acquisition"@);
            let rate = found->0.member("sampleRate"@).integer();
            manifest_header(manifest, request)->Err_0 == Fault::Rejected(
                if version.integer() is None {
                    "missing positive integer"@
                } else if version.integer() != Some(1u64) {
                    "only measurement schema v1 is supported"@
                } else if manifest.member("sourceDigest"@) !is Text {
                    "missing string"@
                } else if manifest.member("sourceDigest"@)->Text_0 != request.source_digest {
                    "source digest mismatch"@
                } else if manifest.member("rawWaveformAuthority"@) != JsonView::Bool(true) {
                    "raw waveform authority absent"@
                } else if manifest.member("campaignID"@) !is Text {
                    "missing string"@
                } else if parts.len() != 4 || parts[0] != "positions"@ || parts[3]
                    != "impulse_response"@ {
                    "invalid impulse path"@
                } else if channels !is Array {
                    "missing channels"@
                } else if found is None {
                    "channel not declared"@
                } else if found->0.member("quality"@).member("valid"@) != JsonView::Bool(true) {
                    "channel quality invalid"@
                } else if acquisition.member("processingState"@) !is Text {
                    "missing string"@
                } else if acquisition.member("processingState"@)->Text_0
                    != "isolated_physical_output"@ {
                    "non-isolated processing state"@
                } else if rate is None {
                    "missing positive integer"@
                } else if rate->0 == 0 || rate->0 > 0xffff_ffff {
                    "invalid sample rate"@
                } else {
                    "missing string"@
                },
            )
        }),
{
}

/// A package that lacks a document, or has one that does not qualify, is refused for the first of
/// these reasons.
pub proof fn law_package_is_refused_for_its_documents(package: PackageView, request: RequestView)
    ensures
        ({
            let read = package_read(package, request);
            let root = document(package.root->0);
            let manifest = document(package.manifest->0);
            let named = package.extension == Some("orcmeasurement"@);
            let rooted = package.root is Some && root is Ok && root->Ok_0.member("zarr_format"@)
                == JsonView::Number(JsonNumber::Unsigned(3)) && root->Ok_0.member("node_type"@)
                == JsonView::Text("group"@);
            &&& !named ==> read == Err::<ImpulseView, Fault>(
                Fault::Rejected("expected .orcmeasurement directory"@),
            )
            &&& named && package.root is None ==> read == Err::<ImpulseView, Fault>(
                Fault::Missing("zarr.json"@),
            )
            &&& named && package.root is Some && root is Err ==> read == Err::<ImpulseView, Fault>(
                Fault::Json(root->Err_0),
            )
            &&& named && package.root is Some && root is Ok && !rooted ==> read == Err::<
                ImpulseView,
                Fault,
            >(Fault::Rejected("invalid Zarr root"@))
            &&& named && rooted && package.manifest is None ==> read == Err::<ImpulseView, Fault>(
                Fault::Missing("manifest"@),
            )
            &&& named && rooted && package.manifest is Some && manifest is Err ==> read == Err::<
                ImpulseView,
                Fault,
            >(Fault::Json(manifest->Err_0))
            &&& named && rooted && package.manifest is Some && manifest is Ok && manifest_header(
                manifest->Ok_0,
                request,
            ) is Err ==> read == Err::<ImpulseView, Fault>(
                manifest_header(manifest->Ok_0, request)->Err_0,
            )
            &&& named && rooted && package.manifest is Some && manifest is Ok && manifest_header(
                manifest->Ok_0,
                request,
            ) is Ok && manifest->Ok_0.member("arrays"@) !is Array ==> read == Err::<
                ImpulseView,
                Fault,
            >(Fault::Rejected("missing arrays"@))
        }),
{
}

/// The first array that cannot be read decides how a package is refused: for the first of these
/// reasons that holds of it.
pub proof fn law_package_is_refused_for_its_first_fault(
    package: PackageView,
    request: RequestView,
    values: Seq<Seq<u32>>,
    n: int,
)
    requires
        package.extension == Some("orcmeasurement"@),
        package.root is Some,
        document(package.root->0) is Ok,
        document(package.root->0)->Ok_0.member("zarr_format"@) == JsonView::Number(
            JsonNumber::Unsigned(3),
        ),
        document(package.root->0)->Ok_0.member("node_type"@) == JsonView::Text("group"@),
        package.manifest is Some,
        document(package.manifest->0) is Ok,
        manifest_header(document(package.manifest->0)->Ok_0, request) is Ok,
        document(package.manifest->0)->Ok_0.member("arrays"@) is Array,
        values.len() == n,
        0 <= n < document(package.manifest->0)->Ok_0.member("arrays"@)->Array_0.len(),
        in_order(
            document(package.manifest->0)->Ok_0.member("arrays"@)->Array_0,
            package.arrays,
            values,
            request.array_path,
            manifest_header(document(package.manifest->0)->Ok_0, request)->Ok_0.processing_state,
            n,
        ),
    ensures
        ({
            let manifest = document(package.manifest->0)->Ok_0;
            let header = manifest_header(manifest, request)->Ok_0;
            let descriptors = manifest.member("arrays"@)->Array_0;
            let path = descriptors[n].member("path"@);
            let array = find_array(package.arrays, path->Text_0);
            let meta = document(array->0.metadata);
            let count = array_count(descriptors[n], meta->Ok_0);
            let samples = array->0.samples->0;
            let axes = descriptors[n].member("dimensions"@);
            let fault = if path !is Text {
                Some(Fault::Rejected("missing string"@))
            } else if exists|j: int|
                0 <= j < n && (#[trigger] descriptors[j]).member("path"@) == path {
                Some(Fault::Rejected("duplicate array path"@))
            } else if !path_allowed(path->Text_0) {
                Some(Fault::Rejected("invalid array path"@))
            } else if array is None {
                Some(Fault::Missing("arrays/"@ + path->Text_0 + "/zarr.json"@))
            } else if meta is Err {
                Some(Fault::Json(meta->Err_0))
            } else if count is Err {
                Some(count->Err_0)
            } else if array->0.samples is None {
                Some(Fault::Missing("/arrays/"@ + path->Text_0))
            } else if samples.len() != count->Ok_0 || exists|k: int|
                0 <= k < samples.len() && !single_finite(#[trigger] samples[k]) {
                Some(Fault::Rejected("invalid decoded samples"@))
            } else if sample_count(values) + samples.len() > 32_000_000 {
                Some(Fault::Rejected("package exceeds local read limit"@))
            } else if path->Text_0 != request.array_path {
                None
            } else if descriptors[n].member("role"@) != JsonView::Text("impulse_response"@) {
                Some(Fault::Rejected("array role mismatch"@))
            } else if descriptors[n].member("units"@) != JsonView::Text("linear_amplitude"@) {
                Some(Fault::Rejected("impulse unit mismatch"@))
            } else if descriptors[n].member("processingState"@) != JsonView::Text(
                header.processing_state,
            ) {
                Some(Fault::Rejected("impulse processing mismatch"@))
            } else if axes != JsonView::Null && (axes !is Array || axes->Array_0.len() != 1
                || axes->Array_0[0] != JsonView::Text("sample"@)) {
                Some(Fault::Rejected("impulse axis mismatch"@))
            } else {
                None
            };
            fault is Some ==> package_read(package, request) == Err::<ImpulseView, Fault>(fault->0)
        }),
{
    let manifest = document(package.manifest->0)->Ok_0;
    let descriptors = manifest.member("arrays"@)->Array_0;
    lemma_scan_starts(package, request, values);
    let start = opened(package.manifest->0, request)->Ok_0;
    lemma_readable_arrays_are_read(start, descriptors, package.arrays, values, 0, n);
    lemma_path_comes_next(start, descriptors, package.arrays, values, n);
    let scan = scanned(start, descriptors, values, n);
    assert(values.take(n) =~= values);
    assert(scan.total == sample_count(values));
    let path = descriptors[n].member("path"@)->Text_0;
    let array = find_array(package.arrays, path);
    let count = array_count(descriptors[n], document(array->0.metadata)->Ok_0);
    if count is Ok {
        law_array_qualifies_exactly_if(
            descriptors[n],
            document(array->0.metadata)->Ok_0,
            count->Ok_0,
        );
    }
}

/// A package whose arrays can all be read is refused where the impulse that is asked for is not
/// among them, where there is no identity, or none on record, and where the identity is not the one
/// on record, or not the one that is asked for.
pub proof fn law_package_is_refused_for_its_identity(
    package: PackageView,
    request: RequestView,
    values: Seq<Seq<u32>>,
)
    requires
        package.extension == Some("orcmeasurement"@),
        package.root is Some,
        document(package.root->0) is Ok,
        document(package.root->0)->Ok_0.member("zarr_format"@) == JsonView::Number(
            JsonNumber::Unsigned(3),
        ),
        document(package.root->0)->Ok_0.member("node_type"@) == JsonView::Text("group"@),
        package.manifest is Some,
        document(package.manifest->0) is Ok,
        manifest_header(document(package.manifest->0)->Ok_0, request) is Ok,
        document(package.manifest->0)->Ok_0.member("arrays"@) is Array,
        values.len() == document(package.manifest->0)->Ok_0.member("arrays"@)->Array_0.len(),
        in_order(
            document(package.manifest->0)->Ok_0.member("arrays"@)->Array_0,
            package.arrays,
            values,
            request.array_path,
            manifest_header(document(package.manifest->0)->Ok_0, request)->Ok_0.processing_state,
            values.len() as int,
        ),
    ensures
        ({
            let manifest = document(package.manifest->0)->Ok_0;
            let descriptors = manifest.member("arrays"@)->Array_0;
            let identity = logical_identity(
                manifest,
                compact(manifest.member("channels"@)),
                Seq::new(values.len(), |i: int| (descriptors[i], values[i])),
            );
            let fault = if forall|i: int|
                0 <= i < descriptors.len() ==> (#[trigger] descriptors[i]).member("path"@)
                    != JsonView::Text(request.array_path) {
                Some(Fault::Rejected("impulse not declared"@))
            } else if identity is Err {
                Some(identity->Err_0)
            } else if package.record is None {
                Some(Fault::Missing("logical.sha256"@))
            } else if trimmed(package.record->0) != identity->Ok_0 {
                Some(Fault::Rejected("package logical digest mismatch"@))
            } else if request.logical_digest != identity->Ok_0 {
                Some(Fault::Rejected("expected logical digest mismatch"@))
            } else {
                None
            };
            fault is Some ==> package_read(package, request) == Err::<ImpulseView, Fault>(fault->0)
        }),
{
    let manifest = document(package.manifest->0)->Ok_0;
    let descriptors = manifest.member("arrays"@)->Array_0;
    let n = descriptors.len() as int;
    lemma_scan_starts(package, request, values);
    let start = opened(package.manifest->0, request)->Ok_0;
    lemma_readable_arrays_are_read(start, descriptors, package.arrays, values, 0, n);
    let complete = scanned(start, descriptors, values, n);
    assert(values.take(n) =~= values);
    assert(complete.arrays() =~= Seq::new(
        values.len(),
        |i: int| (descriptors[i], values[i]),
    ));
    if forall|i: int|
        0 <= i < descriptors.len() ==> (#[trigger] descriptors[i]).member("path"@)
            != JsonView::Text(request.array_path) {
        lemma_not_met(descriptors, request.array_path, n);
    } else {
        let k = choose|k: int|
            0 <= k < descriptors.len() && (#[trigger] descriptors[k]).member("path"@)
                == JsonView::Text(request.array_path);
        assert forall|j: int| k < j < n implies (#[trigger] descriptors[j]).member("path"@)
            != JsonView::Text(request.array_path) by {
            assert(readable(descriptors, package.arrays, values, j));
        }
        lemma_met(descriptors, request.array_path, k, n);
    }
}

/// An array lies under its path: its metadata in the directory of that name below that of the
/// arrays, and its samples in the node of that name.
pub proof fn law_array_lies_under_its_path(path: Seq<char>)
    ensures
        split_on(metadata_file(path), '/') == seq!["arrays"@] + split_on(path, '/') + seq![
            "zarr.json"@,
        ],
        split_on(array_node(path), '/') == seq![Seq::<char>::empty(), "arrays"@] + split_on(
            path,
            '/',
        ),
{
    reveal_strlit("arrays/");
    reveal_strlit("/arrays/");
    reveal_strlit("arrays");
    reveal_strlit("/zarr.json");
    reveal_strlit("zarr.json");
    let slash = seq!['/'];
    assert(metadata_file(path) =~= "arrays"@ + slash + (path + slash + "zarr.json"@));
    assert(array_node(path) =~= Seq::<char>::empty() + slash + ("arrays"@ + slash + path));
    lemma_joined_parts("arrays"@, path + slash + "zarr.json"@);
    lemma_joined_parts(path, "zarr.json"@);
    lemma_joined_parts(Seq::empty(), "arrays"@ + slash + path);
    lemma_joined_parts("arrays"@, path);
    assert(!"arrays"@.contains('/'));
    assert(!"zarr.json"@.contains('/'));
    assert(!Seq::<char>::empty().contains('/'));
    lemma_parts_of_one("arrays"@);
    lemma_parts_of_one("zarr.json"@);
    lemma_parts_of_one(Seq::empty());
    assert(split_on(metadata_file(path), '/') =~= seq!["arrays"@] + split_on(path, '/') + seq![
        "zarr.json"@,
    ]);
    assert(split_on(array_node(path), '/') =~= seq![Seq::<char>::empty(), "arrays"@] + split_on(
        path,
        '/',
    ));
}

} // verus!
