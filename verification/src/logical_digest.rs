//! The logical identity of a package: one digest over its manifest and all its samples.

use crate::digest::{
    append_bytes, append_samples, law_samples_bytes_is_injective, lemma_samples_bytes_length,
    samples_bytes, sha256, sha256_text,
};
use crate::error::{Fault, ReadError, ReadResult};
use crate::json::{models, Json, JsonView};
use crate::measurement_array::{agrees, number, string, text_of};
use crate::order::{
    ascending, goes_first, indices, key_texts, law_stable_order_exists, lemma_ascending_unique,
    lemma_precedes_asymmetric, sort, stable_order,
};
use crate::text::{characters, decimal, decimal_text, precedes};
use vstd::prelude::*;
use vstd::utf8::encode_utf8;

verus! {

/// The key by which artifacts and arrays are ordered: the path, or nothing where there is none.
pub open spec fn path_key(value: JsonView) -> Seq<char> {
    match value.member("path"@).text() {
        Some(path) => path,
        None => Seq::empty(),
    }
}

/// The keys of a list of values.
pub open spec fn path_keys(values: Seq<JsonView>) -> Seq<Seq<char>> {
    values.map_values(|value: JsonView| path_key(value))
}

/// Pieces one after the other, or the first reason why one cannot be had.
pub open spec fn concatenated(pieces: Seq<Result<Seq<u8>, Fault>>) -> Result<Seq<u8>, Fault>
    decreases pieces.len(),
{
    if pieces.len() == 0 {
        Ok(Seq::empty())
    } else {
        match (concatenated(pieces.drop_last()), pieces.last()) {
            (Err(fault), _) => Err(fault),
            (Ok(_), Err(fault)) => Err(fault),
            (Ok(head), Ok(tail)) => Ok(head + tail),
        }
    }
}

/// A zero byte and a text.
pub open spec fn field(text: Seq<char>) -> Seq<u8> {
    seq![0u8] + encode_utf8(text)
}

/// What a source artifact contributes: its role and its digest.
pub open spec fn artifact_piece(artifact: JsonView) -> Result<Seq<u8>, Fault> {
    match (text_of(artifact.member("role"@)), text_of(artifact.member("sha256"@))) {
        (Err(fault), _) => Err(fault),
        (_, Err(fault)) => Err(fault),
        (Ok(role), Ok(digest)) => Ok(field(role) + field(digest)),
    }
}

/// What an array contributes: its path, role, units, processing state and length, and then its
/// samples.
pub open spec fn array_piece(descriptor: JsonView, samples: Seq<u32>) -> Result<Seq<u8>, Fault> {
    let path = descriptor.member("path"@);
    let role = descriptor.member("role"@);
    let units = descriptor.member("units"@);
    let state = descriptor.member("processingState"@);
    let length = descriptor.member("shape"@).item(0);
    if path.text() is None || role.text() is None || units.text() is None || state.text() is None {
        Err(Fault::Rejected("missing string"@))
    } else if length.integer() is None {
        Err(Fault::Rejected("missing positive integer"@))
    } else {
        Ok(
            field(path.text()->0) + field(role.text()->0) + field(units.text()->0) + field(
                state.text()->0,
            ) + field(decimal(length.integer()->0 as nat)) + seq![0u8] + samples_bytes(samples),
        )
    }
}

/// What the source artifacts contribute, by path.
pub open spec fn artifact_pieces(artifacts: Seq<JsonView>) -> Seq<Result<Seq<u8>, Fault>> {
    stable_order(path_keys(artifacts)).map_values(|k: int| artifact_piece(artifacts[k]))
}

/// The descriptors of a list of arrays.
pub open spec fn descriptors(arrays: Seq<(JsonView, Seq<u32>)>) -> Seq<JsonView> {
    arrays.map_values(|array: (JsonView, Seq<u32>)| array.0)
}

/// What the arrays contribute, by path.
pub open spec fn array_pieces(arrays: Seq<(JsonView, Seq<u32>)>) -> Seq<Result<Seq<u8>, Fault>> {
    stable_order(path_keys(descriptors(arrays))).map_values(
        |k: int| array_piece(arrays[k].0, arrays[k].1),
    )
}

/// The message whose digest identifies a package, or why it cannot be put together.
/// `channels_text` is the compact text of the channels in the manifest.
pub open spec fn logical_message(
    manifest: JsonView,
    channels_text: Seq<u8>,
    arrays: Seq<(JsonView, Seq<u32>)>,
) -> Result<Seq<u8>, Fault> {
    let campaign = manifest.member("campaignID"@);
    let source = manifest.member("sourceDigest"@);
    let calibration = manifest.member("calibrationStatus"@);
    let owner = manifest.member("correctionOwner"@);
    let artifacts = manifest.member("sourceArtifacts"@);
    if campaign.text() is None || source.text() is None || calibration.text() is None
        || owner.text() is None {
        Err(Fault::Rejected("missing string"@))
    } else if artifacts.items() is None {
        Err(Fault::Rejected("missing source artifacts"@))
    } else {
        match (
            concatenated(artifact_pieces(artifacts.items()->0)),
            concatenated(array_pieces(arrays)),
        ) {
            (Err(fault), _) => Err(fault),
            (_, Err(fault)) => Err(fault),
            (Ok(artifact_bytes), Ok(array_bytes)) => Ok(
                encode_utf8("orcmeasurement-logical-v1\0"@) + encode_utf8(campaign.text()->0)
                    + encode_utf8(source.text()->0) + encode_utf8(calibration.text()->0)
                    + encode_utf8(owner.text()->0) + channels_text + artifact_bytes + array_bytes,
            ),
        }
    }
}

/// The logical identity of a package, or why it has none.
pub open spec fn logical_identity(
    manifest: JsonView,
    channels_text: Seq<u8>,
    arrays: Seq<(JsonView, Seq<u32>)>,
) -> Result<Seq<char>, Fault> {
    match logical_message(manifest, channels_text, arrays) {
        Ok(message) => Ok(sha256_text(message)),
        Err(fault) => Err(fault),
    }
}

/// What a list of borrowed arrays stands for.
pub open spec fn loaded(arrays: Seq<(&Json, &Vec<u32>)>) -> Seq<(JsonView, Seq<u32>)> {
    arrays.map_values(|array: (&Json, &Vec<u32>)| (array.0@, array.1@))
}

fn key_of(value: &Json) -> (r: Vec<char>)
    ensures
        r@ == path_key(value@),
{
    match value.member("path").as_text() {
        Some(path) => characters(path),
        None => {
            let none: Vec<char> = Vec::new();
            assert(none@ =~= Seq::<char>::empty());
            none
        },
    }
}

fn append_field(message: &mut Vec<u8>, text: &str)
    ensures
        final(message)@ == old(message)@ + field(text@),
{
    message.push(0);
    append_bytes(message, text.as_bytes());
    assert(message@ =~= old(message)@ + field(text@));
}

/// Appends the piece of an artifact.
fn append_artifact(message: &mut Vec<u8>, artifact: &Json) -> (r: ReadResult<()>)
    ensures
        match (r, artifact_piece(artifact@)) {
            (Ok(_), Ok(piece)) => final(message)@ == old(message)@ + piece,
            (Err(e), Err(fault)) => e@ == fault,
            _ => false,
        },
{
    let role = string(artifact.member("role"))?;
    let digest = string(artifact.member("sha256"))?;
    append_field(message, role);
    append_field(message, digest);
    assert(message@ =~= old(message)@ + (field(role@) + field(digest@)));
    Ok(())
}

/// Appends the piece of an array.
fn append_array(message: &mut Vec<u8>, descriptor: &Json, samples: &Vec<u32>) -> (r: ReadResult<
    (),
>)
    ensures
        match (r, array_piece(descriptor@, samples@)) {
            (Ok(_), Ok(piece)) => final(message)@ == old(message)@ + piece,
            (Err(e), Err(fault)) => e@ == fault,
            _ => false,
        },
{
    let path = string(descriptor.member("path"))?;
    let role = string(descriptor.member("role"))?;
    let units = string(descriptor.member("units"))?;
    let state = string(descriptor.member("processingState"))?;
    let length = number(descriptor.member("shape").item(0))?;
    append_field(message, path);
    append_field(message, role);
    append_field(message, units);
    append_field(message, state);
    append_field(message, decimal_text(length).as_str());
    message.push(0);
    append_samples(message, samples.as_slice());
    proof {
        let piece = field(path@) + field(role@) + field(units@) + field(state@) + field(
            decimal(length as nat),
        ) + seq![0u8] + samples_bytes(samples@);
        assert(message@ =~= old(message)@ + piece);
    }
    Ok(())
}

/// Appends what the source artifacts contribute.
fn append_artifacts(message: &mut Vec<u8>, artifacts: &Vec<Json>) -> (r: ReadResult<()>)
    ensures
        match (r, concatenated(artifact_pieces(models(artifacts@)))) {
            (Ok(_), Ok(bytes)) => final(message)@ == old(message)@ + bytes,
            (Err(e), Err(fault)) => e@ == fault,
            _ => false,
        },
{
    let ghost all = models(artifacts@);
    let mut keys: Vec<Vec<char>> = Vec::new();
    let mut i: usize = 0;
    while i < artifacts.len()
        invariant
            all == models(artifacts@),
            i <= artifacts@.len(),
            keys@.len() == i,
            forall|j: int| 0 <= j < i ==> (#[trigger] keys@[j])@ == path_key(artifacts@[j]@),
        decreases artifacts@.len() - i,
    {
        keys.push(key_of(&artifacts[i]));
        i = i + 1;
    }
    assert(key_texts(keys@) =~= path_keys(all));
    let order = sort(&keys);
    let ghost pieces = artifact_pieces(all);
    let mut k: usize = 0;
    proof {
        assert(pieces.take(0) =~= Seq::<Result<Seq<u8>, Fault>>::empty());
        assert(message@ =~= old(message)@ + Seq::<u8>::empty());
    }
    while k < order.len()
        invariant
            all == models(artifacts@),
            pieces == artifact_pieces(all),
            order@.len() == pieces.len(),
            indices(order@) == stable_order(path_keys(all)),
            forall|j: int| 0 <= j < order@.len() ==> (#[trigger] order@[j]) < artifacts@.len(),
            k <= order@.len(),
            concatenated(pieces.take(k as int)) is Ok,
            message@ == old(message)@ + concatenated(pieces.take(k as int))->Ok_0,
        decreases order@.len() - k,
    {
        let ghost before = message@;
        proof {
            assert(pieces.take(k + 1).drop_last() =~= pieces.take(k as int));
            assert(indices(order@)[k as int] == order@[k as int]);
            assert(pieces[k as int] == artifact_piece(artifacts@[order@[k as int] as int]@));
        }
        let appended = append_artifact(message, &artifacts[order[k]]);
        match appended {
            Ok(_) => {},
            Err(error) => {
                proof {
                    lemma_fault_stays(pieces, k + 1);
                }
                return Err(error);
            },
        }
        proof {
            let head = concatenated(pieces.take(k as int))->Ok_0;
            let tail = pieces[k as int]->Ok_0;
            assert(old(message)@ + head + tail =~= old(message)@ + (head + tail));
        }
        k = k + 1;
    }
    assert(pieces.take(k as int) =~= pieces);
    Ok(())
}

proof fn lemma_fault_stays(pieces: Seq<Result<Seq<u8>, Fault>>, k: int)
    requires
        0 <= k <= pieces.len(),
        concatenated(pieces.take(k)) is Err,
    ensures
        concatenated(pieces) == concatenated(pieces.take(k)),
    decreases pieces.len() - k,
{
    if k == pieces.len() {
        assert(pieces.take(k) =~= pieces);
    } else {
        assert(pieces.take(k + 1).drop_last() =~= pieces.take(k));
        lemma_fault_stays(pieces, k + 1);
    }
}

/// Appends what the arrays contribute.
fn append_arrays(message: &mut Vec<u8>, arrays: &Vec<(&Json, &Vec<u32>)>) -> (r: ReadResult<()>)
    ensures
        match (r, concatenated(array_pieces(loaded(arrays@)))) {
            (Ok(_), Ok(bytes)) => final(message)@ == old(message)@ + bytes,
            (Err(e), Err(fault)) => e@ == fault,
            _ => false,
        },
{
    let ghost all = loaded(arrays@);
    let mut keys: Vec<Vec<char>> = Vec::new();
    let mut i: usize = 0;
    while i < arrays.len()
        invariant
            all == loaded(arrays@),
            i <= arrays@.len(),
            keys@.len() == i,
            forall|j: int| 0 <= j < i ==> (#[trigger] keys@[j])@ == path_key(arrays@[j].0@),
        decreases arrays@.len() - i,
    {
        keys.push(key_of(arrays[i].0));
        i = i + 1;
    }
    assert(key_texts(keys@) =~= path_keys(descriptors(all)));
    let order = sort(&keys);
    let ghost pieces = array_pieces(all);
    let mut k: usize = 0;
    proof {
        assert(pieces.take(0) =~= Seq::<Result<Seq<u8>, Fault>>::empty());
        assert(message@ =~= old(message)@ + Seq::<u8>::empty());
    }
    while k < order.len()
        invariant
            all == loaded(arrays@),
            pieces == array_pieces(all),
            order@.len() == pieces.len(),
            indices(order@) == stable_order(path_keys(descriptors(all))),
            forall|j: int| 0 <= j < order@.len() ==> (#[trigger] order@[j]) < arrays@.len(),
            k <= order@.len(),
            concatenated(pieces.take(k as int)) is Ok,
            message@ == old(message)@ + concatenated(pieces.take(k as int))->Ok_0,
        decreases order@.len() - k,
    {
        proof {
            assert(pieces.take(k + 1).drop_last() =~= pieces.take(k as int));
            assert(indices(order@)[k as int] == order@[k as int]);
            assert(pieces[k as int] == array_piece(
                arrays@[order@[k as int] as int].0@,
                arrays@[order@[k as int] as int].1@,
            ));
        }
        let array = &arrays[order[k]];
        let appended = append_array(message, array.0, array.1);
        match appended {
            Ok(_) => {},
            Err(error) => {
                proof {
                    lemma_fault_stays(pieces, k + 1);
                }
                return Err(error);
            },
        }
        proof {
            let head = concatenated(pieces.take(k as int))->Ok_0;
            let tail = pieces[k as int]->Ok_0;
            assert(old(message)@ + head + tail =~= old(message)@ + (head + tail));
        }
        k = k + 1;
    }
    assert(pieces.take(k as int) =~= pieces);
    Ok(())
}

/// Puts together the message whose digest identifies a package.
pub fn message(
    manifest: &Json,
    channels_text: &[u8],
    arrays: &Vec<(&Json, &Vec<u32>)>,
) -> (r: ReadResult<Vec<u8>>)
    ensures
        agrees(r, logical_message(manifest@, channels_text@, loaded(arrays@))),
{
    let campaign = string(manifest.member("campaignID"))?;
    let source = string(manifest.member("sourceDigest"))?;
    let calibration = string(manifest.member("calibrationStatus"))?;
    let owner = string(manifest.member("correctionOwner"))?;
    let mut bytes: Vec<u8> = Vec::new();
    append_bytes(&mut bytes, "orcmeasurement-logical-v1\0".as_bytes());
    append_bytes(&mut bytes, campaign.as_bytes());
    append_bytes(&mut bytes, source.as_bytes());
    append_bytes(&mut bytes, calibration.as_bytes());
    append_bytes(&mut bytes, owner.as_bytes());
    append_bytes(&mut bytes, channels_text);
    let artifacts = match manifest.member("sourceArtifacts").as_items() {
        Some(artifacts) => artifacts,
        None => return Err(ReadError::Rejected("missing source artifacts")),
    };
    append_artifacts(&mut bytes, artifacts)?;
    append_arrays(&mut bytes, arrays)?;
    proof {
        let meant = logical_message(manifest@, channels_text@, loaded(arrays@));
        assert(meant is Ok);
        assert(bytes@ =~= meant->Ok_0);
    }
    Ok(bytes)
}

/// The logical identity of a package. `channels_text` is the compact text of the channels in
/// the manifest.
pub fn logical_digest(
    manifest: &Json,
    channels_text: &[u8],
    arrays: &Vec<(&Json, &Vec<u32>)>,
) -> (r: ReadResult<String>)
    ensures
        agrees(r, logical_identity(manifest@, channels_text@, loaded(arrays@))),
{
    let bytes = message(manifest, channels_text, arrays)?;
    Ok(sha256(bytes.as_slice()))
}

/// What the identity takes of an array: what it is, and its samples. How the samples are stored
/// is no part of it.
pub struct LogicalArray {
    pub path: Option<Seq<char>>,
    pub role: Option<Seq<char>>,
    pub units: Option<Seq<char>>,
    pub processing_state: Option<Seq<char>>,
    pub length: Option<u64>,
    pub samples: Seq<u32>,
}

/// What the identity takes of a source artifact.
pub struct LogicalArtifact {
    pub path: Option<Seq<char>>,
    pub role: Option<Seq<char>>,
    pub sha256: Option<Seq<char>>,
}

/// What the identity takes of each of a list of arrays.
pub open spec fn logical_arrays(arrays: Seq<(JsonView, Seq<u32>)>) -> Seq<LogicalArray> {
    arrays.map_values(
        |array: (JsonView, Seq<u32>)|
            LogicalArray {
                path: array.0.member("path"@).text(),
                role: array.0.member("role"@).text(),
                units: array.0.member("units"@).text(),
                processing_state: array.0.member("processingState"@).text(),
                length: array.0.member("shape"@).item(0).integer(),
                samples: array.1,
            },
    )
}

/// What the identity takes of each of a list of source artifacts.
pub open spec fn logical_artifacts(artifacts: Seq<JsonView>) -> Seq<LogicalArtifact> {
    artifacts.map_values(
        |artifact: JsonView|
            LogicalArtifact {
                path: artifact.member("path"@).text(),
                role: artifact.member("role"@).text(),
                sha256: artifact.member("sha256"@).text(),
            },
    )
}

/// Whether no two values have the same path.
pub open spec fn paths_distinct(values: Seq<JsonView>) -> bool {
    forall|i: int, j: int|
        0 <= i < j < values.len() ==> path_key(#[trigger] values[i]) != path_key(
            #[trigger] values[j],
        )
}

/// Whether two lists hold the same items.
pub open spec fn same_members<T>(a: Seq<T>, b: Seq<T>) -> bool {
    forall|x: T| #[trigger] a.contains(x) <==> b.contains(x)
}

spec fn key_path(path: Option<Seq<char>>) -> Seq<char> {
    match path {
        Some(path) => path,
        None => Seq::empty(),
    }
}

/// Items in the stable order of their keys.
spec fn sorted_by<T>(key: spec_fn(T) -> Seq<char>, items: Seq<T>) -> Seq<T> {
    stable_order(items.map_values(key)).map_values(|k: int| items[k])
}

spec fn keys_distinct<T>(key: spec_fn(T) -> Seq<char>, items: Seq<T>) -> bool {
    forall|i: int, j: int|
        0 <= i < j < items.len() ==> key(#[trigger] items[i]) != key(#[trigger] items[j])
}

proof fn lemma_sorted_by<T>(key: spec_fn(T) -> Seq<char>, items: Seq<T>)
    requires
        keys_distinct(key, items),
    ensures
        ascending(|x: T, y: T| precedes(key(x), key(y)), sorted_by(key, items)),
        same_members(sorted_by(key, items), items),
{
    let keys = items.map_values(key);
    let order = stable_order(keys);
    let sorted = sorted_by(key, items);
    law_stable_order_exists(keys);
    let before = |x: T, y: T| precedes(key(x), key(y));
    assert(ascending(before, sorted)) by {
        assert forall|i: int, j: int| 0 <= i < j < sorted.len() implies before(
            #[trigger] sorted[i],
            #[trigger] sorted[j],
        ) by {
            assert(goes_first(keys, order[i], order[j]));
            assert(0 <= order[i] < items.len() && 0 <= order[j] < items.len());
            assert(sorted[i] == items[order[i]] && sorted[j] == items[order[j]]);
        }
    }
    assert forall|x: T| #[trigger] sorted.contains(x) <==> items.contains(x) by {
        if sorted.contains(x) {
            let i = choose|i: int| 0 <= i < sorted.len() && sorted[i] == x;
            assert(0 <= order[i] < items.len());
            assert(items[order[i]] == x);
        }
        if items.contains(x) {
            let k = choose|k: int| 0 <= k < items.len() && items[k] == x;
            assert(order.contains(k));
            let i = choose|i: int| 0 <= i < order.len() && order[i] == k;
            assert(sorted[i] == x);
        }
    }
}

proof fn lemma_sorting_ignores_order<T>(key: spec_fn(T) -> Seq<char>, a: Seq<T>, b: Seq<T>)
    requires
        keys_distinct(key, a),
        keys_distinct(key, b),
        same_members(a, b),
    ensures
        sorted_by(key, a) == sorted_by(key, b),
{
    let before = |x: T, y: T| precedes(key(x), key(y));
    lemma_sorted_by(key, a);
    lemma_sorted_by(key, b);
    assert forall|x: T| #[trigger]
        sorted_by(key, a).contains(x) <==> sorted_by(key, b).contains(x) by {
        assert(sorted_by(key, a).contains(x) <==> a.contains(x));
        assert(a.contains(x) <==> b.contains(x));
    }
    assert forall|x: T, y: T| #[trigger] before(x, y) implies !before(y, x) by {
        lemma_precedes_asymmetric(key(x), key(y));
    }
    lemma_ascending_unique(before, sorted_by(key, a), sorted_by(key, b));
}

spec fn logical_array_piece(array: LogicalArray) -> Result<Seq<u8>, Fault> {
    if array.path is None || array.role is None || array.units is None || array.processing_state
        is None {
        Err(Fault::Rejected("missing string"@))
    } else if array.length is None {
        Err(Fault::Rejected("missing positive integer"@))
    } else {
        Ok(
            field(array.path->0) + field(array.role->0) + field(array.units->0) + field(
                array.processing_state->0,
            ) + field(decimal(array.length->0 as nat)) + seq![0u8] + samples_bytes(array.samples),
        )
    }
}

spec fn logical_artifact_piece(artifact: LogicalArtifact) -> Result<Seq<u8>, Fault> {
    if artifact.role is None || artifact.sha256 is None {
        Err(Fault::Rejected("missing string"@))
    } else {
        Ok(field(artifact.role->0) + field(artifact.sha256->0))
    }
}

proof fn lemma_array_pieces(arrays: Seq<(JsonView, Seq<u32>)>)
    requires
        paths_distinct(descriptors(arrays)),
    ensures
        keys_distinct(|x: LogicalArray| key_path(x.path), logical_arrays(arrays)),
        array_pieces(arrays) == sorted_by(
            |x: LogicalArray| key_path(x.path),
            logical_arrays(arrays),
        ).map_values(|x: LogicalArray| logical_array_piece(x)),
{
    let key = |x: LogicalArray| key_path(x.path);
    let logical = logical_arrays(arrays);
    assert forall|k: int| 0 <= k < arrays.len() implies key(#[trigger] logical[k]) == path_key(
        descriptors(arrays)[k],
    ) by {}
    assert(logical.map_values(key) =~= path_keys(descriptors(arrays)));
    let order = stable_order(path_keys(descriptors(arrays)));
    law_stable_order_exists(path_keys(descriptors(arrays)));
    assert forall|i: int| 0 <= i < order.len() implies #[trigger] array_pieces(arrays)[i]
        == logical_array_piece(sorted_by(key, logical)[i]) by {
        assert(0 <= order[i] < arrays.len());
        assert(sorted_by(key, logical)[i] == logical[order[i]]);
    }
    assert(array_pieces(arrays) =~= sorted_by(key, logical).map_values(
        |x: LogicalArray| logical_array_piece(x),
    ));
    assert forall|i: int, j: int| 0 <= i < j < logical.len() implies key(#[trigger] logical[i])
        != key(#[trigger] logical[j]) by {
        assert(path_key(descriptors(arrays)[i]) != path_key(descriptors(arrays)[j]));
    }
}

proof fn lemma_artifact_pieces(artifacts: Seq<JsonView>)
    requires
        paths_distinct(artifacts),
    ensures
        keys_distinct(|x: LogicalArtifact| key_path(x.path), logical_artifacts(artifacts)),
        artifact_pieces(artifacts) == sorted_by(
            |x: LogicalArtifact| key_path(x.path),
            logical_artifacts(artifacts),
        ).map_values(|x: LogicalArtifact| logical_artifact_piece(x)),
{
    let key = |x: LogicalArtifact| key_path(x.path);
    let logical = logical_artifacts(artifacts);
    assert forall|k: int| 0 <= k < artifacts.len() implies key(#[trigger] logical[k]) == path_key(
        artifacts[k],
    ) by {}
    assert(logical.map_values(key) =~= path_keys(artifacts));
    let order = stable_order(path_keys(artifacts));
    law_stable_order_exists(path_keys(artifacts));
    assert forall|i: int| 0 <= i < order.len() implies #[trigger] artifact_pieces(artifacts)[i]
        == logical_artifact_piece(sorted_by(key, logical)[i]) by {
        assert(0 <= order[i] < artifacts.len());
        assert(sorted_by(key, logical)[i] == logical[order[i]]);
    }
    assert(artifact_pieces(artifacts) =~= sorted_by(key, logical).map_values(
        |x: LogicalArtifact| logical_artifact_piece(x),
    ));
    assert forall|i: int, j: int| 0 <= i < j < logical.len() implies key(#[trigger] logical[i])
        != key(#[trigger] logical[j]) by {
        assert(path_key(artifacts[i]) != path_key(artifacts[j]));
    }
}

/// Whether two manifests say the same of what the identity takes besides arrays and channels.
/// The order of the source artifacts does not matter.
pub open spec fn same_provenance(a: JsonView, b: JsonView) -> bool {
    let first = a.member("sourceArtifacts"@).items();
    let second = b.member("sourceArtifacts"@).items();
    &&& a.member("campaignID"@).text() == b.member("campaignID"@).text()
    &&& a.member("sourceDigest"@).text() == b.member("sourceDigest"@).text()
    &&& a.member("calibrationStatus"@).text() == b.member("calibrationStatus"@).text()
    &&& a.member("correctionOwner"@).text() == b.member("correctionOwner"@).text()
    &&& first is Some
    &&& second is Some
    &&& paths_distinct(first->0)
    &&& paths_distinct(second->0)
    &&& same_members(logical_artifacts(first->0), logical_artifacts(second->0))
}

/// The identity of a package does not depend on the order in which its manifest lists the
/// arrays and the source artifacts, nor on how the samples of an array are stored.
pub proof fn law_identity_ignores_order_and_storage(
    manifest: JsonView,
    other_manifest: JsonView,
    channels_text: Seq<u8>,
    arrays: Seq<(JsonView, Seq<u32>)>,
    other_arrays: Seq<(JsonView, Seq<u32>)>,
)
    requires
        same_provenance(manifest, other_manifest),
        paths_distinct(descriptors(arrays)),
        paths_distinct(descriptors(other_arrays)),
        same_members(logical_arrays(arrays), logical_arrays(other_arrays)),
    ensures
        logical_identity(manifest, channels_text, arrays) == logical_identity(
            other_manifest,
            channels_text,
            other_arrays,
        ),
{
    let first = manifest.member("sourceArtifacts"@).items()->0;
    let second = other_manifest.member("sourceArtifacts"@).items()->0;
    lemma_array_pieces(arrays);
    lemma_array_pieces(other_arrays);
    lemma_sorting_ignores_order(
        |x: LogicalArray| key_path(x.path),
        logical_arrays(arrays),
        logical_arrays(other_arrays),
    );
    lemma_artifact_pieces(first);
    lemma_artifact_pieces(second);
    lemma_sorting_ignores_order(
        |x: LogicalArtifact| key_path(x.path),
        logical_artifacts(first),
        logical_artifacts(second),
    );
}

proof fn lemma_pieces_of_a_whole(p: Seq<Result<Seq<u8>, Fault>>)
    requires
        concatenated(p) is Ok,
    ensures
        forall|i: int| 0 <= i < p.len() ==> (#[trigger] p[i]) is Ok,
    decreases p.len(),
{
    if p.len() > 0 {
        lemma_pieces_of_a_whole(p.drop_last());
        assert forall|i: int| 0 <= i < p.len() implies (#[trigger] p[i]) is Ok by {
            if i < p.len() - 1 {
                assert(p.drop_last()[i] == p[i]);
            }
        }
    }
}

proof fn lemma_equal_wholes_of_equal_lengths(
    p: Seq<Result<Seq<u8>, Fault>>,
    q: Seq<Result<Seq<u8>, Fault>>,
)
    requires
        p.len() == q.len(),
        concatenated(p) is Ok,
        concatenated(q) is Ok,
        forall|i: int|
            0 <= i < p.len() ==> (#[trigger] p[i])->Ok_0.len() == (#[trigger] q[i])->Ok_0.len(),
    ensures
        concatenated(p)->Ok_0.len() == concatenated(q)->Ok_0.len(),
        concatenated(p) == concatenated(q) ==> p == q,
    decreases p.len(),
{
    if p.len() > 0 {
        let shorter_p = p.drop_last();
        let shorter_q = q.drop_last();
        assert forall|i: int| 0 <= i < shorter_p.len() implies (#[trigger] shorter_p[i])->Ok_0.len()
            == (#[trigger] shorter_q[i])->Ok_0.len() by {
            assert(p[i]->Ok_0.len() == q[i]->Ok_0.len());
        }
        lemma_equal_wholes_of_equal_lengths(shorter_p, shorter_q);
        let head_p = concatenated(shorter_p)->Ok_0;
        let head_q = concatenated(shorter_q)->Ok_0;
        let last = p.len() - 1;
        assert(p[last]->Ok_0.len() == q[last]->Ok_0.len());
        if concatenated(p) == concatenated(q) {
            let whole = concatenated(p)->Ok_0;
            let n = head_p.len() as int;
            assert(head_p =~= whole.take(n));
            assert(head_q =~= whole.take(n));
            assert(p.last()->Ok_0 =~= whole.skip(n));
            assert(q.last()->Ok_0 =~= whole.skip(n));
            assert(p =~= shorter_p.push(p.last()));
            assert(q =~= shorter_q.push(q.last()));
        }
    } else {
        assert(p =~= q);
    }
}

/// The message tells samples apart: two packages with the same manifest, whose arrays have
/// the same lengths but differ in a sample, do not have the same message.
pub proof fn law_message_binds_every_sample(
    manifest: JsonView,
    channels_text: Seq<u8>,
    a: Seq<(JsonView, Seq<u32>)>,
    b: Seq<(JsonView, Seq<u32>)>,
)
    requires
        a.len() == b.len(),
        forall|i: int|
            0 <= i < a.len() ==> (#[trigger] a[i]).0 == (#[trigger] b[i]).0 && a[i].1.len()
                == b[i].1.len(),
        logical_message(manifest, channels_text, a) is Ok,
        logical_message(manifest, channels_text, a) == logical_message(manifest, channels_text, b),
    ensures
        a == b,
{
    assert(descriptors(a) =~= descriptors(b));
    let keys = path_keys(descriptors(a));
    let order = stable_order(keys);
    law_stable_order_exists(keys);
    let p = array_pieces(a);
    let q = array_pieces(b);
    lemma_pieces_of_a_whole(p);
    lemma_pieces_of_a_whole(q);
    assert forall|i: int| 0 <= i < p.len() implies (#[trigger] p[i])->Ok_0.len() == (
    #[trigger] q[i])->Ok_0.len() by {
        let k = order[i];
        assert(0 <= k < a.len());
        assert(p[i] == array_piece(a[k].0, a[k].1) && q[i] == array_piece(b[k].0, b[k].1));
        lemma_samples_bytes_length(a[k].1);
        lemma_samples_bytes_length(b[k].1);
    }
    lemma_equal_wholes_of_equal_lengths(p, q);
    let array_bytes = concatenated(p)->Ok_0;
    let other_bytes = concatenated(q)->Ok_0;
    let message = logical_message(manifest, channels_text, a)->Ok_0;
    let n = message.len() - array_bytes.len();
    assert(array_bytes =~= message.skip(n));
    assert(other_bytes =~= message.skip(n));
    assert forall|k: int| 0 <= k < a.len() implies #[trigger] a[k] == b[k] by {
        assert(order.contains(k));
        let i = choose|i: int| 0 <= i < order.len() && order[i] == k;
        assert(p[i] == array_piece(a[k].0, a[k].1) && q[i] == array_piece(b[k].0, b[k].1));
        lemma_samples_bytes_length(a[k].1);
        lemma_samples_bytes_length(b[k].1);
        let piece = p[i]->Ok_0;
        let m = piece.len() - samples_bytes(a[k].1).len();
        assert(samples_bytes(a[k].1) =~= piece.skip(m));
        assert(samples_bytes(b[k].1) =~= piece.skip(m));
        law_samples_bytes_is_injective(a[k].1, b[k].1);
    }
    assert(a =~= b);
}

/// Pieces that can be had stand one after the other in the whole, in their order: the whole of
/// two lists is that of the first and then that of the second, and the whole of one piece is the
/// piece.
pub proof fn law_pieces_stand_in_their_order(
    a: Seq<Result<Seq<u8>, Fault>>,
    b: Seq<Result<Seq<u8>, Fault>>,
    piece: Seq<u8>,
)
    ensures
        concatenated(a) is Ok && concatenated(b) is Ok ==> concatenated(a + b) == Ok::<
            Seq<u8>,
            Fault,
        >(concatenated(a)->Ok_0 + concatenated(b)->Ok_0),
        concatenated(a + b) is Ok ==> concatenated(a) is Ok && concatenated(b) is Ok,
        concatenated(seq![Ok::<Seq<u8>, Fault>(piece)]) == Ok::<Seq<u8>, Fault>(piece),
        concatenated(Seq::empty()) == Ok::<Seq<u8>, Fault>(Seq::empty()),
    decreases b.len(),
{
    let one = seq![Ok::<Seq<u8>, Fault>(piece)];
    assert(one.drop_last() =~= Seq::empty());
    assert(Seq::<u8>::empty() + piece =~= piece);
    assert(concatenated(one) == Ok::<Seq<u8>, Fault>(piece));
    if b.len() == 0 {
        assert(a + b =~= a);
        if concatenated(a) is Ok {
            assert(concatenated(a)->Ok_0 + Seq::<u8>::empty() =~= concatenated(a)->Ok_0);
        }
    } else {
        law_pieces_stand_in_their_order(a, b.drop_last(), piece);
        assert((a + b).drop_last() =~= a + b.drop_last());
        assert((a + b).last() == b.last());
        if concatenated(a) is Ok && concatenated(b) is Ok {
            let x = concatenated(a)->Ok_0;
            let y = concatenated(b.drop_last())->Ok_0;
            let z = b.last()->Ok_0;
            assert(x + y + z =~= x + (y + z));
        }
    }
}

/// The bytes of two pieces, and of what stands before, between and behind them.
proof fn lemma_two_pieces(pieces: Seq<Result<Seq<u8>, Fault>>, i: int, j: int) -> (around: (
    Seq<u8>,
    Seq<u8>,
    Seq<u8>,
))
    requires
        0 <= i < j < pieces.len(),
        concatenated(pieces) is Ok,
    ensures
        pieces[i] is Ok,
        pieces[j] is Ok,
        concatenated(pieces)->Ok_0 == around.0 + pieces[i]->Ok_0 + around.1 + pieces[j]->Ok_0
            + around.2,
{
    let head = pieces.take(i);
    let first = seq![pieces[i]];
    let middle = pieces.subrange(i + 1, j);
    let second = seq![pieces[j]];
    let tail = pieces.skip(j + 1);
    lemma_pieces_of_a_whole(pieces);
    assert(pieces =~= head + (first + (middle + (second + tail))));
    law_pieces_stand_in_their_order(second, tail, pieces[j]->Ok_0);
    law_pieces_stand_in_their_order(middle, second + tail, Seq::empty());
    law_pieces_stand_in_their_order(first, middle + (second + tail), pieces[i]->Ok_0);
    law_pieces_stand_in_their_order(head, first + (middle + (second + tail)), Seq::empty());
    assert(first =~= seq![Ok::<Seq<u8>, Fault>(pieces[i]->Ok_0)]);
    assert(second =~= seq![Ok::<Seq<u8>, Fault>(pieces[j]->Ok_0)]);
    let around = (
        concatenated(head)->Ok_0,
        concatenated(middle)->Ok_0,
        concatenated(tail)->Ok_0,
    );
    assert(concatenated(pieces)->Ok_0 =~= around.0 + pieces[i]->Ok_0 + around.1 + pieces[j]->Ok_0
        + around.2);
    around
}

/// What stands at `a` goes before what stands at `b` in the order by keys.
proof fn lemma_places(keys: Seq<Seq<char>>, a: int, b: int) -> (places: (int, int))
    requires
        0 <= a < keys.len(),
        0 <= b < keys.len(),
        goes_first(keys, a, b),
    ensures
        0 <= places.0 < places.1 < stable_order(keys).len(),
        stable_order(keys)[places.0] == a,
        stable_order(keys)[places.1] == b,
{
    let order = stable_order(keys);
    law_stable_order_exists(keys);
    assert(order.contains(a) && order.contains(b));
    let i = choose|i: int| 0 <= i < order.len() && order[i] == a;
    let j = choose|j: int| 0 <= j < order.len() && order[j] == b;
    lemma_precedes_asymmetric(keys[a], keys[b]);
    lemma_precedes_asymmetric(keys[b], keys[a]);
    lemma_precedes_asymmetric(keys[a], keys[a]);
    if j < i {
        assert(goes_first(keys, order[j], order[i]));
        assert(false);
    }
    (i, j)
}

/// In the message the arrays stand by their whole paths: of two arrays, the piece of the one whose
/// path precedes that of the other stands first. A piece holds the path, the role, the units, the processing state
/// and the declared length, each behind a zero byte, and behind one more the samples.
pub proof fn law_arrays_stand_by_their_whole_paths(
    manifest: JsonView,
    channels_text: Seq<u8>,
    arrays: Seq<(JsonView, Seq<u32>)>,
    a: int,
    b: int,
) -> (around: (Seq<u8>, Seq<u8>, Seq<u8>))
    requires
        logical_message(manifest, channels_text, arrays) is Ok,
        0 <= a < arrays.len(),
        0 <= b < arrays.len(),
        precedes(
            arrays[a].0.member("path"@)->Text_0,
            arrays[b].0.member("path"@)->Text_0,
        ),
    ensures
        ({
            let first = arrays[a].0;
            let second = arrays[b].0;
            let zero = seq![0u8];
            &&& first.member("path"@) is Text
            &&& second.member("path"@) is Text
            &&& logical_message(manifest, channels_text, arrays)->Ok_0 == around.0 + (zero
                + encode_utf8(first.member("path"@)->Text_0) + zero + encode_utf8(
                first.member("role"@)->Text_0,
            ) + zero + encode_utf8(first.member("units"@)->Text_0) + zero + encode_utf8(
                first.member("processingState"@)->Text_0,
            ) + zero + encode_utf8(decimal(first.member("shape"@).item(0).integer()->0 as nat))
                + zero + samples_bytes(arrays[a].1)) + around.1 + (zero + encode_utf8(
                second.member("path"@)->Text_0,
            ) + zero + encode_utf8(second.member("role"@)->Text_0) + zero + encode_utf8(
                second.member("units"@)->Text_0,
            ) + zero + encode_utf8(second.member("processingState"@)->Text_0) + zero + encode_utf8(
                decimal(second.member("shape"@).item(0).integer()->0 as nat),
            ) + zero + samples_bytes(arrays[b].1)) + around.2
        }),
{
    let keys = path_keys(descriptors(arrays));
    let pieces = array_pieces(arrays);
    let order = stable_order(keys);
    law_stable_order_exists(keys);
    lemma_pieces_of_a_whole(pieces);
    assert(order.contains(a) && order.contains(b));
    let p = choose|p: int| 0 <= p < order.len() && order[p] == a;
    let q = choose|q: int| 0 <= q < order.len() && order[q] == b;
    assert(pieces[p] == array_piece(arrays[a].0, arrays[a].1));
    assert(pieces[q] == array_piece(arrays[b].0, arrays[b].1));
    assert(keys[a] == arrays[a].0.member("path"@)->Text_0);
    assert(keys[b] == arrays[b].0.member("path"@)->Text_0);
    let places = lemma_places(keys, a, b);
    assert(pieces[places.0] == array_piece(arrays[a].0, arrays[a].1));
    assert(pieces[places.1] == array_piece(arrays[b].0, arrays[b].1));
    let inner = lemma_two_pieces(pieces, places.0, places.1);
    let message = logical_message(manifest, channels_text, arrays)->Ok_0;
    let whole = concatenated(pieces)->Ok_0;
    let head = message.take(message.len() - whole.len());
    assert(message =~= head + whole);
    let around = (head + inner.0, inner.1, inner.2);
    lemma_array_piece_bytes(arrays[a].0, arrays[a].1);
    lemma_array_piece_bytes(arrays[b].0, arrays[b].1);
    let x = pieces[places.0]->Ok_0;
    let y = pieces[places.1]->Ok_0;
    assert(message =~= around.0 + x + around.1 + y + around.2);
    around
}

proof fn lemma_array_piece_bytes(descriptor: JsonView, samples: Seq<u32>)
    requires
        array_piece(descriptor, samples) is Ok,
    ensures
        ({
            let zero = seq![0u8];
            array_piece(descriptor, samples)->Ok_0 == zero + encode_utf8(
                descriptor.member("path"@)->Text_0,
            ) + zero + encode_utf8(descriptor.member("role"@)->Text_0) + zero + encode_utf8(
                descriptor.member("units"@)->Text_0,
            ) + zero + encode_utf8(descriptor.member("processingState"@)->Text_0) + zero
                + encode_utf8(decimal(descriptor.member("shape"@).item(0).integer()->0 as nat))
                + zero + samples_bytes(samples)
        }),
{
    let zero = seq![0u8];
    let meant = zero + encode_utf8(descriptor.member("path"@)->Text_0) + zero + encode_utf8(
        descriptor.member("role"@)->Text_0,
    ) + zero + encode_utf8(descriptor.member("units"@)->Text_0) + zero + encode_utf8(
        descriptor.member("processingState"@)->Text_0,
    ) + zero + encode_utf8(decimal(descriptor.member("shape"@).item(0).integer()->0 as nat)) + zero
        + samples_bytes(samples);
    assert(array_piece(descriptor, samples)->Ok_0 =~= meant);
}

/// Among the source artifacts, too, the piece of the one whose path precedes that of the other
/// stands first, and of two with the same path the one that is listed first. One without a path
/// stands before those with one. A piece holds the role and the digest, each behind a zero byte.
pub proof fn law_artifacts_stand_by_their_whole_paths(
    artifacts: Seq<JsonView>,
    a: int,
    b: int,
) -> (around: (Seq<u8>, Seq<u8>, Seq<u8>))
    requires
        concatenated(artifact_pieces(artifacts)) is Ok,
        0 <= a < artifacts.len(),
        0 <= b < artifacts.len(),
        artifacts[b].member("path"@) is Text,
        ({
            let second = artifacts[b].member("path"@)->Text_0;
            ||| artifacts[a].member("path"@) is Text && precedes(
                artifacts[a].member("path"@)->Text_0,
                second,
            )
            ||| artifacts[a].member("path"@) is Text && artifacts[a].member("path"@)->Text_0
                == second && a < b
            ||| artifacts[a].member("path"@) !is Text && second.len() > 0
        }),
    ensures
        ({
            let first = artifacts[a];
            let second = artifacts[b];
            let zero = seq![0u8];
            concatenated(artifact_pieces(artifacts))->Ok_0 == around.0 + (zero + encode_utf8(
                first.member("role"@)->Text_0,
            ) + zero + encode_utf8(first.member("sha256"@)->Text_0)) + around.1 + (zero
                + encode_utf8(second.member("role"@)->Text_0) + zero + encode_utf8(
                second.member("sha256"@)->Text_0,
            )) + around.2
        }),
{
    let keys = path_keys(artifacts);
    let pieces = artifact_pieces(artifacts);
    law_stable_order_exists(keys);
    lemma_pieces_of_a_whole(pieces);
    let places = lemma_places(keys, a, b);
    assert(pieces[places.0] == artifact_piece(artifacts[a]));
    assert(pieces[places.1] == artifact_piece(artifacts[b]));
    let inner = lemma_two_pieces(pieces, places.0, places.1);
    lemma_artifact_piece_bytes(artifacts[a]);
    lemma_artifact_piece_bytes(artifacts[b]);
    inner
}

proof fn lemma_artifact_piece_bytes(artifact: JsonView)
    requires
        artifact_piece(artifact) is Ok,
    ensures
        ({
            let zero = seq![0u8];
            artifact_piece(artifact)->Ok_0 == zero + encode_utf8(artifact.member("role"@)->Text_0)
                + zero + encode_utf8(artifact.member("sha256"@)->Text_0)
        }),
{
    let zero = seq![0u8];
    let meant = zero + encode_utf8(artifact.member("role"@)->Text_0) + zero + encode_utf8(
        artifact.member("sha256"@)->Text_0,
    );
    assert(artifact_piece(artifact)->Ok_0 =~= meant);
}

/// There is a piece for each source artifact and for each array. The message opens with the name
/// of the scheme, the campaign, the source digest, the calibration status, the owner of the
/// correction and the channels; then come the pieces of the artifacts, and then those of the
/// arrays.
pub proof fn law_message_opens_with_the_manifest(
    manifest: JsonView,
    channels_text: Seq<u8>,
    arrays: Seq<(JsonView, Seq<u32>)>,
)
    requires
        logical_message(manifest, channels_text, arrays) is Ok,
    ensures
        manifest.member("campaignID"@) is Text,
        manifest.member("sourceDigest"@) is Text,
        manifest.member("calibrationStatus"@) is Text,
        manifest.member("correctionOwner"@) is Text,
        manifest.member("sourceArtifacts"@) is Array,
        artifact_pieces(manifest.member("sourceArtifacts"@)->Array_0).len() == manifest.member(
            "sourceArtifacts"@,
        )->Array_0.len(),
        array_pieces(arrays).len() == arrays.len(),
        logical_message(manifest, channels_text, arrays)->Ok_0 == encode_utf8(
            "orcmeasurement-logical-v1\0"@,
        ) + encode_utf8(manifest.member("campaignID"@)->Text_0) + encode_utf8(
            manifest.member("sourceDigest"@)->Text_0,
        ) + encode_utf8(manifest.member("calibrationStatus"@)->Text_0) + encode_utf8(
            manifest.member("correctionOwner"@)->Text_0,
        ) + channels_text + concatenated(
            artifact_pieces(manifest.member("sourceArtifacts"@)->Array_0),
        )->Ok_0 + concatenated(array_pieces(arrays))->Ok_0,
{
    law_stable_order_exists(path_keys(manifest.member("sourceArtifacts"@)->Array_0));
    law_stable_order_exists(path_keys(descriptors(arrays)));
}

/// There is a message for every manifest that says all of this, whose artifacts have a role and a
/// digest, and whose arrays have a path, a role, units, a processing state and a length.
pub proof fn law_complete_manifest_has_a_message(
    manifest: JsonView,
    channels_text: Seq<u8>,
    arrays: Seq<(JsonView, Seq<u32>)>,
)
    requires
        manifest.member("campaignID"@) is Text,
        manifest.member("sourceDigest"@) is Text,
        manifest.member("calibrationStatus"@) is Text,
        manifest.member("correctionOwner"@) is Text,
        manifest.member("sourceArtifacts"@) is Array,
        forall|i: int|
            #![trigger manifest.member("sourceArtifacts"@)->Array_0[i]]
            0 <= i < manifest.member("sourceArtifacts"@)->Array_0.len() ==> {
                &&& manifest.member("sourceArtifacts"@)->Array_0[i].member("role"@) is Text
                &&& manifest.member("sourceArtifacts"@)->Array_0[i].member("sha256"@) is Text
            },
        forall|i: int|
            0 <= i < arrays.len() ==> {
                &&& (#[trigger] arrays[i]).0.member("path"@) is Text
                &&& arrays[i].0.member("role"@) is Text
                &&& arrays[i].0.member("units"@) is Text
                &&& arrays[i].0.member("processingState"@) is Text
                &&& arrays[i].0.member("shape"@).item(0).integer() is Some
            },
    ensures
        logical_message(manifest, channels_text, arrays) is Ok,
{
    let artifacts = manifest.member("sourceArtifacts"@)->Array_0;
    law_stable_order_exists(path_keys(artifacts));
    law_stable_order_exists(path_keys(descriptors(arrays)));
    let order = stable_order(path_keys(artifacts));
    assert forall|i: int| 0 <= i < artifact_pieces(artifacts).len() implies (
    #[trigger] artifact_pieces(artifacts)[i]) is Ok by {
        assert(0 <= order[i] < artifacts.len());
        assert(manifest.member("sourceArtifacts"@)->Array_0[order[i]].member("role"@) is Text);
    }
    lemma_whole_of_pieces(artifact_pieces(artifacts));
    let order = stable_order(path_keys(descriptors(arrays)));
    assert forall|i: int| 0 <= i < array_pieces(arrays).len() implies (
    #[trigger] array_pieces(arrays)[i]) is Ok by {
        assert(0 <= order[i] < arrays.len());
        assert(arrays[order[i]].0.member("path"@) is Text);
    }
    lemma_whole_of_pieces(array_pieces(arrays));
}

proof fn lemma_whole_of_pieces(p: Seq<Result<Seq<u8>, Fault>>)
    requires
        forall|i: int| 0 <= i < p.len() ==> (#[trigger] p[i]) is Ok,
    ensures
        concatenated(p) is Ok,
    decreases p.len(),
{
    if p.len() > 0 {
        assert forall|i: int| 0 <= i < p.drop_last().len() implies (
        #[trigger] p.drop_last()[i]) is Ok by {
            assert(p.drop_last()[i] == p[i]);
        }
        lemma_whole_of_pieces(p.drop_last());
        assert(p[p.len() - 1] is Ok);
    }
}

/// The identity of a package is the SHA-256 identity of its message; where there is no message
/// there is no identity, for the same reason.
pub proof fn law_identity_is_the_digest_of_the_message(
    manifest: JsonView,
    channels_text: Seq<u8>,
    arrays: Seq<(JsonView, Seq<u32>)>,
    message: Seq<u8>,
    fault: Fault,
)
    ensures
        logical_message(manifest, channels_text, arrays) == Ok::<Seq<u8>, Fault>(message)
            ==> logical_identity(manifest, channels_text, arrays) == Ok::<Seq<char>, Fault>(
            sha256_text(message),
        ),
        logical_message(manifest, channels_text, arrays) == Err::<Seq<u8>, Fault>(fault) <==>
            logical_identity(manifest, channels_text, arrays) == Err::<Seq<char>, Fault>(fault),
{
}

/// Without one of the four texts there is no message, nor without source artifacts, nor where one
/// of these lacks its role or digest.
pub proof fn law_incomplete_manifest_has_no_message(
    manifest: JsonView,
    channels_text: Seq<u8>,
    arrays: Seq<(JsonView, Seq<u32>)>,
)
    ensures
        ({
            let complete = manifest.member("campaignID"@) is Text && manifest.member(
                "sourceDigest"@,
            ) is Text && manifest.member("calibrationStatus"@) is Text && manifest.member(
                "correctionOwner"@,
            ) is Text;
            let artifacts = manifest.member("sourceArtifacts"@);
            &&& !complete ==> logical_message(manifest, channels_text, arrays) == Err::<
                Seq<u8>,
                Fault,
            >(Fault::Rejected("missing string"@))
            &&& complete && artifacts !is Array ==> logical_message(manifest, channels_text, arrays)
                == Err::<Seq<u8>, Fault>(Fault::Rejected("missing source artifacts"@))
            &&& complete && artifacts is Array && (exists|i: int|
                0 <= i < artifacts->Array_0.len() && ((#[trigger] artifacts->Array_0[i]).member(
                    "role"@,
                ) !is Text || artifacts->Array_0[i].member("sha256"@) !is Text)) ==> logical_message(
                manifest,
                channels_text,
                arrays,
            ) == Err::<Seq<u8>, Fault>(Fault::Rejected("missing string"@))
        }),
{
    let artifacts = manifest.member("sourceArtifacts"@)->Array_0;
    if manifest.member("sourceArtifacts"@) is Array && exists|i: int|
        0 <= i < artifacts.len() && ((#[trigger] artifacts[i]).member("role"@) !is Text
            || artifacts[i].member("sha256"@) !is Text) {
        let i = choose|i: int|
            0 <= i < artifacts.len() && ((#[trigger] artifacts[i]).member("role"@) !is Text
                || artifacts[i].member("sha256"@) !is Text);
        let order = stable_order(path_keys(artifacts));
        law_stable_order_exists(path_keys(artifacts));
        assert(order.contains(i));
        let p = choose|p: int| 0 <= p < order.len() && order[p] == i;
        let pieces = artifact_pieces(artifacts);
        assert(pieces[p] is Err);
        assert forall|j: int| 0 <= j < pieces.len() && (#[trigger] pieces[j]) is Err implies
            pieces[j]->Err_0 == Fault::Rejected("missing string"@) by {
            assert(pieces[j] == artifact_piece(artifacts[order[j]]));
        }
        lemma_one_kind_of_fault(pieces, p, Fault::Rejected("missing string"@));
    }
}

proof fn lemma_one_kind_of_fault(pieces: Seq<Result<Seq<u8>, Fault>>, p: int, fault: Fault)
    requires
        0 <= p < pieces.len(),
        pieces[p] is Err,
        forall|j: int|
            0 <= j < pieces.len() && (#[trigger] pieces[j]) is Err ==> pieces[j]->Err_0 == fault,
    ensures
        concatenated(pieces) == Err::<Seq<u8>, Fault>(fault),
    decreases pieces.len(),
{
    let rest = pieces.drop_last();
    assert forall|j: int| 0 <= j < rest.len() && (#[trigger] rest[j]) is Err implies rest[j]->Err_0
        == fault by {
        assert(pieces[j] == rest[j]);
    }
    if p < rest.len() {
        assert(rest[p] == pieces[p]);
        lemma_one_kind_of_fault(rest, p, fault);
    } else {
        assert(pieces.last() == pieces[p]);
        if concatenated(rest) is Err {
            if forall|j: int| 0 <= j < rest.len() ==> (#[trigger] rest[j]) is Ok {
                lemma_whole_of_pieces(rest);
            } else {
                let j = choose|j: int| 0 <= j < rest.len() && (#[trigger] rest[j]) is Err;
                lemma_one_kind_of_fault(rest, j, fault);
            }
        }
    }
}

/// An array without a path, a role, units or a processing state has no piece, nor has one without
/// a length.
pub proof fn law_incomplete_array_has_no_piece(descriptor: JsonView, samples: Seq<u32>)
    ensures
        ({
            let complete = descriptor.member("path"@) is Text && descriptor.member("role"@) is Text
                && descriptor.member("units"@) is Text && descriptor.member("processingState"@)
                is Text;
            let length = descriptor.member("shape"@).item(0).integer();
            &&& !complete ==> array_piece(descriptor, samples) == Err::<Seq<u8>, Fault>(
                Fault::Rejected("missing string"@),
            )
            &&& complete && length is None ==> array_piece(descriptor, samples) == Err::<
                Seq<u8>,
                Fault,
            >(Fault::Rejected("missing positive integer"@))
            &&& complete && length is Some ==> array_piece(descriptor, samples) is Ok
        }),
{
}

/// Of pieces that cannot be had, the first one decides.
pub proof fn law_first_missing_piece_counts(pieces: Seq<Result<Seq<u8>, Fault>>, k: int)
    requires
        0 <= k < pieces.len(),
        pieces[k] is Err,
        forall|j: int| 0 <= j < k ==> (#[trigger] pieces[j]) is Ok,
    ensures
        concatenated(pieces) == Err::<Seq<u8>, Fault>(pieces[k]->Err_0),
{
    let first = pieces.take(k + 1);
    let before = pieces.take(k);
    assert(first.drop_last() =~= before);
    assert forall|j: int| 0 <= j < before.len() implies (#[trigger] before[j]) is Ok by {
        assert(pieces[j] == before[j]);
    }
    lemma_whole_of_pieces(before);
    assert(first.last() == pieces[k]);
    lemma_fault_stays(pieces, k + 1);
}

} // verus!
