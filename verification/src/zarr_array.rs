//! The rules for one Zarr array of a package: its metadata against the manifest, and the
//! samples that are read from it.

use crate::error::{ensure, Fault, ReadError, ReadResult};
use crate::ieee::{is_single_finite, narrow, narrowed, single_finite};
use crate::json::{models, Json, JsonNumber, JsonView};
use crate::measurement_array::{agrees, number};
use vstd::prelude::*;

verus! {

/// The largest number of samples that is read, from an array and from a package.
pub const READ_LIMIT: usize = 32_000_000;

/// Why the storage layout is not supported, if it is not.
pub open spec fn layout_fault(meta: JsonView) -> Option<Seq<char>> {
    let encoding = meta.member("chunk_key_encoding"@);
    if !(meta.member("zarr_format"@).integer() == Some(3u64) && meta.member("node_type"@).is_text(
        "array"@,
    ) && meta.member("data_type"@).is_text("float32"@)) {
        Some("unsupported Zarr array"@)
    } else if !(meta.member("chunk_grid"@).member("name"@).is_text("regular"@) && encoding.member(
        "name"@,
    ).is_text("default"@) && encoding.member("configuration"@).member("separator"@).is_text("/"@)) {
        Some("unsupported Zarr layout"@)
    } else if meta.member("storage_transformers"@).items() != Some(Seq::<JsonView>::empty()) {
        Some("storage transformers unsupported"@)
    } else {
        None
    }
}

/// The number of samples of an array whose metadata and descriptor agree on a shape of rank
/// one.
pub open spec fn declared_count(descriptor: JsonView, meta: JsonView) -> Result<usize, Fault> {
    let shape = meta.member("shape"@);
    let declared = descriptor.member("shape"@);
    if shape.items() is None {
        Err(Fault::Rejected("missing shape"@))
    } else if declared.items() is None {
        Err(Fault::Rejected("missing declared shape"@))
    } else if !(shape.items()->0.len() == 1 && shape.same(declared)) {
        Err(Fault::Rejected("only matching rank-one arrays supported"@))
    } else if shape.item(0).integer() is None {
        Err(Fault::Rejected("missing positive integer"@))
    } else if shape.item(0).integer()->0 > usize::MAX {
        Err(Fault::Rejected("array too large"@))
    } else if shape.item(0).integer()->0 > READ_LIMIT {
        Err(Fault::Rejected("array exceeds local read limit"@))
    } else {
        Ok(shape.item(0).integer()->0 as usize)
    }
}

/// Why the chunk length is refused, if it is.
pub open spec fn chunk_fault(descriptor: JsonView, meta: JsonView) -> Option<Seq<char>> {
    let chunk = meta.member("chunk_grid"@).member("configuration"@).member("chunk_shape"@);
    let declared = descriptor.member("chunkLength"@);
    if chunk.items() is None {
        Some("missing chunk shape"@)
    } else if chunk.items()->0.len() != 1 {
        Some("chunk length mismatch"@)
    } else if chunk.item(0).integer() is None {
        Some("missing positive integer"@)
    } else if chunk.item(0).integer()->0 == 0 {
        Some("chunk length mismatch"@)
    } else if declared.integer() is None {
        Some("missing positive integer"@)
    } else if chunk.item(0).integer() != declared.integer() {
        Some("chunk length mismatch"@)
    } else {
        None
    }
}

/// Why the codecs are refused, if they are: little-endian bytes, then perhaps gzip, and the
/// descriptor must name the same compression.
pub open spec fn codec_fault(descriptor: JsonView, meta: JsonView) -> Option<Seq<char>> {
    let codecs = meta.member("codecs"@);
    let gzip = codecs.items()->0.len() == 2;
    let level = codecs.item(1).member("configuration"@).member("level"@);
    let compression = descriptor.member("compression"@);
    if codecs.items() is None {
        Some("missing codecs"@)
    } else if !((codecs.items()->0.len() == 1 || gzip) && codecs.item(0).member("name"@).is_text(
        "bytes"@,
    ) && codecs.item(0).member("configuration"@).member("endian"@).is_text("little"@)) {
        Some("unsupported codec pipeline"@)
    } else if gzip && !codecs.item(1).member("name"@).is_text("gzip"@) {
        Some("unsupported compression"@)
    } else if gzip && level.integer() is None {
        Some("missing positive integer"@)
    } else if gzip && level.integer()->0 > 9 {
        Some("unsupported compression"@)
    } else if !gzip && !compression.is_text("none"@) {
        Some("compression mismatch"@)
    } else if gzip && !compression.member("gzip"@).member("level"@).same(level) {
        Some("compression mismatch"@)
    } else {
        None
    }
}

/// Why the fill values are refused, if they are: both must be the same finite single.
pub open spec fn fill_fault(descriptor: JsonView, meta: JsonView) -> Option<Seq<char>> {
    let fill = meta.member("fill_value"@).double();
    let declared = descriptor.member("fillValue"@).double();
    if fill is None {
        Some("invalid fill value"@)
    } else if !(single_finite(narrowed(fill->0) as u32) && declared is Some && narrowed(declared->0)
        == narrowed(fill->0)) {
        Some("fill mismatch"@)
    } else {
        None
    }
}

/// The name of the axis that an array with this role has.
pub open spec fn axis(descriptor: JsonView) -> Seq<char> {
    if descriptor.member("role"@).is_text("impulse_response"@) {
        "sample"@
    } else {
        "frequency"@
    }
}

/// Why the labels are refused, if they are: the attributes must repeat the descriptor, and the
/// axis must be the one of the role.
pub open spec fn label_fault(descriptor: JsonView, meta: JsonView) -> Option<Seq<char>> {
    let attributes = meta.member("attributes"@);
    if !(attributes.member("role"@).same(descriptor.member("role"@)) && attributes.member(
        "units"@,
    ).same(descriptor.member("units"@)) && attributes.member("processing_state"@).same(
        descriptor.member("processingState"@),
    ) && attributes.member("logical_path"@).same(descriptor.member("path"@))) {
        Some("array metadata mismatch"@)
    } else if !(meta.member("dimension_names"@).items() is Some && meta.member(
        "dimension_names"@,
    ).items()->0.len() == 1 && meta.member("dimension_names"@).item(0).is_text(axis(descriptor))) {
        Some("dimension metadata mismatch"@)
    } else {
        None
    }
}

/// The number of samples of an array, or why its metadata do not qualify.
pub open spec fn array_count(descriptor: JsonView, meta: JsonView) -> Result<usize, Fault> {
    if layout_fault(meta) is Some {
        Err(Fault::Rejected(layout_fault(meta)->0))
    } else if declared_count(descriptor, meta) is Err {
        declared_count(descriptor, meta)
    } else if chunk_fault(descriptor, meta) is Some {
        Err(Fault::Rejected(chunk_fault(descriptor, meta)->0))
    } else if codec_fault(descriptor, meta) is Some {
        Err(Fault::Rejected(codec_fault(descriptor, meta)->0))
    } else if fill_fault(descriptor, meta) is Some {
        Err(Fault::Rejected(fill_fault(descriptor, meta)->0))
    } else if label_fault(descriptor, meta) is Some {
        Err(Fault::Rejected(label_fault(descriptor, meta)->0))
    } else {
        declared_count(descriptor, meta)
    }
}

/// Whether samples are as many as was declared, and all finite.
pub open spec fn samples_qualify(samples: Seq<u32>, count: usize) -> bool {
    samples.len() == count && forall|i: int|
        0 <= i < samples.len() ==> single_finite(#[trigger] samples[i])
}

/// Whether a check passed, or failed with the message that is meant.
pub open spec fn reports(r: ReadResult<()>, fault: Option<Seq<char>>) -> bool {
    match r {
        Ok(_) => fault is None,
        Err(e) => fault is Some && e@ == Fault::Rejected(fault->0),
    }
}

fn check_layout(meta: &Json) -> (r: ReadResult<()>)
    ensures
        reports(r, layout_fault(meta@)),
{
    ensure(
        meta.member("zarr_format").is_integer(3) && meta.member("node_type").is_text("array")
            && meta.member("data_type").is_text("float32"),
        "unsupported Zarr array",
    )?;
    let encoding = meta.member("chunk_key_encoding");
    ensure(
        meta.member("chunk_grid").member("name").is_text("regular") && encoding.member(
            "name",
        ).is_text("default") && encoding.member("configuration").member("separator").is_text("/"),
        "unsupported Zarr layout",
    )?;
    let plain = match meta.member("storage_transformers").as_items() {
        Some(items) => {
            assert(models(items@).len() == items@.len());
            assert(items@.len() == 0 ==> models(items@) =~= Seq::<JsonView>::empty());
            items.len() == 0
        },
        None => false,
    };
    ensure(plain, "storage transformers unsupported")
}

fn check_shape(descriptor: &Json, meta: &Json) -> (r: ReadResult<usize>)
    ensures
        agrees(r, declared_count(descriptor@, meta@)),
{
    let shape = meta.member("shape");
    let rank = match shape.as_items() {
        Some(items) => items.len(),
        None => return Err(ReadError::Rejected("missing shape")),
    };
    let declared = descriptor.member("shape");
    if declared.as_items().is_none() {
        return Err(ReadError::Rejected("missing declared shape"));
    }
    ensure(rank == 1 && shape.same(declared), "only matching rank-one arrays supported")?;
    let count = number(shape.item(0))?;
    ensure(count <= usize::MAX as u64, "array too large")?;
    let count: usize = count as usize;
    ensure(count <= READ_LIMIT, "array exceeds local read limit")?;
    Ok(count)
}

fn check_chunks(descriptor: &Json, meta: &Json) -> (r: ReadResult<()>)
    ensures
        reports(r, chunk_fault(descriptor@, meta@)),
{
    let chunk = meta.member("chunk_grid").member("configuration").member("chunk_shape");
    let rank = match chunk.as_items() {
        Some(items) => items.len(),
        None => return Err(ReadError::Rejected("missing chunk shape")),
    };
    ensure(rank == 1, "chunk length mismatch")?;
    let length = number(chunk.item(0))?;
    ensure(length > 0, "chunk length mismatch")?;
    let declared = number(descriptor.member("chunkLength"))?;
    ensure(length == declared, "chunk length mismatch")
}

fn check_codecs(descriptor: &Json, meta: &Json) -> (r: ReadResult<()>)
    ensures
        reports(r, codec_fault(descriptor@, meta@)),
{
    let codecs = meta.member("codecs");
    let stages = match codecs.as_items() {
        Some(items) => items.len(),
        None => return Err(ReadError::Rejected("missing codecs")),
    };
    let gzip = stages == 2;
    ensure(
        (stages == 1 || gzip) && codecs.item(0).member("name").is_text("bytes") && codecs.item(
            0,
        ).member("configuration").member("endian").is_text("little"),
        "unsupported codec pipeline",
    )?;
    let compression = descriptor.member("compression");
    if gzip {
        ensure(codecs.item(1).member("name").is_text("gzip"), "unsupported compression")?;
        let level = codecs.item(1).member("configuration").member("level");
        let strength = number(level)?;
        ensure(strength <= 9, "unsupported compression")?;
        ensure(
            compression.member("gzip").member("level").same(level),
            "compression mismatch",
        )
    } else {
        ensure(compression.is_text("none"), "compression mismatch")
    }
}

fn check_fill(descriptor: &Json, meta: &Json) -> (r: ReadResult<()>)
    ensures
        reports(r, fill_fault(descriptor@, meta@)),
{
    let fill = match meta.member("fill_value").as_double() {
        Some(value) => narrow(value),
        None => return Err(ReadError::Rejected("invalid fill value")),
    };
    let declared = match descriptor.member("fillValue").as_double() {
        Some(value) => narrow(value) == fill,
        None => false,
    };
    ensure(is_single_finite(fill) && declared, "fill mismatch")
}

fn check_labels(descriptor: &Json, meta: &Json) -> (r: ReadResult<()>)
    ensures
        reports(r, label_fault(descriptor@, meta@)),
{
    let attributes = meta.member("attributes");
    ensure(
        attributes.member("role").same(descriptor.member("role")) && attributes.member(
            "units",
        ).same(descriptor.member("units")) && attributes.member("processing_state").same(
            descriptor.member("processingState"),
        ) && attributes.member("logical_path").same(descriptor.member("path")),
        "array metadata mismatch",
    )?;
    let axis_name = if descriptor.member("role").is_text("impulse_response") {
        "sample"
    } else {
        "frequency"
    };
    let dimensions = meta.member("dimension_names");
    let rank_one = match dimensions.as_items() {
        Some(items) => items.len() == 1,
        None => false,
    };
    ensure(rank_one && dimensions.item(0).is_text(axis_name), "dimension metadata mismatch")
}

/// Checks the metadata of an array against its descriptor in the manifest, and returns the
/// number of samples that both declare.
pub fn check_array(descriptor: &Json, meta: &Json) -> (r: ReadResult<usize>)
    ensures
        agrees(r, array_count(descriptor@, meta@)),
        r matches Ok(count) ==> count <= READ_LIMIT,
{
    check_layout(meta)?;
    let count = check_shape(descriptor, meta)?;
    check_chunks(descriptor, meta)?;
    check_codecs(descriptor, meta)?;
    check_fill(descriptor, meta)?;
    check_labels(descriptor, meta)?;
    Ok(count)
}

/// Checks the samples that were read from an array.
pub fn check_samples(samples: &[u32], count: usize) -> (r: ReadResult<()>)
    ensures
        r is Ok <==> samples_qualify(samples@, count),
        r matches Err(e) ==> e@ == Fault::Rejected("invalid decoded samples"@),
{
    if samples.len() != count {
        return Err(ReadError::Rejected("invalid decoded samples"));
    }
    let mut i: usize = 0;
    while i < samples.len()
        invariant
            samples@.len() == count,
            i <= samples@.len(),
            forall|j: int| 0 <= j < i ==> single_finite(#[trigger] samples@[j]),
        decreases samples@.len() - i,
    {
        if !is_single_finite(samples[i]) {
            return Err(ReadError::Rejected("invalid decoded samples"));
        }
        i = i + 1;
    }
    Ok(())
}

/// Only arrays that are supported are read: of rank one, of singles, in regular chunks of
/// little-endian bytes, compressed by gzip or not at all, and within the limit.
pub proof fn law_only_supported_arrays_are_read(descriptor: JsonView, meta: JsonView)
    requires
        array_count(descriptor, meta) is Ok,
    ensures
        ({
            let count = array_count(descriptor, meta)->Ok_0;
            let codecs = meta.member("codecs"@);
            &&& meta.member("data_type"@).is_text("float32"@)
            &&& meta.member("chunk_grid"@).member("name"@).is_text("regular"@)
            &&& meta.member("storage_transformers"@).items() == Some(Seq::<JsonView>::empty())
            &&& meta.member("shape"@).items()->0.len() == 1
            &&& meta.member("shape"@).item(0).integer() == Some(count as u64)
            &&& count <= READ_LIMIT
            &&& codecs.item(0).member("configuration"@).member("endian"@).is_text("little"@)
            &&& codecs.items()->0.len() == 1 || codecs.items()->0.len() == 2 && codecs.item(
                1,
            ).member("name"@).is_text("gzip"@)
        }),
{
}

/// The metadata of an array qualify exactly if all of this holds, and then the array has as many
/// samples as both declare. It is a Zarr v3 array of singles in regular chunks under the default
/// keys, without storage transformers. The metadata and the descriptor declare the same shape, of
/// rank one and within the limit, and the same positive chunk length. The codecs are little-endian
/// bytes, then perhaps gzip at a level up to nine, and the descriptor names the same compression.
/// Both have the same fill value, which is a finite single. The attributes repeat the role, the
/// units, the processing state and the path of the descriptor, and the one axis is that of samples
/// for an impulse response and of frequencies for all else.
pub proof fn law_array_qualifies_exactly_if(descriptor: JsonView, meta: JsonView, count: usize)
    ensures
        array_count(descriptor, meta) == Ok::<usize, Fault>(count) <==> {
            let encoding = meta.member("chunk_key_encoding"@);
            let chunk = meta.member("chunk_grid"@).member("configuration"@).member("chunk_shape"@);
            let codecs = meta.member("codecs"@);
            let level = codecs.item(1).member("configuration"@).member("level"@);
            let fill = meta.member("fill_value"@).double();
            let declared = descriptor.member("fillValue"@).double();
            let attributes = meta.member("attributes"@);
            let axes = meta.member("dimension_names"@);
            &&& meta.member("zarr_format"@) == JsonView::Number(JsonNumber::Unsigned(3))
            &&& meta.member("node_type"@) == JsonView::Text("array"@)
            &&& meta.member("data_type"@) == JsonView::Text("float32"@)
            &&& meta.member("chunk_grid"@).member("name"@) == JsonView::Text("regular"@)
            &&& encoding.member("name"@) == JsonView::Text("default"@)
            &&& encoding.member("configuration"@).member("separator"@) == JsonView::Text("/"@)
            &&& meta.member("storage_transformers"@) is Array && meta.member(
                "storage_transformers"@,
            )->Array_0.len() == 0
            &&& meta.member("shape"@) is Array && meta.member("shape"@)->Array_0.len() == 1
            &&& descriptor.member("shape"@) is Array
            &&& meta.member("shape"@).same(descriptor.member("shape"@))
            &&& meta.member("shape"@).item(0) == JsonView::Number(
                JsonNumber::Unsigned(count as u64),
            )
            &&& count <= 32_000_000
            &&& chunk is Array && chunk->Array_0.len() == 1
            &&& chunk.item(0).integer() is Some && chunk.item(0).integer()->0 > 0
            &&& chunk.item(0).integer() == descriptor.member("chunkLength"@).integer()
            &&& codecs is Array
            &&& codecs.item(0).member("name"@) == JsonView::Text("bytes"@)
            &&& codecs.item(0).member("configuration"@).member("endian"@) == JsonView::Text(
                "little"@,
            )
            &&& {
                ||| codecs->Array_0.len() == 1 && descriptor.member("compression"@)
                    == JsonView::Text("none"@)
                ||| codecs->Array_0.len() == 2 && codecs.item(1).member("name"@)
                    == JsonView::Text("gzip"@) && level.integer() is Some && level.integer()->0 <= 9
                    && descriptor.member("compression"@).member("gzip"@).member("level"@).same(
                    level,
                )
            }
            &&& fill is Some && declared is Some && narrowed(fill->0) == narrowed(declared->0)
                && single_finite(narrowed(fill->0) as u32)
            &&& attributes.member("role"@).same(descriptor.member("role"@))
            &&& attributes.member("units"@).same(descriptor.member("units"@))
            &&& attributes.member("processing_state"@).same(descriptor.member("processingState"@))
            &&& attributes.member("logical_path"@).same(descriptor.member("path"@))
            &&& axes is Array && axes->Array_0.len() == 1
            &&& descriptor.member("role"@) == JsonView::Text("impulse_response"@) ==> axes.item(0)
                == JsonView::Text("sample"@)
            &&& descriptor.member("role"@) != JsonView::Text("impulse_response"@) ==> axes.item(0)
                == JsonView::Text("frequency"@)
        },
{
    assert(READ_LIMIT == 32_000_000);
    if meta.member("storage_transformers"@) is Array {
        let items = meta.member("storage_transformers"@)->Array_0;
        assert(items.len() == 0 ==> items =~= Seq::<JsonView>::empty());
    }
}

/// Samples qualify exactly if they are as many as was declared, and each is finite.
pub proof fn law_samples_qualify_exactly_if(samples: Seq<u32>, count: usize)
    ensures
        samples_qualify(samples, count) <==> samples.len() == count && forall|i: int|
            0 <= i < samples.len() ==> {
                ||| (#[trigger] samples[i]) < 0x7f80_0000
                ||| 0x8000_0000 <= samples[i] < 0xff80_0000
            },
{
    assert forall|bits: u32| #[trigger] single_finite(bits) <==> bits < 0x7f80_0000 || 0x8000_0000
        <= bits < 0xff80_0000 by {}
    if samples.len() == count && forall|i: int|
        0 <= i < samples.len() ==> {
            ||| (#[trigger] samples[i]) < 0x7f80_0000
            ||| 0x8000_0000 <= samples[i] < 0xff80_0000
        } {
        assert(samples_qualify(samples, count));
    }
    if samples_qualify(samples, count) {
        assert forall|i: int| 0 <= i < samples.len() implies {
            ||| (#[trigger] samples[i]) < 0x7f80_0000
            ||| 0x8000_0000 <= samples[i] < 0xff80_0000
        } by {
            assert(single_finite(samples[i]));
        }
    }
}

/// An array whose metadata do not qualify is refused for the first of these reasons.
pub proof fn law_array_is_refused_for_the_first_reason(descriptor: JsonView, meta: JsonView)
    requires
        array_count(descriptor, meta) is Err,
    ensures
        ({
            let encoding = meta.member("chunk_key_encoding"@);
            let transformers = meta.member("storage_transformers"@);
            let shape = meta.member("shape"@);
            let chunk = meta.member("chunk_grid"@).member("configuration"@).member("chunk_shape"@);
            let chunk_length = descriptor.member("chunkLength"@).integer();
            let codecs = meta.member("codecs"@);
            let gzip = codecs->Array_0.len() == 2;
            let level = codecs.item(1).member("configuration"@).member("level"@);
            let compression = descriptor.member("compression"@);
            let fill = meta.member("fill_value"@).double();
            let declared = descriptor.member("fillValue"@).double();
            let attributes = meta.member("attributes"@);
            array_count(descriptor, meta)->Err_0 == Fault::Rejected(
                if meta.member("zarr_format"@).integer() != Some(3u64) || meta.member("node_type"@)
                    != JsonView::Text("array"@) || meta.member("data_type"@) != JsonView::Text(
                    "float32"@,
                ) {
                    "unsupported Zarr array"@
                } else if meta.member("chunk_grid"@).member("name"@) != JsonView::Text("regular"@)
                    || encoding.member("name"@) != JsonView::Text("default"@) || encoding.member(
                    "configuration"@,
                ).member("separator"@) != JsonView::Text("/"@) {
                    "unsupported Zarr layout"@
                } else if transformers !is Array || transformers->Array_0.len() > 0 {
                    "storage transformers unsupported"@
                } else if shape !is Array {
                    "missing shape"@
                } else if descriptor.member("shape"@) !is Array {
                    "missing declared shape"@
                } else if shape->Array_0.len() != 1 || !shape.same(descriptor.member("shape"@)) {
                    "only matching rank-one arrays supported"@
                } else if shape.item(0).integer() is None {
                    "missing positive integer"@
                } else if shape.item(0).integer()->0 > usize::MAX {
                    "array too large"@
                } else if shape.item(0).integer()->0 > 32_000_000 {
                    "array exceeds local read limit"@
                } else if chunk !is Array {
                    "missing chunk shape"@
                } else if chunk->Array_0.len() != 1 {
                    "chunk length mismatch"@
                } else if chunk.item(0).integer() is None {
                    "missing positive integer"@
                } else if chunk.item(0).integer()->0 == 0 {
                    "chunk length mismatch"@
                } else if chunk_length is None {
                    "missing positive integer"@
                } else if chunk.item(0).integer() != chunk_length {
                    "chunk length mismatch"@
                } else if codecs !is Array {
                    "missing codecs"@
                } else if codecs->Array_0.len() != 1 && !gzip || codecs.item(0).member("name"@)
                    != JsonView::Text("bytes"@) || codecs.item(0).member("configuration"@).member(
                    "endian"@,
                ) != JsonView::Text("little"@) {
                    "unsupported codec pipeline"@
                } else if gzip && codecs.item(1).member("name"@) != JsonView::Text("gzip"@) {
                    "unsupported compression"@
                } else if gzip && level.integer() is None {
                    "missing positive integer"@
                } else if gzip && level.integer()->0 > 9 {
                    "unsupported compression"@
                } else if !gzip && compression != JsonView::Text("none"@) || gzip
                    && !compression.member("gzip"@).member("level"@).same(level) {
                    "compression mismatch"@
                } else if fill is None {
                    "invalid fill value"@
                } else if declared is None || narrowed(fill->0) != narrowed(declared->0)
                    || !single_finite(narrowed(fill->0) as u32) {
                    "fill mismatch"@
                } else if !attributes.member("role"@).same(descriptor.member("role"@))
                    || !attributes.member("units"@).same(descriptor.member("units"@))
                    || !attributes.member("processing_state"@).same(
                    descriptor.member("processingState"@),
                ) || !attributes.member("logical_path"@).same(descriptor.member("path"@)) {
                    "array metadata mismatch"@
                } else {
                    "dimension metadata mismatch"@
                },
            )
        }),
{
    assert(READ_LIMIT == 32_000_000);
    if meta.member("storage_transformers"@) is Array {
        let items = meta.member("storage_transformers"@)->Array_0;
        assert(items.len() == 0 ==> items =~= Seq::<JsonView>::empty());
    }
}

} // verus!
