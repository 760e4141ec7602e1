//! The steps of reading a package, each between two parts that are fetched for it.
//!
//! A step takes what was fetched and says what to fetch next, or why the package is refused.
//! Fetching itself, from a directory and a Zarr store, is left to the caller.

use crate::error::{ensure, Fault, ReadError, ReadResult};
use crate::json::{document, models, parse, parse_with_member_text, Json};
use crate::logical_digest::{loaded, logical_digest, logical_identity};
use crate::measurement_array::{
    agrees, check_manifest, concluded, counted, declared, identified, impulse_fault, next_path,
    opened, root_checked, string, taken, valid_path, Header, ImpulseView,
    MeasurementImpulse, Request, RequestView, ScanView,
};
use crate::text::{contains_text, optional_text, same_text, texts, trim, trimmed};
use crate::zarr_array::{array_count, check_array, check_samples, samples_qualify, READ_LIMIT};
use vstd::prelude::*;

verus! {

/// The samples of a list of arrays.
pub open spec fn sample_lists(values: Seq<Vec<u32>>) -> Seq<Seq<u32>> {
    values.map_values(|samples: Vec<u32>| samples@)
}

/// A reading that waits for the root document, `zarr.json`.
#[derive(Debug)]
pub struct AwaitingRoot {
    request: Request,
}

/// A reading that waits for the manifest.
#[derive(Debug)]
pub struct AwaitingManifest {
    request: Request,
}

/// A reading of the arrays, one after the other.
#[derive(Debug)]
pub struct ArrayScan {
    request: Request,
    manifest: Json,
    channels_text: Vec<u8>,
    header: Header,
    seen: Vec<String>,
    values: Vec<Vec<u32>>,
    total: usize,
    selected: Option<usize>,
}

/// A reading that waits for the metadata of an array.
#[derive(Debug)]
pub struct AwaitingMetadata {
    scan: ArrayScan,
    path: String,
}

/// A reading that waits for the samples of an array.
#[derive(Debug)]
pub struct AwaitingSamples {
    scan: ArrayScan,
    path: String,
    count: usize,
}

/// A reading that waits for the identity on record, `logical.sha256`.
#[derive(Debug)]
pub struct AwaitingRecord {
    impulse: MeasurementImpulse,
    expected: String,
}

/// What comes next in a reading of the arrays.
#[derive(Debug)]
pub enum ScanStep {
    /// Another array.
    Array(AwaitingMetadata),
    /// No other array; the identity on record.
    Complete(AwaitingRecord),
}

/// Starts the reading of a package whose directory has this extension.
pub fn open_package(extension: Option<&str>, request: Request) -> (r: ReadResult<AwaitingRoot>)
    ensures
        match r {
            Ok(next) => {
                &&& extension is Some
                &&& extension->0@ == "orcmeasurement"@
                &&& next.request() == request@
            },
            Err(e) => {
                &&& extension is None || extension->0@ != "orcmeasurement"@
                &&& e@ == Fault::Rejected("expected .orcmeasurement directory"@)
            },
        },
{
    let named = match extension {
        Some(extension) => same_text(extension, "orcmeasurement"),
        None => false,
    };
    ensure(named, "expected .orcmeasurement directory")?;
    Ok(AwaitingRoot { request })
}

impl AwaitingRoot {
    /// What is asked of the package.
    pub closed spec fn request(self) -> RequestView {
        self.request@
    }

    /// Takes the root document.
    pub fn root(self, text: &[u8]) -> (r: ReadResult<AwaitingManifest>)
        ensures
            match r {
                Ok(next) => root_checked(text@) is Ok && next.request() == self.request(),
                Err(e) => root_checked(text@) == Err::<(), Fault>(e@),
            },
    {
        let root = match parse(text) {
            Ok(root) => root,
            Err(words) => return Err(ReadError::Json(words)),
        };
        ensure(
            root.member("zarr_format").is_integer(3) && root.member("node_type").is_text("group"),
            "invalid Zarr root",
        )?;
        Ok(AwaitingManifest { request: self.request })
    }
}

impl AwaitingManifest {
    /// What is asked of the package.
    pub closed spec fn request(self) -> RequestView {
        self.request@
    }

    /// Takes the manifest.
    pub fn manifest(self, text: &[u8]) -> (r: ReadResult<ArrayScan>)
        ensures
            agrees(r, opened(text@, self.request())),
            r matches Ok(scan) ==> scan@.wf(),
    {
        let (manifest, channels_text) = match parse_with_member_text(text, "channels") {
            Ok(parsed) => parsed,
            Err(words) => return Err(ReadError::Json(words)),
        };
        let header = check_manifest(&manifest, &self.request)?;
        if manifest.member("arrays").as_items().is_none() {
            return Err(ReadError::Rejected("missing arrays"));
        }
        let scan = ArrayScan {
            request: self.request,
            manifest,
            channels_text,
            header,
            seen: Vec::new(),
            values: Vec::new(),
            total: 0,
            selected: None,
        };
        proof {
            reveal(ScanView::wf);
            assert(scan@.seen =~= Seq::<Seq<char>>::empty());
            assert(scan@.values =~= Seq::<Seq<u32>>::empty());
        }
        Ok(scan)
    }
}

impl View for ArrayScan {
    type V = ScanView;

    closed spec fn view(&self) -> ScanView {
        ScanView {
            request: self.request@,
            manifest: self.manifest@,
            channels_text: self.channels_text@,
            header: self.header@,
            seen: texts(self.seen@),
            values: sample_lists(self.values@),
            total: self.total,
            selected: match self.selected {
                Some(k) => Some(k as nat),
                None => None,
            },
        }
    }
}

impl ArrayScan {
    /// Goes on to the next array, or to the identity on record when all were read.
    pub fn advance(self) -> (r: ReadResult<ScanStep>)
        requires
            self@.wf(),
        ensures
            if self@.values.len() < declared(self@.manifest)->0.len() {
                match r {
                    Ok(ScanStep::Array(next)) => {
                        &&& next.wf()
                        &&& next.scan() == self@
                        &&& next_path(self@) == Ok::<Seq<char>, Fault>(next.path())
                    },
                    Ok(ScanStep::Complete(_)) => false,
                    Err(e) => next_path(self@) == Err::<Seq<char>, Fault>(e@),
                }
            } else {
                match r {
                    Ok(ScanStep::Array(_)) => false,
                    Ok(ScanStep::Complete(next)) => {
                        &&& next.expected() == self@.request.logical_digest
                        &&& concluded(self@) == Ok::<ImpulseView, Fault>(next.impulse())
                    },
                    Err(e) => concluded(self@) == Err::<ImpulseView, Fault>(e@),
                }
            },
    {
        proof {
            reveal(ScanView::wf);
        }
        let descriptors = match self.manifest.member("arrays").as_items() {
            Some(descriptors) => descriptors,
            None => return Err(ReadError::Rejected("missing arrays")),
        };
        if self.values.len() < descriptors.len() {
            let descriptor = &descriptors[self.values.len()];
            assert(descriptor@ == self@.descriptor());
            let path = string(descriptor.member("path"))?;
            ensure(!contains_text(&self.seen, path), "duplicate array path")?;
            ensure(valid_path(path), "invalid array path")?;
            let path = path.to_owned();
            Ok(ScanStep::Array(AwaitingMetadata { scan: self, path }))
        } else {
            let impulse = self.conclude(descriptors)?;
            Ok(ScanStep::Complete(AwaitingRecord { impulse, expected: self.request.logical_digest }))
        }
    }

    /// The impulse, with the identity of the package that was read.
    fn conclude(&self, descriptors: &Vec<Json>) -> (r: ReadResult<MeasurementImpulse>)
        requires
            self@.wf(),
            declared(self@.manifest) == Some(models(descriptors@)),
            self@.values.len() == descriptors@.len(),
        ensures
            agrees(r, concluded(self@)),
    {
        proof {
            reveal(ScanView::wf);
        }
        let k: usize = match self.selected {
            Some(k) => k,
            None => return Err(ReadError::Rejected("impulse not declared")),
        };
        let mut arrays: Vec<(&Json, &Vec<u32>)> = Vec::new();
        let mut i: usize = 0;
        while i < descriptors.len()
            invariant
                self.values@.len() == descriptors@.len(),
                i <= descriptors@.len(),
                arrays@.len() == i,
                forall|j: int|
                    0 <= j < i ==> *(#[trigger] arrays@[j]).0 == descriptors@[j] && *arrays@[j].1
                        == self.values@[j],
            decreases descriptors@.len() - i,
        {
            arrays.push((&descriptors[i], &self.values[i]));
            i = i + 1;
        }
        assert(loaded(arrays@) =~= self@.arrays());
        let identity = logical_digest(&self.manifest, self.channels_text.as_slice(), &arrays)?;
        let samples = self.values[k].clone();
        assert(samples@ =~= self@.values[k as int]);
        Ok(
            MeasurementImpulse {
                samples,
                sample_rate_hz: self.header.sample_rate_hz,
                campaign_id: self.header.campaign_id.clone(),
                source_digest: self.header.source_digest.clone(),
                logical_digest: identity,
                processing_state: self.header.processing_state.clone(),
                time_reference: self.header.time_reference.clone(),
            },
        )
    }
}

impl AwaitingMetadata {
    /// How far the arrays have been read.
    pub closed spec fn scan(self) -> ScanView {
        self.scan@
    }

    /// The path of the array.
    pub closed spec fn path(self) -> Seq<char> {
        self.path@
    }

    /// The array is the next one, and may be read.
    pub open spec fn wf(self) -> bool {
        &&& self.scan().wf()
        &&& self.scan().values.len() < declared(self.scan().manifest)->0.len()
        &&& next_path(self.scan()) == Ok::<Seq<char>, Fault>(self.path())
    }

    /// Where the metadata lie, below the directory of the package.
    pub fn file(&self) -> (r: String)
        ensures
            r@ == metadata_file(self.path()),
    {
        let mut file = "arrays/".to_owned();
        file.append(self.path.as_str());
        file.append("/zarr.json");
        file
    }

    /// Takes the metadata.
    pub fn metadata(self, text: &[u8]) -> (r: ReadResult<AwaitingSamples>)
        requires
            self.wf(),
        ensures
            match r {
                Ok(next) => {
                    &&& next.wf()
                    &&& next.scan() == self.scan()
                    &&& next.path() == self.path()
                    &&& counted(self.scan(), text@) == Ok::<usize, Fault>(next.count())
                },
                Err(e) => counted(self.scan(), text@) == Err::<usize, Fault>(e@),
            },
    {
        let meta = match parse(text) {
            Ok(meta) => meta,
            Err(words) => return Err(ReadError::Json(words)),
        };
        proof {
            reveal(ScanView::wf);
        }
        let descriptor = self.scan.manifest.member("arrays").item(self.scan.values.len());
        assert(descriptor@ == self.scan().descriptor());
        let count = check_array(descriptor, &meta)?;
        Ok(AwaitingSamples { scan: self.scan, path: self.path, count })
    }
}

/// Where the metadata of an array lie, below the directory of its package.
pub open spec fn metadata_file(path: Seq<char>) -> Seq<char> {
    "arrays/"@ + path + "/zarr.json"@
}

/// The node of an array in the Zarr store of its package.
pub open spec fn array_node(path: Seq<char>) -> Seq<char> {
    "/arrays/"@ + path
}

impl AwaitingSamples {
    /// How far the arrays have been read.
    pub closed spec fn scan(self) -> ScanView {
        self.scan@
    }

    /// The path of the array.
    pub closed spec fn path(self) -> Seq<char> {
        self.path@
    }

    /// How many samples the array has.
    pub closed spec fn count(self) -> usize {
        self.count
    }

    /// The array is the next one, may be read, and is not too long.
    pub open spec fn wf(self) -> bool {
        &&& self.scan().wf()
        &&& self.scan().values.len() < declared(self.scan().manifest)->0.len()
        &&& next_path(self.scan()) == Ok::<Seq<char>, Fault>(self.path())
        &&& self.count() <= READ_LIMIT
    }

    /// The node of the array in the Zarr store of the package.
    pub fn node(&self) -> (r: String)
        ensures
            r@ == array_node(self.path()),
    {
        let mut node = "/arrays/".to_owned();
        node.append(self.path.as_str());
        node
    }

    /// Takes the samples, given by the bits of the singles.
    pub fn samples(self, samples: Vec<u32>) -> (r: ReadResult<ArrayScan>)
        requires
            self.wf(),
        ensures
            agrees(r, taken(self.scan(), self.path(), self.count(), samples@)),
            r matches Ok(scan) ==> scan@.wf(),
    {
        proof {
            reveal(ScanView::wf);
        }
        let AwaitingSamples { scan, path, count } = self;
        check_samples(samples.as_slice(), count)?;
        if samples.len() > usize::MAX - scan.total {
            return Err(ReadError::Rejected("package too large"));
        }
        let total: usize = scan.total + samples.len();
        ensure(total <= READ_LIMIT, "package exceeds local read limit")?;
        let is_impulse = same_text(path.as_str(), scan.request.array_path.as_str());
        let mut selected = scan.selected;
        if is_impulse {
            let descriptor = scan.manifest.member("arrays").item(scan.values.len());
            assert(descriptor@ == scan@.descriptor());
            check_impulse(descriptor, scan.header.processing_state.as_str())?;
            selected = Some(scan.values.len());
        }
        let ghost before = scan@;
        let ArrayScan { request, manifest, channels_text, header, mut seen, mut values, .. } = scan;
        seen.push(path);
        values.push(samples);
        let after = ArrayScan {
            request,
            manifest,
            channels_text,
            header,
            seen,
            values,
            total,
            selected,
        };
        proof {
            assert(after@.seen =~= before.seen.push(path@));
            assert(after@.values =~= before.values.push(samples@));
            lemma_taking_keeps_wf(before, after@, path@, count, samples@);
        }
        Ok(after)
    }
}

/// Checks that a descriptor is one of the impulse.
fn check_impulse(descriptor: &Json, processing_state: &str) -> (r: ReadResult<()>)
    ensures
        crate::zarr_array::reports(r, impulse_fault(descriptor@, processing_state@)),
{
    ensure(descriptor.member("role").is_text("impulse_response"), "array role mismatch")?;
    ensure(descriptor.member("units").is_text("linear_amplitude"), "impulse unit mismatch")?;
    ensure(
        descriptor.member("processingState").is_text(processing_state),
        "impulse processing mismatch",
    )?;
    let dimensions = descriptor.member("dimensions");
    let rank_one = match dimensions.as_items() {
        Some(items) => items.len() == 1,
        None => false,
    };
    ensure(
        dimensions.is_null() || (rank_one && dimensions.item(0).is_text("sample")),
        "impulse axis mismatch",
    )
}

proof fn lemma_taking_keeps_wf(
    before: ScanView,
    after: ScanView,
    path: Seq<char>,
    count: usize,
    samples: Seq<u32>,
)
    requires
        before.wf(),
        before.values.len() < declared(before.manifest)->0.len(),
        next_path(before) == Ok::<Seq<char>, Fault>(path),
        taken(before, path, count, samples) == Ok::<ScanView, Fault>(after),
    ensures
        after.wf(),
{
    reveal(ScanView::wf);
    assert(after.values.drop_last() =~= before.values);
    assert forall|i: int| 0 <= i < after.seen.len() implies {
        &&& declared(after.manifest)->0[i].member("path"@).text() == Some(#[trigger] after.seen[i])
        &&& crate::measurement_array::path_allowed(after.seen[i])
    } by {
        if i < before.seen.len() {
            assert(after.seen[i] == before.seen[i]);
        }
    }
    assert forall|i: int, j: int| 0 <= i < j < after.seen.len() implies #[trigger] after.seen[i]
        != #[trigger] after.seen[j] by {
        assert(after.seen[i] == before.seen[i]);
        if j < before.seen.len() {
            assert(after.seen[j] == before.seen[j]);
        } else {
            assert(before.seen.contains(before.seen[i]));
        }
    }
    assert forall|i: int, k: int|
        0 <= i < after.values.len() && 0 <= k < after.values[i].len() implies crate::ieee::single_finite(
        #[trigger] after.values[i][k],
    ) by {
        if i < before.values.len() {
            assert(after.values[i] == before.values[i]);
            assert(crate::ieee::single_finite(before.values[i][k]));
        } else {
            assert(crate::ieee::single_finite(samples[k]));
        }
    }
    if path != before.request.array_path {
        if before.selected is Some {
            let k = before.selected->0 as int;
            assert(after.seen[k] == before.seen[k]);
        } else if after.seen.contains(after.request.array_path) {
            let i = choose|i: int|
                0 <= i < after.seen.len() && after.seen[i] == after.request.array_path;
            assert(i < before.seen.len());
            assert(before.seen[i] == before.request.array_path);
        }
    }
}

impl AwaitingRecord {
    /// The impulse, with the identity of the package that was read.
    pub closed spec fn impulse(self) -> ImpulseView {
        self.impulse@
    }

    /// The identity that was asked for.
    pub closed spec fn expected(self) -> Seq<char> {
        self.expected@
    }

    /// Takes the identity on record.
    pub fn recorded(self, text: &str) -> (r: ReadResult<MeasurementImpulse>)
        ensures
            agrees(r, identified(self.impulse(), self.expected(), text@)),
    {
        ensure(
            same_text(trim(text), self.impulse.logical_digest.as_str()),
            "package logical digest mismatch",
        )?;
        ensure(
            same_text(self.expected.as_str(), self.impulse.logical_digest.as_str()),
            "expected logical digest mismatch",
        )?;
        Ok(self.impulse)
    }
}

/// An array of a package, as it was fetched.
#[derive(Debug)]
pub struct StoredArray {
    pub path: String,
    /// The metadata document.
    pub metadata: Vec<u8>,
    /// The samples that the Zarr store decodes, if it can.
    pub samples: Option<Vec<u32>>,
}

/// A package whose parts were all fetched. A part that is not there is `None`.
#[derive(Debug)]
pub struct StoredPackage {
    /// The extension of its directory.
    pub extension: Option<String>,
    /// The document `zarr.json`.
    pub root: Option<Vec<u8>>,
    /// The manifest.
    pub manifest: Option<Vec<u8>>,
    pub arrays: Vec<StoredArray>,
    /// The text of `logical.sha256`.
    pub record: Option<String>,
}

/// What a [`StoredArray`] holds.
pub struct ArrayView {
    pub path: Seq<char>,
    pub metadata: Seq<u8>,
    pub samples: Option<Seq<u32>>,
}

impl View for StoredArray {
    type V = ArrayView;

    open spec fn view(&self) -> ArrayView {
        ArrayView {
            path: self.path@,
            metadata: self.metadata@,
            samples: match self.samples {
                Some(samples) => Some(samples@),
                None => None,
            },
        }
    }
}

/// What a [`StoredPackage`] holds.
pub struct PackageView {
    pub extension: Option<Seq<char>>,
    pub root: Option<Seq<u8>>,
    pub manifest: Option<Seq<u8>>,
    pub arrays: Seq<ArrayView>,
    pub record: Option<Seq<char>>,
}

/// What a document that may be missing holds.
pub open spec fn document_bytes(document: Option<Vec<u8>>) -> Option<Seq<u8>> {
    match document {
        Some(bytes) => Some(bytes@),
        None => None,
    }
}

impl View for StoredPackage {
    type V = PackageView;

    open spec fn view(&self) -> PackageView {
        PackageView {
            extension: optional_text(self.extension),
            root: document_bytes(self.root),
            manifest: document_bytes(self.manifest),
            arrays: self.arrays@.map_values(|array: StoredArray| array@),
            record: optional_text(self.record),
        }
    }
}

/// The first of `arrays` that is stored under `path`.
pub open spec fn find_array(arrays: Seq<ArrayView>, path: Seq<char>) -> Option<ArrayView>
    decreases arrays.len(),
{
    if arrays.len() == 0 {
        None
    } else if arrays[0].path == path {
        Some(arrays[0])
    } else {
        find_array(arrays.drop_first(), path)
    }
}

/// What the next array of a package leads to.
pub open spec fn array_read(scan: ScanView, arrays: Seq<ArrayView>) -> Result<ScanView, Fault> {
    match next_path(scan) {
        Err(fault) => Err(fault),
        Ok(path) => match find_array(arrays, path) {
            None => Err(Fault::Missing(metadata_file(path))),
            Some(array) => match counted(scan, array.metadata) {
                Err(fault) => Err(fault),
                Ok(count) => match array.samples {
                    None => Err(Fault::Missing(array_node(path))),
                    Some(samples) => taken(scan, path, count, samples),
                },
            },
        },
    }
}

/// What the remaining arrays of a package lead to.
pub open spec fn all_read(scan: ScanView, arrays: Seq<ArrayView>) -> Result<ScanView, Fault>
    decreases declared(scan.manifest)->0.len() - scan.values.len(),
{
    if scan.values.len() >= declared(scan.manifest)->0.len() {
        Ok(scan)
    } else {
        match array_read(scan, arrays) {
            Err(fault) => Err(fault),
            Ok(next) => all_read(next, arrays),
        }
    }
}

/// What the arrays and the identity on record of a package lead to.
pub open spec fn impulse_read(scan: ScanView, package: PackageView) -> Result<ImpulseView, Fault> {
    match all_read(scan, package.arrays) {
        Err(fault) => Err(fault),
        Ok(complete) => match concluded(complete) {
            Err(fault) => Err(fault),
            Ok(impulse) => match package.record {
                None => Err(Fault::Missing("logical.sha256"@)),
                Some(record) => identified(impulse, scan.request.logical_digest, record),
            },
        },
    }
}

/// What a package leads to.
pub open spec fn package_read(package: PackageView, request: RequestView) -> Result<
    ImpulseView,
    Fault,
> {
    if package.extension != Some("orcmeasurement"@) {
        Err(Fault::Rejected("expected .orcmeasurement directory"@))
    } else if package.root is None {
        Err(Fault::Missing("zarr.json"@))
    } else if root_checked(package.root->0) is Err {
        Err(root_checked(package.root->0)->Err_0)
    } else if package.manifest is None {
        Err(Fault::Missing("manifest"@))
    } else {
        match opened(package.manifest->0, request) {
            Err(fault) => Err(fault),
            Ok(scan) => impulse_read(scan, package),
        }
    }
}

fn stored_array<'a>(arrays: &'a Vec<StoredArray>, path: &str) -> (r: Option<&'a StoredArray>)
    ensures
        match r {
            Some(array) => find_array(
                arrays@.map_values(|array: StoredArray| array@),
                path@,
            ) == Some(array@),
            None => find_array(arrays@.map_values(|array: StoredArray| array@), path@) is None,
        },
{
    let ghost all = arrays@.map_values(|array: StoredArray| array@);
    let mut i: usize = 0;
    assert(all.skip(0) =~= all);
    while i < arrays.len()
        invariant
            all == arrays@.map_values(|array: StoredArray| array@),
            i <= arrays@.len(),
            find_array(all.skip(i as int), path@) == find_array(all, path@),
        decreases arrays@.len() - i,
    {
        assert(all.skip(i as int)[0] == arrays@[i as int]@);
        if same_text(arrays[i].path.as_str(), path) {
            return Some(&arrays[i]);
        }
        assert(all.skip(i as int).drop_first() =~= all.skip(i + 1));
        i = i + 1;
    }
    None
}

impl AwaitingMetadata {
    /// Takes metadata and samples from what was fetched.
    fn fetch(self, arrays: &Vec<StoredArray>) -> (r: ReadResult<ArrayScan>)
        requires
            self.wf(),
        ensures
            agrees(
                r,
                array_read(self.scan(), arrays@.map_values(|array: StoredArray| array@)),
            ),
            r matches Ok(scan) ==> scan@.wf(),
    {
        let array = match stored_array(arrays, self.path.as_str()) {
            Some(array) => array,
            None => return Err(ReadError::Missing(self.file())),
        };
        let next = self.metadata(array.metadata.as_slice())?;
        match &array.samples {
            Some(samples) => {
                let copy = samples.clone();
                assert(copy@ =~= samples@);
                next.samples(copy)
            },
            None => Err(ReadError::Missing(next.node())),
        }
    }
}

/// Reads the arrays of a package, and then checks its identity.
fn read_arrays(opening: ArrayScan, package: &StoredPackage) -> (r: ReadResult<MeasurementImpulse>)
    requires
        opening@.wf(),
    ensures
        agrees(r, impulse_read(opening@, package@)),
{
    let ghost start = opening@;
    let mut scan = opening;
    loop
        invariant
            start == opening@,
            scan@.wf(),
            scan@.manifest == start.manifest,
            scan@.request == start.request,
            all_read(start, package@.arrays) == all_read(scan@, package@.arrays),
        decreases declared(start.manifest)->0.len() - scan@.values.len(),
    {
        match scan.advance()? {
            ScanStep::Array(next) => {
                scan = next.fetch(&package.arrays)?;
            },
            ScanStep::Complete(next) => {
                let record = match &package.record {
                    Some(record) => record,
                    None => return Err(ReadError::Missing("logical.sha256".to_owned())),
                };
                return next.recorded(record.as_str());
            },
        }
    }
}

/// Reads the impulse that `request` names from a package. It succeeds only where the source
/// identity and the logical identity of the package are the expected ones; the latter is taken
/// over every array, so all of them are checked.
pub fn read_orcmeasurement_impulse(package: &StoredPackage, request: Request) -> (r: ReadResult<
    MeasurementImpulse,
>)
    ensures
        agrees(r, package_read(package@, request@)),
{
    let extension = match &package.extension {
        Some(extension) => Some(extension.as_str()),
        None => None,
    };
    let reading = open_package(extension, request)?;
    let root = match &package.root {
        Some(root) => root,
        None => return Err(ReadError::Missing("zarr.json".to_owned())),
    };
    let reading = reading.root(root.as_slice())?;
    let manifest = match &package.manifest {
        Some(manifest) => manifest,
        None => return Err(ReadError::Missing("manifest".to_owned())),
    };
    let scan = reading.manifest(manifest.as_slice())?;
    read_arrays(scan, package)
}

/// Reading one array keeps what holds of a scan at every point.
proof fn lemma_array_read_keeps_wf(scan: ScanView, arrays: Seq<ArrayView>)
    requires
        scan.wf(),
        scan.values.len() < declared(scan.manifest)->0.len(),
        array_read(scan, arrays) is Ok,
    ensures
        array_read(scan, arrays)->Ok_0.wf(),
{
    let path = next_path(scan)->Ok_0;
    let array = find_array(arrays, path)->0;
    let count = counted(scan, array.metadata)->Ok_0;
    let after = array_read(scan, arrays)->Ok_0;
    lemma_taking_keeps_wf(scan, after, path, count, array.samples->0);
}

pub proof fn lemma_all_read_keeps_wf(scan: ScanView, arrays: Seq<ArrayView>)
    requires
        scan.wf(),
        all_read(scan, arrays) is Ok,
    ensures
        all_read(scan, arrays)->Ok_0.wf(),
        all_read(scan, arrays)->Ok_0.request == scan.request,
        all_read(scan, arrays)->Ok_0.manifest == scan.manifest,
        all_read(scan, arrays)->Ok_0.channels_text == scan.channels_text,
        all_read(scan, arrays)->Ok_0.header == scan.header,
        all_read(scan, arrays)->Ok_0.values.len() == declared(scan.manifest)->0.len(),
    decreases declared(scan.manifest)->0.len() - scan.values.len(),
{
    reveal(ScanView::wf);
    if scan.values.len() < declared(scan.manifest)->0.len() {
        lemma_array_read_keeps_wf(scan, arrays);
        lemma_all_read_keeps_wf(array_read(scan, arrays)->Ok_0, arrays);
    }
}

/// Whether the array that was read at `i` is the stored one: it stands under the declared path,
/// its metadata qualify for the descriptor, and its samples are the stored ones, as many as the
/// metadata promise.
pub open spec fn read_as_stored(scan: ScanView, arrays: Seq<ArrayView>, i: int) -> bool {
    let array = find_array(arrays, scan.seen[i])->0;
    let meta = document(array.metadata);
    let count = array_count(declared(scan.manifest)->0[i], meta->Ok_0);
    &&& find_array(arrays, scan.seen[i]) is Some
    &&& array.path == scan.seen[i]
    &&& meta is Ok
    &&& count is Ok
    &&& array.samples == Some(scan.values[i])
    &&& samples_qualify(scan.values[i], count->Ok_0)
}

proof fn lemma_found_array_has_the_path(arrays: Seq<ArrayView>, path: Seq<char>)
    requires
        find_array(arrays, path) is Some,
    ensures
        find_array(arrays, path)->0.path == path,
    decreases arrays.len(),
{
    if arrays[0].path != path {
        lemma_found_array_has_the_path(arrays.drop_first(), path);
    }
}

proof fn lemma_array_is_read_as_stored(scan: ScanView, arrays: Seq<ArrayView>)
    requires
        scan.wf(),
        scan.values.len() < declared(scan.manifest)->0.len(),
        array_read(scan, arrays) is Ok,
        forall|i: int|
            0 <= i < scan.values.len() ==> #[trigger] read_as_stored(scan, arrays, i),
    ensures
        ({
            let next = array_read(scan, arrays)->Ok_0;
            forall|i: int|
                0 <= i < next.values.len() ==> #[trigger] read_as_stored(next, arrays, i)
        }),
{
    reveal(ScanView::wf);
    let next = array_read(scan, arrays)->Ok_0;
    let path = next_path(scan)->Ok_0;
    lemma_found_array_has_the_path(arrays, path);
    assert forall|i: int| 0 <= i < next.values.len() implies #[trigger] read_as_stored(
        next,
        arrays,
        i,
    ) by {
        if i < scan.values.len() {
            assert(read_as_stored(scan, arrays, i));
        }
    }
}

proof fn lemma_all_are_read_as_stored(scan: ScanView, arrays: Seq<ArrayView>)
    requires
        scan.wf(),
        all_read(scan, arrays) is Ok,
        forall|i: int|
            0 <= i < scan.values.len() ==> #[trigger] read_as_stored(scan, arrays, i),
    ensures
        ({
            let complete = all_read(scan, arrays)->Ok_0;
            forall|i: int|
                0 <= i < complete.values.len() ==> #[trigger] read_as_stored(complete, arrays, i)
        }),
    decreases declared(scan.manifest)->0.len() - scan.values.len(),
{
    if scan.values.len() < declared(scan.manifest)->0.len() {
        lemma_array_read_keeps_wf(scan, arrays);
        lemma_array_is_read_as_stored(scan, arrays);
        lemma_all_are_read_as_stored(array_read(scan, arrays)->Ok_0, arrays);
    }
}

/// The scan of all arrays of a package that was read.
pub open spec fn complete_scan(package: PackageView, request: RequestView) -> ScanView {
    all_read(opened(package.manifest->0, request)->Ok_0, package.arrays)->Ok_0
}

/// A package is opened only where both identities match: the source identity is the one that
/// was asked for, and the logical identity is at once the one that was asked for, the one on
/// record, and the digest of what was read.
pub proof fn law_only_the_expected_package_is_opened(package: PackageView, request: RequestView)
    requires
        package_read(package, request) is Ok,
    ensures
        ({
            let impulse = package_read(package, request)->Ok_0;
            let scan = complete_scan(package, request);
            &&& impulse.source_digest == request.source_digest
            &&& impulse.logical_digest == request.logical_digest
            &&& package.record is Some
            &&& trimmed(package.record->0) == request.logical_digest
            &&& logical_identity(scan.manifest, scan.channels_text, scan.arrays()) == Ok::<
                Seq<char>,
                Fault,
            >(request.logical_digest)
        }),
{
    let scan = opened(package.manifest->0, request)->Ok_0;
    lemma_opened_wf(package.manifest->0, request);
    lemma_all_read_keeps_wf(scan, package.arrays);
    reveal(ScanView::wf);
}

/// The identity covers the whole package: every declared array was read, in the order of the
/// manifest, from a path of its own that stays inside the package; all samples are finite and
/// within the limit; and of each array the stored metadata qualify, and the samples are the
/// stored ones.
pub proof fn law_every_array_is_checked(package: PackageView, request: RequestView)
    requires
        package_read(package, request) is Ok,
    ensures
        ({
            let scan = complete_scan(package, request);
            &&& scan.wf()
            &&& scan.values.len() == declared(scan.manifest)->0.len()
            &&& forall|i: int|
                0 <= i < scan.values.len() ==> #[trigger] read_as_stored(scan, package.arrays, i)
        }),
{
    let scan = opened(package.manifest->0, request)->Ok_0;
    lemma_opened_wf(package.manifest->0, request);
    lemma_all_read_keeps_wf(scan, package.arrays);
    lemma_all_are_read_as_stored(scan, package.arrays);
}

/// The impulse that is read was captured at an isolated output, at a positive rate, and its
/// samples are those of the array under the path that was asked for.
pub proof fn law_impulse_is_the_requested_array(package: PackageView, request: RequestView)
    requires
        package_read(package, request) is Ok,
    ensures
        ({
            let impulse = package_read(package, request)->Ok_0;
            let scan = complete_scan(package, request);
            &&& impulse.processing_state == "isolated_physical_output"@
            &&& impulse.sample_rate_hz > 0
            &&& exists|k: int|
                0 <= k < scan.values.len() && #[trigger] scan.seen[k] == request.array_path
                    && scan.values[k] == impulse.samples
        }),
{
    let scan = opened(package.manifest->0, request)->Ok_0;
    lemma_opened_wf(package.manifest->0, request);
    lemma_all_read_keeps_wf(scan, package.arrays);
    reveal(ScanView::wf);
    let complete = complete_scan(package, request);
    let k = complete.selected->0 as int;
    assert(complete.seen[k] == request.array_path);
}

pub proof fn lemma_opened_wf(text: Seq<u8>, request: RequestView)
    requires
        opened(text, request) is Ok,
    ensures
        opened(text, request)->Ok_0.wf(),
        opened(text, request)->Ok_0.request == request,
        opened(text, request)->Ok_0.header.source_digest == request.source_digest,
        opened(text, request)->Ok_0.header.processing_state == "isolated_physical_output"@,
        opened(text, request)->Ok_0.header.sample_rate_hz > 0,
{
    reveal(ScanView::wf);
}

} // verus!
