//! Format-agnostic summary of a gridded dataset's structure.
//!
//! Every format reader (NetCDF/HDF5, Zarr, Icechunk, GRIB) produces a
//! [`DatasetSummary`]; the HTML and CDL renderers consume this model and
//! never see format-specific types.
//!
//! Floating-point attribute values are carried as their IEEE-754 bit
//! patterns (`f64::to_bits` / `f32::to_bits`), so that the model holds them
//! exactly and the renderers can format them without floating-point code.

use vstd::prelude::*;
use crate::text::strings_view;

verus! {

/// Which reader produced the summary. Rendered as a format badge.
#[derive(Debug, Clone, Copy, PartialEq, Eq, Structural)]
pub enum SourceFormat {
    NetCdf,
    Hdf5,
    ZarrV2,
    ZarrV3,
    Icechunk,
    Grib,
}

/// Knobs for how much a reader should extract beyond the plain structure.
#[derive(Debug, Clone, Copy, Default, PartialEq, Eq, Structural)]
pub struct SummarizeOptions {
    /// Also collect per-variable storage details ([`VarSummary::storage`])
    /// and file-level format details ([`DatasetSummary::file_info`]) — the
    /// information `ncdump -s` surfaces as "special" virtual attributes.
    pub storage_details: bool,
}

/// File-level format details (what `ncdump -k` and the global `ncdump -s`
/// specials report).
#[derive(Debug, Clone, Default, PartialEq, Eq)]
pub struct FileInfo {
    /// The `ncdump -k` style kind string: `classic`, `64-bit offset`,
    /// `cdf5`, `netCDF-4`, `netCDF-4 classic model`, `Zarr v2`, `Zarr v3`,
    /// or `Icechunk`.
    pub kind: String,
    /// netCDF-4's hidden `_NCProperties` provenance attribute, if present.
    pub nc_properties: Option<String>,
    /// HDF5 superblock version of a netCDF-4 file.
    pub superblock_version: Option<i32>,
    /// Whether libnetcdf reports the file as a netCDF-4 (HDF5) file.
    pub is_netcdf4: Option<bool>,
}

/// One dimension of a group.
#[derive(Debug, Clone, PartialEq, Eq)]
pub struct DimInfo {
    pub name: String,
    pub size: u64,
    pub is_unlimited: bool,
}

/// How a variable's bytes are laid out in the file/store.
#[derive(Debug, Clone, Copy, PartialEq, Eq, Structural)]
pub enum StorageLayout {
    Chunked,
    Contiguous,
    /// netCDF-4 "compact" storage (small variables stored in the header).
    Compact,
}

/// Byte order of stored values.
#[derive(Debug, Clone, Copy, PartialEq, Eq, Structural)]
pub enum Endianness {
    Little,
    Big,
}

/// One HDF5 filter in a netCDF-4 variable's pipeline, other than the
/// deflate/shuffle/fletcher32 trio which [`StorageInfo`] reports directly.
#[derive(Debug, Clone, PartialEq, Eq)]
pub struct FilterInfo {
    pub id: u32,
    pub params: Vec<u32>,
}

/// One entry in a Zarr array's codec chain (v3 `codecs`; v2 `filters`
/// followed by `compressor`). The configuration is kept as its compact JSON
/// text, which is all the renderers show of it.
#[derive(Debug, Clone, PartialEq, Eq)]
pub struct CodecInfo {
    pub name: String,
    pub configuration: Option<String>,
}

/// Per-variable storage details — the payload behind `ncdump -s`'s
/// per-variable special attributes (`_Storage`, `_DeflateLevel`, ...).
#[derive(Debug, Clone, Default, PartialEq)]
pub struct StorageInfo {
    pub layout: Option<StorageLayout>,
    /// zlib/deflate level (netCDF-4), when the deflate filter is active.
    pub deflate_level: Option<u8>,
    pub shuffle: bool,
    pub fletcher32: bool,
    /// `None` when unknown, native, or meaningless.
    pub endianness: Option<Endianness>,
    /// netCDF "no fill" mode: unwritten values are not pre-filled.
    pub no_fill: bool,
    /// HDF5 filters other than deflate/shuffle/fletcher32 (netCDF-4).
    pub filters: Vec<FilterInfo>,
    /// Zarr codec chain, in application order.
    pub codecs: Vec<CodecInfo>,
    /// Zarr metadata-level fill value.
    pub fill_value: Option<AttrValue>,
    /// Zarr v2 memory order, `'C'` or `'F'`.
    pub order: Option<char>,
    /// Zarr chunk key encoding, e.g. `default/`, `v2.`.
    pub chunk_key_encoding: Option<String>,
}

/// One variable/array's structure.
#[derive(Debug, Clone, PartialEq)]
pub struct VarSummary {
    pub name: String,
    /// Human-readable dtype, e.g. `float32`, `int64`, `|S8`.
    pub dtype: String,
    pub dims: Vec<String>,
    pub shape: Vec<u64>,
    pub chunks: Option<Vec<u64>>,
    pub attrs: Vec<(String, AttrValue)>,
    /// Short inline value peek for small variables, already formatted.
    pub preview: Option<String>,
    /// How the variable is stored (only with storage details).
    pub storage: Option<StorageInfo>,
}

/// Attribute values, preserving enough type fidelity for faithful display.
///
/// The first six variants are the "wide" ones every reader can produce; the
/// rest keep the narrower numeric types netCDF attributes carry. `Float`
/// and `Float32` hold IEEE-754 bit patterns.
#[derive(Debug, Clone, PartialEq)]
pub enum AttrValue {
    Text(String),
    /// A 64-bit integer: netCDF `int64`, or any JSON integer.
    Int(i64),
    /// A 64-bit float (bit pattern): netCDF `double`, or a JSON non-integer.
    Float(u64),
    IntList(Vec<i64>),
    FloatList(Vec<u64>),
    TextList(Vec<String>),
    Int8(i8),
    UInt8(u8),
    Int16(i16),
    UInt16(u16),
    Int32(i32),
    UInt32(u32),
    UInt64(u64),
    /// A 32-bit float (bit pattern).
    Float32(u32),
    Int8List(Vec<i8>),
    UInt8List(Vec<u8>),
    Int16List(Vec<i16>),
    UInt16List(Vec<u16>),
    Int32List(Vec<i32>),
    UInt32List(Vec<u32>),
    UInt64List(Vec<u64>),
    Float32List(Vec<u32>),
}

/// The numeric type of an [`AttrValue`], for renderers that need to pick a
/// typed literal form.
#[derive(Debug, Clone, Copy, PartialEq, Eq, Structural)]
pub enum NumKind {
    I8,
    U8,
    I16,
    U16,
    I32,
    U32,
    I64,
    U64,
    F32,
    F64,
}

/// A borrowed view of one element of an [`AttrValue`], so renderers can
/// format scalars and list elements uniformly.
#[derive(Debug, Clone, Copy, PartialEq)]
pub enum AttrScalar<'a> {
    Text(&'a str),
    Int(i64),
    UInt(u64),
    /// A 32-bit float bit pattern.
    F32(u32),
    /// A 64-bit float bit pattern.
    F64(u64),
}

/// One snapshot in a version-controlled store's history.
#[derive(Debug, Clone, PartialEq, Eq)]
pub struct SnapshotInfo {
    pub id: String,
    pub message: Option<String>,
    /// RFC 3339 timestamp.
    pub wrote_at: Option<String>,
}

/// Version metadata for an Icechunk repo.
#[derive(Debug, Clone, PartialEq, Eq)]
pub struct VersionInfo {
    /// The name of the ref the summary was taken at (a branch name by
    /// default).
    pub branch: String,
    /// `branch`, `tag` or `snapshot`, when the reader records it.
    pub ref_kind: Option<String>,
    /// Every branch of the repo, sorted, when they were listed.
    pub branches: Vec<String>,
    /// Every tag of the repo, sorted, when they were listed.
    pub tags: Vec<String>,
    /// Newest first; the tip snapshot is `ancestry[0]`.
    pub ancestry: Vec<SnapshotInfo>,
    /// `true` if the ancestry walk was capped before reaching the repo's
    /// initial snapshot.
    pub truncated: bool,
}

/// Top-level summary of one dataset / store / repo.
#[derive(Debug, PartialEq)]
pub struct DatasetSummary {
    pub format: SourceFormat,
    pub root: GroupSummary,
    /// Present only for version-controlled stores (Icechunk).
    pub version_info: Option<VersionInfo>,
    /// File-level format details; only populated with storage details.
    pub file_info: Option<FileInfo>,
}

/// One group (netCDF-4/HDF5 group, Zarr group, DataTree node).
#[derive(Debug, PartialEq)]
pub struct GroupSummary {
    /// Group name; empty string for the root group.
    pub name: String,
    pub dims: Vec<DimInfo>,
    /// Variables classified as coordinates.
    pub coords: Vec<VarSummary>,
    pub data_vars: Vec<VarSummary>,
    pub attrs: Vec<(String, AttrValue)>,
    pub children: Vec<GroupSummary>,
    /// Every variable name in the reader's native order.
    pub var_order: Vec<String>,
}

/// The mathematical content of an [`AttrValue`]: strings as character
/// sequences, lists as sequences.
pub enum AttrValueV {
    Text(Seq<char>),
    Int(i64),
    Float(u64),
    IntList(Seq<i64>),
    FloatList(Seq<u64>),
    TextList(Seq<Seq<char>>),
    Int8(i8),
    UInt8(u8),
    Int16(i16),
    UInt16(u16),
    Int32(i32),
    UInt32(u32),
    UInt64(u64),
    Float32(u32),
    Int8List(Seq<i8>),
    UInt8List(Seq<u8>),
    Int16List(Seq<i16>),
    UInt16List(Seq<u16>),
    Int32List(Seq<i32>),
    UInt32List(Seq<u32>),
    UInt64List(Seq<u64>),
    Float32List(Seq<u32>),
}


impl View for AttrValue {
    type V = AttrValueV;

    open spec fn view(&self) -> AttrValueV {
        match self {
            AttrValue::Text(s) => AttrValueV::Text(s@),
            AttrValue::Int(i) => AttrValueV::Int(*i),
            AttrValue::Float(f) => AttrValueV::Float(*f),
            AttrValue::IntList(v) => AttrValueV::IntList(v@),
            AttrValue::FloatList(v) => AttrValueV::FloatList(v@),
            AttrValue::TextList(v) => AttrValueV::TextList(strings_view(v@)),
            AttrValue::Int8(i) => AttrValueV::Int8(*i),
            AttrValue::UInt8(i) => AttrValueV::UInt8(*i),
            AttrValue::Int16(i) => AttrValueV::Int16(*i),
            AttrValue::UInt16(i) => AttrValueV::UInt16(*i),
            AttrValue::Int32(i) => AttrValueV::Int32(*i),
            AttrValue::UInt32(i) => AttrValueV::UInt32(*i),
            AttrValue::UInt64(i) => AttrValueV::UInt64(*i),
            AttrValue::Float32(f) => AttrValueV::Float32(*f),
            AttrValue::Int8List(v) => AttrValueV::Int8List(v@),
            AttrValue::UInt8List(v) => AttrValueV::UInt8List(v@),
            AttrValue::Int16List(v) => AttrValueV::Int16List(v@),
            AttrValue::UInt16List(v) => AttrValueV::UInt16List(v@),
            AttrValue::Int32List(v) => AttrValueV::Int32List(v@),
            AttrValue::UInt32List(v) => AttrValueV::UInt32List(v@),
            AttrValue::UInt64List(v) => AttrValueV::UInt64List(v@),
            AttrValue::Float32List(v) => AttrValueV::Float32List(v@),
        }
    }
}

/// The mathematical content of one [`AttrScalar`].
pub enum ScalarV {
    Text(Seq<char>),
    Int(i64),
    UInt(u64),
    F32(u32),
    F64(u64),
}

impl<'a> View for AttrScalar<'a> {
    type V = ScalarV;

    open spec fn view(&self) -> ScalarV {
        match self {
            AttrScalar::Text(s) => ScalarV::Text(s@),
            AttrScalar::Int(i) => ScalarV::Int(*i),
            AttrScalar::UInt(u) => ScalarV::UInt(*u),
            AttrScalar::F32(f) => ScalarV::F32(*f),
            AttrScalar::F64(f) => ScalarV::F64(*f),
        }
    }
}

/// The numeric type of an attribute value, `None` for text.
pub open spec fn spec_num_kind(v: AttrValueV) -> Option<NumKind> {
    match v {
        AttrValueV::Text(_) | AttrValueV::TextList(_) => None,
        AttrValueV::Int(_) | AttrValueV::IntList(_) => Some(NumKind::I64),
        AttrValueV::Float(_) | AttrValueV::FloatList(_) => Some(NumKind::F64),
        AttrValueV::Int8(_) | AttrValueV::Int8List(_) => Some(NumKind::I8),
        AttrValueV::UInt8(_) | AttrValueV::UInt8List(_) => Some(NumKind::U8),
        AttrValueV::Int16(_) | AttrValueV::Int16List(_) => Some(NumKind::I16),
        AttrValueV::UInt16(_) | AttrValueV::UInt16List(_) => Some(NumKind::U16),
        AttrValueV::Int32(_) | AttrValueV::Int32List(_) => Some(NumKind::I32),
        AttrValueV::UInt32(_) | AttrValueV::UInt32List(_) => Some(NumKind::U32),
        AttrValueV::UInt64(_) | AttrValueV::UInt64List(_) => Some(NumKind::U64),
        AttrValueV::Float32(_) | AttrValueV::Float32List(_) => Some(NumKind::F32),
    }
}

/// Is the value one of the `*List` variants?
pub open spec fn spec_is_list(v: AttrValueV) -> bool {
    match v {
        AttrValueV::IntList(_) | AttrValueV::FloatList(_) | AttrValueV::TextList(_)
        | AttrValueV::Int8List(_) | AttrValueV::UInt8List(_) | AttrValueV::Int16List(_)
        | AttrValueV::UInt16List(_) | AttrValueV::Int32List(_) | AttrValueV::UInt32List(_)
        | AttrValueV::UInt64List(_) | AttrValueV::Float32List(_) => true,
        _ => false,
    }
}

/// Every element of an attribute value as a uniform scalar: one element for
/// the scalar variants, the list's elements (widened) otherwise.
pub open spec fn spec_scalars(v: AttrValueV) -> Seq<ScalarV> {
    match v {
        AttrValueV::Text(s) => seq![ScalarV::Text(s)],
        AttrValueV::TextList(l) => l.map_values(|s: Seq<char>| ScalarV::Text(s)),
        AttrValueV::Int(i) => seq![ScalarV::Int(i)],
        AttrValueV::IntList(l) => l.map_values(|i: i64| ScalarV::Int(i)),
        AttrValueV::Int8(i) => seq![ScalarV::Int(i as i64)],
        AttrValueV::Int8List(l) => l.map_values(|i: i8| ScalarV::Int(i as i64)),
        AttrValueV::Int16(i) => seq![ScalarV::Int(i as i64)],
        AttrValueV::Int16List(l) => l.map_values(|i: i16| ScalarV::Int(i as i64)),
        AttrValueV::Int32(i) => seq![ScalarV::Int(i as i64)],
        AttrValueV::Int32List(l) => l.map_values(|i: i32| ScalarV::Int(i as i64)),
        AttrValueV::UInt8(u) => seq![ScalarV::UInt(u as u64)],
        AttrValueV::UInt8List(l) => l.map_values(|u: u8| ScalarV::UInt(u as u64)),
        AttrValueV::UInt16(u) => seq![ScalarV::UInt(u as u64)],
        AttrValueV::UInt16List(l) => l.map_values(|u: u16| ScalarV::UInt(u as u64)),
        AttrValueV::UInt32(u) => seq![ScalarV::UInt(u as u64)],
        AttrValueV::UInt32List(l) => l.map_values(|u: u32| ScalarV::UInt(u as u64)),
        AttrValueV::UInt64(u) => seq![ScalarV::UInt(u)],
        AttrValueV::UInt64List(l) => l.map_values(|u: u64| ScalarV::UInt(u)),
        AttrValueV::Float32(f) => seq![ScalarV::F32(f)],
        AttrValueV::Float32List(l) => l.map_values(|f: u32| ScalarV::F32(f)),
        AttrValueV::Float(f) => seq![ScalarV::F64(f)],
        AttrValueV::FloatList(l) => l.map_values(|f: u64| ScalarV::F64(f)),
    }
}

/// The views of a list of scalars.
pub open spec fn scalars_view<'a>(v: Seq<AttrScalar<'a>>) -> Seq<ScalarV> {
    v.map_values(|s: AttrScalar<'a>| s@)
}

impl AttrValue {
    /// The numeric type, or `None` for text values.
    pub fn num_kind(&self) -> (r: Option<NumKind>)
        ensures
            r == spec_num_kind(self@),
    {
        match self {
            AttrValue::Text(_) | AttrValue::TextList(_) => None,
            AttrValue::Int(_) | AttrValue::IntList(_) => Some(NumKind::I64),
            AttrValue::Float(_) | AttrValue::FloatList(_) => Some(NumKind::F64),
            AttrValue::Int8(_) | AttrValue::Int8List(_) => Some(NumKind::I8),
            AttrValue::UInt8(_) | AttrValue::UInt8List(_) => Some(NumKind::U8),
            AttrValue::Int16(_) | AttrValue::Int16List(_) => Some(NumKind::I16),
            AttrValue::UInt16(_) | AttrValue::UInt16List(_) => Some(NumKind::U16),
            AttrValue::Int32(_) | AttrValue::Int32List(_) => Some(NumKind::I32),
            AttrValue::UInt32(_) | AttrValue::UInt32List(_) => Some(NumKind::U32),
            AttrValue::UInt64(_) | AttrValue::UInt64List(_) => Some(NumKind::U64),
            AttrValue::Float32(_) | AttrValue::Float32List(_) => Some(NumKind::F32),
        }
    }

    /// `true` for the `*List` variants, regardless of their length.
    pub fn is_list(&self) -> (r: bool)
        ensures
            r == spec_is_list(self@),
    {
        match self {
            AttrValue::IntList(_) | AttrValue::FloatList(_) | AttrValue::TextList(_)
            | AttrValue::Int8List(_) | AttrValue::UInt8List(_) | AttrValue::Int16List(_)
            | AttrValue::UInt16List(_) | AttrValue::Int32List(_) | AttrValue::UInt32List(_)
            | AttrValue::UInt64List(_) | AttrValue::Float32List(_) => true,
            _ => false,
        }
    }

    /// Number of elements: 1 for scalar variants, the list length otherwise.
    pub fn len(&self) -> (r: usize)
        ensures
            r == spec_scalars(self@).len(),
    {
        self.scalars().len()
    }

    /// `true` only for an empty list variant.
    pub fn is_empty(&self) -> (r: bool)
        ensures
            r == (spec_scalars(self@).len() == 0),
    {
        self.len() == 0
    }

    /// Every element as a uniform borrowed scalar (one element for the
    /// scalar variants).
    pub fn scalars(&self) -> (r: Vec<AttrScalar<'_>>)
        ensures
            scalars_view(r@) == spec_scalars(self@),
    {
        let mut out: Vec<AttrScalar<'_>> = Vec::new();
        match self {
            AttrValue::Text(x) => {
                out.push(AttrScalar::Text(x.as_str()));
                assert(scalars_view(out@) =~= spec_scalars(self@));
            },
            AttrValue::TextList(v) => {
                let mut i: usize = 0;
                while i < v.len()
                    invariant
                        i <= v.len(),
                        out@.len() == i,
                        forall|j: int| 0 <= j < i ==> #[trigger] out@[j]@ == ScalarV::Text(v@[j]@),
                    decreases v.len() - i,
                {
                    out.push(AttrScalar::Text(v[i].as_str()));
                    i = i + 1;
                }
                assert(scalars_view(out@) =~= spec_scalars(self@));
            },
            AttrValue::Int(x) => {
                out.push(AttrScalar::Int(*x));
                assert(scalars_view(out@) =~= spec_scalars(self@));
            },
            AttrValue::IntList(v) => {
                let mut i: usize = 0;
                while i < v.len()
                    invariant
                        i <= v.len(),
                        out@.len() == i,
                        forall|j: int| 0 <= j < i ==> #[trigger] out@[j]@ == ScalarV::Int(v@[j]),
                    decreases v.len() - i,
                {
                    out.push(AttrScalar::Int(v[i]));
                    i = i + 1;
                }
                assert(scalars_view(out@) =~= spec_scalars(self@));
            },
            AttrValue::Int8(x) => {
                out.push(AttrScalar::Int(*x as i64));
                assert(scalars_view(out@) =~= spec_scalars(self@));
            },
            AttrValue::Int8List(v) => {
                let mut i: usize = 0;
                while i < v.len()
                    invariant
                        i <= v.len(),
                        out@.len() == i,
                        forall|j: int| 0 <= j < i ==> #[trigger] out@[j]@ == ScalarV::Int(v@[j] as i64),
                    decreases v.len() - i,
                {
                    out.push(AttrScalar::Int(v[i] as i64));
                    i = i + 1;
                }
                assert(scalars_view(out@) =~= spec_scalars(self@));
            },
            AttrValue::Int16(x) => {
                out.push(AttrScalar::Int(*x as i64));
                assert(scalars_view(out@) =~= spec_scalars(self@));
            },
            AttrValue::Int16List(v) => {
                let mut i: usize = 0;
                while i < v.len()
                    invariant
                        i <= v.len(),
                        out@.len() == i,
                        forall|j: int| 0 <= j < i ==> #[trigger] out@[j]@ == ScalarV::Int(v@[j] as i64),
                    decreases v.len() - i,
                {
                    out.push(AttrScalar::Int(v[i] as i64));
                    i = i + 1;
                }
                assert(scalars_view(out@) =~= spec_scalars(self@));
            },
            AttrValue::Int32(x) => {
                out.push(AttrScalar::Int(*x as i64));
                assert(scalars_view(out@) =~= spec_scalars(self@));
            },
            AttrValue::Int32List(v) => {
                let mut i: usize = 0;
                while i < v.len()
                    invariant
                        i <= v.len(),
                        out@.len() == i,
                        forall|j: int| 0 <= j < i ==> #[trigger] out@[j]@ == ScalarV::Int(v@[j] as i64),
                    decreases v.len() - i,
                {
                    out.push(AttrScalar::Int(v[i] as i64));
                    i = i + 1;
                }
                assert(scalars_view(out@) =~= spec_scalars(self@));
            },
            AttrValue::UInt8(x) => {
                out.push(AttrScalar::UInt(*x as u64));
                assert(scalars_view(out@) =~= spec_scalars(self@));
            },
            AttrValue::UInt8List(v) => {
                let mut i: usize = 0;
                while i < v.len()
                    invariant
                        i <= v.len(),
                        out@.len() == i,
                        forall|j: int| 0 <= j < i ==> #[trigger] out@[j]@ == ScalarV::UInt(v@[j] as u64),
                    decreases v.len() - i,
                {
                    out.push(AttrScalar::UInt(v[i] as u64));
                    i = i + 1;
                }
                assert(scalars_view(out@) =~= spec_scalars(self@));
            },
            AttrValue::UInt16(x) => {
                out.push(AttrScalar::UInt(*x as u64));
                assert(scalars_view(out@) =~= spec_scalars(self@));
            },
            AttrValue::UInt16List(v) => {
                let mut i: usize = 0;
                while i < v.len()
                    invariant
                        i <= v.len(),
                        out@.len() == i,
                        forall|j: int| 0 <= j < i ==> #[trigger] out@[j]@ == ScalarV::UInt(v@[j] as u64),
                    decreases v.len() - i,
                {
                    out.push(AttrScalar::UInt(v[i] as u64));
                    i = i + 1;
                }
                assert(scalars_view(out@) =~= spec_scalars(self@));
            },
            AttrValue::UInt32(x) => {
                out.push(AttrScalar::UInt(*x as u64));
                assert(scalars_view(out@) =~= spec_scalars(self@));
            },
            AttrValue::UInt32List(v) => {
                let mut i: usize = 0;
                while i < v.len()
                    invariant
                        i <= v.len(),
                        out@.len() == i,
                        forall|j: int| 0 <= j < i ==> #[trigger] out@[j]@ == ScalarV::UInt(v@[j] as u64),
                    decreases v.len() - i,
                {
                    out.push(AttrScalar::UInt(v[i] as u64));
                    i = i + 1;
                }
                assert(scalars_view(out@) =~= spec_scalars(self@));
            },
            AttrValue::UInt64(x) => {
                out.push(AttrScalar::UInt(*x));
                assert(scalars_view(out@) =~= spec_scalars(self@));
            },
            AttrValue::UInt64List(v) => {
                let mut i: usize = 0;
                while i < v.len()
                    invariant
                        i <= v.len(),
                        out@.len() == i,
                        forall|j: int| 0 <= j < i ==> #[trigger] out@[j]@ == ScalarV::UInt(v@[j]),
                    decreases v.len() - i,
                {
                    out.push(AttrScalar::UInt(v[i]));
                    i = i + 1;
                }
                assert(scalars_view(out@) =~= spec_scalars(self@));
            },
            AttrValue::Float32(x) => {
                out.push(AttrScalar::F32(*x));
                assert(scalars_view(out@) =~= spec_scalars(self@));
            },
            AttrValue::Float32List(v) => {
                let mut i: usize = 0;
                while i < v.len()
                    invariant
                        i <= v.len(),
                        out@.len() == i,
                        forall|j: int| 0 <= j < i ==> #[trigger] out@[j]@ == ScalarV::F32(v@[j]),
                    decreases v.len() - i,
                {
                    out.push(AttrScalar::F32(v[i]));
                    i = i + 1;
                }
                assert(scalars_view(out@) =~= spec_scalars(self@));
            },
            AttrValue::Float(x) => {
                out.push(AttrScalar::F64(*x));
                assert(scalars_view(out@) =~= spec_scalars(self@));
            },
            AttrValue::FloatList(v) => {
                let mut i: usize = 0;
                while i < v.len()
                    invariant
                        i <= v.len(),
                        out@.len() == i,
                        forall|j: int| 0 <= j < i ==> #[trigger] out@[j]@ == ScalarV::F64(v@[j]),
                    decreases v.len() - i,
                {
                    out.push(AttrScalar::F64(v[i]));
                    i = i + 1;
                }
                assert(scalars_view(out@) =~= spec_scalars(self@));
            },
        }
        out
    }
}

} // verus!
