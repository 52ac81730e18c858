//! netCDF facts as the summaries report them: the numpy-style names of
//! variable types, the `ncdump -k` names of file formats, and which storage
//! details a variable's HDF5 pipeline reports.

use vstd::prelude::*;
use crate::text::owned;

verus! {

/// A netCDF variable's type, as far as its dtype string goes.
#[derive(Debug, Clone, PartialEq, Eq)]
pub enum NcVarType {
    F32,
    F64,
    I8,
    U8,
    I16,
    U16,
    I32,
    U32,
    I64,
    U64,
    /// `NC_CHAR`, the one-byte character type.
    Char,
    /// `NC_STRING`, the variable-length string type.
    String,
    /// A user-defined type, by its debug description.
    Other(String),
}

/// The dtype string of a netCDF variable type.
pub open spec fn spec_dtype_string(t: NcVarType) -> Seq<char> {
    match t {
        NcVarType::F32 => "float32"@,
        NcVarType::F64 => "float64"@,
        NcVarType::I8 => "int8"@,
        NcVarType::U8 => "uint8"@,
        NcVarType::I16 => "int16"@,
        NcVarType::U16 => "uint16"@,
        NcVarType::I32 => "int32"@,
        NcVarType::U32 => "uint32"@,
        NcVarType::I64 => "int64"@,
        NcVarType::U64 => "uint64"@,
        NcVarType::Char => "|S1"@,
        NcVarType::String => "object"@,
        NcVarType::Other(d) => d@,
    }
}

/// Numpy-style dtype string for a variable as stored (`float32`, `int64`,
/// `|S1`, ...), matching `ncdump`/`h5py` and xarray with
/// `decode_cf=False`.
///
/// `NC_CHAR` is a one-byte character type; a netCDF `char` array
/// conventionally uses its trailing dimension as a fixed string length,
/// which xarray's CF decoding collapses into `|S{len}` while dropping that
/// dimension. The summary reports dims and shape exactly as stored, so the
/// dtype matches that view: `|S1` over every dimension.
pub fn dtype_string(t: &NcVarType) -> (r: String)
    ensures
        r@ == spec_dtype_string(*t),
{
    match t {
        NcVarType::F32 => owned("float32"),
        NcVarType::F64 => owned("float64"),
        NcVarType::I8 => owned("int8"),
        NcVarType::U8 => owned("uint8"),
        NcVarType::I16 => owned("int16"),
        NcVarType::U16 => owned("uint16"),
        NcVarType::I32 => owned("int32"),
        NcVarType::U32 => owned("uint32"),
        NcVarType::I64 => owned("int64"),
        NcVarType::U64 => owned("uint64"),
        NcVarType::Char => owned("|S1"),
        NcVarType::String => owned("object"),
        NcVarType::Other(d) => d.clone(),
    }
}

/// Whether a netCDF variable's values get an inline preview: a 1-D
/// numeric variable of 1 to 64 values.
pub fn previewable(t: &NcVarType, dim_lens: &[u64]) -> (r: bool)
    ensures
        r == (dim_lens@.len() == 1 && 1 <= dim_lens@[0] <= 64 && match *t {
            NcVarType::Char | NcVarType::String | NcVarType::Other(_) => false,
            _ => true,
        }),
{
    if dim_lens.len() != 1 || dim_lens[0] == 0 || dim_lens[0] > 64 {
        return false;
    }
    match t {
        NcVarType::Char | NcVarType::String | NcVarType::Other(_) => false,
        _ => true,
    }
}

/// The on-disk formats libnetcdf reports for an open file.
#[derive(Debug, Clone, Copy, PartialEq, Eq, Structural)]
pub enum NcFormat {
    Classic,
    Offset64,
    Cdf5,
    NetCdf4,
    NetCdf4Classic,
    /// A format code this reader does not know.
    Unknown,
}

/// The `ncdump -k` name of a format.
pub open spec fn spec_format_kind(f: NcFormat) -> Seq<char> {
    match f {
        NcFormat::Classic => "classic"@,
        NcFormat::Offset64 => "64-bit offset"@,
        NcFormat::Cdf5 => "cdf5"@,
        NcFormat::NetCdf4 => "netCDF-4"@,
        NcFormat::NetCdf4Classic => "netCDF-4 classic model"@,
        NcFormat::Unknown => "unknown"@,
    }
}

/// The `ncdump -k` name of a file format: `classic`, `64-bit offset`,
/// `cdf5`, `netCDF-4`, `netCDF-4 classic model`, or `unknown`.
pub fn format_kind(f: NcFormat) -> (r: &'static str)
    ensures
        r@ == spec_format_kind(f),
{
    match f {
        NcFormat::Classic => "classic",
        NcFormat::Offset64 => "64-bit offset",
        NcFormat::Cdf5 => "cdf5",
        NcFormat::NetCdf4 => "netCDF-4",
        NcFormat::NetCdf4Classic => "netCDF-4 classic model",
        NcFormat::Unknown => "unknown",
    }
}

/// Is the file HDF5-based (netCDF-4, or netCDF-4 with the classic model)?
/// Only such files have chunking, compression, filters and byte order to
/// report, and the hidden `_NCProperties`-style attributes.
pub fn is_netcdf4_format(f: NcFormat) -> (r: bool)
    ensures
        r == (f == NcFormat::NetCdf4 || f == NcFormat::NetCdf4Classic),
{
    match f {
        NcFormat::NetCdf4 | NcFormat::NetCdf4Classic => true,
        _ => false,
    }
}

/// The HDF5 filter id of deflate (zlib).
pub const H5Z_FILTER_DEFLATE: u32 = 1;
/// The HDF5 filter id of the byte shuffle.
pub const H5Z_FILTER_SHUFFLE: u32 = 2;
/// The HDF5 filter id of the Fletcher-32 checksum.
pub const H5Z_FILTER_FLETCHER32: u32 = 3;

/// Does a filter in a variable's HDF5 pipeline get listed among its other
/// filters? Deflate, shuffle and Fletcher-32 do not: the storage report has
/// fields of their own for them.
pub fn is_listed_filter(id: u32) -> (r: bool)
    ensures
        r == (id != H5Z_FILTER_DEFLATE && id != H5Z_FILTER_SHUFFLE && id != H5Z_FILTER_FLETCHER32),
{
    id != H5Z_FILTER_DEFLATE && id != H5Z_FILTER_SHUFFLE && id != H5Z_FILTER_FLETCHER32
}

/// The deflate level a storage report shows: the level libnetcdf gives,
/// when deflate is on and the level fits in a byte.
pub fn deflate_level(deflate: bool, level: i32) -> (r: Option<u8>)
    ensures
        r == (if deflate && 0 <= level <= 255 {
            Some(level as u8)
        } else {
            None
        }),
{
    if deflate && 0 <= level && level <= 255 {
        Some(level as u8)
    } else {
        None
    }
}

/// Does a variable's byte order mean anything? Only for a type wider than
/// one byte.
pub fn byte_order_applies(type_size: usize) -> (r: bool)
    ensures
        r == (type_size > 1),
{
    type_size > 1
}

} // verus!
