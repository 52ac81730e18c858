//! Mapping the model's numpy-style dtype strings to CDL type names.

use vstd::prelude::*;
use crate::text::{chars_of, parse_u64, parse_unsigned, starts_with, str_eq};

verus! {

/// The CDL type name for a numpy-style dtype.
pub open spec fn spec_cdl_type_name(d: Seq<char>) -> Seq<char> {
    if d == "float32"@ {
        "float"@
    } else if d == "float64"@ {
        "double"@
    } else if d == "int8"@ {
        "byte"@
    } else if d == "uint8"@ {
        "ubyte"@
    } else if d == "int16"@ {
        "short"@
    } else if d == "uint16"@ {
        "ushort"@
    } else if d == "int32"@ {
        "int"@
    } else if d == "uint32"@ {
        "uint"@
    } else if d == "int64"@ {
        "int64"@
    } else if d == "uint64"@ {
        "uint64"@
    } else if d == "object"@ {
        "string"@
    } else if "|S"@.is_prefix_of(d) {
        "char"@
    } else if "<U"@.is_prefix_of(d) || ">U"@.is_prefix_of(d) || "|U"@.is_prefix_of(d) {
        "string"@
    } else {
        d
    }
}

/// The CDL type name for a numpy-style dtype (`float32` → `float`,
/// `int8` → `byte`, `|S8` → `char`, `object`/`<U8` → `string`).
///
/// Types with no CDL equivalent (`bool`, `complex64`, `compound`,
/// `datetime64[ns]`, Zarr extension types) pass through verbatim: the output
/// then is not valid CDL for `ncgen`, but it says what the data is, which
/// is what a header dump is for.
pub fn cdl_type_name(dtype: &str) -> (r: &str)
    ensures
        r@ == spec_cdl_type_name(dtype@),
{
    if str_eq(dtype, "float32") {
        "float"
    } else if str_eq(dtype, "float64") {
        "double"
    } else if str_eq(dtype, "int8") {
        "byte"
    } else if str_eq(dtype, "uint8") {
        "ubyte"
    } else if str_eq(dtype, "int16") {
        "short"
    } else if str_eq(dtype, "uint16") {
        "ushort"
    } else if str_eq(dtype, "int32") {
        "int"
    } else if str_eq(dtype, "uint32") {
        "uint"
    } else if str_eq(dtype, "int64") {
        "int64"
    } else if str_eq(dtype, "uint64") {
        "uint64"
    } else if str_eq(dtype, "object") {
        "string"
    } else if starts_with(dtype, "|S") {
        "char"
    } else if starts_with(dtype, "<U") || starts_with(dtype, ">U") || starts_with(dtype, "|U") {
        "string"
    } else {
        dtype
    }
}

/// For a fixed-width bytes dtype (`|S8`), the width.
pub open spec fn spec_fixed_string_length(d: Seq<char>) -> Option<nat> {
    if "|S"@.is_prefix_of(d) {
        parse_unsigned(d.skip(2), u64::MAX as nat)
    } else {
        None
    }
}

/// For a fixed-width bytes dtype (`|S8`), the width; `None` otherwise.
pub fn fixed_string_length(dtype: &str) -> (r: Option<u64>)
    ensures
        match r {
            Some(n) => spec_fixed_string_length(dtype@) == Some(n as nat),
            None => spec_fixed_string_length(dtype@) is None,
        },
{
    if !starts_with(dtype, "|S") {
        return None;
    }
    let cs = chars_of(dtype);
    proof {
        reveal_strlit("|S");
    }
    let (_, rest) = cs.as_slice().split_at(2);
    assert(rest@ == dtype@.skip(2));
    parse_u64(rest)
}

} // verus!
