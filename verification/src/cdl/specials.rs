//! The "special" virtual attributes `ncdump -s` appends: per-variable
//! storage details and file-level format details, presented as attributes
//! so the output stays CDL.
//!
//! NetCDF names follow ncdump exactly (`_Storage`, `_ChunkSizes`,
//! `_DeflateLevel`, `_Shuffle`, `_Fletcher32`, `_Endianness`, `_Filter`,
//! `_NoFill`, `_Format`, `_NCProperties`, `_SuperblockVersion`,
//! `_IsNetcdf4`). Zarr and Icechunk have no ncdump precedent, so their
//! extras use the same leading-underscore style: `_Codecs`, `_Order`,
//! `_ChunkKeyEncoding`, `_StringLength`, and `_Icechunk*` for the version
//! history.

use vstd::prelude::*;
use crate::cdl::types::{fixed_string_length, spec_fixed_string_length};
use crate::model::{AttrValue, AttrValueV, CodecInfo, DatasetSummary, Endianness, FileInfo,
    FilterInfo, SnapshotInfo, SourceFormat, StorageInfo, StorageLayout, VarSummary, VersionInfo};
use crate::text::{dec, join, join_strings, owned, push_char, push_str, str_eq, strings_view,
    u64_to_string};

verus! {

/// Attribute lists by value.
pub open spec fn attrs_view(a: Seq<(String, AttrValue)>) -> Seq<(Seq<char>, AttrValueV)> {
    a.map_values(|p: (String, AttrValue)| (p.0@, p.1@))
}

/// A copy of a vector of plain values.
pub fn copy_vec<T: Copy>(v: &Vec<T>) -> (r: Vec<T>)
    ensures
        r@ == v@,
{
    let mut r: Vec<T> = Vec::new();
    let mut i: usize = 0;
    while i < v.len()
        invariant
            i <= v.len(),
            r@ == v@.take(i as int),
        decreases v.len() - i,
    {
        r.push(v[i]);
        assert(v@.take(i + 1) == v@.take(i as int).push(v@[i as int]));
        i = i + 1;
    }
    assert(v@.take(v.len() as int) == v@);
    r
}

/// A copy of a vector of strings.
pub fn copy_strings(v: &Vec<String>) -> (r: Vec<String>)
    ensures
        strings_view(r@) == strings_view(v@),
{
    let mut r: Vec<String> = Vec::new();
    let mut i: usize = 0;
    while i < v.len()
        invariant
            i <= v.len(),
            r@.len() == i,
            forall|j: int| 0 <= j < i ==> #[trigger] r@[j]@ == v@[j]@,
        decreases v.len() - i,
    {
        r.push(v[i].clone());
        i = i + 1;
    }
    assert(strings_view(r@) =~= strings_view(v@));
    r
}

/// A copy of an attribute value.
pub fn copy_attr_value(v: &AttrValue) -> (r: AttrValue)
    ensures
        r@ == v@,
{
    match v {
        AttrValue::Text(s) => AttrValue::Text(s.clone()),
        AttrValue::Int(x) => AttrValue::Int(*x),
        AttrValue::Float(x) => AttrValue::Float(*x),
        AttrValue::IntList(l) => AttrValue::IntList(copy_vec(l)),
        AttrValue::FloatList(l) => AttrValue::FloatList(copy_vec(l)),
        AttrValue::TextList(l) => AttrValue::TextList(copy_strings(l)),
        AttrValue::Int8(x) => AttrValue::Int8(*x),
        AttrValue::UInt8(x) => AttrValue::UInt8(*x),
        AttrValue::Int16(x) => AttrValue::Int16(*x),
        AttrValue::UInt16(x) => AttrValue::UInt16(*x),
        AttrValue::Int32(x) => AttrValue::Int32(*x),
        AttrValue::UInt32(x) => AttrValue::UInt32(*x),
        AttrValue::UInt64(x) => AttrValue::UInt64(*x),
        AttrValue::Float32(x) => AttrValue::Float32(*x),
        AttrValue::Int8List(l) => AttrValue::Int8List(copy_vec(l)),
        AttrValue::UInt8List(l) => AttrValue::UInt8List(copy_vec(l)),
        AttrValue::Int16List(l) => AttrValue::Int16List(copy_vec(l)),
        AttrValue::UInt16List(l) => AttrValue::UInt16List(copy_vec(l)),
        AttrValue::Int32List(l) => AttrValue::Int32List(copy_vec(l)),
        AttrValue::UInt32List(l) => AttrValue::UInt32List(copy_vec(l)),
        AttrValue::UInt64List(l) => AttrValue::UInt64List(copy_vec(l)),
        AttrValue::Float32List(l) => AttrValue::Float32List(copy_vec(l)),
    }
}

/// A list of sizes as ncdump prints them: `int`, or `int64` when one does
/// not fit.
pub open spec fn spec_int_list(values: Seq<u64>) -> AttrValueV {
    if forall|i: int| 0 <= i < values.len() ==> #[trigger] values[i] <= i32::MAX {
        AttrValueV::Int32List(values.map_values(|v: u64| v as i32))
    } else {
        AttrValueV::IntList(values.map_values(|v: u64| v as i64))
    }
}

/// ncdump prints these as `int`; fall back to `int64` only when a value
/// does not fit.
pub fn int_list(values: &[u64]) -> (r: AttrValue)
    ensures
        r@ == spec_int_list(values@),
{
    let mut fits = true;
    let mut i: usize = 0;
    while i < values.len()
        invariant
            i <= values.len(),
            fits == (forall|j: int| 0 <= j < i ==> #[trigger] values@[j] <= i32::MAX),
        decreases values.len() - i,
    {
        if values[i] > i32::MAX as u64 {
            fits = false;
        }
        i = i + 1;
    }
    if fits {
        let mut out: Vec<i32> = Vec::new();
        let mut k: usize = 0;
        while k < values.len()
            invariant
                k <= values.len(),
                forall|j: int| 0 <= j < values.len() ==> #[trigger] values@[j] <= i32::MAX,
                out@ == values@.take(k as int).map_values(|v: u64| v as i32),
            decreases values.len() - k,
        {
            out.push(values[k] as i32);
            assert(values@.take(k + 1).map_values(|v: u64| v as i32)
                =~= values@.take(k as int).map_values(|v: u64| v as i32).push(values@[k as int] as i32));
            k = k + 1;
        }
        assert(values@.take(values.len() as int) == values@);
        AttrValue::Int32List(out)
    } else {
        let mut out: Vec<i64> = Vec::new();
        let mut k: usize = 0;
        while k < values.len()
            invariant
                k <= values.len(),
                out@ == values@.take(k as int).map_values(|v: u64| v as i64),
            decreases values.len() - k,
        {
            out.push(values[k] as i64);
            assert(values@.take(k + 1).map_values(|v: u64| v as i64)
                =~= values@.take(k as int).map_values(|v: u64| v as i64).push(values@[k as int] as i64));
            k = k + 1;
        }
        assert(values@.take(values.len() as int) == values@);
        AttrValue::IntList(out)
    }
}

/// One filter as ncdump's `_Filter` spells it: `id,p1,p2`.
pub open spec fn filter_text(f: FilterInfo) -> Seq<char> {
    join(seq![dec(f.id as nat)] + f.params@.map_values(|p: u32| dec(p as nat)), seq![','])
}

/// The whole `_Filter` value: `id,p1|id2,...`.
pub open spec fn filters_text(fs: Seq<FilterInfo>) -> Seq<char> {
    join(fs.map_values(|f: FilterInfo| filter_text(f)), seq!['|'])
}

/// One codec as `_Codecs` lists it: `name(configuration)` or `name`.
pub open spec fn codec_text(c: CodecInfo) -> Seq<char> {
    match c.configuration {
        Some(cfg) => c.name@ + seq!['('] + cfg@ + seq![')'],
        None => c.name@,
    }
}

/// Does the variable carry a `_FillValue` attribute of its own?
pub open spec fn has_fill_attr(var: VarSummary) -> bool {
    exists|j: int| 0 <= j < var.attrs@.len() && #[trigger] var.attrs@[j].0@ == "_FillValue"@
}

/// A text attribute.
pub open spec fn text_attr(name: Seq<char>, text: Seq<char>) -> Seq<(Seq<char>, AttrValueV)> {
    seq![(name, AttrValueV::Text(text))]
}

/// A `"true"` flag attribute, present when `on`.
pub open spec fn flag_attr(on: bool, name: Seq<char>) -> Seq<(Seq<char>, AttrValueV)> {
    if on { text_attr(name, "true"@) } else { Seq::empty() }
}

/// The name of a storage layout.
pub open spec fn layout_name(l: StorageLayout) -> Seq<char> {
    match l {
        StorageLayout::Chunked => "chunked"@,
        StorageLayout::Contiguous => "contiguous"@,
        StorageLayout::Compact => "compact"@,
    }
}

/// `_Storage` and, for chunked variables with known chunks, `_ChunkSizes`.
pub open spec fn layout_specials(st: StorageInfo, var: VarSummary) -> Seq<(Seq<char>, AttrValueV)> {
    match st.layout {
        Some(l) => text_attr("_Storage"@, layout_name(l)) + (match var.chunks {
            Some(c) => if l == StorageLayout::Chunked {
                seq![("_ChunkSizes"@, spec_int_list(c@))]
            } else {
                Seq::empty()
            },
            None => Seq::empty(),
        }),
        None => Seq::empty(),
    }
}

/// `_DeflateLevel`.
pub open spec fn deflate_special(st: StorageInfo) -> Seq<(Seq<char>, AttrValueV)> {
    match st.deflate_level {
        Some(level) => seq![("_DeflateLevel"@, AttrValueV::Int32(level as i32))],
        None => Seq::empty(),
    }
}

/// `_Endianness`.
pub open spec fn endian_special(st: StorageInfo) -> Seq<(Seq<char>, AttrValueV)> {
    match st.endianness {
        Some(Endianness::Little) => text_attr("_Endianness"@, "little"@),
        Some(Endianness::Big) => text_attr("_Endianness"@, "big"@),
        None => Seq::empty(),
    }
}

/// `_Filter`.
pub open spec fn filter_special(st: StorageInfo) -> Seq<(Seq<char>, AttrValueV)> {
    if st.filters@.len() > 0 {
        text_attr("_Filter"@, filters_text(st.filters@))
    } else {
        Seq::empty()
    }
}

/// `_Codecs`.
pub open spec fn codecs_special(st: StorageInfo) -> Seq<(Seq<char>, AttrValueV)> {
    if st.codecs@.len() > 0 {
        seq![("_Codecs"@, AttrValueV::TextList(st.codecs@.map_values(|c: CodecInfo| codec_text(c))))]
    } else {
        Seq::empty()
    }
}

/// `_FillValue` from the metadata, unless the variable has its own.
pub open spec fn fill_special(st: StorageInfo, var: VarSummary) -> Seq<(Seq<char>, AttrValueV)> {
    match st.fill_value {
        Some(fill) => if has_fill_attr(var) { Seq::empty() } else { seq![("_FillValue"@, fill@)] },
        None => Seq::empty(),
    }
}

/// `_Order`.
pub open spec fn order_special(st: StorageInfo) -> Seq<(Seq<char>, AttrValueV)> {
    match st.order {
        Some(o) => text_attr("_Order"@, seq![o]),
        None => Seq::empty(),
    }
}

/// `_ChunkKeyEncoding`.
pub open spec fn cke_special(st: StorageInfo) -> Seq<(Seq<char>, AttrValueV)> {
    match st.chunk_key_encoding {
        Some(e) => text_attr("_ChunkKeyEncoding"@, e@),
        None => Seq::empty(),
    }
}

/// `_StringLength`, for fixed-width strings outside netCDF.
pub open spec fn strlen_special(var: VarSummary, format: SourceFormat) -> Seq<(Seq<char>, AttrValueV)> {
    if format != SourceFormat::NetCdf && format != SourceFormat::Hdf5 {
        match spec_fixed_string_length(var.dtype@) {
            Some(w) => seq![("_StringLength"@, spec_int_list(seq![w as u64]))],
            None => Seq::empty(),
        }
    } else {
        Seq::empty()
    }
}

/// The netCDF part of the per-variable specials, in ncdump's order.
pub open spec fn netcdf_specials(st: StorageInfo, var: VarSummary) -> Seq<(Seq<char>, AttrValueV)> {
    layout_specials(st, var) + deflate_special(st) + flag_attr(st.shuffle, "_Shuffle"@)
        + flag_attr(st.fletcher32, "_Fletcher32"@) + endian_special(st) + filter_special(st)
        + flag_attr(st.no_fill, "_NoFill"@)
}

/// The Zarr / Icechunk part of the per-variable specials.
pub open spec fn zarr_specials(st: StorageInfo, var: VarSummary, format: SourceFormat) -> Seq<(Seq<char>, AttrValueV)> {
    codecs_special(st) + fill_special(st, var) + order_special(st) + cke_special(st)
        + strlen_special(var, format)
}

/// The special attributes of one variable, in ncdump's order.
#[verifier::opaque]
pub open spec fn spec_var_specials(var: VarSummary, format: SourceFormat) -> Seq<(Seq<char>, AttrValueV)> {
    match var.storage {
        None => Seq::empty(),
        Some(st) => netcdf_specials(st, var) + zarr_specials(st, var, format),
    }
}

/// No attribute of `s` is named `n`.
pub open spec fn avoids_name(s: Seq<(Seq<char>, AttrValueV)>, n: Seq<char>) -> bool {
    forall|i: int| 0 <= i < s.len() ==> #[trigger] s[i].0 != n
}

proof fn lemma_avoids_concat(a: Seq<(Seq<char>, AttrValueV)>, b: Seq<(Seq<char>, AttrValueV)>, n: Seq<char>)
    requires
        avoids_name(a, n),
        avoids_name(b, n),
    ensures
        avoids_name(a + b, n),
{
    assert forall|i: int| 0 <= i < (a + b).len() implies #[trigger] (a + b)[i].0 != n by {
        if i < a.len() {
            assert((a + b)[i] == a[i]);
        } else {
            assert((a + b)[i] == b[i - a.len()]);
        }
    }
}

/// Only the `_Endianness` special carries that name: every other special
/// of a variable is named otherwise.
proof fn lemma_other_specials_avoid_endianness(st: StorageInfo, var: VarSummary, format: SourceFormat)
    ensures
        avoids_name(layout_specials(st, var) + deflate_special(st) + flag_attr(st.shuffle, "_Shuffle"@)
            + flag_attr(st.fletcher32, "_Fletcher32"@), "_Endianness"@),
        avoids_name(filter_special(st) + flag_attr(st.no_fill, "_NoFill"@) + zarr_specials(st, var, format),
            "_Endianness"@),
{
    let n = "_Endianness"@;
    reveal_strlit("_Endianness");
    assert(n.len() == 11 && n[1] == 'E');
    reveal_strlit("_Storage");
    assert("_Storage"@.len() == 8);
    reveal_strlit("_ChunkSizes");
    assert("_ChunkSizes"@[1] == 'C');
    reveal_strlit("_DeflateLevel");
    assert("_DeflateLevel"@.len() == 13);
    reveal_strlit("_Shuffle");
    assert("_Shuffle"@.len() == 8);
    reveal_strlit("_Fletcher32");
    assert("_Fletcher32"@[1] == 'F');
    reveal_strlit("_Filter");
    assert("_Filter"@.len() == 7);
    reveal_strlit("_NoFill");
    assert("_NoFill"@.len() == 7);
    reveal_strlit("_Codecs");
    assert("_Codecs"@.len() == 7);
    reveal_strlit("_FillValue");
    assert("_FillValue"@.len() == 10);
    reveal_strlit("_Order");
    assert("_Order"@.len() == 6);
    reveal_strlit("_ChunkKeyEncoding");
    assert("_ChunkKeyEncoding"@.len() == 17);
    reveal_strlit("_StringLength");
    assert("_StringLength"@.len() == 13);
    let l = layout_specials(st, var);
    assert(avoids_name(l, n));
    assert(avoids_name(deflate_special(st), n));
    assert(avoids_name(flag_attr(st.shuffle, "_Shuffle"@), n));
    assert(avoids_name(flag_attr(st.fletcher32, "_Fletcher32"@), n));
    lemma_avoids_concat(l, deflate_special(st), n);
    lemma_avoids_concat(l + deflate_special(st), flag_attr(st.shuffle, "_Shuffle"@), n);
    lemma_avoids_concat(l + deflate_special(st) + flag_attr(st.shuffle, "_Shuffle"@),
        flag_attr(st.fletcher32, "_Fletcher32"@), n);
    assert(avoids_name(filter_special(st), n));
    assert(avoids_name(flag_attr(st.no_fill, "_NoFill"@), n));
    assert(avoids_name(codecs_special(st), n));
    assert(avoids_name(fill_special(st, var), n));
    assert(avoids_name(order_special(st), n));
    assert(avoids_name(cke_special(st), n));
    assert(avoids_name(strlen_special(var, format), n));
    lemma_avoids_concat(codecs_special(st), fill_special(st, var), n);
    lemma_avoids_concat(codecs_special(st) + fill_special(st, var), order_special(st), n);
    lemma_avoids_concat(codecs_special(st) + fill_special(st, var) + order_special(st), cke_special(st), n);
    lemma_avoids_concat(codecs_special(st) + fill_special(st, var) + order_special(st) + cke_special(st),
        strlen_special(var, format), n);
    lemma_avoids_concat(filter_special(st), flag_attr(st.no_fill, "_NoFill"@), n);
    lemma_avoids_concat(filter_special(st) + flag_attr(st.no_fill, "_NoFill"@), zarr_specials(st, var, format), n);
}

/// In `pre + e + post`, where neither `pre` nor `post` names an attribute
/// `n`, every attribute named `n` is one of `e`'s.
proof fn lemma_named_only_in_middle(
    pre: Seq<(Seq<char>, AttrValueV)>,
    e: Seq<(Seq<char>, AttrValueV)>,
    post: Seq<(Seq<char>, AttrValueV)>,
    n: Seq<char>,
)
    requires
        avoids_name(pre, n),
        avoids_name(post, n),
    ensures
        forall|i: int| 0 <= i < (pre + e + post).len() && (#[trigger] (pre + e + post)[i]).0 == n
            ==> pre.len() <= i < pre.len() + e.len() && (pre + e + post)[i] == e[i - pre.len()],
        e.len() > 0 ==> (pre + e + post)[pre.len() as int] == e[0],
{
    let sp = pre + e + post;
    assert forall|i: int| 0 <= i < sp.len() && (#[trigger] sp[i]).0 == n
        implies pre.len() <= i < pre.len() + e.len() && sp[i] == e[i - pre.len()] by {
        if i < pre.len() {
            assert(sp[i] == pre[i]);
        } else if i >= pre.len() + e.len() {
            assert(sp[i] == post[i - pre.len() - e.len()]);
        }
    }
}

/// The specials of a stored variable, split around `_Endianness`.
proof fn lemma_var_specials_split(var: VarSummary, format: SourceFormat)
    requires
        var.storage is Some,
    ensures
        spec_var_specials(var, format) == (layout_specials(var.storage->0, var) + deflate_special(var.storage->0)
            + flag_attr(var.storage->0.shuffle, "_Shuffle"@) + flag_attr(var.storage->0.fletcher32, "_Fletcher32"@))
            + endian_special(var.storage->0) + (filter_special(var.storage->0)
            + flag_attr(var.storage->0.no_fill, "_NoFill"@) + zarr_specials(var.storage->0, var, format)),
{
    reveal(spec_var_specials);
    let st = var.storage->0;
    let a = layout_specials(st, var) + deflate_special(st) + flag_attr(st.shuffle, "_Shuffle"@)
        + flag_attr(st.fletcher32, "_Fletcher32"@);
    let b = endian_special(st);
    let c = filter_special(st);
    let d = flag_attr(st.no_fill, "_NoFill"@);
    let z = zarr_specials(st, var, format);
    assert(a + b + c + d + z =~= a + b + (c + d + z));
}

/// The `_Endianness` special names the byte order the storage records:
/// `little` for a little-endian variable, `big` for a big-endian one, and
/// it is there exactly when a byte order is recorded.
pub proof fn lemma_endianness_special_names_the_recorded_order(var: VarSummary, format: SourceFormat)
    requires
        var.storage is Some,
    ensures
        forall|i: int| 0 <= i < spec_var_specials(var, format).len()
            && (#[trigger] spec_var_specials(var, format)[i]).0 == "_Endianness"@ ==> match var.storage->0.endianness {
                Some(Endianness::Little) => spec_var_specials(var, format)[i].1 == AttrValueV::Text("little"@),
                Some(Endianness::Big) => spec_var_specials(var, format)[i].1 == AttrValueV::Text("big"@),
                None => false,
            },
        var.storage->0.endianness == Some(Endianness::Little)
            ==> spec_var_specials(var, format).contains(("_Endianness"@, AttrValueV::Text("little"@))),
        var.storage->0.endianness == Some(Endianness::Big)
            ==> spec_var_specials(var, format).contains(("_Endianness"@, AttrValueV::Text("big"@))),
{
    let st = var.storage->0;
    lemma_other_specials_avoid_endianness(st, var, format);
    lemma_var_specials_split(var, format);
    let pre = layout_specials(st, var) + deflate_special(st) + flag_attr(st.shuffle, "_Shuffle"@)
        + flag_attr(st.fletcher32, "_Fletcher32"@);
    let e = endian_special(st);
    let post = filter_special(st) + flag_attr(st.no_fill, "_NoFill"@) + zarr_specials(st, var, format);
    lemma_named_only_in_middle(pre, e, post, "_Endianness"@);
    let sp = spec_var_specials(var, format);
    assert(sp == pre + e + post);
    if st.endianness is Some {
        assert(sp[pre.len() as int] == e[0]);
        assert(sp.contains(e[0]));
    }
}

/// Appends a text attribute.
pub(crate) fn push_text(out: &mut Vec<(String, AttrValue)>, name: &str, text: String)
    ensures
        attrs_view(final(out)@) == attrs_view(old(out)@) + seq![(name@, AttrValueV::Text(text@))],
{
    out.push((owned(name), AttrValue::Text(text)));
    assert(attrs_view(final(out)@) =~= attrs_view(old(out)@) + seq![(name@, AttrValueV::Text(text@))]);
}

/// Appends any attribute.
pub(crate) fn push_attr(out: &mut Vec<(String, AttrValue)>, name: &str, value: AttrValue)
    ensures
        attrs_view(final(out)@) == attrs_view(old(out)@) + seq![(name@, value@)],
{
    out.push((owned(name), value));
    assert(attrs_view(final(out)@) =~= attrs_view(old(out)@) + seq![(name@, value@)]);
}

/// The `_Filter` text of one filter.
fn filter_string(f: &FilterInfo) -> (r: String)
    ensures
        r@ == filter_text(*f),
{
    let mut parts: Vec<String> = Vec::new();
    parts.push(u64_to_string(f.id as u64));
    let mut i: usize = 0;
    while i < f.params.len()
        invariant
            i <= f.params.len(),
            parts@.len() == i + 1,
            parts@[0]@ == dec(f.id as nat),
            forall|j: int| 0 <= j < i ==> #[trigger] parts@[j + 1]@ == dec(f.params@[j] as nat),
        decreases f.params.len() - i,
    {
        parts.push(u64_to_string(f.params[i] as u64));
        i = i + 1;
    }
    let ghost want = seq![dec(f.id as nat)] + f.params@.map_values(|p: u32| dec(p as nat));
    assert forall|j: int| 0 <= j < want.len() implies strings_view(parts@)[j] == want[j] by {
        if j > 0 {
            assert(parts@[(j - 1) + 1]@ == dec(f.params@[j - 1] as nat));
        }
    }
    assert(strings_view(parts@) =~= want);
    proof {
        reveal_strlit(",");
        assert(","@ =~= seq![',']);
    }
    join_strings(parts.as_slice(), ",")
}

/// The whole `_Filter` text.
fn filters_string(fs: &Vec<FilterInfo>) -> (r: String)
    ensures
        r@ == filters_text(fs@),
{
    let mut parts: Vec<String> = Vec::new();
    let mut i: usize = 0;
    while i < fs.len()
        invariant
            i <= fs.len(),
            parts@.len() == i,
            forall|j: int| 0 <= j < i ==> #[trigger] parts@[j]@ == filter_text(fs@[j]),
        decreases fs.len() - i,
    {
        parts.push(filter_string(&fs[i]));
        i = i + 1;
    }
    assert(strings_view(parts@) =~= fs@.map_values(|f: FilterInfo| filter_text(f)));
    proof {
        reveal_strlit("|");
        assert("|"@ =~= seq!['|']);
    }
    join_strings(parts.as_slice(), "|")
}

/// The `_Codecs` list.
fn codec_strings(cs: &Vec<CodecInfo>) -> (r: Vec<String>)
    ensures
        strings_view(r@) == cs@.map_values(|c: CodecInfo| codec_text(c)),
{
    let mut out: Vec<String> = Vec::new();
    let mut i: usize = 0;
    while i < cs.len()
        invariant
            i <= cs.len(),
            out@.len() == i,
            forall|j: int| 0 <= j < i ==> #[trigger] out@[j]@ == codec_text(cs@[j]),
        decreases cs.len() - i,
    {
        let c = &cs[i];
        let mut t = c.name.clone();
        match &c.configuration {
            Some(cfg) => {
                push_char(&mut t, '(');
                push_str(&mut t, cfg.as_str());
                push_char(&mut t, ')');
            },
            None => {},
        }
        assert(t@ =~= codec_text(cs@[i as int]));
        out.push(t);
        i = i + 1;
    }
    assert(strings_view(out@) =~= cs@.map_values(|c: CodecInfo| codec_text(c)));
    out
}

/// Does `var` have an attribute named `_FillValue`?
fn has_fill_attribute(var: &VarSummary) -> (r: bool)
    ensures
        r == has_fill_attr(*var),
{
    let mut i: usize = 0;
    while i < var.attrs.len()
        invariant
            i <= var.attrs.len(),
            forall|j: int| 0 <= j < i ==> #[trigger] var.attrs@[j].0@ != "_FillValue"@,
        decreases var.attrs.len() - i,
    {
        if str_eq(var.attrs[i].0.as_str(), "_FillValue") {
            return true;
        }
        i = i + 1;
    }
    false
}

/// The netCDF part of a variable's specials.
fn netcdf_specials_of(storage: &StorageInfo, var: &VarSummary) -> (r: Vec<(String, AttrValue)>)
    ensures
        attrs_view(r@) == netcdf_specials(*storage, *var),
{
    let ghost st = *storage;
    let mut out: Vec<(String, AttrValue)> = Vec::new();
    if let Some(layout) = storage.layout {
        let name = match layout {
            StorageLayout::Chunked => "chunked",
            StorageLayout::Contiguous => "contiguous",
            StorageLayout::Compact => "compact",
        };
        push_text(&mut out, "_Storage", owned(name));
        if layout == StorageLayout::Chunked {
            if let Some(chunks) = &var.chunks {
                push_attr(&mut out, "_ChunkSizes", int_list(chunks.as_slice()));
            }
        }
    }
    let ghost acc = layout_specials(st, *var);
    assert(attrs_view(out@) =~= acc);
    if let Some(level) = storage.deflate_level {
        push_attr(&mut out, "_DeflateLevel", AttrValue::Int32(level as i32));
    }
    let ghost acc = acc + deflate_special(st);
    assert(attrs_view(out@) =~= acc);
    if storage.shuffle {
        push_text(&mut out, "_Shuffle", owned("true"));
    }
    let ghost acc = acc + flag_attr(st.shuffle, "_Shuffle"@);
    assert(attrs_view(out@) =~= acc);
    if storage.fletcher32 {
        push_text(&mut out, "_Fletcher32", owned("true"));
    }
    let ghost acc = acc + flag_attr(st.fletcher32, "_Fletcher32"@);
    assert(attrs_view(out@) =~= acc);
    match storage.endianness {
        Some(Endianness::Little) => push_text(&mut out, "_Endianness", owned("little")),
        Some(Endianness::Big) => push_text(&mut out, "_Endianness", owned("big")),
        None => {},
    }
    let ghost acc = acc + endian_special(st);
    assert(attrs_view(out@) =~= acc);
    if storage.filters.len() > 0 {
        push_text(&mut out, "_Filter", filters_string(&storage.filters));
    }
    let ghost acc = acc + filter_special(st);
    assert(attrs_view(out@) =~= acc);
    if storage.no_fill {
        push_text(&mut out, "_NoFill", owned("true"));
    }
    let ghost acc = acc + flag_attr(st.no_fill, "_NoFill"@);
    assert(attrs_view(out@) =~= acc);
    out
}

/// The Zarr / Icechunk part of a variable's specials.
fn zarr_specials_of(storage: &StorageInfo, var: &VarSummary, format: SourceFormat) -> (r: Vec<(String, AttrValue)>)
    ensures
        attrs_view(r@) == zarr_specials(*storage, *var, format),
{
    let ghost st = *storage;
    let mut out: Vec<(String, AttrValue)> = Vec::new();
    if storage.codecs.len() > 0 {
        push_attr(&mut out, "_Codecs", AttrValue::TextList(codec_strings(&storage.codecs)));
    }
    let ghost acc = codecs_special(st);
    assert(attrs_view(out@) =~= acc);
    if let Some(fill) = &storage.fill_value {
        if !has_fill_attribute(var) {
            push_attr(&mut out, "_FillValue", copy_attr_value(fill));
        }
    }
    let ghost acc = acc + fill_special(st, *var);
    assert(attrs_view(out@) =~= acc);
    if let Some(order) = storage.order {
        let mut t = String::new();
        push_char(&mut t, order);
        assert(t@ =~= seq![order]);
        push_text(&mut out, "_Order", t);
    }
    let ghost acc = acc + order_special(st);
    assert(attrs_view(out@) =~= acc);
    if let Some(encoding) = &storage.chunk_key_encoding {
        push_text(&mut out, "_ChunkKeyEncoding", encoding.clone());
    }
    let ghost acc = acc + cke_special(st);
    assert(attrs_view(out@) =~= acc);
    if format != SourceFormat::NetCdf && format != SourceFormat::Hdf5 {
        if let Some(width) = fixed_string_length(var.dtype.as_str()) {
            let one = vec![width];
            assert(one@ =~= seq![width]);
            push_attr(&mut out, "_StringLength", int_list(one.as_slice()));
        }
    }
    let ghost acc = acc + strlen_special(*var, format);
    assert(attrs_view(out@) =~= acc);
    out
}

/// Special attributes for one variable, in ncdump's order, given the
/// dataset's format.
pub fn var_specials(var: &VarSummary, format: SourceFormat) -> (r: Vec<(String, AttrValue)>)
    ensures
        attrs_view(r@) == spec_var_specials(*var, format),
{
    match &var.storage {
        Some(storage) => {
            let mut out = netcdf_specials_of(storage, var);
            let mut zarr = zarr_specials_of(storage, var, format);
            let ghost a = out@;
            let ghost b = zarr@;
            out.append(&mut zarr);
            assert(attrs_view(out@) =~= attrs_view(a) + attrs_view(b));
            proof {
                reveal(spec_var_specials);
            }
            out
        },
        None => {
            let out: Vec<(String, AttrValue)> = Vec::new();
            assert(attrs_view(out@) =~= Seq::<(Seq<char>, AttrValueV)>::empty());
            proof {
                reveal(spec_var_specials);
            }
            out
        },
    }
}

/// The `ncdump -k` kind string: the reader's precise file kind when it
/// recorded one, else the coarse format family.
pub open spec fn spec_kind_string(summary: DatasetSummary) -> Seq<char> {
    match summary.file_info {
        Some(info) => info.kind@,
        None => match summary.format {
            SourceFormat::NetCdf => "netCDF"@,
            SourceFormat::Hdf5 => "HDF5"@,
            SourceFormat::ZarrV2 => "Zarr v2"@,
            SourceFormat::ZarrV3 => "Zarr v3"@,
            SourceFormat::Icechunk => "Icechunk"@,
            SourceFormat::Grib => "GRIB"@,
        },
    }
}

/// The `ncdump -k` kind string: the reader's precise file kind when it
/// recorded one (`netCDF-4`, `classic`, `Zarr v3`, ...), else the coarse
/// format family.
pub fn kind_string(summary: &DatasetSummary) -> (r: String)
    ensures
        r@ == spec_kind_string(*summary),
{
    if let Some(info) = &summary.file_info {
        return info.kind.clone();
    }
    owned(match summary.format {
        SourceFormat::NetCdf => "netCDF",
        SourceFormat::Hdf5 => "HDF5",
        SourceFormat::ZarrV2 => "Zarr v2",
        SourceFormat::ZarrV3 => "Zarr v3",
        SourceFormat::Icechunk => "Icechunk",
        SourceFormat::Grib => "GRIB",
    })
}

/// The netCDF-4 file details as special attributes.
pub open spec fn info_specials(info: FileInfo) -> Seq<(Seq<char>, AttrValueV)> {
    (match info.nc_properties {
        Some(p) => text_attr("_NCProperties"@, p@),
        None => Seq::empty(),
    }) + (match info.superblock_version {
        Some(v) => seq![("_SuperblockVersion"@, AttrValueV::Int32(v))],
        None => Seq::empty(),
    }) + (match info.is_netcdf4 {
        Some(b) => seq![("_IsNetcdf4"@, AttrValueV::Int32(if b { 1i32 } else { 0i32 }))],
        None => Seq::empty(),
    })
}

/// The tip snapshot of an Icechunk history as special attributes.
pub open spec fn tip_specials(tip: SnapshotInfo) -> Seq<(Seq<char>, AttrValueV)> {
    text_attr("_IcechunkSnapshot"@, tip.id@) + (match tip.message {
        Some(m) => text_attr("_IcechunkMessage"@, m@),
        None => Seq::empty(),
    }) + (match tip.wrote_at {
        Some(w) => text_attr("_IcechunkWroteAt"@, w@),
        None => Seq::empty(),
    })
}

/// Icechunk version information as special attributes.
pub open spec fn version_specials(v: VersionInfo) -> Seq<(Seq<char>, AttrValueV)> {
    text_attr("_IcechunkBranch"@, v.branch@) + if v.ancestry@.len() > 0 {
        tip_specials(v.ancestry@[0])
    } else {
        Seq::empty()
    }
}

/// The global special attributes of a dataset.
#[verifier::opaque]
pub open spec fn spec_global_specials(summary: DatasetSummary) -> Seq<(Seq<char>, AttrValueV)> {
    text_attr("_Format"@, spec_kind_string(summary)) + (match summary.file_info {
        Some(info) => info_specials(info),
        None => Seq::empty(),
    }) + (match summary.version_info {
        Some(v) => version_specials(v),
        None => Seq::empty(),
    })
}

/// Special global attributes: the format kind, netCDF-4 provenance, and
/// Icechunk version information.
pub fn global_specials(summary: &DatasetSummary) -> (r: Vec<(String, AttrValue)>)
    ensures
        attrs_view(r@) == spec_global_specials(*summary),
{
    let mut out: Vec<(String, AttrValue)> = Vec::new();
    assert(attrs_view(out@) =~= Seq::<(Seq<char>, AttrValueV)>::empty());
    push_text(&mut out, "_Format", kind_string(summary));
    let ghost after_format = attrs_view(out@);
    if let Some(info) = &summary.file_info {
        if let Some(props) = &info.nc_properties {
            push_text(&mut out, "_NCProperties", props.clone());
        }
        let ghost a1 = attrs_view(out@);
        if let Some(version) = info.superblock_version {
            push_attr(&mut out, "_SuperblockVersion", AttrValue::Int32(version));
        }
        let ghost a2 = attrs_view(out@);
        if let Some(is_nc4) = info.is_netcdf4 {
            push_attr(&mut out, "_IsNetcdf4", AttrValue::Int32(if is_nc4 { 1 } else { 0 }));
        }
        assert(attrs_view(out@) =~= after_format + info_specials(*info));
    }
    let ghost after_info = attrs_view(out@);
    if let Some(version) = &summary.version_info {
        push_text(&mut out, "_IcechunkBranch", version.branch.clone());
        if version.ancestry.len() > 0 {
            let tip = &version.ancestry[0];
            push_text(&mut out, "_IcechunkSnapshot", tip.id.clone());
            let ghost s1 = attrs_view(out@);
            if let Some(message) = &tip.message {
                push_text(&mut out, "_IcechunkMessage", message.clone());
            }
            let ghost s2 = attrs_view(out@);
            if let Some(wrote_at) = &tip.wrote_at {
                push_text(&mut out, "_IcechunkWroteAt", wrote_at.clone());
            }
            assert(attrs_view(out@) =~= after_info + version_specials(*version));
        }
    }
    proof {
        reveal(spec_global_specials);
    }
    assert(attrs_view(out@) =~= spec_global_specials(*summary));
    out
}

} // verus!
