//! JSON attribute values, as Zarr and Icechunk metadata carry them, and
//! their widening into [`AttrValue`].
//!
//! A reader hands over each JSON value as a [`JsonValue`]: the shape the
//! conversion looks at, plus the compact JSON text of the values that are
//! reported as text (objects, and lists that fit no typed list).

use vstd::prelude::*;
use base64::Engine;
use crate::model::{AttrValue, AttrValueV};
use crate::cdl::specials::attrs_view;
use crate::order::{Named, sort_by_key, sort_by_name};
use crate::text::{owned, str_eq, strings_view};

verus! {

/// One JSON value.
#[derive(Debug, Clone, PartialEq)]
pub enum JsonValue {
    Null,
    Bool(bool),
    /// A number: its value as an `i64` when it is an integer in range
    /// (`as_i64`), and the bit pattern of its value as an `f64` (`as_f64`).
    Number { integer: Option<i64>, bits: u64 },
    String(String),
    /// An array: what each item is, and the array's compact JSON text.
    Array { items: Vec<JsonItem>, text: String },
    /// An object, by its compact JSON text.
    Object { text: String },
}

/// One item of a JSON array, as far as the widening of the array looks at
/// it: a number, a string, or anything else.
#[derive(Debug, Clone, PartialEq)]
pub enum JsonItem {
    Number { integer: Option<i64>, bits: u64 },
    String(String),
    Other,
}

/// The integer an item is, if it is one that fits `i64`.
pub open spec fn as_int(v: JsonItem) -> Option<i64> {
    match v {
        JsonItem::Number { integer, .. } => integer,
        _ => None,
    }
}

/// The `f64` bit pattern of a number item.
pub open spec fn as_float(v: JsonItem) -> Option<u64> {
    match v {
        JsonItem::Number { bits, .. } => Some(bits),
        _ => None,
    }
}

/// The text of a string item.
pub open spec fn as_text(v: JsonItem) -> Option<Seq<char>> {
    match v {
        JsonItem::String(s) => Some(s@),
        _ => None,
    }
}

/// A JSON value widened into an attribute value. A number is an `Int`
/// when it is an integer that fits `i64`, else a `Float`; an array is the
/// narrowest homogeneous list it fits (integers, then numbers, then
/// strings; an empty array is an empty integer list), else its JSON text;
/// booleans, `null` and objects become their JSON text.
pub open spec fn spec_json_to_attr(v: JsonValue) -> AttrValueV {
    match v {
        JsonValue::String(s) => AttrValueV::Text(s@),
        JsonValue::Bool(b) => AttrValueV::Text(if b { "true"@ } else { "false"@ }),
        JsonValue::Number { integer, bits } => match integer {
            Some(i) => AttrValueV::Int(i),
            None => AttrValueV::Float(bits),
        },
        JsonValue::Array { items, text } => {
            let s = items@;
            if forall|i: int| 0 <= i < s.len() ==> (#[trigger] as_int(s[i])) is Some {
                AttrValueV::IntList(s.map_values(|x: JsonItem| as_int(x)->0))
            } else if forall|i: int| 0 <= i < s.len() ==> (#[trigger] as_float(s[i])) is Some {
                AttrValueV::FloatList(s.map_values(|x: JsonItem| as_float(x)->0))
            } else if forall|i: int| 0 <= i < s.len() ==> (#[trigger] as_text(s[i])) is Some {
                AttrValueV::TextList(s.map_values(|x: JsonItem| as_text(x)->0))
            } else {
                AttrValueV::Text(text@)
            }
        },
        JsonValue::Object { text } => AttrValueV::Text(text@),
        JsonValue::Null => AttrValueV::Text("null"@),
    }
}

/// Widens a JSON attribute value into an [`AttrValue`].
pub fn json_value_to_attr(value: &JsonValue) -> (r: AttrValue)
    ensures
        r@ == spec_json_to_attr(*value),
{
    match value {
        JsonValue::String(s) => AttrValue::Text(s.clone()),
        JsonValue::Bool(b) => AttrValue::Text(if *b { owned("true") } else { owned("false") }),
        JsonValue::Number { integer, bits } => match integer {
            Some(i) => AttrValue::Int(*i),
            None => AttrValue::Float(*bits),
        },
        JsonValue::Array { items, text } => {
            let ghost s = items@;
            let mut ints: Vec<i64> = Vec::new();
            let mut all_ints = true;
            let mut i: usize = 0;
            while i < items.len()
                invariant
                    i <= items.len(),
                    s == items@,
                    all_ints ==> ints@ == s.take(i as int).map_values(|x: JsonItem| as_int(x)->0),
                    all_ints == forall|j: int| 0 <= j < i ==> (#[trigger] as_int(s[j])) is Some,
                decreases items.len() - i,
            {
                match &items[i] {
                    JsonItem::Number { integer: Some(n), .. } => {
                        if all_ints {
                            ints.push(*n);
                            assert(s.take(i + 1).map_values(|x: JsonItem| as_int(x)->0)
                                =~= s.take(i as int).map_values(|x: JsonItem| as_int(x)->0).push(*n));
                        }
                    },
                    _ => {
                        all_ints = false;
                    },
                }
                proof {
                    assert(as_int(s[i as int]) == as_int(items@[i as int]));
                    if as_int(items@[i as int]) is None {
                        assert(!all_ints);
                    }
                }
                i = i + 1;
            }
            if all_ints {
                assert(s.take(s.len() as int) =~= s);
                return AttrValue::IntList(ints);
            }
            let mut floats: Vec<u64> = Vec::new();
            let mut all_floats = true;
            let mut i: usize = 0;
            while i < items.len()
                invariant
                    i <= items.len(),
                    s == items@,
                    all_floats ==> floats@ == s.take(i as int).map_values(|x: JsonItem| as_float(x)->0),
                    all_floats == forall|j: int| 0 <= j < i ==> (#[trigger] as_float(s[j])) is Some,
                decreases items.len() - i,
            {
                match &items[i] {
                    JsonItem::Number { bits, .. } => {
                        if all_floats {
                            floats.push(*bits);
                            assert(s.take(i + 1).map_values(|x: JsonItem| as_float(x)->0)
                                =~= s.take(i as int).map_values(|x: JsonItem| as_float(x)->0).push(*bits));
                        }
                    },
                    _ => {
                        all_floats = false;
                    },
                }
                proof {
                    assert(as_float(s[i as int]) == as_float(items@[i as int]));
                    if as_float(items@[i as int]) is None {
                        assert(!all_floats);
                    }
                }
                i = i + 1;
            }
            if all_floats {
                assert(s.take(s.len() as int) =~= s);
                return AttrValue::FloatList(floats);
            }
            let mut texts: Vec<String> = Vec::new();
            let mut all_texts = true;
            let mut i: usize = 0;
            while i < items.len()
                invariant
                    i <= items.len(),
                    s == items@,
                    all_texts ==> strings_view(texts@) == s.take(i as int).map_values(|x: JsonItem| as_text(x)->0),
                    all_texts == forall|j: int| 0 <= j < i ==> (#[trigger] as_text(s[j])) is Some,
                decreases items.len() - i,
            {
                match &items[i] {
                    JsonItem::String(t) => {
                        if all_texts {
                            let ghost before = strings_view(texts@);
                            texts.push(t.clone());
                            assert(strings_view(texts@) =~= before.push(t@));
                            assert(s.take(i + 1).map_values(|x: JsonItem| as_text(x)->0)
                                =~= s.take(i as int).map_values(|x: JsonItem| as_text(x)->0).push(t@));
                        }
                    },
                    _ => {
                        all_texts = false;
                    },
                }
                proof {
                    assert(as_text(s[i as int]) == as_text(items@[i as int]));
                    if as_text(items@[i as int]) is None {
                        assert(!all_texts);
                    }
                }
                i = i + 1;
            }
            if all_texts {
                assert(s.take(s.len() as int) =~= s);
                return AttrValue::TextList(texts);
            }
            AttrValue::Text(text.clone())
        },
        JsonValue::Object { text } => AttrValue::Text(text.clone()),
        JsonValue::Null => AttrValue::Text(owned("null")),
    }
}

/// What standard base64 decoding (the RFC 4648 alphabet, with padding)
/// gives for a text, or `None` when the text is not valid base64.
pub uninterp spec fn base64_standard(text: Seq<char>) -> Option<Seq<u8>>;

/// `base64::engine::general_purpose::STANDARD.decode`. The contract names
/// the result and claims only that it depends on the text alone; what the
/// decoding is, is left to the crate.
#[verifier::external_body]
fn decode_base64(text: &str) -> (r: Option<Vec<u8>>)
    ensures
        match r {
            Some(b) => base64_standard(text@) == Some(b@),
            None => base64_standard(text@) is None,
        },
{
    base64::engine::general_purpose::STANDARD.decode(text).ok()
}

/// The unsigned number whose little-endian bytes are `b`.
pub open spec fn le_value(b: Seq<u8>) -> nat
    decreases b.len(),
{
    if b.len() == 0 {
        0
    } else {
        b[0] as nat + 256 * le_value(b.drop_first())
    }
}

/// `256^n`.
pub open spec fn pow256(n: nat) -> nat
    decreases n,
{
    if n == 0 {
        1
    } else {
        256 * pow256((n - 1) as nat)
    }
}

/// `256^a <= 256^b` when `a <= b`.
proof fn lemma_pow256_mono(a: nat, b: nat)
    requires
        a <= b,
    ensures
        1 <= pow256(a) <= pow256(b),
    decreases b,
{
    if b > 0 {
        if a < b {
            lemma_pow256_mono(a, (b - 1) as nat);
        } else {
            lemma_pow256_mono((a - 1) as nat, (b - 1) as nat);
        }
    }
}

/// A little-endian number's value stays below `256^len`.
proof fn lemma_le_value_bound(b: Seq<u8>)
    ensures
        le_value(b) < pow256(b.len()),
    decreases b.len(),
{
    if b.len() > 0 {
        lemma_le_value_bound(b.drop_first());
    }
}

/// The number whose little-endian bytes are `b` (at most eight).
fn le_u64(b: &[u8]) -> (r: u64)
    requires
        b@.len() <= 8,
    ensures
        r == le_value(b@),
{
    let mut v: u64 = 0;
    let mut i: usize = b.len();
    proof {
        assert(pow256(8) == 0x1_0000_0000_0000_0000) by {
            reveal_with_fuel(pow256, 9);
        }
    }
    while i > 0
        invariant
            i <= b@.len(),
            b@.len() <= 8,
            v == le_value(b@.skip(i as int)),
            pow256(8) == 0x1_0000_0000_0000_0000,
        decreases i,
    {
        proof {
            assert(b@.skip(i - 1).drop_first() =~= b@.skip(i as int));
            lemma_le_value_bound(b@.skip(i - 1));
            lemma_pow256_mono(b@.skip(i - 1).len(), 8);
        }
        v = b[i - 1] as u64 + 256 * v;
        i = i - 1;
    }
    assert(b@.skip(0) =~= b@);
    v
}

/// A float decoded from its little-endian bytes, as zarr-python writes a
/// `_FillValue` it cannot spell in JSON (NaN and the infinities): four
/// bytes are a `float32`, eight a `float64`, anything else is not one.
pub open spec fn spec_float_fill(bytes: Option<Seq<u8>>) -> Option<AttrValueV> {
    match bytes {
        Some(b) => if b.len() == 4 {
            Some(AttrValueV::Float32(le_value(b) as u32))
        } else if b.len() == 8 {
            Some(AttrValueV::Float(le_value(b) as u64))
        } else {
            None
        },
        None => None,
    }
}

/// A `_FillValue` that zarr-python wrote as the base64 of a float's
/// little-endian bytes (see [`spec_float_fill`]). Any other attribute,
/// a value that is not text, or text that is not base64 is not one.
pub open spec fn spec_base64_fill(key: Seq<char>, v: JsonValue) -> Option<AttrValueV> {
    if key != "_FillValue"@ {
        None
    } else {
        match v {
            JsonValue::String(s) => spec_float_fill(base64_standard(s@)),
            _ => None,
        }
    }
}

/// The bytes of an optional buffer.
pub open spec fn opt_bytes(b: Option<Vec<u8>>) -> Option<Seq<u8>> {
    match b {
        Some(v) => Some(v@),
        None => None,
    }
}

/// The float fill value that decoded base64 bytes hold (see
/// [`spec_float_fill`]).
pub fn float_fill_from_bytes(bytes: Option<Vec<u8>>) -> (r: Option<AttrValue>)
    ensures
        match r {
            Some(a) => spec_float_fill(opt_bytes(bytes)) == Some(a@),
            None => spec_float_fill(opt_bytes(bytes)) is None,
        },
{
    let bytes = match bytes {
        Some(b) => b,
        None => return None,
    };
    if bytes.len() == 4 {
        let v = le_u64(bytes.as_slice());
        proof {
            lemma_le_value_bound(bytes@);
            assert(pow256(4) == 0x1_0000_0000) by {
                reveal_with_fuel(pow256, 5);
            }
        }
        Some(AttrValue::Float32(v as u32))
    } else if bytes.len() == 8 {
        Some(AttrValue::Float(le_u64(bytes.as_slice())))
    } else {
        None
    }
}

/// A JSON string keeps its text, and a JSON integer in `i64` range stays
/// that integer; any other number keeps its `f64` bits.
pub proof fn lemma_json_scalars_keep_their_value(t: String, integer: Option<i64>, bits: u64)
    ensures
        spec_json_to_attr(JsonValue::String(t)) == AttrValueV::Text(t@),
        integer matches Some(i) ==> spec_json_to_attr(JsonValue::Number { integer, bits }) == AttrValueV::Int(i),
        integer is None ==> spec_json_to_attr(JsonValue::Number { integer, bits }) == AttrValueV::Float(bits),
{
}

/// A JSON boolean becomes its JSON spelling as text, so the two booleans
/// stay apart: `false` is `"false"` and `true` is `"true"`.
pub proof fn lemma_json_booleans_keep_their_spelling(a: bool, b: bool)
    ensures
        spec_json_to_attr(JsonValue::Bool(false)) == AttrValueV::Text("false"@),
        spec_json_to_attr(JsonValue::Bool(true)) == AttrValueV::Text("true"@),
        (spec_json_to_attr(JsonValue::Bool(a)) == spec_json_to_attr(JsonValue::Bool(b))) <==> a == b,
{
    reveal_strlit("false");
    reveal_strlit("true");
    assert("false"@.len() != "true"@.len());
}

/// Decodes a base64-encoded float `_FillValue` (see [`spec_base64_fill`]),
/// so that previews show `NaN` rather than base64 noise.
pub fn decode_base64_float_attr(key: &str, value: &JsonValue) -> (r: Option<AttrValue>)
    ensures
        match r {
            Some(a) => spec_base64_fill(key@, *value) == Some(a@),
            None => spec_base64_fill(key@, *value) is None,
        },
{
    if !str_eq(key, "_FillValue") {
        return None;
    }
    match value {
        JsonValue::String(s) => float_fill_from_bytes(decode_base64(s.as_str())),
        _ => None,
    }
}

impl Named for (String, AttrValue) {
    open spec fn key(&self) -> Seq<char> {
        self.0@
    }

    fn name_str(&self) -> (r: &str) {
        self.0.as_str()
    }
}

/// The attribute one JSON member becomes.
pub open spec fn member_attr(key: Seq<char>, v: JsonValue) -> AttrValueV {
    match spec_base64_fill(key, v) {
        Some(a) => a,
        None => spec_json_to_attr(v),
    }
}

/// A JSON object's members as attributes: `_ARRAY_DIMENSIONS` (Zarr v2's
/// dimension names, not an attribute) left out, each value widened, and
/// the attributes sorted by name.
pub fn json_object_to_attrs(map: &Vec<(String, JsonValue)>) -> (r: Vec<(String, AttrValue)>)
    ensures
        exists|unsorted: Seq<(String, AttrValue)>| {
            &&& r@ == sort_by_key(unsorted)
            &&& attrs_view(unsorted) == map@.filter(|m: (String, JsonValue)| m.0@ != "_ARRAY_DIMENSIONS"@)
                .map_values(|m: (String, JsonValue)| (m.0@, member_attr(m.0@, m.1)))
        },
{
    let ghost kept = map@.filter(|m: (String, JsonValue)| m.0@ != "_ARRAY_DIMENSIONS"@);
    let mut out: Vec<(String, AttrValue)> = Vec::new();
    let mut i: usize = 0;
    proof {
        assert(map@.take(0).filter(|m: (String, JsonValue)| m.0@ != "_ARRAY_DIMENSIONS"@) =~= Seq::empty());
        assert(attrs_view(out@) =~= Seq::empty());
    }
    while i < map.len()
        invariant
            i <= map.len(),
            attrs_view(out@) == map@.take(i as int).filter(|m: (String, JsonValue)| m.0@ != "_ARRAY_DIMENSIONS"@)
                .map_values(|m: (String, JsonValue)| (m.0@, member_attr(m.0@, m.1))),
        decreases map.len() - i,
    {
        let (k, v) = &map[i];
        let ghost before = attrs_view(out@);
        proof {
            assert(map@.take(i + 1).drop_last() =~= map@.take(i as int));
            map@.take(i as int).lemma_filter_push(map@[i as int], |m: (String, JsonValue)| m.0@ != "_ARRAY_DIMENSIONS"@);
            assert(map@.take(i + 1) =~= map@.take(i as int).push(map@[i as int]));
        }
        if !str_eq(k.as_str(), "_ARRAY_DIMENSIONS") {
            let attr = match decode_base64_float_attr(k.as_str(), v) {
                Some(a) => a,
                None => json_value_to_attr(v),
            };
            out.push((k.clone(), attr));
            proof {
                assert(attrs_view(out@) =~= before.push((k@, member_attr(k@, *v))));
            }
        }
        i = i + 1;
    }
    proof {
        assert(map@.take(map.len() as int) =~= map@);
    }
    let ghost unsorted = out@;
    sort_by_name(out)
}

} // verus!
