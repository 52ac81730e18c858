use gridlook::json::{decode_base64_float_attr, json_object_to_attrs, json_value_to_attr, JsonItem, JsonValue};
use gridlook::model::AttrValue;
use gridlook::nctype::{dtype_string, previewable, NcVarType};
use gridlook::zarr::{too_deep, walk_refusal_message, WalkGuard, WalkRefusal, MAX_GROUP_DEPTH};

fn whole(i: i64) -> JsonValue {
    JsonValue::Number { integer: Some(i), bits: (i as f64).to_bits() }
}

fn float(f: f64) -> JsonValue {
    JsonValue::Number { integer: None, bits: f.to_bits() }
}

fn item_int(i: i64) -> JsonItem {
    JsonItem::Number { integer: Some(i), bits: (i as f64).to_bits() }
}

fn item_float(f: f64) -> JsonItem {
    JsonItem::Number { integer: None, bits: f.to_bits() }
}

#[test]
fn numbers_are_ints_when_they_fit() {
    assert_eq!(json_value_to_attr(&whole(42)), AttrValue::Int(42));
    assert_eq!(json_value_to_attr(&float(2.5)), AttrValue::Float(2.5f64.to_bits()));
    assert_eq!(json_value_to_attr(&JsonValue::Bool(true)), AttrValue::Text("true".to_string()));
    assert_eq!(json_value_to_attr(&JsonValue::Null), AttrValue::Text("null".to_string()));
    assert_eq!(
        json_value_to_attr(&JsonValue::Object { text: "{\"a\":1}".to_string() }),
        AttrValue::Text("{\"a\":1}".to_string())
    );
}

#[test]
fn arrays_take_the_narrowest_list_they_fit() {
    let ints = JsonValue::Array { items: vec![item_int(1), item_int(2)], text: "[1,2]".to_string() };
    assert_eq!(json_value_to_attr(&ints), AttrValue::IntList(vec![1, 2]));

    let mixed = JsonValue::Array { items: vec![item_int(1), item_float(2.5)], text: "[1,2.5]".to_string() };
    assert_eq!(
        json_value_to_attr(&mixed),
        AttrValue::FloatList(vec![1.0f64.to_bits(), 2.5f64.to_bits()])
    );

    let texts = JsonValue::Array {
        items: vec![JsonItem::String("a".to_string()), JsonItem::String("b".to_string())],
        text: "[\"a\",\"b\"]".to_string(),
    };
    assert_eq!(json_value_to_attr(&texts), AttrValue::TextList(vec!["a".to_string(), "b".to_string()]));

    let other = JsonValue::Array { items: vec![item_int(1), JsonItem::Other], text: "[1,true]".to_string() };
    assert_eq!(json_value_to_attr(&other), AttrValue::Text("[1,true]".to_string()));

    let empty = JsonValue::Array { items: vec![], text: "[]".to_string() };
    assert_eq!(json_value_to_attr(&empty), AttrValue::IntList(vec![]));
}

#[test]
fn base64_fill_values_keep_their_width() {
    let nan64 = JsonValue::String("AAAAAAAA+H8=".to_string());
    assert_eq!(decode_base64_float_attr("_FillValue", &nan64), Some(AttrValue::Float(f64::NAN.to_bits())));
    let nan32 = JsonValue::String("AADAfw==".to_string());
    assert_eq!(decode_base64_float_attr("_FillValue", &nan32), Some(AttrValue::Float32(f32::NAN.to_bits())));
    assert_eq!(decode_base64_float_attr("units", &nan64), None);
    assert_eq!(decode_base64_float_attr("_FillValue", &JsonValue::String("not base64!".to_string())), None);
    assert_eq!(decode_base64_float_attr("_FillValue", &JsonValue::String("AAAA".to_string())), None);
}

#[test]
fn object_members_become_sorted_attributes() {
    let map = vec![
        ("units".to_string(), JsonValue::String("K".to_string())),
        ("_ARRAY_DIMENSIONS".to_string(), JsonValue::Object { text: "[\"x\"]".to_string() }),
        ("_FillValue".to_string(), JsonValue::String("AAAAAAAA+H8=".to_string())),
        ("long_name".to_string(), JsonValue::String("temperature".to_string())),
    ];
    let attrs = json_object_to_attrs(&map);
    let names: Vec<&str> = attrs.iter().map(|(k, _)| k.as_str()).collect();
    assert_eq!(names, vec!["_FillValue", "long_name", "units"]);
    assert_eq!(attrs[0].1, AttrValue::Float(f64::NAN.to_bits()));
}

#[test]
fn netcdf_types_have_numpy_names() {
    assert_eq!(dtype_string(&NcVarType::F32), "float32");
    assert_eq!(dtype_string(&NcVarType::U64), "uint64");
    assert_eq!(dtype_string(&NcVarType::Char), "|S1");
    assert_eq!(dtype_string(&NcVarType::String), "object");
    assert_eq!(dtype_string(&NcVarType::Other("Compound".to_string())), "Compound");
    assert!(previewable(&NcVarType::F64, &[10]));
    assert!(!previewable(&NcVarType::F64, &[65]));
    assert!(!previewable(&NcVarType::F64, &[0]));
    assert!(!previewable(&NcVarType::I32, &[2, 3]));
    assert!(!previewable(&NcVarType::Char, &[8]));
}

#[test]
fn walks_refuse_loops_and_runaway_depth() {
    let mut guard = WalkGuard::new();
    assert_eq!(guard.enter("/store".to_string()), Ok(()));
    assert_eq!(guard.enter("/store/g".to_string()), Ok(()));
    assert_eq!(guard.enter("/store".to_string()), Err(WalkRefusal::Loop));
    guard.leave();
    assert_eq!(guard.ancestors, vec!["/store".to_string()]);
    assert_eq!(guard.enter("/store/h".to_string()), Ok(()));

    let mut deep = WalkGuard::new();
    for i in 0..MAX_GROUP_DEPTH {
        assert_eq!(deep.enter(format!("/g{i}")), Ok(()));
    }
    assert_eq!(deep.enter("/one-more".to_string()), Err(WalkRefusal::TooDeep));
    assert!(too_deep(MAX_GROUP_DEPTH + 1));
    assert!(!too_deep(MAX_GROUP_DEPTH));
    assert_eq!(
        walk_refusal_message(WalkRefusal::Loop, "/store"),
        "symlink loop: resolves to the enclosing group /store"
    );
    assert_eq!(walk_refusal_message(WalkRefusal::TooDeep, "/x"), "group nesting deeper than 64 levels");
}

use gridlook::flat::child_groups;

#[test]
fn flat_paths_rebuild_nested_and_implicit_groups() {
    let paths: Vec<String> = ["", "g", "g/arr", "h/deep/x", "top"].iter().map(|s| s.to_string()).collect();
    let groups = vec![true, true, false, false, false];
    assert_eq!(child_groups(&paths, &groups, ""), vec!["g".to_string(), "h".to_string()]);
    assert!(child_groups(&paths, &groups, "g").is_empty());
    assert_eq!(child_groups(&paths, &groups, "h"), vec!["h/deep".to_string()]);
}

use gridlook::store::MemoryStore;

#[test]
fn memory_stores_read_back_what_was_written() {
    let mut store = MemoryStore::new("mem://store");
    store.insert("zarr.json", b"{}");
    store.insert("g/zarr.json", b"{\"node_type\":\"group\"}");
    store.insert("g/arr/zarr.json", b"a");
    store.insert("top.txt", b"t");
    store.insert("zarr.json", b"{\"zarr_format\":3}");
    assert_eq!(store.get("zarr.json"), Some(b"{\"zarr_format\":3}".to_vec()));
    assert_eq!(store.get("missing"), None);
    let keys: Vec<&str> = store.entries.iter().map(|(k, _)| k.as_str()).collect();
    assert_eq!(keys, vec!["g/arr/zarr.json", "g/zarr.json", "top.txt", "zarr.json"]);

    let (dirs, files) = store.list_dir("").expect("a listing");
    assert_eq!(dirs, vec!["g".to_string()]);
    assert_eq!(files, vec!["top.txt".to_string(), "zarr.json".to_string()]);
    let (dirs, files) = store.list_dir("g").expect("a listing");
    assert_eq!(dirs, vec!["arr".to_string()]);
    assert_eq!(files, vec!["zarr.json".to_string()]);

    store.can_list = false;
    assert!(store.list_dir("").is_none());
}

use gridlook::nctype::{byte_order_applies, deflate_level, format_kind, is_listed_filter, is_netcdf4_format, NcFormat};

#[test]
fn netcdf_formats_have_ncdump_kind_names() {
    assert_eq!(format_kind(NcFormat::Classic), "classic");
    assert_eq!(format_kind(NcFormat::Offset64), "64-bit offset");
    assert_eq!(format_kind(NcFormat::Cdf5), "cdf5");
    assert_eq!(format_kind(NcFormat::NetCdf4), "netCDF-4");
    assert_eq!(format_kind(NcFormat::NetCdf4Classic), "netCDF-4 classic model");
    assert_eq!(format_kind(NcFormat::Unknown), "unknown");
    assert!(is_netcdf4_format(NcFormat::NetCdf4));
    assert!(is_netcdf4_format(NcFormat::NetCdf4Classic));
    assert!(!is_netcdf4_format(NcFormat::Cdf5));
}

#[test]
fn hdf5_pipeline_details_are_reported_once() {
    assert!(!is_listed_filter(1));
    assert!(!is_listed_filter(2));
    assert!(!is_listed_filter(3));
    assert!(is_listed_filter(32015));
    assert_eq!(deflate_level(true, 4), Some(4));
    assert_eq!(deflate_level(false, 4), None);
    assert_eq!(deflate_level(true, 300), None);
    assert_eq!(deflate_level(true, -1), None);
    assert!(!byte_order_applies(1));
    assert!(byte_order_applies(4));
}

#[test]
fn base64_fill_value_keeps_float32_width() {
    assert_eq!(
        decode_base64_float_attr("_FillValue", &JsonValue::String("AADAfw==".into()))
            .map(|v| matches!(v, AttrValue::Float32(bits) if f32::from_bits(bits).is_nan())),
        Some(true)
    );
    assert_eq!(
        decode_base64_float_attr("_FillValue", &JsonValue::String("AAAAAAAA+H8=".into()))
            .map(|v| matches!(v, AttrValue::Float(bits) if f64::from_bits(bits).is_nan())),
        Some(true)
    );
    assert_eq!(decode_base64_float_attr("other", &JsonValue::String("AADAfw==".into())), None);
}

use gridlook::json::float_fill_from_bytes;

#[test]
fn fill_bytes_are_read_little_endian() {
    assert_eq!(float_fill_from_bytes(Some(vec![0, 0, 0xc0, 0x7f])), Some(AttrValue::Float32(0x7fc0_0000)));
    assert_eq!(
        float_fill_from_bytes(Some(vec![0, 0, 0, 0, 0, 0, 0xf8, 0x7f])),
        Some(AttrValue::Float(0x7ff8_0000_0000_0000))
    );
    assert_eq!(float_fill_from_bytes(Some(vec![1, 2])), None);
    assert_eq!(float_fill_from_bytes(None), None);
}
