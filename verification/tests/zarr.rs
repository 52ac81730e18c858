use gridlook::zarr::{
    default_root_name, describe, endianness_from_str, join_key, keys_under, node_path_for,
    resolve_dim_names, root_array_name, split_consolidated_key, v2_dtype_string, zarr_kind_string,
};
use gridlook::model::{Endianness, SourceFormat};

fn dims_case() {
    let sparse = Some(vec![Some("time".to_owned()), None, Some("y".to_owned())]);
    assert_eq!(resolve_dim_names(&sparse, 3), vec!["time", "dim_1", "y"]);

    let overlong = Some(vec![Some("a".to_owned()), Some("b".to_owned()), Some("c".to_owned())]);
    assert_eq!(resolve_dim_names(&overlong, 2), vec!["a", "b"]);

    assert_eq!(resolve_dim_names(&None, 2), vec!["dim_0".to_owned(), "dim_1".to_owned()]);
}

#[test]
fn zarr_resolve_dim_names_substitutes_missing_and_truncates_overlong() {
    dims_case();
}

#[test]
fn mod_resolve_dim_names_substitutes_missing_and_truncates_overlong() {
    dims_case();
}

#[test]
fn resolve_dim_names_pads_short_lists() {
    let short = Some(vec![Some("a".to_owned())]);
    assert_eq!(resolve_dim_names(&short, 12)[11], "dim_11");
}

#[test]
fn keys_under_yields_only_the_prefix_block() {
    let keys: Vec<String> =
        ["", "a", "a-", "a/b", "a/b/c", "a/x", "ab", "b"].iter().map(|k| k.to_string()).collect();
    assert_eq!(keys_under(&keys, "a/"), vec!["a/b", "a/b/c", "a/x"]);
    // The root prefix covers everything except the root itself.
    assert_eq!(keys_under(&keys, ""), vec!["a", "a-", "a/b", "a/b/c", "a/x", "ab", "b"]);
    assert_eq!(keys_under(&keys, "zzz/").len(), 0);
}

#[test]
fn split_consolidated_key_separates_node_path_from_file() {
    let split = |k: &str| {
        let (a, b) = split_consolidated_key(k);
        (a, b)
    };
    assert_eq!(split(".zgroup"), ("".to_string(), ".zgroup".to_string()));
    assert_eq!(split("g/.zattrs"), ("g".to_string(), ".zattrs".to_string()));
    assert_eq!(split("g/arr/.zarray"), ("g/arr".to_string(), ".zarray".to_string()));
    // Not a per-node file name: falls through to the ignored branch.
    assert_eq!(split("foo.zgroup"), ("".to_string(), "foo.zgroup".to_string()));
}

fn numeric_case() {
    assert_eq!(v2_dtype_string("<f4"), "float32");
    assert_eq!(v2_dtype_string(">f8"), "float64");
    assert_eq!(v2_dtype_string("<i8"), "int64");
    assert_eq!(v2_dtype_string("|u1"), "uint8");
    assert_eq!(v2_dtype_string("<c16"), "complex128");
    assert_eq!(v2_dtype_string("|b1"), "bool");
    assert_eq!(v2_dtype_string("|S8"), "|S8");
    assert_eq!(v2_dtype_string("<U3"), "<U3");
    // No byte-order prefix is fine too.
    assert_eq!(v2_dtype_string("f4"), "float32");
}

#[test]
fn zarr_v2_dtype_string_expands_numeric_and_string_typestrings() {
    assert_eq!(v2_dtype_string("<f4"), "float32");
    assert_eq!(v2_dtype_string(">f8"), "float64");
    assert_eq!(v2_dtype_string("<i8"), "int64");
    assert_eq!(v2_dtype_string("|u1"), "uint8");
}

#[test]
fn mod_v2_dtype_string_expands_numeric_and_string_typestrings() {
    numeric_case();
}

fn time_case() {
    assert_eq!(v2_dtype_string("<M8[ns]"), "datetime64[ns]");
    assert_eq!(v2_dtype_string("<M8[us]"), "datetime64[us]");
    assert_eq!(v2_dtype_string("<m8[s]"), "timedelta64[s]");
    assert_eq!(v2_dtype_string("<M8"), "datetime64");
    // Malformed unit brackets pass through untouched.
    assert_eq!(v2_dtype_string("<M8[ns"), "<M8[ns");
    assert_eq!(v2_dtype_string("<M8[]"), "<M8[]");
}

#[test]
fn zarr_v2_dtype_string_maps_datetime_and_timedelta_typestrings() {
    time_case();
}

#[test]
fn mod_v2_dtype_string_maps_datetime_and_timedelta_typestrings() {
    time_case();
}

fn passthrough_case() {
    assert_eq!(v2_dtype_string(""), "");
    assert_eq!(v2_dtype_string("<"), "<");
    assert_eq!(v2_dtype_string("<V16"), "<V16");
    assert_eq!(v2_dtype_string("|O"), "|O");
    // Multibyte first/second characters are ordinary characters here.
    assert_eq!(v2_dtype_string("\u{e9}4"), "\u{e9}4");
    assert_eq!(v2_dtype_string("<\u{fc}8"), "<\u{fc}8");
    assert_eq!(v2_dtype_string("\u{1f600}"), "\u{1f600}");
}

#[test]
fn zarr_v2_dtype_string_passes_through_unrecognized_input_without_panicking() {
    passthrough_case();
}

#[test]
fn mod_v2_dtype_string_passes_through_unrecognized_input_without_panicking() {
    passthrough_case();
}

#[test]
fn v2_dtype_sizes_multiply_exactly() {
    assert_eq!(v2_dtype_string("<f+2"), "float16");
    assert_eq!(v2_dtype_string("<i18446744073709551615"), "int147573952589676412920");
}

#[test]
fn node_path_for_handles_root_and_nested_keys() {
    assert_eq!(node_path_for(".zgroup", ".zgroup").as_deref(), Some(""));
    assert_eq!(node_path_for("g/arr/.zarray", ".zarray").as_deref(), Some("g/arr"));
    assert_eq!(node_path_for("g/.zattrs", ".zarray").as_deref(), None);
    assert_eq!(node_path_for("x.zarray", ".zarray").as_deref(), None);
}

#[test]
fn root_array_name_falls_back_when_no_usable_stem() {
    assert_eq!(root_array_name("root.zarr"), "root");
    assert_eq!(root_array_name("/"), "array");
    assert_eq!(root_array_name("."), "array");
}

#[test]
fn default_root_name_uses_last_segment_stem() {
    assert_eq!(default_root_name("s3://bucket/data/root.zarr"), "root");
    assert_eq!(default_root_name("s3://bucket/data/root.zarr/"), "root");
    assert_eq!(default_root_name("https://host/plain"), "plain");
    assert_eq!(default_root_name("/"), "array");
    assert_eq!(default_root_name("."), "array");
}

#[test]
fn describe_joins_location_and_key() {
    assert_eq!(describe("s3://b/p/", "a/zarr.json"), "s3://b/p/a/zarr.json");
    assert_eq!(describe("s3://b/p", ""), "s3://b/p");
}

#[test]
fn join_key_skips_empty_prefix() {
    assert_eq!(join_key("", "zarr.json"), "zarr.json");
    assert_eq!(join_key("g", "zarr.json"), "g/zarr.json");
}

#[test]
fn kinds_and_byte_orders() {
    assert_eq!(zarr_kind_string(SourceFormat::ZarrV2), "Zarr v2");
    assert_eq!(zarr_kind_string(SourceFormat::Icechunk), "Icechunk");
    assert_eq!(endianness_from_str("little"), Some(Endianness::Little));
    assert_eq!(endianness_from_str("big"), Some(Endianness::Big));
    assert_eq!(endianness_from_str("Big"), None);
}

use gridlook::zarr::{consolidated_doc, v2_consolidated_nodes, ZarrDoc};

#[test]
fn consolidated_keys_name_node_documents() {
    assert_eq!(consolidated_doc(".zgroup"), Some((String::new(), ZarrDoc::Group)));
    assert_eq!(consolidated_doc("g/arr/.zarray"), Some(("g/arr".to_string(), ZarrDoc::Array)));
    assert_eq!(consolidated_doc("g/.zattrs"), Some(("g".to_string(), ZarrDoc::Attrs)));
    assert_eq!(consolidated_doc(".zmetadata"), None);
    assert_eq!(consolidated_doc("g/x.zarray"), None);
}

#[test]
fn consolidated_v2_nodes_split_arrays_from_groups() {
    let entries: Vec<(String, ZarrDoc)> = vec![
        ("g".to_string(), ZarrDoc::Attrs),
        ("g/arr".to_string(), ZarrDoc::Array),
        ("g/arr".to_string(), ZarrDoc::Attrs),
        ("h".to_string(), ZarrDoc::Group),
        ("g/arr".to_string(), ZarrDoc::Array),
    ];
    let (arrays, groups) = v2_consolidated_nodes(&entries);
    assert_eq!(arrays, vec!["g/arr"]);
    assert_eq!(groups, vec!["", "g", "h"]);

    let root_array: Vec<(String, ZarrDoc)> = vec![(String::new(), ZarrDoc::Array), (String::new(), ZarrDoc::Attrs)];
    let (arrays, groups) = v2_consolidated_nodes(&root_array);
    assert_eq!(arrays, vec![""]);
    assert!(groups.is_empty());
}

use gridlook::model::{AttrValue, CodecInfo, StorageLayout};
use gridlook::zarr::{v2_storage_info, v3_storage_info, CodecSpec};

fn codec(name: &str, configuration: Option<&str>, endian: Option<&str>) -> CodecSpec {
    CodecSpec {
        name: name.to_owned(),
        configuration: configuration.map(str::to_owned),
        endian: endian.map(str::to_owned),
    }
}

#[test]
fn v3_storage_takes_byte_order_from_the_first_bytes_codec() {
    let codecs = vec![
        codec("transpose", Some("{\"order\":[1,0]}"), None),
        codec("bytes", Some("{\"endian\":\"big\"}"), Some("big")),
        codec("bytes", Some("{\"endian\":\"little\"}"), Some("little")),
        codec("zstd", Some("{\"level\":0}"), None),
    ];
    let info = v3_storage_info(codecs, Some(AttrValue::Int(0)), "default", None);
    assert_eq!(info.layout, Some(StorageLayout::Chunked));
    assert_eq!(info.endianness, Some(Endianness::Big));
    let names: Vec<&str> = info.codecs.iter().map(|c| c.name.as_str()).collect();
    assert_eq!(names, vec!["transpose", "bytes", "bytes", "zstd"]);
    assert_eq!(info.codecs[3].configuration.as_deref(), Some("{\"level\":0}"));
    assert_eq!(info.fill_value, Some(AttrValue::Int(0)));
    assert_eq!(info.chunk_key_encoding.as_deref(), Some("default/"));
    assert_eq!(info.order, None);
    assert!(!info.shuffle && !info.fletcher32 && !info.no_fill);
    assert_eq!(info.deflate_level, None);

    let plain = v3_storage_info(vec![codec("bytes", None, None)], None, "v2", Some("/"));
    assert_eq!(plain.endianness, None);
    assert_eq!(plain.chunk_key_encoding.as_deref(), Some("v2/"));
    let none = v3_storage_info(Vec::new(), None, "v2", None);
    assert_eq!(none.chunk_key_encoding.as_deref(), Some("v2."));
}

#[test]
fn v2_storage_reads_the_typestring_and_separator() {
    let codecs = vec![
        CodecInfo { name: "delta".to_owned(), configuration: Some("{\"dtype\":\"<i4\"}".to_owned()) },
        CodecInfo { name: "zlib".to_owned(), configuration: Some("{\"level\":1}".to_owned()) },
    ];
    let info = v2_storage_info(codecs.clone(), Some("<f8"), None, 'C', '.');
    assert_eq!(info.codecs, codecs);
    assert_eq!(info.endianness, Some(Endianness::Little));
    assert_eq!(info.order, Some('C'));
    assert_eq!(info.chunk_key_encoding.as_deref(), Some("v2."));
    let big = v2_storage_info(Vec::new(), Some(">i2"), None, 'F', '/');
    assert_eq!(big.endianness, Some(Endianness::Big));
    assert_eq!(big.chunk_key_encoding.as_deref(), Some("v2/"));
    assert_eq!(v2_storage_info(Vec::new(), Some("|u1"), None, 'C', '.').endianness, None);
    assert_eq!(v2_storage_info(Vec::new(), None, None, 'C', '.').endianness, None);
}

use gridlook::zarr::resolve_v3_dim_names;

#[test]
fn v3_dim_names_follow_the_names_given() {
    let sparse = Some(vec![Some("time".to_owned()), None, Some("y".to_owned())]);
    assert_eq!(resolve_v3_dim_names(&sparse, 2), vec!["time", "dim_1", "y"]);
    assert_eq!(resolve_v3_dim_names(&Some(vec![None]), 3), vec!["dim_0"]);
    assert_eq!(resolve_v3_dim_names(&None, 2), vec!["dim_0", "dim_1"]);
}

use gridlook::json::JsonValue;
use gridlook::zarr::fill_value_attr;

#[test]
fn fill_values_are_typed_by_the_dtype() {
    let whole = |i: i64| JsonValue::Number { integer: Some(i), bits: (i as f64).to_bits() };
    assert_eq!(fill_value_attr(&JsonValue::Null, 0, "float32"), None);
    assert_eq!(fill_value_attr(&JsonValue::Bool(true), 0, "bool"), Some(AttrValue::Text("true".into())));
    assert_eq!(fill_value_attr(&whole(7), 0, "int32"), Some(AttrValue::Int(7)));
    assert_eq!(fill_value_attr(&whole(7), 7f32.to_bits(), "float32"), Some(AttrValue::Float32(7f32.to_bits())));
    assert_eq!(fill_value_attr(&whole(7), 7f32.to_bits(), "float64"), Some(AttrValue::Float(7f64.to_bits())));
    let half = JsonValue::Number { integer: None, bits: 0.5f64.to_bits() };
    assert_eq!(fill_value_attr(&half, 0.5f32.to_bits(), "int8"), Some(AttrValue::Float(0.5f64.to_bits())));
    assert_eq!(
        fill_value_attr(&JsonValue::String("NaN".into()), 0, "float32"),
        Some(AttrValue::Float32(f32::NAN.to_bits()))
    );
    assert_eq!(
        fill_value_attr(&JsonValue::String("-Infinity".into()), 0, "float64"),
        Some(AttrValue::Float(f64::NEG_INFINITY.to_bits()))
    );
    assert_eq!(
        fill_value_attr(&JsonValue::String("Infinity".into()), 0, "float32"),
        Some(AttrValue::Float32(f32::INFINITY.to_bits()))
    );
    assert_eq!(fill_value_attr(&JsonValue::String("0x7fc00000".into()), 0, "float32"), Some(AttrValue::Text("0x7fc00000".into())));
    assert_eq!(
        fill_value_attr(&JsonValue::Object { text: "{\"re\":0}".into() }, 0, "complex64"),
        Some(AttrValue::Text("{\"re\":0}".into()))
    );
}

use gridlook::json::JsonItem;
use gridlook::zarr::array_dimensions;

#[test]
fn xarray_dimension_names_come_from_array_dimensions() {
    let list = |items: Vec<JsonItem>| JsonValue::Array { items, text: String::new() };
    let members = vec![
        ("units".to_string(), JsonValue::String("K".into())),
        (
            "_ARRAY_DIMENSIONS".to_string(),
            list(vec![JsonItem::String("time".into()), JsonItem::Other, JsonItem::String("x".into())]),
        ),
    ];
    assert_eq!(array_dimensions(&members), Some(vec![Some("time".to_string()), None, Some("x".to_string())]));
    let not_a_list = vec![("_ARRAY_DIMENSIONS".to_string(), JsonValue::String("time".into()))];
    assert_eq!(array_dimensions(&not_a_list), None);
    assert_eq!(array_dimensions(&Vec::new()), None);
}

use gridlook::zarr::{zarr_root_doc, ZarrRoot, ZARR_ROOT_DOC_COUNT};

#[test]
fn zarr_roots_are_looked_for_v3_first() {
    let docs: Vec<(&str, ZarrRoot)> = (0..ZARR_ROOT_DOC_COUNT).map(zarr_root_doc).collect();
    assert_eq!(
        docs,
        vec![
            ("zarr.json", ZarrRoot::V3),
            (".zmetadata", ZarrRoot::V2Consolidated),
            (".zgroup", ZarrRoot::V2Group),
            (".zarray", ZarrRoot::V2Array),
        ]
    );
}

#[test]
fn fill_values_follow_the_dtype() {
    let whole = |i: i64| JsonValue::Number { integer: Some(i), bits: (i as f64).to_bits() };
    match fill_value_attr(&JsonValue::String("NaN".into()), 0, "float32") {
        Some(AttrValue::Float32(bits)) => assert!(f32::from_bits(bits).is_nan()),
        other => panic!("expected Float32(NaN), got {other:?}"),
    }
    match fill_value_attr(&JsonValue::String("-Infinity".into()), 0, "float64") {
        Some(AttrValue::Float(bits)) => assert_eq!(f64::from_bits(bits), f64::NEG_INFINITY),
        other => panic!("expected Float(-inf), got {other:?}"),
    }
    assert_eq!(fill_value_attr(&whole(0), 0f32.to_bits(), "int16"), Some(AttrValue::Int(0)));
    assert_eq!(fill_value_attr(&whole(0), 0f32.to_bits(), "float64"), Some(AttrValue::Float(0f64.to_bits())));
    assert_eq!(fill_value_attr(&JsonValue::Null, 0, "int8"), None);
    assert_eq!(
        fill_value_attr(&JsonValue::String("0x00".into()), 0, "int8"),
        Some(AttrValue::Text("0x00".into()))
    );
}

use gridlook::zarr::{proper_stem_or, root_is_array, root_name_from_parts};

#[test]
fn a_name_that_is_only_an_extension_gives_array() {
    assert_eq!(root_array_name(".zarr"), "array");
    assert_eq!(root_array_name("data/.zarr"), "array");
    assert_eq!(root_array_name("root.zarr"), "root");
    assert_eq!(root_array_name(".hidden.zarr"), ".hidden");
    assert_eq!(root_array_name(".hidden"), "array");
    assert_eq!(root_name_from_parts(Some(".zarr".to_string()), None), "array");
    assert_eq!(root_name_from_parts(Some(".hidden".to_string()), Some("zarr".to_string())), ".hidden");
    assert_eq!(root_name_from_parts(Some("root".to_string()), Some("zarr".to_string())), "root");
    assert_eq!(root_name_from_parts(Some("root".to_string()), None), "root");
    assert_eq!(root_name_from_parts(Some(String::new()), None), "array");
    assert_eq!(root_name_from_parts(None, None), "array");
}

#[test]
fn segment_stems_fall_back_when_unusable() {
    assert_eq!(proper_stem_or(Some("store".to_string()), "array"), "store");
    assert_eq!(proper_stem_or(Some("..".to_string()), "dataset"), "dataset");
    assert_eq!(proper_stem_or(None, "array"), "array");
}

#[test]
fn the_root_is_an_array_when_its_path_is_listed() {
    assert!(root_is_array(&vec![String::new(), "a".to_string()]));
    assert!(!root_is_array(&vec!["a".to_string(), "b/c".to_string()]));
    assert!(!root_is_array(&Vec::new()));
}

use gridlook::zarr::split_file_name;

#[test]
fn file_names_split_as_std_paths_do() {
    for name in [".hidden.zarr", "a.", ".zarr", "plain", "...", "root.zarr", "a.b.c", ".", "x.nc4"] {
        let (stem, ext) = split_file_name(name);
        let path = std::path::Path::new(name);
        if path.file_name().is_some() {
            assert_eq!(Some(stem.as_str()), path.file_stem().and_then(|s| s.to_str()), "{name}");
            assert_eq!(ext.as_deref(), path.extension().and_then(|s| s.to_str()), "{name}");
        }
    }
    assert_eq!(split_file_name(".hidden.zarr"), (".hidden".to_string(), Some("zarr".to_string())));
    assert_eq!(split_file_name(".zarr"), (".zarr".to_string(), None));
    assert_eq!(split_file_name("a."), ("a".to_string(), Some(String::new())));
}
