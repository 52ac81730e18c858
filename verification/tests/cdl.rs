use gridlook::cdl::literal::{NumberPolicy, attr_literal, cdl_name, cdl_string};
use gridlook::cdl::render::{CdlError, CdlOptions, matches_group, render_cdl};
use gridlook::cdl::specials::{global_specials, kind_string, var_specials};
use gridlook::cdl::types::{cdl_type_name, fixed_string_length};
use gridlook::floatfmt::{float32_literal, float_literal, fmt_g};
use gridlook::model::{
    AttrValue, CodecInfo, DatasetSummary, DimInfo, Endianness, FileInfo, FilterInfo, GroupSummary,
    SnapshotInfo, SourceFormat, StorageInfo, StorageLayout, VarSummary, VersionInfo,
};

fn g(value: f64, precision: usize) -> String {
    fmt_g(value.to_bits(), precision)
}

fn f64_lit(value: f64, digits: usize, suffix: &str) -> String {
    float_literal(value.to_bits(), digits, suffix)
}

#[test]
fn floats_follow_ncdump_g_formatting() {
    assert_eq!(g(1.5, 7), "1.5");
    assert_eq!(g(15.0, 7), "15.");
    assert_eq!(g(0.1, 7), "0.1");
    assert_eq!(g(-2.25, 7), "-2.25");
    assert_eq!(g(0.0, 7), "0.");
    assert_eq!(g(1e20, 7), "1.e+20");
    assert_eq!(g(1.5e-7, 7), "1.5e-07");
    assert_eq!(g(123456789.0, 7), "1.234568e+08");
    assert_eq!(g(9999999.9, 7), "1.e+07");
    assert_eq!(g(0.0001, 7), "0.0001");
    assert_eq!(g(0.00001, 7), "1.e-05");
    // f32 values widened to f64 print at 7 digits, as ncdump does.
    assert_eq!(g(0.1f32 as f64, 7), "0.1");
    assert_eq!(g(0.1, 15), "0.1");
    assert_eq!(g(1.0 / 3.0, 15), "0.333333333333333");
}

#[test]
fn float_literals_carry_suffix_and_spell_non_finite() {
    assert_eq!(f64_lit(1.5, 7, "f"), "1.5f");
    assert_eq!(f64_lit(f64::NAN, 7, "f"), "NaNf");
    assert_eq!(f64_lit(f64::INFINITY, 7, "f"), "Infinityf");
    assert_eq!(f64_lit(f64::NEG_INFINITY, 15, ""), "-Infinity");
    assert_eq!(f64_lit(f64::NAN, 15, ""), "NaN");
}

/// The reference `%.Ng` + trim, built from Rust's own exact `{:e}`.
fn reference_g(value: f64, precision: usize) -> String {
    let precision = precision.max(1);
    if value == 0.0 {
        return if value.is_sign_negative() { "-0.".to_owned() } else { "0.".to_owned() };
    }
    let sign = if value < 0.0 { "-" } else { "" };
    let sci = format!("{:.*e}", precision - 1, value.abs());
    let (mantissa, exponent) = sci.split_once('e').unwrap();
    let exponent: i32 = exponent.parse().unwrap();
    let digits: String = mantissa.chars().filter(|c| *c != '.').collect();
    if exponent < -4 || exponent >= precision as i32 {
        let (first, rest) = digits.split_at(1);
        let rest = rest.trim_end_matches('0');
        return format!(
            "{sign}{first}.{rest}e{}{:02}",
            if exponent < 0 { '-' } else { '+' },
            exponent.abs()
        );
    }
    let (int_part, frac_part) = if exponent >= 0 {
        let split = exponent as usize + 1;
        (digits[..split].to_owned(), digits[split..].to_owned())
    } else {
        let zeros = "0".repeat((-exponent - 1) as usize);
        ("0".to_owned(), format!("{zeros}{digits}"))
    };
    let frac_part = frac_part.trim_end_matches('0');
    format!("{sign}{int_part}.{frac_part}")
}

#[test]
fn fmt_g_agrees_with_exact_float_formatting() {
    let samples = [
        0.5, 0.25, 0.125, 2.5, 1.25e-3, 5e-324, f64::MIN_POSITIVE, f64::MAX, -f64::MAX, 1e300,
        123.456, 99999.95, 0.000123456789, 6.02214076e23, -1.0e-10, 1234567.5, 7.0, 1e15, 1e16,
        0.3, 2.0f64.powi(60), 3.0f64.powi(-20), -0.0,
    ];
    for &v in &samples {
        for p in [0usize, 1, 2, 3, 6, 7, 15, 17, 20] {
            assert_eq!(g(v, p), reference_g(v, p), "value {v:e}, precision {p}");
        }
    }
    let mut x: u64 = 0x9E37_79B9_7F4A_7C15;
    for _ in 0..400 {
        x ^= x << 13;
        x ^= x >> 7;
        x ^= x << 17;
        let v = f64::from_bits(x);
        if v.is_finite() {
            for p in [7usize, 15] {
                assert_eq!(g(v, p), reference_g(v, p), "bits {x:#x}, precision {p}");
            }
        }
    }
}

#[test]
fn float32_literals_match_the_widened_value() {
    let samples = [0.1f32, 1.5, 100.0, 3.4028235e38, 1e-45, -7.25, 0.0, 1.0 / 3.0];
    for &v in &samples {
        assert_eq!(
            float32_literal(v.to_bits(), 7, "f"),
            format!("{}f", reference_g(v as f64, 7)),
            "value {v:e}"
        );
    }
    assert_eq!(float32_literal(f32::NAN.to_bits(), 7, "f"), "NaNf");
    assert_eq!(float32_literal(f32::NEG_INFINITY.to_bits(), 7, "f"), "-Infinityf");
}

#[test]
fn integer_literals_carry_type_suffixes() {
    let n = NumberPolicy::NetCdf;
    assert_eq!(attr_literal(&AttrValue::Int8List(vec![0, 1, 2]), n), "0b, 1b, 2b");
    assert_eq!(attr_literal(&AttrValue::UInt8(255), n), "255UB");
    assert_eq!(attr_literal(&AttrValue::Int16(-3), n), "-3s");
    assert_eq!(attr_literal(&AttrValue::UInt16(65535), n), "65535US");
    assert_eq!(attr_literal(&AttrValue::Int32(7), n), "7");
    assert_eq!(attr_literal(&AttrValue::UInt32(4294967295), n), "4294967295U");
    assert_eq!(attr_literal(&AttrValue::Int(9), n), "9LL");
    assert_eq!(
        attr_literal(&AttrValue::UInt64(18446744073709551614), n),
        "18446744073709551614ULL"
    );
    assert_eq!(attr_literal(&AttrValue::Float32(1.5f32.to_bits()), n), "1.5f");
    assert_eq!(attr_literal(&AttrValue::Float(0.1f64.to_bits()), n), "0.1");
    assert_eq!(
        attr_literal(&AttrValue::Float32List(vec![0.0f32.to_bits(), 100.0f32.to_bits()]), n),
        "0.f, 100.f"
    );
    assert_eq!(attr_literal(&AttrValue::Int(i64::MIN), n), "-9223372036854775808LL");
}

#[test]
fn json_numbers_print_bare() {
    let j = NumberPolicy::Json;
    assert_eq!(attr_literal(&AttrValue::Int(9), j), "9");
    assert_eq!(attr_literal(&AttrValue::IntList(vec![1, 2]), j), "1, 2");
    assert_eq!(attr_literal(&AttrValue::Float(2.5f64.to_bits()), j), "2.5");
    // Narrow types keep their suffix regardless of policy.
    assert_eq!(attr_literal(&AttrValue::Float32(2.5f32.to_bits()), j), "2.5f");
}

#[test]
fn strings_are_quoted_and_escaped() {
    assert_eq!(cdl_string("plain"), "\"plain\"");
    assert_eq!(cdl_string("say \"hi\""), "\"say \\\"hi\\\"\"");
    assert_eq!(cdl_string("a\\b"), "\"a\\\\b\"");
    assert_eq!(cdl_string("line1\nline2\t!"), "\"line1\\nline2\\t!\"");
    assert_eq!(cdl_string("bell\u{7}"), "\"bell\\007\"");
    assert_eq!(cdl_string("del\u{7f}"), "\"del\\177\"");
    assert_eq!(cdl_string("temp\u{e9}rature"), "\"temp\u{e9}rature\"");
    assert_eq!(
        attr_literal(&AttrValue::TextList(vec!["a".into(), "b".into()]), NumberPolicy::NetCdf),
        "\"a\", \"b\""
    );
    assert_eq!(attr_literal(&AttrValue::IntList(Vec::new()), NumberPolicy::Json), "");
}

#[test]
fn names_escape_punctuation() {
    assert_eq!(cdl_name("temperature"), "temperature");
    assert_eq!(cdl_name("my-var"), "my\\-var");
    assert_eq!(cdl_name("a.b c"), "a\\.b\\ c");
    assert_eq!(cdl_name("gr\u{f6}\u{df}e"), "gr\u{f6}\u{df}e");
}

#[test]
fn maps_numpy_names_to_cdl() {
    assert_eq!(cdl_type_name("float32"), "float");
    assert_eq!(cdl_type_name("float64"), "double");
    assert_eq!(cdl_type_name("int8"), "byte");
    assert_eq!(cdl_type_name("uint8"), "ubyte");
    assert_eq!(cdl_type_name("int16"), "short");
    assert_eq!(cdl_type_name("uint16"), "ushort");
    assert_eq!(cdl_type_name("int32"), "int");
    assert_eq!(cdl_type_name("uint32"), "uint");
    assert_eq!(cdl_type_name("int64"), "int64");
    assert_eq!(cdl_type_name("uint64"), "uint64");
    assert_eq!(cdl_type_name("|S8"), "char");
    assert_eq!(cdl_type_name("<U8"), "string");
    assert_eq!(cdl_type_name("object"), "string");
    assert_eq!(cdl_type_name("bool"), "bool");
    assert_eq!(cdl_type_name("complex64"), "complex64");
    assert_eq!(cdl_type_name("datetime64[ns]"), "datetime64[ns]");
}

#[test]
fn fixed_string_width() {
    assert_eq!(fixed_string_length("|S8"), Some(8));
    assert_eq!(fixed_string_length("float32"), None);
}

#[test]
fn fixed_string_width_edge_cases() {
    assert_eq!(fixed_string_length("|S"), None);
    assert_eq!(fixed_string_length("|S+3"), Some(3));
    assert_eq!(fixed_string_length("|S18446744073709551615"), Some(u64::MAX));
    assert_eq!(fixed_string_length("|S18446744073709551616"), None);
    assert_eq!(fixed_string_length("|S1x"), None);
}

fn storage_var(storage: StorageInfo) -> VarSummary {
    VarSummary {
        name: "v".into(),
        dtype: "float32".into(),
        dims: vec!["x".into()],
        shape: vec![4],
        chunks: Some(vec![2]),
        attrs: Vec::new(),
        preview: None,
        storage: Some(storage),
    }
}

fn names(specials: &[(String, AttrValue)]) -> Vec<&str> {
    specials.iter().map(|(k, _)| k.as_str()).collect()
}

#[test]
fn netcdf_specials_follow_ncdump_order() {
    let v = storage_var(StorageInfo {
        layout: Some(StorageLayout::Chunked),
        deflate_level: Some(4),
        shuffle: true,
        fletcher32: true,
        endianness: Some(Endianness::Big),
        no_fill: true,
        filters: vec![FilterInfo { id: 32015, params: vec![3] }],
        ..StorageInfo::default()
    });
    let specials = var_specials(&v, SourceFormat::NetCdf);
    assert_eq!(
        names(&specials),
        vec![
            "_Storage",
            "_ChunkSizes",
            "_DeflateLevel",
            "_Shuffle",
            "_Fletcher32",
            "_Endianness",
            "_Filter",
            "_NoFill"
        ]
    );
    assert_eq!(specials[1].1, AttrValue::Int32List(vec![2]));
    assert_eq!(specials[6].1, AttrValue::Text("32015,3".into()));
}

#[test]
fn contiguous_variables_have_no_chunk_sizes() {
    let v = storage_var(StorageInfo {
        layout: Some(StorageLayout::Contiguous),
        ..StorageInfo::default()
    });
    assert_eq!(names(&var_specials(&v, SourceFormat::NetCdf)), vec!["_Storage"]);
}

#[test]
fn zarr_specials_add_codecs_and_metadata_fill() {
    let mut v = storage_var(StorageInfo {
        layout: Some(StorageLayout::Chunked),
        codecs: vec![CodecInfo {
            name: "bytes".into(),
            configuration: Some("{\"endian\":\"little\"}".into()),
        }],
        fill_value: Some(AttrValue::Float32(f32::NAN.to_bits())),
        order: Some('C'),
        chunk_key_encoding: Some("default/".into()),
        ..StorageInfo::default()
    });
    v.dtype = "|S6".into();
    let specials = var_specials(&v, SourceFormat::ZarrV3);
    assert_eq!(
        names(&specials),
        vec![
            "_Storage",
            "_ChunkSizes",
            "_Codecs",
            "_FillValue",
            "_Order",
            "_ChunkKeyEncoding",
            "_StringLength"
        ]
    );
    assert_eq!(
        specials[2].1,
        AttrValue::TextList(vec!["bytes({\"endian\":\"little\"})".into()])
    );
    assert_eq!(specials[6].1, AttrValue::Int32List(vec![6]));

    // A user `_FillValue` attribute wins over the metadata one.
    v.attrs.push(("_FillValue".into(), AttrValue::Float(1.0f64.to_bits())));
    assert!(!names(&var_specials(&v, SourceFormat::ZarrV3)).contains(&"_FillValue"));
}

#[test]
fn variables_without_storage_have_no_specials() {
    let mut v = storage_var(StorageInfo::default());
    v.storage = None;
    assert!(var_specials(&v, SourceFormat::NetCdf).is_empty());
}

#[test]
fn chunk_sizes_widen_to_int64_when_they_do_not_fit() {
    let mut v = storage_var(StorageInfo {
        layout: Some(StorageLayout::Chunked),
        ..StorageInfo::default()
    });
    v.chunks = Some(vec![1, 1 << 40]);
    let specials = var_specials(&v, SourceFormat::NetCdf);
    assert_eq!(specials[1].1, AttrValue::IntList(vec![1, 1 << 40]));
}

fn dim(name: &str, size: u64, is_unlimited: bool) -> DimInfo {
    DimInfo { name: name.into(), size, is_unlimited }
}

fn var(name: &str, dtype: &str, dims: &[&str], attrs: Vec<(&str, AttrValue)>) -> VarSummary {
    VarSummary {
        name: name.into(),
        dtype: dtype.into(),
        dims: dims.iter().map(|d| (*d).into()).collect(),
        shape: dims.iter().map(|_| 3).collect(),
        chunks: None,
        attrs: attrs.into_iter().map(|(k, v)| (k.into(), v)).collect(),
        preview: None,
        storage: None,
    }
}

fn opts(name: &str) -> CdlOptions {
    CdlOptions { name: name.into(), specials: false, groups: None }
}

fn dataset(root: GroupSummary) -> DatasetSummary {
    DatasetSummary { format: SourceFormat::NetCdf, root, version_info: None, file_info: None }
}

#[test]
fn renders_unlimited_dims_scalars_and_attribute_types() {
    let root = GroupSummary::from_parts(
        String::new(),
        Some(vec![dim("record", 3, true), dim("x", 3, false)]),
        vec![("title".into(), AttrValue::Text("t".into()))],
        vec![
            var("crs", "int32", &[], vec![("epsg", AttrValue::Int32(4326))]),
            var(
                "temp",
                "float32",
                &["record", "x"],
                vec![
                    ("_FillValue", AttrValue::Float32(f32::NAN.to_bits())),
                    ("valid_range", AttrValue::Int16List(vec![-10, 40])),
                    ("time", AttrValue::Int(5)),
                ],
            ),
        ],
        Vec::new(),
    );
    let text = render_cdl(&dataset(root), &opts("simple")).unwrap();
    let expected = "\
netcdf simple {
dimensions:
\trecord = UNLIMITED ; // (3 currently)
\tx = 3 ;
variables:
\tint crs ;
\t\tcrs:epsg = 4326 ;
\tfloat temp(record, x) ;
\t\ttemp:_FillValue = NaNf ;
\t\ttemp:valid_range = -10s, 40s ;
\t\ttemp:time = 5LL ;

// global attributes:
\t\t:title = \"t\" ;
}
";
    assert_eq!(text, expected);
}

#[test]
fn empty_sections_are_omitted() {
    let root = GroupSummary::from_parts(String::new(), None, Vec::new(), Vec::new(), Vec::new());
    assert_eq!(render_cdl(&dataset(root), &opts("empty")).unwrap(), "netcdf empty {\n}\n");
}

#[test]
fn nested_groups_indent_two_spaces_per_level() {
    let nested = GroupSummary::from_parts(
        "nested".into(),
        None,
        vec![("note".into(), AttrValue::Text("deep".into()))],
        vec![var("v", "float64", &["z"], Vec::new())],
        Vec::new(),
    );
    let child =
        GroupSummary::from_parts("group_a".into(), None, Vec::new(), Vec::new(), vec![nested]);
    let root = GroupSummary::from_parts(String::new(), None, Vec::new(), Vec::new(), vec![child]);
    let text = render_cdl(&dataset(root), &opts("tree")).unwrap();
    let expected = "\
netcdf tree {

group: group_a {

  group: nested {
    dimensions:
    \tz = 3 ;
    variables:
    \tdouble v(z) ;

    // group attributes:
    \t\t:note = \"deep\" ;
    } // group nested
  } // group group_a
}
";
    assert_eq!(text, expected);
}

#[test]
fn group_filter_prints_only_selected_subtrees() {
    let nested = GroupSummary::from_parts(
        "nested".into(),
        None,
        Vec::new(),
        vec![var("v", "float64", &["z"], Vec::new())],
        Vec::new(),
    );
    let child_a = GroupSummary::from_parts(
        "group_a".into(),
        None,
        Vec::new(),
        vec![var("a", "int8", &["z"], Vec::new())],
        vec![nested],
    );
    let child_b = GroupSummary::from_parts(
        "group_b".into(),
        None,
        Vec::new(),
        vec![var("b", "int8", &["z"], Vec::new())],
        Vec::new(),
    );
    let root = GroupSummary::from_parts(
        String::new(),
        None,
        Vec::new(),
        vec![var("r", "int8", &["z"], Vec::new())],
        vec![child_a, child_b],
    );
    let ds = dataset(root);

    let mut o = opts("t");
    o.groups = Some(vec!["nested".into()]);
    let text = render_cdl(&ds, &o).unwrap();
    assert!(!text.contains("byte r("), "root contents skipped");
    assert!(!text.contains("byte a("), "unselected ancestor contents skipped");
    assert!(!text.contains("group_b"), "unrelated group skipped");
    assert!(text.contains("group: group_a {"), "ancestor wrapper kept");
    assert!(text.contains("double v(z)"), "selected group printed");

    o.groups = Some(vec!["/group_a".into()]);
    let text = render_cdl(&ds, &o).unwrap();
    assert!(text.contains("byte a("));
    assert!(text.contains("double v(z)"), "descendants of a selected group print");

    o.groups = Some(vec!["missing".into()]);
    assert!(matches!(render_cdl(&ds, &o), Err(CdlError::UnknownGroup(g)) if g == "missing"));
    assert_eq!(
        CdlError::UnknownGroup("missing".into()).message(),
        "group \"missing\" not found"
    );
}

#[test]
fn the_first_missing_group_is_reported() {
    let root = GroupSummary::from_parts(String::new(), None, Vec::new(), Vec::new(), Vec::new());
    let mut o = opts("t");
    o.groups = Some(vec!["/".into(), "first".into(), "second".into()]);
    assert!(matches!(render_cdl(&dataset(root), &o), Err(CdlError::UnknownGroup(g)) if g == "first"));
}

#[test]
fn group_names_match_by_leaf_path_or_root() {
    assert!(matches_group("", "", "/"));
    assert!(matches_group("", "", ""));
    assert!(matches_group("", "", "//"));
    assert!(!matches_group("", "", "a"));
    assert!(matches_group("/a/b", "b", "b"));
    assert!(matches_group("/a/b", "b", "/a/b"));
    assert!(matches_group("/a/b", "b", "a/b/"));
    assert!(!matches_group("/a/b", "b", "a"));
}

#[test]
fn specials_append_after_user_attributes() {
    let mut ds = dataset(GroupSummary::from_parts(
        String::new(),
        None,
        Vec::new(),
        vec![var("v", "float32", &["x"], Vec::new())],
        Vec::new(),
    ));
    ds.file_info = Some(FileInfo {
        kind: "netCDF-4".into(),
        nc_properties: Some("version=2".into()),
        superblock_version: Some(2),
        is_netcdf4: Some(true),
    });
    let mut o = opts("s");
    o.specials = true;
    let text = render_cdl(&ds, &o).unwrap();
    assert!(text.contains("\n// global attributes:\n\t\t:_Format = \"netCDF-4\" ;\n"));
    assert!(text.contains("\t\t:_NCProperties = \"version=2\" ;\n"));
    assert!(text.contains("\t\t:_SuperblockVersion = 2 ;\n"));
    assert!(text.contains("\t\t:_IsNetcdf4 = 1 ;\n"));
}

#[test]
fn kind_string_prefers_the_recorded_kind() {
    let mut ds = dataset(GroupSummary::from_parts(String::new(), None, Vec::new(), Vec::new(), Vec::new()));
    assert_eq!(kind_string(&ds), "netCDF");
    ds.format = SourceFormat::ZarrV3;
    assert_eq!(kind_string(&ds), "Zarr v3");
    ds.file_info = Some(FileInfo { kind: "classic".into(), ..FileInfo::default() });
    assert_eq!(kind_string(&ds), "classic");
}

#[test]
fn icechunk_history_becomes_global_specials() {
    let mut ds = dataset(GroupSummary::from_parts(String::new(), None, Vec::new(), Vec::new(), Vec::new()));
    ds.format = SourceFormat::Icechunk;
    ds.version_info = Some(VersionInfo {
        branch: "main".into(),
        ref_kind: Some("branch".into()),
        branches: Vec::new(),
        tags: Vec::new(),
        ancestry: vec![SnapshotInfo {
            id: "ABC".into(),
            message: Some("init".into()),
            wrote_at: None,
        }],
        truncated: false,
    });
    let specials = global_specials(&ds);
    assert_eq!(
        names(&specials),
        vec!["_Format", "_IcechunkBranch", "_IcechunkSnapshot", "_IcechunkMessage"]
    );
    assert_eq!(specials[0].1, AttrValue::Text("Icechunk".into()));
}
