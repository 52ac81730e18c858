use gridlook::grib::{
    admit_message, build_variables, edition, group_messages, hypercube, level_type, placeholder, preview_of,
    signature, summarize_grib_messages, unaligned_var, variable_name, Axis, Coords, GribError, MessageInfo,
    SurfaceKind, MESSAGE_LIMIT,
};
use gridlook::model::{AttrValue, SourceFormat};

fn strings(values: &[&str]) -> Vec<String> {
    values.iter().map(|s| s.to_string()).collect()
}

fn message(var: &str, surface: SurfaceKind, level: &str, hpa: &str) -> MessageInfo {
    MessageInfo {
        var: var.to_string(),
        name: format!("{var} long name"),
        units: "K".to_string(),
        surface,
        surface_coordinate_name: String::new(),
        surface_name: "surface name".to_string(),
        surface_unit: if surface == SurfaceKind::SpecifiedHeightLevelAboveGround {
            "m".to_string()
        } else {
            "Pa".to_string()
        },
        level_text: Some(level.to_string()),
        level_hpa_text: Some(hpa.to_string()),
        statistical_process: None,
        grid_ny: 3,
        grid_nx: 4,
        proj: "+proj=longlat".to_string(),
        is_regular_grid: true,
        lat_lng: Some((strings(&["90.0", "0.0", "-90.0"]), strings(&["0.0", "90.0", "180.0", "270.0"]))),
        reference_time: "2024-01-01 00:00:00 UTC".to_string(),
        valid_time: "2024-01-01 03:00:00 UTC".to_string(),
        step_text: "3.0".to_string(),
        discipline: "meteorological".to_string(),
        category: "temperature".to_string(),
        parameter_value: 0,
        data_compression: "complex packing".to_string(),
    }
}

fn gfs_like() -> Vec<Option<MessageInfo>> {
    vec![
        Some(message("HGT", SurfaceKind::IsobaricSurface, "50000.0", "500.0")),
        Some(message("TMP", SurfaceKind::IsobaricSurface, "50000.0", "500.0")),
        Some(message("TMP", SurfaceKind::SpecifiedHeightLevelAboveGround, "2.0", "0.02")),
        Some(message("UGRD", SurfaceKind::SpecifiedHeightLevelAboveGround, "10.0", "0.1")),
        Some(message("VGRD", SurfaceKind::SpecifiedHeightLevelAboveGround, "10.0", "0.1")),
    ]
}

fn text(v: &AttrValue) -> &str {
    match v {
        AttrValue::Text(t) => t.as_str(),
        other => panic!("expected text, got {other:?}"),
    }
}

#[test]
fn edition_is_read_from_the_indicator_section() {
    // `GRIB`, two reserved octets, the discipline, then the edition.
    assert_eq!(edition(b"GRIB\0\0\0\x02rest"), 2);
    assert_eq!(edition(b"GRIB\0\0\0\x01rest"), 1);
    assert_eq!(edition(b"nope"), 2);
}

#[test]
fn edition_needs_the_magic_and_eight_bytes() {
    assert_eq!(edition(b"GRIB\0\0\0"), 2);
    assert_eq!(edition(b"GRIX\0\0\0\x01"), 2);
    assert_eq!(edition(b""), 2);
}

#[test]
fn preview_elides_long_value_lists() {
    let short = strings(&["1.0", "2.0"]);
    assert_eq!(preview_of(&short), Some("1.0 2.0".to_string()));

    let long: Vec<String> = (0..10).map(|i| format!("{i}.0")).collect();
    assert_eq!(preview_of(&long), Some("0.0 1.0 2.0 ... 9.0".to_string()));
    assert_eq!(preview_of(&[]), None);
}

#[test]
fn signatures_are_compact_for_long_lists() {
    assert_eq!(signature(&strings(&["1", "2", "3"])), "1,2,3");
    let long: Vec<String> = (0..10).map(|i| i.to_string()).collect();
    assert_eq!(signature(&long), "10|0|1|9");
}

#[test]
fn placeholders_count_from_zero() {
    let axis = placeholder("y", 3);
    assert_eq!(axis.base, "y");
    assert_eq!(axis.values, strings(&["0", "1", "2"]));
    assert!(!axis.materialized);
    assert_eq!(axis.units, None);
}

/// Two variables can want the same coordinate name for different
/// values: 2 m temperature and 10 m winds both sit on
/// `heightAboveGround`. Sharing one would misreport a level, so the
/// second set gets its own name.
#[test]
fn coordinates_with_different_values_do_not_share_a_name() {
    let height = |metres: &str| Axis {
        base: "heightAboveGround".to_string(),
        dtype: "float64".to_string(),
        values: vec![metres.to_string()],
        materialized: true,
        units: Some("m".to_string()),
    };

    let mut coords = Coords::new();
    let two = coords.intern(height("2.0"));
    let ten = coords.intern(height("10.0"));
    let two_again = coords.intern(height("2.0"));

    assert_eq!(two, "heightAboveGround");
    assert_eq!(ten, "heightAboveGround_2");
    assert_eq!(two_again, two, "matching values reuse the same coordinate");
}

#[test]
fn interned_coordinates_stay_in_name_order() {
    let axis = |base: &str| Axis {
        base: base.to_string(),
        dtype: "float64".to_string(),
        values: vec!["1.0".to_string()],
        materialized: true,
        units: None,
    };
    let mut coords = Coords::new();
    coords.intern(axis("time"));
    coords.intern(axis("step"));
    coords.intern(axis("latitude"));
    let names: Vec<&str> = coords.by_name.iter().map(|c| c.name.as_str()).collect();
    assert_eq!(names, vec!["latitude", "step", "time"]);
    assert_eq!(coords.get("step").axis.base, "step");
}

#[test]
fn level_types_use_cfgrib_spellings() {
    assert_eq!(level_type(SurfaceKind::IsobaricSurface, ""), "isobaricInhPa");
    assert_eq!(level_type(SurfaceKind::SpecifiedHeightLevelAboveGround, ""), "heightAboveGround");
    assert_eq!(level_type(SurfaceKind::EntireAtmosphere, ""), "atmosphere");
    assert_eq!(level_type(SurfaceKind::EntireAtmosphereAsSingleLayer, ""), "atmosphere");
    assert_eq!(level_type(SurfaceKind::Other, "cloudBase"), "cloudBase");
    assert_eq!(level_type(SurfaceKind::Other, ""), "level");
}

#[test]
fn variable_names_are_qualified_only_when_needed() {
    let mut used = Vec::new();
    assert_eq!(variable_name("hgt", "isobaricInhPa", "instant", false, &mut used), "hgt");
    assert_eq!(variable_name("tmp", "isobaricInhPa", "instant", true, &mut used), "tmp_isobaricInhPa");
    assert_eq!(variable_name("tmp", "isobaricInhPa", "avg", true, &mut used), "tmp_isobaricInhPa_avg");
    assert_eq!(variable_name("tmp", "isobaricInhPa", "avg", true, &mut used), "tmp_2");
    assert_eq!(variable_name("hgt", "surface", "instant", false, &mut used), "hgt_2");
    assert_eq!(used.len(), 5);
}

#[test]
fn messages_group_by_parameter_level_type_and_step_type() {
    let messages: Vec<MessageInfo> = gfs_like().into_iter().flatten().collect();
    let groups = group_messages(&messages);
    let keys: Vec<(&str, &str)> = groups.iter().map(|g| (g.var.as_str(), g.level.as_str())).collect();
    assert_eq!(
        keys,
        vec![
            ("HGT", "isobaricInhPa"),
            ("TMP", "heightAboveGround"),
            ("TMP", "isobaricInhPa"),
            ("UGRD", "heightAboveGround"),
            ("VGRD", "heightAboveGround"),
        ]
    );
    assert_eq!(groups[2].members, vec![1]);
    assert!(groups.iter().all(|g| g.step == "instant"));
}

#[test]
fn a_full_hypercube_has_time_step_level_and_horizontal_axes() {
    let messages: Vec<MessageInfo> = gfs_like().into_iter().flatten().collect();
    let axes = hypercube(&messages, &[0]).expect("one message is a hypercube");
    let bases: Vec<&str> = axes.axes.iter().map(|a| a.base.as_str()).collect();
    assert_eq!(bases, vec!["time", "step", "isobaricInhPa", "latitude", "longitude"]);
    assert_eq!(axes.axes[2].values, strings(&["500.0"]));
    assert_eq!(axes.axes[2].units.as_deref(), Some("hPa"));
    assert_eq!(axes.axes[1].units.as_deref(), Some("hours"));
    assert_eq!(axes.grid_type, "regular_ll");
}

#[test]
fn duplicated_fields_are_not_a_hypercube() {
    let messages = vec![
        message("TMP", SurfaceKind::IsobaricSurface, "50000.0", "500.0"),
        message("TMP", SurfaceKind::IsobaricSurface, "50000.0", "500.0"),
    ];
    assert!(hypercube(&messages, &[0, 1]).is_none());

    let mut other_grid = message("TMP", SurfaceKind::IsobaricSurface, "85000.0", "850.0");
    other_grid.grid_nx = 5;
    let mixed = vec![messages[0].clone(), other_grid];
    assert!(hypercube(&mixed, &[0, 1]).is_none());
}

#[test]
fn two_levels_make_a_level_dimension() {
    let messages = vec![
        message("TMP", SurfaceKind::IsobaricSurface, "85000.0", "850.0"),
        message("TMP", SurfaceKind::IsobaricSurface, "50000.0", "500.0"),
    ];
    let (vars, unaligned) = build_variables(&messages);
    assert!(unaligned.is_empty());
    let tmp = vars.iter().find(|v| v.name == "tmp").expect("the temperature variable");
    assert_eq!(tmp.dims, strings(&["isobaricInhPa", "latitude", "longitude"]));
    assert_eq!(tmp.shape, vec![2, 3, 4]);
    let level = vars.iter().find(|v| v.name == "isobaricInhPa").expect("the level coordinate");
    assert_eq!(level.preview.as_deref(), Some("500.0 850.0"));
    let count = tmp.attrs.iter().find(|(k, _)| k == "GRIB_numberOfMessages").map(|(_, v)| v.clone());
    assert_eq!(count, Some(AttrValue::Int(2)));
}

#[test]
fn sample_messages_become_one_variable_each() {
    let summary = summarize_grib_messages(b"GRIB\0\0\0\x02", gfs_like(), false).expect("a summary");
    assert_eq!(summary.format, SourceFormat::Grib);

    let names: Vec<&str> = summary.root.data_vars.iter().map(|v| v.name.as_str()).collect();
    assert_eq!(names, vec!["hgt", "tmp_heightAboveGround", "tmp_isobaricInhPa", "ugrd", "vgrd"]);
    assert!(summary.root.children.is_empty());

    for var in &summary.root.data_vars {
        assert_eq!(var.dims, strings(&["latitude", "longitude"]), "{}", var.name);
        assert_eq!(var.shape, vec![3, 4], "{}", var.name);
        assert_eq!(var.dtype, "float64");
    }

    let coords: Vec<&str> = summary.root.coords.iter().map(|v| v.name.as_str()).collect();
    assert_eq!(
        coords,
        vec!["heightAboveGround", "heightAboveGround_2", "isobaricInhPa", "latitude", "longitude", "step", "time"]
    );
    let dims: Vec<&str> = summary.root.dims.iter().map(|d| d.name.as_str()).collect();
    assert_eq!(dims, vec!["latitude", "longitude"]);

    let ugrd = &summary.root.data_vars[3];
    let coordinates = ugrd.attrs.iter().find(|(k, _)| k == "coordinates").expect("scalar coordinates");
    assert_eq!(text(&coordinates.1), "time step heightAboveGround_2");

    assert_eq!(summary.root.attrs[0], ("GRIB_edition".to_string(), AttrValue::Int(2)));
    assert_eq!(summary.root.attrs[1], ("ndlook:message_count".to_string(), AttrValue::Int(5)));
    assert_eq!(summary.root.attrs.len(), 2);
}

#[test]
fn ragged_groups_are_listed_message_by_message() {
    let outcomes = vec![
        Some(message("TMP", SurfaceKind::IsobaricSurface, "50000.0", "500.0")),
        None,
        Some(message("TMP", SurfaceKind::IsobaricSurface, "50000.0", "500.0")),
    ];
    let summary = summarize_grib_messages(b"", outcomes, true).expect("a summary");
    assert!(summary.root.data_vars.is_empty());
    assert_eq!(summary.root.children.len(), 1);
    let unaligned = &summary.root.children[0];
    assert_eq!(unaligned.name, "unaligned");
    let names: Vec<&str> = unaligned.data_vars.iter().map(|v| v.name.as_str()).collect();
    assert_eq!(names, vec!["tmp_0", "tmp_1"]);
    assert_eq!(unaligned.data_vars[0].dims, strings(&["y_3", "x_4"]));
    assert_eq!(
        summary.root.attrs,
        vec![
            ("GRIB_edition".to_string(), AttrValue::Int(2)),
            ("ndlook:message_count".to_string(), AttrValue::Int(3)),
            (
                "ndlook:truncated".to_string(),
                AttrValue::Text("summarized the first 10000 messages; the file holds more".to_string())
            ),
            ("ndlook:unreadable_messages".to_string(), AttrValue::Int(1)),
        ]
    );
}

#[test]
fn unaligned_messages_describe_themselves() {
    let m = message("UGRD", SurfaceKind::SpecifiedHeightLevelAboveGround, "10.0", "0.1");
    let var = unaligned_var(7, &m);
    assert_eq!(var.name, "ugrd_7");
    assert_eq!(var.shape, vec![3, 4]);
    let level = var.attrs.iter().find(|(k, _)| k == "GRIB_level").expect("a level");
    assert_eq!(text(&level.1), "10.0");
    let level_type = var.attrs.iter().find(|(k, _)| k == "GRIB_typeOfLevel").expect("a level type");
    assert_eq!(text(&level_type.1), "heightAboveGround");
}

#[test]
fn empty_data_is_an_error_not_a_panic() {
    let error = summarize_grib_messages(b"", Vec::new(), false).expect_err("no messages");
    assert_eq!(error, GribError::NoMessages);
    assert!(error.message().contains("no GRIB messages"));
}

#[test]
fn the_walk_stops_at_the_message_limit() {
    assert!(admit_message(0));
    assert!(admit_message(MESSAGE_LIMIT - 1));
    assert!(!admit_message(MESSAGE_LIMIT));
}

#[test]
fn long_axes_share_a_name_only_when_every_value_matches() {
    let a = Axis {
        base: "x".into(),
        dtype: "float64".into(),
        values: (0..9).map(|i| i.to_string()).collect(),
        materialized: true,
        units: None,
    };
    let mut b = a.clone();
    b.values[4] = "99".into();
    let mut coords = Coords::new();
    assert_eq!(coords.intern(a.clone()), "x");
    assert_eq!(coords.intern(b), "x_2");
    assert_eq!(coords.intern(a), "x");
}
