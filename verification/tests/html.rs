use gridlook::html::{
    IdGen, collapsible_section, dim_section, format_badge, format_dims, html_escape, human_size,
    icon, index_coord_names, mapping_section, obj_repr, render_footer, render_version_info,
    sections_repr, text_repr_fallback, top_level_repr, tree_item_count,
};
use gridlook::model::{
    AttrValue, DatasetSummary, DimInfo, GroupSummary, SnapshotInfo, SourceFormat, VarSummary,
    VersionInfo,
};

#[test]
fn escapes_all_five_html_special_chars() {
    assert_eq!(
        html_escape(r#"a & b < c > d " e ' f"#),
        "a &amp; b &lt; c &gt; d &quot; e &#x27; f"
    );
}

#[test]
fn html_escape_passes_through_plain_text() {
    assert_eq!(html_escape("plain text 123"), "plain text 123");
}

#[test]
fn human_size_bytes() {
    assert_eq!(human_size(0), "0 B");
    assert_eq!(human_size(1023), "1023 B");
}

#[test]
fn human_size_kib() {
    assert_eq!(human_size(1024), "1.0 KiB");
    assert_eq!(human_size(1536), "1.5 KiB");
}

#[test]
fn human_size_mib_and_gib() {
    assert_eq!(human_size(5 * 1024 * 1024), "5.0 MiB");
    assert_eq!(human_size(2 * 1024 * 1024 * 1024), "2.0 GiB");
}

/// The float computation the size is defined by, for comparison.
fn reference_size(bytes: u64) -> String {
    const UNITS: [&str; 5] = ["KiB", "MiB", "GiB", "TiB", "PiB"];
    if bytes < 1024 {
        return format!("{bytes} B");
    }
    let mut size = bytes as f64 / 1024.0;
    let mut unit = UNITS[0];
    for candidate in &UNITS[1..] {
        if size < 1024.0 {
            break;
        }
        size /= 1024.0;
        unit = candidate;
    }
    format!("{size:.1} {unit}")
}

#[test]
fn human_size_agrees_with_float_division() {
    let samples = [
        1024u64, 1280, 1331, 1945, 1048575, 1048576, 1073741823, u64::MAX, u64::MAX - 1,
        (1 << 53) + 1, (1 << 53) + 3, 1 << 60, 1125899906842624, 1152921504606846976,
        123456789012345, 999999999999,
    ];
    for &b in &samples {
        assert_eq!(human_size(b), reference_size(b), "bytes {b}");
    }
    let mut x: u64 = 0x1234_5678_9ABC_DEF1;
    for _ in 0..300 {
        x ^= x << 13;
        x ^= x >> 7;
        x ^= x << 17;
        let b = x >> (x % 60);
        assert_eq!(human_size(b), reference_size(b), "bytes {b}");
    }
}

#[test]
fn format_badge_covers_all_source_formats() {
    assert_eq!(format_badge(SourceFormat::NetCdf), "netCDF");
    assert_eq!(format_badge(SourceFormat::Hdf5), "HDF5");
    assert_eq!(format_badge(SourceFormat::ZarrV2), "Zarr v2");
    assert_eq!(format_badge(SourceFormat::ZarrV3), "Zarr v3");
    assert_eq!(format_badge(SourceFormat::Icechunk), "Icechunk");
    assert_eq!(format_badge(SourceFormat::Grib), "GRIB");
}

#[test]
fn ids_count_up_with_four_digits() {
    let mut ids = IdGen::new();
    assert_eq!(ids.next("section"), "section-0000");
    assert_eq!(ids.next("attrs"), "attrs-0001");
    for _ in 0..10 {
        ids.next("x");
    }
    assert_eq!(ids.next("data"), "data-0012");
}

fn dim(name: &str, size: u64) -> DimInfo {
    DimInfo { name: name.into(), size, is_unlimited: false }
}

fn var(name: &str, dims: &[&str]) -> VarSummary {
    VarSummary {
        name: name.into(),
        dtype: "float32".into(),
        dims: dims.iter().map(|d| (*d).into()).collect(),
        shape: dims.iter().map(|_| 2).collect(),
        chunks: None,
        attrs: Vec::new(),
        preview: None,
        storage: None,
    }
}

#[test]
fn dims_list_marks_index_coordinates() {
    let coords = vec![var("x", &["x"]), var("lat", &["y", "x"]), var("t", &["time"])];
    assert_eq!(index_coord_names(&coords), vec!["x".to_string()]);
    let html = format_dims(&[dim("x", 3), dim("y<", 4)], &index_coord_names(&coords));
    assert_eq!(
        html,
        "<ul class='xr-dim-list'><li><span class='xr-has-index'>x</span>: 3</li>\
         <li><span>y&lt;</span>: 4</li></ul>"
    );
    assert_eq!(format_dims(&[], &[]), "");
}

#[test]
fn collapsible_sections_follow_xarray() {
    let mut ids = IdGen::new();
    let html = collapsible_section(&mut ids, "Coordinates:", "", "<ul/>", Some(2), true, false, false);
    assert_eq!(
        html,
        "<input id='section-0000' class='xr-section-summary-in' type='checkbox' checked />\
         <label for='section-0000' class='xr-section-summary' title='Expand/collapse section'>\
         Coordinates: <span>(2)</span></label>\
         <div class='xr-section-inline-details'></div>\
         <div class='xr-section-details'><ul/></div>"
    );
    let empty = collapsible_section(&mut ids, "Attributes:", "", "", Some(0), true, false, true);
    assert_eq!(
        empty,
        "<input id='section-0001' class='xr-section-summary-in' type='checkbox' disabled />\
         <label for='section-0001' class='xr-section-summary xr-span-grid'>Attributes: <span>(0)</span></label>\
         <div class='xr-section-inline-details'></div>"
    );
    let mapped = mapping_section(&mut ids, "Data variables", 20, Some(15), "d");
    assert!(mapped.starts_with("<input id='section-0002' class='xr-section-summary-in' type='checkbox' />"));
    let dims = dim_section(&mut ids, &[dim("x", 2)], &[var("x", &["x"])]);
    assert!(dims.contains("type='checkbox' disabled />"));
    assert!(dims.contains("<span class='xr-has-index'>x</span>: 2"));
}

#[test]
fn sections_and_icons_wrap_their_content() {
    assert_eq!(
        sections_repr(&["a".to_string(), "b".to_string()]),
        "<ul class='xr-sections'><li class='xr-section-item'>a</li><li class='xr-section-item'>b</li></ul>"
    );
    assert_eq!(
        icon("icon-database"),
        "<svg class='icon xr-icon-database'><use xlink:href='#icon-database'></use></svg>"
    );
    assert_eq!(
        obj_repr(&["<h>".to_string()], &[], "F"),
        "F<div class='xr-wrap' style='display:none'><div class='xr-header'><h></div><ul class='xr-sections'></ul></div>"
    );
}

fn group() -> GroupSummary {
    let child = GroupSummary::from_parts(
        "sub".into(),
        None,
        vec![("a".into(), AttrValue::Int(1))],
        vec![var("w", &["x"])],
        Vec::new(),
    );
    GroupSummary::from_parts(
        "g&".into(),
        None,
        vec![("title".into(), AttrValue::Text("t".into()))],
        vec![var("x", &["x"]), var("v", &["x"])],
        vec![child],
    )
}

#[test]
fn text_fallback_lists_the_group_by_name() {
    assert_eq!(
        text_repr_fallback("Dataset", &group()),
        "<pre class='xr-text-repr-fallback'>&lt;Dataset&gt; g&amp;\nDimensions: x: 2\n\
         Coordinates: x\nData variables: v\nAttributes: title\nGroups: sub</pre>"
    );
    let empty = GroupSummary::from_parts(String::new(), None, Vec::new(), Vec::new(), Vec::new());
    assert_eq!(
        text_repr_fallback("DataTree", &empty),
        "<pre class='xr-text-repr-fallback'>&lt;DataTree&gt;\nDimensions: </pre>"
    );
}

#[test]
fn top_level_repr_has_type_and_escaped_name() {
    let html = top_level_repr("Dataset", &group(), &["S".to_string()]);
    assert!(html.contains("<div class='xr-header'><div class='xr-obj-type'>Dataset</div><div class='xr-obj-name'>g&amp;</div></div>"));
    assert!(html.ends_with("<ul class='xr-sections'><li class='xr-section-item'>S</li></ul></div>"));
}

#[test]
fn tree_item_count_includes_descendants() {
    assert_eq!(tree_item_count(&group()), 2 + 1 + 1 + 1);
}

fn history(truncated: bool) -> VersionInfo {
    VersionInfo {
        branch: "main".into(),
        ref_kind: Some("branch".into()),
        branches: Vec::new(),
        tags: Vec::new(),
        ancestry: vec![
            SnapshotInfo {
                id: "0123456789ABCDEF".into(),
                message: Some("update <attrs>".into()),
                wrote_at: Some("2024-01-01T00:00:00Z".into()),
            },
            SnapshotInfo { id: "XYZ".into(), message: None, wrote_at: None },
        ],
        truncated,
    }
}

#[test]
fn version_card_shows_tip_count_and_ancestry() {
    assert_eq!(
        render_version_info(&history(true)),
        "<dl class='gq-version-info'><dt>Branch</dt><dd>main</dd>\
         <dt>Snapshot</dt><dd><code>01234567</code></dd>\
         <dt>Message</dt><dd>update &lt;attrs&gt;</dd>\
         <dt>Written</dt><dd>2024-01-01T00:00:00Z</dd>\
         <dt>Snapshots</dt><dd>2+</dd>\
         <dt>Ancestry</dt><dd><ol class='gq-ancestry'>\
         <li><code>01234567</code> &mdash; update &lt;attrs&gt;</li>\
         <li><code>XYZ</code></li>\
         <li>&hellip; (truncated)</li></ol></dd></dl>"
    );
}

#[test]
fn footer_has_badge_name_size_and_history() {
    let ds = DatasetSummary {
        format: SourceFormat::Icechunk,
        root: GroupSummary::from_parts(String::new(), None, Vec::new(), Vec::new(), Vec::new()),
        version_info: Some(history(false)),
        file_info: None,
    };
    let html = render_footer(&ds, "repo<1>", Some(1536));
    assert!(html.starts_with(
        "<div class='gq-footer'><span class='gq-badge'>Icechunk</span>repo&lt;1&gt; &mdash; 1.5 KiB</div>"
    ));
    assert!(html.ends_with("<dd>2</dd><dt>Ancestry</dt><dd><ol class='gq-ancestry'><li><code>01234567</code> &mdash; update &lt;attrs&gt;</li><li><code>XYZ</code></li></ol></dd></dl>"));
}

use gridlook::html::error_card;

#[test]
fn error_cards_escape_their_message() {
    let card = error_card("no <such> file & \"more\"");
    assert!(card.starts_with("<!doctype html><html><head><meta charset=\"utf-8\"><title>Preview unavailable</title>"));
    assert!(card.contains("<div class=\"gq-error\"><h1>Preview unavailable</h1><p>no &lt;such&gt; file &amp; &quot;more&quot;</p></div>"));
    assert!(card.ends_with("</p></div></body></html>"));
    assert!(card.contains(".gq-error h1 { color: #ff8a80; }}</style>"));
}

#[test]
fn one_generator_never_repeats_an_id() {
    let mut ids = IdGen::new();
    let first = ids.next("attrs");
    let second = ids.next("attrs");
    assert_eq!(first, "attrs-0000");
    assert_eq!(second, "attrs-0001");
    assert_ne!(first, second);
    assert_eq!(ids.next("data"), "data-0002");
}
