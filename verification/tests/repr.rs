use gridlook::html::IdGen;
use gridlook::model::{AttrValue, DatasetSummary, GroupSummary, SourceFormat, VarSummary};
use gridlook::repr::{
    attr_section, coord_section, dataset_repr, datatree_repr, render_page, repr_renderable, summarize_attrs,
    summarize_variable, GroupTexts,
};

fn var(name: &str, dims: &[&str]) -> VarSummary {
    VarSummary {
        name: name.into(),
        dtype: "float32".into(),
        dims: dims.iter().map(|d| (*d).into()).collect(),
        shape: dims.iter().map(|_| 2).collect(),
        chunks: None,
        attrs: Vec::new(),
        preview: None,
        storage: None,
    }
}

fn texts(attrs: &[(String, AttrValue)]) -> Vec<String> {
    attrs
        .iter()
        .map(|(_, v)| match v {
            AttrValue::Text(s) => s.clone(),
            AttrValue::Int(i) => i.to_string(),
            _ => "?".to_string(),
        })
        .collect()
}

fn group_texts(g: &GroupSummary) -> GroupTexts {
    GroupTexts {
        attrs: texts(&g.attrs),
        coords: g.coords.iter().map(|v| texts(&v.attrs)).collect(),
        data_vars: g.data_vars.iter().map(|v| texts(&v.attrs)).collect(),
        children: g.children.iter().map(group_texts).collect(),
    }
}

#[test]
fn attribute_lists_show_the_given_texts_escaped() {
    let attrs = vec![("a<".to_string(), AttrValue::Int(1)), ("b".to_string(), AttrValue::Float(0))];
    assert_eq!(
        summarize_attrs(&attrs, &["1".to_string(), "0.0 & more".to_string()]),
        "<dl class='xr-attrs'><dt><span>a&lt; :</span></dt><dd>1</dd><dt><span>b :</span></dt><dd>0.0 &amp; more</dd></dl>"
    );
    assert_eq!(summarize_attrs(&[], &[]), "<dl class='xr-attrs'></dl>");
}

#[test]
fn variables_render_like_xarray() {
    let mut v = var("t", &["time", "x"]);
    v.chunks = Some(vec![1, 2]);
    v.preview = Some("1 2".to_string());
    v.attrs = vec![("units".to_string(), AttrValue::Text("K".to_string()))];
    let mut ids = IdGen::new();
    let html = summarize_variable(&mut ids, "t", &v, true, &["K".to_string()]);
    assert_eq!(
        html,
        "<div class='xr-var-name'><span class='xr-has-index'>t</span></div>\
         <div class='xr-var-dims'>(time, x)</div>\
         <div class='xr-var-dtype'>float32</div>\
         <div class='xr-var-preview xr-preview'>1 2</div>\
         <input id='attrs-0000' class='xr-var-attrs-in' type='checkbox' >\
         <label for='attrs-0000' title='Show/Hide attributes'><svg class='icon xr-icon-file-text2'><use xlink:href='#icon-file-text2'></use></svg></label>\
         <input id='data-0001' class='xr-var-data-in' type='checkbox'>\
         <label for='data-0001' title='Show/Hide data repr'><svg class='icon xr-icon-database'><use xlink:href='#icon-database'></use></svg></label>\
         <div class='xr-var-attrs'><dl class='xr-attrs'><dt><span>units :</span></dt><dd>K</dd></dl></div>\
         <div class='xr-var-data'><pre>chunksize=(1, 2)\n1 2</pre></div>"
    );
    let plain = summarize_variable(&mut ids, "w", &var("w", &[]), false, &[]);
    assert!(plain.starts_with("<div class='xr-var-name'><span>w</span></div><div class='xr-var-dims'>()</div>"));
    assert!(plain.contains("<input id='attrs-0002' class='xr-var-attrs-in' type='checkbox' disabled>"));
    assert!(plain.ends_with("<div class='xr-var-data'><pre>[metadata only]</pre></div>"));
}

#[test]
fn sections_number_their_rows_before_themselves() {
    let mut ids = IdGen::new();
    let coords = vec![var("x", &["x"]), var("lat", &["y", "x"])];
    let html = coord_section(&mut ids, &coords, &[Vec::new(), Vec::new()]);
    assert!(html.starts_with("<input id='section-0004' class='xr-section-summary-in' type='checkbox' checked />"));
    assert!(html.contains("<span class='xr-has-index'>x</span>"));
    assert!(html.contains("<li class='xr-var-item'><div class='xr-var-name'><span>lat</span></div>"));
    let attrs = attr_section(&mut ids, &[("k".to_string(), AttrValue::Int(3))], &["3".to_string()]);
    assert!(attrs.starts_with("<input id='section-0005' "));
}

fn tree() -> GroupSummary {
    let child = GroupSummary::from_parts(
        "sub".into(),
        None,
        vec![("a".into(), AttrValue::Int(1))],
        vec![var("w", &["x"])],
        Vec::new(),
    );
    GroupSummary::from_parts(
        "root".into(),
        None,
        vec![("title".into(), AttrValue::Text("t".into()))],
        vec![var("x", &["x"]), var("v", &["x"])],
        vec![child],
    )
}

#[test]
fn trees_put_child_boxes_before_their_own_sections() {
    let root = tree();
    let t = group_texts(&root);
    assert!(repr_renderable(&root, &t));
    let mut ids = IdGen::new();
    let html = datatree_repr(&mut ids, &root, &t);
    assert!(html.contains("<div class='xr-obj-type'>DataTree</div>"));
    let wrap = html.find("<div class='xr-wrap'").unwrap();
    let boxes = html.find("<div class='xr-children'>").unwrap();
    let root_dims = wrap + html[wrap..].rfind("Dimensions:").unwrap();
    assert!(wrap < boxes && boxes < root_dims);
    assert!(html.contains("<div class='xr-group-box'><div class='xr-group-box-vline' style='height: 1.2em'></div>"));
    assert!(html.contains("<input id='group-0000' type='checkbox' /><label for='group-0000' title='Expand/collapse group'>sub <span>(2)</span></label>"));
    assert!(html.contains("<dd>t</dd>"));

    let flat = GroupSummary::from_parts(String::new(), None, Vec::new(), Vec::new(), Vec::new());
    let flat_texts = group_texts(&flat);
    let mut ids = IdGen::new();
    let dataset = dataset_repr(&mut ids, &flat, &flat_texts);
    assert!(dataset.contains("<div class='xr-obj-type'>Dataset</div>"));
    assert!(dataset.contains("Data variables:"));
}

#[test]
fn mismatched_texts_do_not_fit() {
    let root = tree();
    let mut t = group_texts(&root);
    t.children[0].attrs.clear();
    assert!(!repr_renderable(&root, &t));
    let mut u = group_texts(&root);
    u.coords.pop();
    assert!(!repr_renderable(&root, &u));
}

#[test]
fn pages_wrap_the_repr_and_footer() {
    let summary = DatasetSummary { format: SourceFormat::ZarrV3, root: tree(), version_info: None, file_info: None };
    let t = group_texts(&summary.root);
    let page = render_page(&summary, "store<.zarr", Some(2048), "CSS", "<svg/>", &t);
    assert!(page.starts_with("<!doctype html><html><head><meta charset=\"utf-8\"><title>store&lt;.zarr</title><style>CSS\n.gq-footer {"));
    assert!(page.contains("</style></head><body><div><svg/><div class='xr-wrap'") || page.contains("</style></head><body><div><svg/><pre class='xr-text-repr-fallback'>"));
    assert!(page.contains("<span class='gq-badge'>Zarr v3</span>"));
    assert!(page.ends_with("</body></html>"));
}

use gridlook::repr::attr_plain_text;

#[test]
fn plain_attribute_values_show_as_python_would() {
    assert_eq!(attr_plain_text(&AttrValue::Text("degC".into())), Some("degC".to_string()));
    assert_eq!(attr_plain_text(&AttrValue::Int8(-5)), Some("-5".to_string()));
    assert_eq!(attr_plain_text(&AttrValue::UInt64(u64::MAX)), Some("18446744073709551615".to_string()));
    assert_eq!(attr_plain_text(&AttrValue::IntList(vec![1, -2, 3])), Some("[1, -2, 3]".to_string()));
    assert_eq!(
        attr_plain_text(&AttrValue::TextList(vec!["a".into(), "b".into()])),
        Some("['a', 'b']".to_string())
    );
    assert_eq!(attr_plain_text(&AttrValue::UInt16List(Vec::new())), Some("[]".to_string()));
    assert_eq!(attr_plain_text(&AttrValue::Float(1.5f64.to_bits())), None);
    assert_eq!(attr_plain_text(&AttrValue::Float32List(vec![0])), None);
}
