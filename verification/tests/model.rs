use gridlook::model::{AttrScalar, AttrValue, GroupSummary, NumKind, VarSummary};
use gridlook::store::MemoryStore;

fn var(name: &str, dims: &[&str]) -> VarSummary {
    VarSummary {
        name: name.to_owned(),
        dtype: "float32".to_owned(),
        dims: dims.iter().map(|d| (*d).to_owned()).collect(),
        shape: dims.iter().map(|_| 2).collect(),
        chunks: None,
        attrs: Vec::new(),
        preview: None,
        storage: None,
    }
}

#[test]
fn from_parts_records_native_variable_order() {
    let group = GroupSummary::from_parts(
        String::new(),
        None,
        Vec::new(),
        vec![var("zeta", &["x"]), var("x", &["x"]), var("alpha", &["x"])],
        Vec::new(),
    );
    assert_eq!(group.var_order, vec!["zeta", "x", "alpha"]);
    let names: Vec<&str> = group.variables_in_order().iter().map(|v| v.name.as_str()).collect();
    assert_eq!(names, vec!["zeta", "x", "alpha"]);
    // ...while the classified lists stay sorted.
    assert_eq!(group.coords[0].name, "x");
    assert_eq!(group.data_vars[0].name, "alpha");
}

#[test]
fn variables_in_order_falls_back_without_var_order() {
    let mut group = GroupSummary::from_parts(
        String::new(),
        None,
        Vec::new(),
        vec![var("b", &["x"]), var("a", &["x"])],
        Vec::new(),
    );
    group.var_order.clear();
    let names: Vec<&str> = group.variables_in_order().iter().map(|v| v.name.as_str()).collect();
    assert_eq!(names, vec!["a", "b"]);
}

#[test]
fn attr_scalars_flatten_every_variant() {
    assert_eq!(AttrValue::Int8List(vec![-1, 2]).scalars(), vec![AttrScalar::Int(-1), AttrScalar::Int(2)]);
    assert_eq!(AttrValue::UInt64(u64::MAX).scalars(), vec![AttrScalar::UInt(u64::MAX)]);
    assert_eq!(AttrValue::Float32(1.5f32.to_bits()).scalars(), vec![AttrScalar::F32(1.5f32.to_bits())]);
    assert_eq!(AttrValue::Text("a".into()).scalars(), vec![AttrScalar::Text("a")]);
    assert!(!AttrValue::Int(1).is_list());
    assert!(AttrValue::IntList(Vec::new()).is_list());
    assert!(AttrValue::IntList(Vec::new()).is_empty());
    assert_eq!(AttrValue::UInt16List(vec![1, 2, 3]).len(), 3);
    assert_eq!(AttrValue::Int16(1).num_kind(), Some(NumKind::I16));
    assert_eq!(AttrValue::Text("t".into()).num_kind(), None);
}

#[test]
fn coordinates_attribute_makes_a_coordinate() {
    let mut t = var("t", &["x"]);
    t.attrs.push(("coordinates".to_owned(), AttrValue::Text("lat lon".to_owned())));
    let group = GroupSummary::from_parts(
        String::new(),
        None,
        Vec::new(),
        vec![t, var("lat", &["x"]), var("lon", &["x"])],
        Vec::new(),
    );
    let coords: Vec<&str> = group.coords.iter().map(|v| v.name.as_str()).collect();
    assert_eq!(coords, vec!["lat", "lon"]);
    let data: Vec<&str> = group.data_vars.iter().map(|v| v.name.as_str()).collect();
    assert_eq!(data, vec!["t"]);
    assert_eq!(group.dims.len(), 1);
    assert_eq!(group.dims[0].name, "x");
    assert_eq!(group.dims[0].size, 2);
}

#[test]
fn memory_store_lists_immediate_children() {
    let mut store = MemoryStore::new("mem://x");
    store.insert("zarr.json", b"{}");
    store.insert("a/zarr.json", b"{}");
    store.insert("a/b/zarr.json", b"{}");
    store.insert("c/zarr.json", b"{}");
    let (dirs, files) = store.list_dir("").unwrap();
    assert_eq!(dirs, vec!["a", "c"]);
    assert_eq!(files, vec!["zarr.json"]);
    let (a_dirs, _) = store.list_dir("a").unwrap();
    assert_eq!(a_dirs, vec!["b"]);
}

use gridlook::group::coordinate_flags;

#[test]
fn coordinates_are_flagged_by_dimension_name_or_listing() {
    let mut t = var("t", &["time", "x"]);
    t.attrs.push(("coordinates".to_owned(), AttrValue::Text(" lat\tlon ".to_owned())));
    let vars = vec![var("time", &["time"]), t, var("lat", &["x"]), var("lon", &["x"]), var("other", &["x"])];
    assert_eq!(coordinate_flags(&vars), vec![true, false, true, true, false]);
    assert!(coordinate_flags(&Vec::new()).is_empty());
}
