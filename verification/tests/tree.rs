use std::collections::BTreeMap;

use gridlook::model::{AttrValue, VarSummary};
use gridlook::tree::{build_tree_from_flat, FlatNode};

fn var(name: &str) -> VarSummary {
    VarSummary {
        name: name.to_owned(),
        dtype: "float32".to_owned(),
        dims: vec!["x".to_owned()],
        shape: vec![2],
        chunks: None,
        attrs: Vec::new(),
        preview: None,
        storage: None,
    }
}

fn group(attrs: &[(&str, &str)]) -> FlatNode {
    FlatNode::Group {
        attrs: attrs.iter().map(|(k, v)| ((*k).to_owned(), AttrValue::Text((*v).to_owned()))).collect(),
    }
}

#[test]
fn rebuilds_nested_groups_and_implicit_intermediates() {
    let mut nodes = BTreeMap::new();
    nodes.insert(String::new(), group(&[("title", "root")]));
    nodes.insert("a".to_owned(), FlatNode::Array(Box::new(var("a"))));
    nodes.insert("g/arr".to_owned(), FlatNode::Array(Box::new(var("arr"))));
    nodes.insert("g/sub".to_owned(), group(&[("note", "sub")]));
    nodes.insert("g/sub/deep".to_owned(), FlatNode::Array(Box::new(var("deep"))));

    let root = build_tree_from_flat(nodes.into_iter().collect());
    assert_eq!(root.attrs.len(), 1);
    assert_eq!(root.data_vars.len(), 1);
    assert_eq!(root.children.len(), 1);
    let g = &root.children[0];
    assert_eq!(g.name, "g");
    assert!(g.attrs.is_empty(), "implicit group has no attrs");
    assert_eq!(g.data_vars[0].name, "arr");
    let sub = &g.children[0];
    assert_eq!(sub.name, "sub");
    assert_eq!(sub.attrs.len(), 1);
    assert_eq!(sub.data_vars[0].name, "deep");
}

#[test]
fn missing_root_entry_is_an_empty_root_group() {
    let mut nodes = BTreeMap::new();
    nodes.insert("x".to_owned(), FlatNode::Array(Box::new(var("x"))));
    let root = build_tree_from_flat(nodes.into_iter().collect());
    assert!(root.attrs.is_empty());
    assert_eq!(root.coords[0].name, "x");
}

#[test]
fn children_come_in_path_order_with_their_own_attributes() {
    let nodes = vec![
        ("zeta".to_owned(), group(&[("k", "z")])),
        ("alpha/v".to_owned(), FlatNode::Array(Box::new(var("v")))),
        ("alpha".to_owned(), group(&[("k", "a")])),
        ("mid/deep/w".to_owned(), FlatNode::Array(Box::new(var("w")))),
    ];
    let root = build_tree_from_flat(nodes);
    let names: Vec<&str> = root.children.iter().map(|g| g.name.as_str()).collect();
    assert_eq!(names, vec!["alpha", "mid", "zeta"]);
    assert_eq!(root.children[0].attrs, vec![("k".to_owned(), AttrValue::Text("a".to_owned()))]);
    assert_eq!(root.children[0].var_order, vec!["v"]);
    assert!(root.children[1].attrs.is_empty());
    assert_eq!(root.children[1].children[0].name, "deep");
    assert_eq!(root.children[1].children[0].var_order, vec!["w"]);
    assert_eq!(root.children[2].attrs, vec![("k".to_owned(), AttrValue::Text("z".to_owned()))]);
    assert!(root.var_order.is_empty());
}

#[test]
fn an_array_and_a_group_may_share_a_name() {
    let nodes = vec![
        ("a".to_owned(), FlatNode::Array(Box::new(var("a")))),
        ("a/b".to_owned(), FlatNode::Array(Box::new(var("b")))),
    ];
    let root = build_tree_from_flat(nodes);
    assert_eq!(root.var_order, vec!["a"]);
    assert_eq!(root.children.len(), 1);
    assert_eq!(root.children[0].name, "a");
    assert_eq!(root.children[0].var_order, vec!["b"]);
}

#[test]
fn an_array_at_the_root_path_is_ignored() {
    let nodes = vec![
        (String::new(), FlatNode::Array(Box::new(var("r")))),
        ("x".to_owned(), FlatNode::Array(Box::new(var("x")))),
    ];
    let root = build_tree_from_flat(nodes);
    assert_eq!(root.var_order, vec!["x"]);
    assert!(root.children.is_empty());
}

fn v3_array(name: &str) -> FlatNode {
    let mut v = var(name);
    v.dims = vec!["dim_0".to_owned()];
    FlatNode::Array(Box::new(v))
}

fn names(vars: &[VarSummary]) -> Vec<&str> {
    vars.iter().map(|v| v.name.as_str()).collect()
}

#[test]
fn build_v3_tree_recovers_nesting_from_flat_paths() {
    let nodes: BTreeMap<String, FlatNode> = [
        ("", group(&[])),
        ("a", group(&[])),
        ("a/b", group(&[])),
        ("a/b/deep", v3_array("deep")),
        ("a/x", v3_array("x")),
        ("ab", v3_array("ab")),
        ("c", v3_array("c")),
    ]
    .into_iter()
    .map(|(k, v)| (k.to_owned(), v))
    .collect();

    let root = build_tree_from_flat(nodes.into_iter().collect());
    assert_eq!(names(&root.data_vars), vec!["ab", "c"]);
    assert_eq!(root.children.len(), 1);
    let a = &root.children[0];
    assert_eq!(a.name, "a");
    assert_eq!(names(&a.data_vars), vec!["x"]);
    assert_eq!(a.children.len(), 1);
    let b = &a.children[0];
    assert_eq!(b.name, "b");
    assert_eq!(names(&b.data_vars), vec!["deep"]);
    assert!(b.children.is_empty());
}

#[test]
fn build_v3_tree_without_a_root_entry_yields_an_empty_root_group() {
    let nodes: BTreeMap<String, FlatNode> = [("only".to_owned(), v3_array("only"))].into_iter().collect();
    let root = build_tree_from_flat(nodes.into_iter().collect());
    assert!(root.attrs.is_empty());
    assert_eq!(names(&root.data_vars), vec!["only"]);
}
