//! Rebuilding a group tree from a flat list of nodes keyed by path.
//!
//! Zarr v2 consolidated metadata (`.zmetadata`), Zarr v3 consolidated
//! metadata (the root `zarr.json`'s `consolidated_metadata` field) and
//! Icechunk snapshots all list every node of a hierarchy flat, by path.
//! This builder recovers the hierarchy from the path prefixes, including
//! implicit intermediate groups that carry no node of their own (`g` when
//! only `g/arr` is listed).

use vstd::prelude::*;
use crate::flat::{
    child_candidates, child_groups, child_path, direct_array, find_slash, first_slash, group_prefix,
    lemma_first_slash_means, rest_of, rest_under,
};
use crate::group::{coord_pred, data_pred, dim_pairs, dims_match, first_sizes, names_of};
use crate::model::{AttrValue, GroupSummary, VarSummary};
use crate::order::{increasing, lemma_lex_order, lemma_sort_by_key_sorted_id, lex_order, sort_by_key, sorted_by_key, sorted_set, Named};
use crate::text::{chars_of, str_eq, string_from_chars, strings_view};

verus! {

/// One node of a flattened hierarchy, keyed externally by its
/// store-relative path (`""` for the root, `"g/arr"` below it).
pub enum FlatNode {
    /// A group, with its attributes.
    Group { attrs: Vec<(String, AttrValue)> },
    /// An array, already summarized (its name is the path's leaf).
    Array(Box<VarSummary>),
}

/// The paths of `nodes`, in order.
pub open spec fn node_paths(nodes: Seq<(String, FlatNode)>) -> Seq<Seq<char>> {
    nodes.map_values(|n: (String, FlatNode)| n.0@)
}

/// Which of `nodes` are groups, in order.
pub open spec fn node_groups(nodes: Seq<(String, FlatNode)>) -> Seq<bool> {
    nodes.map_values(|n: (String, FlatNode)| n.1 is Group)
}

/// The child groups of the group `p` that `nodes` show, each once, in path
/// order.
pub open spec fn kids_of(nodes: Seq<(String, FlatNode)>, p: Seq<char>) -> Seq<Seq<char>> {
    sorted_set(child_candidates(node_paths(nodes), node_groups(nodes), p, nodes.len()), lex_order())
}

/// The arrays directly in the group `p`, in node order.
pub open spec fn direct_vars(nodes: Seq<(String, FlatNode)>, p: Seq<char>) -> Seq<VarSummary>
    decreases nodes.len(),
{
    if nodes.len() == 0 {
        Seq::empty()
    } else {
        let r = direct_vars(nodes.drop_last(), p);
        match nodes.last().1 {
            FlatNode::Array(v) => if direct_array(nodes.last().0@, false, p) {
                r.push(*v)
            } else {
                r
            },
            FlatNode::Group { .. } => r,
        }
    }
}

/// The nodes below the group `c` (their paths start with `c/`), in order.
pub open spec fn nodes_under(nodes: Seq<(String, FlatNode)>, c: Seq<char>) -> Seq<(String, FlatNode)>
    decreases nodes.len(),
{
    if nodes.len() == 0 {
        Seq::empty()
    } else {
        let r = nodes_under(nodes.drop_last(), c);
        if rest_under(nodes.last().0@, c) is Some {
            r.push(nodes.last())
        } else {
            r
        }
    }
}

/// The attributes of the first group node at path `c`, if there is one.
pub open spec fn group_attrs(nodes: Seq<(String, FlatNode)>, c: Seq<char>) -> Option<Seq<(String, AttrValue)>>
    decreases nodes.len(),
{
    if nodes.len() == 0 {
        None
    } else {
        match group_attrs(nodes.drop_last(), c) {
            Some(a) => Some(a),
            None => match nodes.last().1 {
                FlatNode::Group { attrs } => if nodes.last().0@ == c {
                    Some(attrs@)
                } else {
                    None
                },
                FlatNode::Array(_) => None,
            },
        }
    }
}

/// The attributes a group at path `c` gets: its node's, or none when it
/// has no group node (an implicit group).
pub open spec fn own_attrs(nodes: Seq<(String, FlatNode)>, c: Seq<char>) -> Seq<(String, AttrValue)> {
    match group_attrs(nodes, c) {
        Some(a) => a,
        None => Seq::empty(),
    }
}

/// The name of the child group at path `c` of the group `p`: the last
/// segment of `c`.
pub open spec fn leaf_of(c: Seq<char>, p: Seq<char>) -> Seq<char> {
    c.skip(group_prefix(p).len() as int)
}

/// `g` holds `vars` the way [`GroupSummary::from_parts`] places them:
/// names in the given order, coordinates and data variables each sorted,
/// and the dimensions derived from them.
pub open spec fn holds_vars(g: GroupSummary, vars: Seq<VarSummary>) -> bool {
    &&& strings_view(g.var_order@) == names_of(vars)
    &&& g.coords@ == sort_by_key(vars.filter(coord_pred(vars)))
    &&& g.data_vars@ == sort_by_key(vars.filter(data_pred(vars)))
    &&& dims_match(g.dims@, first_sizes(dim_pairs(g.coords@) + dim_pairs(g.data_vars@)))
}

/// `g` is the group at path `p`, named `name`, with attributes `attrs`,
/// rebuilt from `nodes`, down to `depth` levels below it: its variables
/// are the arrays directly in it, and its children, one per child group
/// in path order, are each rebuilt the same way from the nodes below them.
pub open spec fn tree_built(
    g: GroupSummary,
    p: Seq<char>,
    name: Seq<char>,
    attrs: Seq<(String, AttrValue)>,
    nodes: Seq<(String, FlatNode)>,
    depth: nat,
) -> bool
    decreases depth,
{
    let kids = kids_of(nodes, p);
    &&& g.name@ == name
    &&& g.attrs@ == attrs
    &&& holds_vars(g, direct_vars(nodes, p))
    &&& g.children@.len() == kids.len()
    &&& depth > 0 ==> forall|k: int|
        0 <= k < kids.len() ==> tree_built(
            #[trigger] g.children@[k],
            kids[k],
            leaf_of(kids[k], p),
            own_attrs(nodes, kids[k]),
            nodes_under(nodes, kids[k]),
            (depth - 1) as nat,
        )
}

/// No path starts with `/` where the group is the root (such a path would
/// name a child group with an empty path, the root itself, again).
pub open spec fn no_root_slash(nodes: Seq<(String, FlatNode)>, p: Seq<char>) -> bool {
    p.len() == 0 ==> forall|i: int| 0 <= i < nodes.len() && (#[trigger] nodes[i]).0@.len() > 0 ==> nodes[i].0@[0] != '/'
}

/// A child group's path: the group's prefix, then one segment without `/`.
pub open spec fn kid_shape(c: Seq<char>, p: Seq<char>) -> bool {
    &&& group_prefix(p).is_prefix_of(c)
    &&& forall|j: int| group_prefix(p).len() <= j < c.len() ==> c[j] != '/'
}

/// Every candidate child group comes from a node: it has a child group's
/// shape, and is a prefix of that node's path.
proof fn lemma_candidate_source(paths: Seq<Seq<char>>, groups: Seq<bool>, p: Seq<char>, n: nat, m: int)
    requires
        n <= paths.len(),
        n <= groups.len(),
        0 <= m < child_candidates(paths, groups, p, n).len(),
    ensures
        exists|j: int|
            0 <= j < n && child_path(paths[j], groups[j], p) == Some(#[trigger] child_candidates(paths, groups, p, n)[m]),
    decreases n,
{
    let prev = child_candidates(paths, groups, p, (n - 1) as nat);
    if m < prev.len() {
        lemma_candidate_source(paths, groups, p, (n - 1) as nat, m);
        let j = choose|j: int| 0 <= j < n - 1 && child_path(paths[j], groups[j], p) == Some(#[trigger] prev[m]);
        assert(child_candidates(paths, groups, p, n)[m] == prev[m]);
        assert(child_path(paths[j], groups[j], p) == Some(child_candidates(paths, groups, p, n)[m]));
    } else {
        assert(child_path(paths[n - 1], groups[n - 1], p) == Some(child_candidates(paths, groups, p, n)[m]));
    }
}

/// What a node's child group looks like: a child group's shape, no longer
/// than the node's path, and longer than the group's own path.
proof fn lemma_child_path_shape(path: Seq<char>, group: bool, p: Seq<char>)
    requires
        child_path(path, group, p) is Some,
        p.len() == 0 && path.len() > 0 ==> path[0] != '/',
    ensures
        kid_shape(child_path(path, group, p)->0, p),
        child_path(path, group, p)->0.is_prefix_of(path),
        p.len() < child_path(path, group, p)->0.len(),
{
    let pre = group_prefix(p);
    let r = path.skip(pre.len() as int);
    let c = child_path(path, group, p)->0;
    lemma_first_slash_means(r);
    assert(pre.is_prefix_of(path));
    match first_slash(r) {
        None => {
            assert(c == path);
            assert forall|j: int| pre.len() <= j < c.len() implies c[j] != '/' by {
                assert(c[j] == r[j - pre.len()]);
            }
        },
        Some(i) => {
            assert(c == pre + r.take(i));
            assert forall|j: int| 0 <= j < c.len() implies c[j] == path[j] by {
                if j >= pre.len() {
                    assert(c[j] == r[j - pre.len()]);
                }
            }
            if p.len() == 0 {
                assert(r == path);
                assert(i > 0);
            }
        },
    }
}

/// The facts about the child groups of `p` that the rebuilding needs,
/// given them in increasing order: they are [`kids_of`], each has a child
/// group's shape, is longer than `p`, and is no longer than some node's
/// path.
proof fn lemma_kids(nodes: Seq<(String, FlatNode)>, p: Seq<char>, kids: Seq<Seq<char>>)
    requires
        no_root_slash(nodes, p),
        increasing(kids, lex_order()),
        kids.to_set() == child_candidates(node_paths(nodes), node_groups(nodes), p, nodes.len()).to_set(),
    ensures
        kids == kids_of(nodes, p),
        forall|k: int| 0 <= k < kids.len() ==> {
            &&& kid_shape(#[trigger] kids[k], p)
            &&& p.len() < kids[k].len()
            &&& exists|j: int| 0 <= j < nodes.len() && kids[k].is_prefix_of(#[trigger] nodes[j].0@)
        },
{
    let paths = node_paths(nodes);
    let groups = node_groups(nodes);
    let cands = child_candidates(paths, groups, p, nodes.len());
    lemma_lex_order();
    crate::order::lemma_sorted_set_is(cands, kids, lex_order());
    assert forall|k: int| 0 <= k < kids.len() implies {
        &&& kid_shape(#[trigger] kids[k], p)
        &&& p.len() < kids[k].len()
        &&& exists|j: int| 0 <= j < nodes.len() && kids[k].is_prefix_of(#[trigger] nodes[j].0@)
    } by {
        assert(kids.to_set().contains(kids[k]));
        assert(cands.to_set().contains(kids[k]));
        let m = choose|m: int| 0 <= m < cands.len() && cands[m] == kids[k];
        lemma_candidate_source(paths, groups, p, nodes.len(), m);
        let j = choose|j: int| 0 <= j < nodes.len() && child_path(paths[j], groups[j], p) == Some(#[trigger] cands[m]);
        assert(paths[j] == nodes[j].0@);
        if p.len() == 0 && nodes[j].0@.len() > 0 {
            assert(nodes[j].0@[0] != '/');
        }
        lemma_child_path_shape(paths[j], groups[j], p);
    }
}

/// A node below a child group `c` of `p` is below `p`, past a `/`, and
/// `c` is `p`'s prefix followed by the node's first segment below `p`.
proof fn lemma_deep(path: Seq<char>, p: Seq<char>, c: Seq<char>)
    requires
        kid_shape(c, p),
        p.len() < c.len(),
        rest_under(path, c) is Some,
    ensures
        rest_under(path, p) is Some,
        rest_under(path, p)->0.len() > 0,
        first_slash(rest_under(path, p)->0) is Some,
        c == group_prefix(p) + rest_under(path, p)->0.take(first_slash(rest_under(path, p)->0)->0),
{
    let pre = group_prefix(p);
    let s = c.skip(pre.len() as int);
    assert(group_prefix(c) == c + seq!['/']);
    assert(c + seq!['/'] == pre + s + seq!['/']) by {
        assert(c =~= pre + s);
    }
    assert(pre.is_prefix_of(path)) by {
        assert forall|j: int| 0 <= j < pre.len() implies path[j] == pre[j] by {
            assert(path[j] == (c + seq!['/'])[j]);
            assert(c[j] == pre[j]);
        }
    }
    let r = path.skip(pre.len() as int);
    assert(r.len() > s.len());
    assert forall|j: int| 0 <= j < s.len() implies r[j] != '/' && r[j] == s[j] by {
        assert(r[j] == path[pre.len() + j]);
        assert(path[pre.len() + j] == (c + seq!['/'])[pre.len() + j]);
        assert(c[pre.len() + j] == s[j]);
    }
    assert(r[s.len() as int] == '/') by {
        assert(r[s.len() as int] == path[c.len() as int]);
        assert(path[c.len() as int] == (c + seq!['/'])[c.len() as int]);
    }
    crate::flat::lemma_first_slash_at(r, s.len() as int);
    assert(r.take(s.len() as int) =~= s);
    assert(c =~= pre + s);
}

/// A node past a `/` below `p` is below the child group that its first
/// segment names.
proof fn lemma_deep_back(path: Seq<char>, p: Seq<char>, r: Seq<char>, x: int)
    requires
        rest_under(path, p) == Some(r),
        first_slash(r) == Some(x),
    ensures
        rest_under(path, group_prefix(p) + r.take(x)) is Some,
{
    let pre = group_prefix(p);
    let c = pre + r.take(x);
    lemma_first_slash_means(r);
    if c.len() > 0 {
        assert(group_prefix(c) == c + seq!['/']);
        assert forall|j: int| 0 <= j < c.len() + 1 implies path[j] == (c + seq!['/'])[j] by {
            if j >= pre.len() {
                assert(path[j] == r[j - pre.len()]);
            }
        }
        assert((c + seq!['/']).is_prefix_of(path));
    } else {
        assert(group_prefix(c) =~= Seq::<char>::empty());
    }
}

/// A node at a child group's own path is below no child group.
proof fn lemma_own_not_deep(p: Seq<char>, c: Seq<char>, d: Seq<char>)
    requires
        kid_shape(c, p),
        kid_shape(d, p),
        p.len() < d.len(),
    ensures
        rest_under(c, d) is None,
{
    if rest_under(c, d) is Some {
        lemma_deep(c, p, d);
        let r = c.skip(group_prefix(p).len() as int);
        lemma_first_slash_means(r);
        let x = first_slash(r)->0;
        assert(r[x] == c[group_prefix(p).len() + x]);
    }
}

/// A strictly increasing sequence holds nothing twice.
proof fn lemma_increasing_distinct(s: Seq<Seq<char>>, i: int, j: int)
    requires
        increasing(s, lex_order()),
        0 <= i < s.len(),
        0 <= j < s.len(),
        s[i] == s[j],
    ensures
        i == j,
{
    if i != j {
        lemma_lex_order();
        if i < j {
            assert(lex_order()(s[i], s[j]));
        } else {
            assert(lex_order()(s[j], s[i]));
        }
    }
}

/// Every node past a `/` below `p` names a child group in `kids`.
pub open spec fn deep_kids_listed(nodes: Seq<(String, FlatNode)>, p: Seq<char>, kids: Seq<Seq<char>>) -> bool {
    forall|i: int|
        0 <= i < nodes.len() && rest_under((#[trigger] nodes[i]).0@, p) is Some && first_slash(
            rest_under(nodes[i].0@, p)->0,
        ) is Some ==> kids.contains(
            group_prefix(p) + rest_under(nodes[i].0@, p)->0.take(first_slash(rest_under(nodes[i].0@, p)->0)->0),
        )
}

/// An optional attribute list, by its view.
pub open spec fn opt_view(o: Option<Vec<(String, AttrValue)>>) -> Option<Seq<(String, AttrValue)>> {
    match o {
        Some(v) => Some(v@),
        None => None,
    }
}

/// The position of `x` in `list`.
fn position_of(list: &Vec<String>, x: &str) -> (r: Option<usize>)
    ensures
        match r {
            Some(k) => k < list.len() && list@[k as int]@ == x@,
            None => !strings_view(list@).contains(x@),
        },
{
    let mut k: usize = 0;
    while k < list.len()
        invariant
            k <= list.len(),
            forall|j: int| 0 <= j < k ==> list@[j]@ != x@,
        decreases list.len() - k,
    {
        if str_eq(list[k].as_str(), x) {
            return Some(k);
        }
        k = k + 1;
    }
    proof {
        if strings_view(list@).contains(x@) {
            let j = choose|j: int| 0 <= j < strings_view(list@).len() && strings_view(list@)[j] == x@;
            assert(list@[j]@ == x@);
        }
    }
    None
}

/// `a` followed by `b`.
fn concat_chars(a: &[char], b: &[char]) -> (r: Vec<char>)
    ensures
        r@ == a@ + b@,
{
    let mut r = crate::text::slice_to_vec(a);
    let mut t: usize = 0;
    while t < b.len()
        invariant
            t <= b.len(),
            r@ == a@ + b@.take(t as int),
        decreases b.len() - t,
    {
        r.push(b[t]);
        assert(b@.take(t + 1) =~= b@.take(t as int).push(b@[t as int]));
        t = t + 1;
    }
    assert(b@.take(b@.len() as int) =~= b@);
    r
}

/// Puts `x` at the end of list `k` of `lists`.
fn push_at(lists: &mut Vec<Vec<(String, FlatNode)>>, k: usize, x: (String, FlatNode))
    requires
        k < old(lists).len(),
    ensures
        final(lists)@.len() == old(lists)@.len(),
        final(lists)@[k as int]@ == old(lists)@[k as int]@.push(x),
        forall|j: int| 0 <= j < old(lists)@.len() && j != k ==> final(lists)@[j] == old(lists)@[j],
{
    let mut b = lists.remove(k);
    b.push(x);
    lists.insert(k, b);
}

/// Where one node goes when the group `p`, whose child groups are `kids`,
/// is rebuilt: `Some(k)` when it lies below child group `k`.
fn node_kid(path: &[char], p: &[char], pre: &[char], kids: &Vec<String>) -> (r: Option<usize>)
    requires
        pre@ == group_prefix(p@),
        increasing(strings_view(kids@), lex_order()),
        forall|k: int| 0 <= k < kids.len() ==> kid_shape(#[trigger] kids@[k]@, p@) && p@.len() < kids@[k]@.len(),
        rest_under(path@, p@) is Some && first_slash(rest_under(path@, p@)->0) is Some ==> strings_view(kids@).contains(
            group_prefix(p@) + rest_under(path@, p@)->0.take(first_slash(rest_under(path@, p@)->0)->0),
        ),
    ensures
        forall|k: int| 0 <= k < kids.len() ==> (r == Some(k as usize) <==> rest_under(path@, #[trigger] kids@[k]@) is Some),
        r matches Some(k) ==> k < kids.len(),
{
    let rest = match rest_of(path, p) {
        Some(r) => r,
        None => {
            proof {
                assert forall|k: int| 0 <= k < kids.len() implies rest_under(path@, #[trigger] kids@[k]@) is None by {
                    if rest_under(path@, kids@[k]@) is Some {
                        lemma_deep(path@, p@, kids@[k]@);
                    }
                }
            }
            return None;
        },
    };
    let x = match find_slash(rest.as_slice()) {
        Some(x) => x,
        None => {
            proof {
                lemma_first_slash_means(rest@);
                assert forall|k: int| 0 <= k < kids.len() implies rest_under(path@, #[trigger] kids@[k]@) is None by {
                    if rest_under(path@, kids@[k]@) is Some {
                        lemma_deep(path@, p@, kids@[k]@);
                    }
                }
            }
            return None;
        },
    };
    let (first, _) = rest.as_slice().split_at(x);
    let c = concat_chars(pre, first);
    let cs = string_from_chars(c.as_slice());
    let found = position_of(kids, cs.as_str());
    proof {
        assert(first@ =~= rest@.take(x as int));
        lemma_deep_back(path@, p@, rest@, x as int);
        assert forall|k: int| 0 <= k < kids.len() implies (found == Some(k as usize) <==> rest_under(path@, #[trigger] kids@[k]@) is Some) by {
            if rest_under(path@, kids@[k]@) is Some {
                lemma_deep(path@, p@, kids@[k]@);
                assert(kids@[k]@ == cs@);
                assert(strings_view(kids@)[k] == cs@);
                if let Some(f) = found {
                    assert(strings_view(kids@)[f as int] == cs@);
                    lemma_increasing_distinct(strings_view(kids@), k, f as int);
                }
            }
            if found == Some(k as usize) {
                assert(kids@[k]@ == cs@);
            }
        }
        if found is None {
            assert(strings_view(kids@).contains(cs@));
        }
    }
    found
}

/// Splits the nodes of the group `p`, whose child groups are `kids`: the
/// arrays directly in `p`, in order; for each child group, the nodes
/// below it, in order; and for each child group, the attributes of its
/// first group node.
fn split_nodes(nodes: Vec<(String, FlatNode)>, p: &str, kids: &Vec<String>) -> (r: (
    Vec<VarSummary>,
    Vec<Vec<(String, FlatNode)>>,
    Vec<Option<Vec<(String, AttrValue)>>>,
    Option<Vec<(String, AttrValue)>>,
))
    requires
        increasing(strings_view(kids@), lex_order()),
        forall|k: int| 0 <= k < kids.len() ==> kid_shape(#[trigger] kids@[k]@, p@) && p@.len() < kids@[k]@.len(),
        deep_kids_listed(nodes@, p@, strings_view(kids@)),
    ensures
        r.0@ == direct_vars(nodes@, p@),
        r.1@.len() == kids@.len(),
        r.2@.len() == kids@.len(),
        forall|k: int| 0 <= k < kids.len() ==> (#[trigger] r.1@[k])@ == nodes_under(nodes@, kids@[k]@),
        forall|k: int| 0 <= k < kids.len() ==> opt_view(#[trigger] r.2@[k]) == group_attrs(nodes@, kids@[k]@),
        opt_view(r.3) == group_attrs(nodes@, p@),
{
    let ghost orig = nodes@;
    let ghost ks = strings_view(kids@);
    let pc = chars_of(p);
    let mut pre = crate::text::slice_to_vec(pc.as_slice());
    if pc.len() > 0 {
        pre.push('/');
    }
    assert(pre@ == group_prefix(p@));
    let mut buckets: Vec<Vec<(String, FlatNode)>> = Vec::new();
    let mut owns: Vec<Option<Vec<(String, AttrValue)>>> = Vec::new();
    let mut k: usize = 0;
    while k < kids.len()
        invariant
            k <= kids.len(),
            buckets@.len() == k,
            owns@.len() == k,
            forall|i: int| 0 <= i < k ==> (#[trigger] buckets@[i])@ == Seq::<(String, FlatNode)>::empty(),
            forall|i: int| 0 <= i < k ==> #[trigger] owns@[i] is None,
        decreases kids.len() - k,
    {
        buckets.push(Vec::new());
        owns.push(None);
        k = k + 1;
    }
    let mut vars: Vec<VarSummary> = Vec::new();
    let mut own_self: Option<Vec<(String, AttrValue)>> = None;
    let mut rest = nodes;
    let n = rest.len();
    let mut j: usize = 0;
    proof {
        assert(orig.take(0) =~= Seq::<(String, FlatNode)>::empty());
        assert(orig.skip(0) =~= orig);
    }
    while rest.len() > 0
        invariant
            j + rest@.len() == n,
            n == orig.len(),
            rest@ == orig.skip(j as int),
            pc@ == p@,
            pre@ == group_prefix(p@),
            ks == strings_view(kids@),
            increasing(ks, lex_order()),
            forall|k: int| 0 <= k < kids.len() ==> kid_shape(#[trigger] kids@[k]@, p@) && p@.len() < kids@[k]@.len(),
            deep_kids_listed(orig, p@, ks),
            vars@ == direct_vars(orig.take(j as int), p@),
            buckets@.len() == kids@.len(),
            owns@.len() == kids@.len(),
            forall|k: int| 0 <= k < kids.len() ==> (#[trigger] buckets@[k])@ == nodes_under(orig.take(j as int), kids@[k]@),
            forall|k: int| 0 <= k < kids.len() ==> opt_view(#[trigger] owns@[k]) == group_attrs(orig.take(j as int), kids@[k]@),
            opt_view(own_self) == group_attrs(orig.take(j as int), p@),
        decreases rest.len(),
    {
        let node = rest.remove(0);
        let ghost t = orig.take(j + 1);
        proof {
            assert(node == orig[j as int]);
            assert(t.drop_last() =~= orig.take(j as int));
            assert(t.last() == node);
        }
        let (path, fnode) = node;
        let pathc = chars_of(path.as_str());
        let ghost pv = path@;
        proof {
            assert(orig[j as int].0@ == pv);
        }
        let dest = node_kid(pathc.as_slice(), pc.as_slice(), pre.as_slice(), kids);
        let direct = match rest_of(pathc.as_slice(), pc.as_slice()) {
            Some(r) => r.len() > 0 && find_slash(r.as_slice()).is_none(),
            None => false,
        };
        assert(direct == direct_array(pv, false, p@));
        match fnode {
            FlatNode::Array(v) => {
                let ghost node_v = FlatNode::Array(v);
                proof {
                    assert(t.last().1 == node_v);
                }
                if direct {
                    vars.push(*v);
                } else {
                    match dest {
                        Some(k) => {
                            push_at(&mut buckets, k, (path, FlatNode::Array(v)));
                        },
                        None => {},
                    }
                }
                proof {
                    assert forall|k: int| 0 <= k < kids.len() implies (#[trigger] buckets@[k])@ == nodes_under(t, kids@[k]@) by {
                        if direct && rest_under(pv, kids@[k]@) is Some {
                            let r = rest_under(pv, p@)->0;
                            lemma_deep(pv, p@, kids@[k]@);
                            lemma_first_slash_means(r);
                        }
                    }
                    assert forall|k: int| 0 <= k < kids.len() implies opt_view(#[trigger] owns@[k]) == group_attrs(t, kids@[k]@) by {
                    }
                }
            },
            FlatNode::Group { attrs } => {
                let ghost node_v = FlatNode::Group { attrs };
                proof {
                    assert(t.last().1 == node_v);
                }
                match dest {
                    Some(k) => {
                        proof {
                            assert forall|k2: int| 0 <= k2 < kids.len() implies pv != kids@[k2]@ by {
                                if pv == kids@[k2]@ {
                                    lemma_own_not_deep(p@, kids@[k2]@, kids@[k as int]@);
                                }
                            }
                        }
                        push_at(&mut buckets, k, (path, FlatNode::Group { attrs }));
                    },
                    None => {
                        let own = position_of(kids, path.as_str());
                        match own {
                            Some(k) => {
                                if owns[k].is_none() {
                                    owns.set(k, Some(attrs));
                                }
                                proof {
                                    assert forall|k2: int| 0 <= k2 < kids.len() && k2 != k implies pv != kids@[k2]@ by {
                                        if pv == kids@[k2]@ {
                                            assert(ks[k2] == ks[k as int]);
                                            lemma_increasing_distinct(ks, k2, k as int);
                                        }
                                    }
                                }
                            },
                            None => {
                                proof {
                                    assert forall|k2: int| 0 <= k2 < kids.len() implies pv != kids@[k2]@ by {
                                        if pv == kids@[k2]@ {
                                            assert(ks[k2] == pv);
                                        }
                                    }
                                }
                                if str_eq(path.as_str(), p) && own_self.is_none() {
                                    own_self = Some(attrs);
                                }
                            },
                        }
                    },
                }
            },
        }
        j = j + 1;
    }
    proof {
        assert(orig.take(n as int) =~= orig);
    }
    (vars, buckets, owns, own_self)
}

/// `attrs` unless `found` holds some.
pub open spec fn attrs_or(found: Option<Seq<(String, AttrValue)>>, attrs: Seq<(String, AttrValue)>) -> Seq<(String, AttrValue)> {
    match found {
        Some(a) => a,
        None => attrs,
    }
}

/// The longest path among `nodes`.
pub open spec fn longest_path(nodes: Seq<(String, FlatNode)>) -> nat
    decreases nodes.len(),
{
    if nodes.len() == 0 {
        0
    } else {
        let m = longest_path(nodes.drop_last());
        if nodes.last().0@.len() > m {
            nodes.last().0@.len()
        } else {
            m
        }
    }
}

proof fn lemma_longest_path(nodes: Seq<(String, FlatNode)>)
    ensures
        forall|i: int| 0 <= i < nodes.len() ==> (#[trigger] nodes[i]).0@.len() <= longest_path(nodes),
    decreases nodes.len(),
{
    if nodes.len() > 0 {
        lemma_longest_path(nodes.drop_last());
        assert forall|i: int| 0 <= i < nodes.len() implies (#[trigger] nodes[i]).0@.len() <= longest_path(nodes) by {
            if i < nodes.len() - 1 {
                assert(nodes[i] == nodes.drop_last()[i]);
            }
        }
    }
}

/// A candidate child group shows in the candidates.
proof fn lemma_candidate_in(paths: Seq<Seq<char>>, groups: Seq<bool>, p: Seq<char>, n: nat, j: int)
    requires
        n <= paths.len(),
        n <= groups.len(),
        0 <= j < n,
        child_path(paths[j], groups[j], p) is Some,
    ensures
        child_candidates(paths, groups, p, n).contains(child_path(paths[j], groups[j], p)->0),
    decreases n,
{
    let c = child_path(paths[j], groups[j], p)->0;
    let cands = child_candidates(paths, groups, p, n);
    if j < n - 1 {
        lemma_candidate_in(paths, groups, p, (n - 1) as nat, j);
        let prev = child_candidates(paths, groups, p, (n - 1) as nat);
        let m = choose|m: int| 0 <= m < prev.len() && prev[m] == c;
        assert(cands[m] == prev[m]);
    } else {
        assert(cands[cands.len() - 1] == c);
    }
}

/// Every node past a `/` below `p` names one of the child groups.
proof fn lemma_deep_listed(nodes: Seq<(String, FlatNode)>, p: Seq<char>, kids: Seq<Seq<char>>)
    requires
        kids.to_set() == child_candidates(node_paths(nodes), node_groups(nodes), p, nodes.len()).to_set(),
    ensures
        deep_kids_listed(nodes, p, kids),
{
    let paths = node_paths(nodes);
    let groups = node_groups(nodes);
    assert forall|i: int|
        0 <= i < nodes.len() && rest_under((#[trigger] nodes[i]).0@, p) is Some && first_slash(
            rest_under(nodes[i].0@, p)->0,
        ) is Some implies kids.contains(
        group_prefix(p) + rest_under(nodes[i].0@, p)->0.take(first_slash(rest_under(nodes[i].0@, p)->0)->0),
    ) by {
        let r = rest_under(nodes[i].0@, p)->0;
        lemma_first_slash_means(r);
        assert(paths[i] == nodes[i].0@);
        lemma_candidate_in(paths, groups, p, nodes.len(), i);
        let c = child_path(paths[i], groups[i], p)->0;
        let cands = child_candidates(paths, groups, p, nodes.len());
        assert(cands.to_set().contains(c));
        assert(kids.to_set().contains(c));
    }
}

/// The nodes below `c` are nodes of `s`, and none is at `c` itself.
proof fn lemma_under_parts(s: Seq<(String, FlatNode)>, c: Seq<char>)
    requires
        c.len() > 0,
    ensures
        forall|i: int| 0 <= i < nodes_under(s, c).len() ==> s.contains(#[trigger] nodes_under(s, c)[i]),
        group_attrs(nodes_under(s, c), c) is None,
        forall|i: int| 0 <= i < nodes_under(s, c).len() ==> (#[trigger] nodes_under(s, c)[i]).0@.len() > c.len(),
    decreases s.len(),
{
    if s.len() > 0 {
        let prev = nodes_under(s.drop_last(), c);
        lemma_under_parts(s.drop_last(), c);
        let u = nodes_under(s, c);
        assert forall|i: int| 0 <= i < u.len() implies s.contains(#[trigger] u[i]) && u[i].0@.len() > c.len() by {
            if i < prev.len() {
                assert(u[i] == prev[i]);
                let k = choose|k: int| 0 <= k < s.drop_last().len() && s.drop_last()[k] == prev[i];
                assert(s[k] == prev[i]);
            } else {
                assert(u[i] == s.last());
                assert(s[s.len() - 1] == s.last());
                assert(group_prefix(c) == c + seq!['/']);
            }
        }
        if rest_under(s.last().0@, c) is Some {
            assert(group_prefix(c) == c + seq!['/']);
            assert(u.drop_last() == prev);
            assert(s.last().0@ != c);
        }
    }
}

/// Rebuilds the group at path `p`, named `name`, from `nodes`: its
/// attributes are those of its own group node among `nodes` if there is
/// one, else `attrs`.
fn build_group(
    p: &str,
    name: String,
    attrs: Vec<(String, AttrValue)>,
    nodes: Vec<(String, FlatNode)>,
    Ghost(bound): Ghost<nat>,
) -> (r: GroupSummary)
    requires
        p@.len() <= bound,
        forall|i: int| 0 <= i < nodes@.len() ==> (#[trigger] nodes@[i]).0@.len() <= bound,
        no_root_slash(nodes@, p@),
    ensures
        forall|d: nat|
            #[trigger] tree_built(r, p@, name@, attrs_or(group_attrs(nodes@, p@), attrs@), nodes@, d),
    decreases bound - p@.len(),
{
    let ghost orig = nodes@;
    let mut paths: Vec<String> = Vec::new();
    let mut groups: Vec<bool> = Vec::new();
    let mut i: usize = 0;
    while i < nodes.len()
        invariant
            i <= nodes.len(),
            nodes@ == orig,
            paths@.len() == i,
            groups@.len() == i,
            forall|j: int| 0 <= j < i ==> (#[trigger] paths@[j])@ == orig[j].0@,
            forall|j: int| 0 <= j < i ==> #[trigger] groups@[j] == (orig[j].1 is Group),
        decreases nodes.len() - i,
    {
        paths.push(crate::text::owned(nodes[i].0.as_str()));
        let g = match &nodes[i].1 {
            FlatNode::Group { .. } => true,
            FlatNode::Array(_) => false,
        };
        groups.push(g);
        i = i + 1;
    }
    proof {
        assert(strings_view(paths@) =~= node_paths(orig));
        assert(groups@ =~= node_groups(orig));
    }
    let kids = child_groups(paths.as_slice(), groups.as_slice(), p);
    let ghost ks = strings_view(kids@);
    proof {
        lemma_kids(orig, p@, ks);
        lemma_deep_listed(orig, p@, ks);
        assert forall|k: int| 0 <= k < kids.len() implies kid_shape(#[trigger] kids@[k]@, p@) && p@.len() < kids@[k]@.len() by {
            assert(ks[k] == kids@[k]@);
        }
    }
    let (vars, buckets, owns, own_self) = split_nodes(nodes, p, &kids);
    let attrs = match own_self {
        Some(a) => a,
        None => attrs,
    };
    let pc = chars_of(p);
    let mut pre = crate::text::slice_to_vec(pc.as_slice());
    if pc.len() > 0 {
        pre.push('/');
    }
    let plen = pre.len();
    assert(plen == group_prefix(p@).len());
    let mut buckets = buckets;
    let mut owns = owns;
    let mut children: Vec<GroupSummary> = Vec::new();
    let mut k: usize = 0;
    while k < kids.len()
        invariant
            k <= kids.len(),
            ks == strings_view(kids@),
            ks == kids_of(orig, p@),
            p@.len() <= bound,
            forall|i: int| 0 <= i < orig.len() ==> (#[trigger] orig[i]).0@.len() <= bound,
            plen == group_prefix(p@).len(),
            forall|m: int| 0 <= m < kids.len() ==> {
                &&& kid_shape(#[trigger] ks[m], p@)
                &&& p@.len() < ks[m].len()
                &&& exists|j: int| 0 <= j < orig.len() && ks[m].is_prefix_of(#[trigger] orig[j].0@)
            },
            buckets@.len() == kids@.len() - k,
            owns@.len() == kids@.len() - k,
            forall|m: int| 0 <= m < buckets@.len() ==> (#[trigger] buckets@[m])@ == nodes_under(orig, ks[k + m]),
            forall|m: int| 0 <= m < owns@.len() ==> opt_view(#[trigger] owns@[m]) == group_attrs(orig, ks[k + m]),
            children@.len() == k,
            forall|m: int| #![trigger children@[m]] 0 <= m < k ==> forall|d: nat| #[trigger] tree_built(
                children@[m],
                ks[m],
                leaf_of(ks[m], p@),
                own_attrs(orig, ks[m]),
                nodes_under(orig, ks[m]),
                d,
            ),
        decreases kids.len() - k,
    {
        let ghost km = ks[k as int];
        proof {
            assert(buckets@[0]@ == nodes_under(orig, km));
            assert(opt_view(owns@[0]) == group_attrs(orig, km));
        }
        let sub = buckets.remove(0);
        let own = owns.remove(0);
        let own_v = match own {
            Some(a) => a,
            None => Vec::new(),
        };
        let kc = chars_of(kids[k].as_str());
        proof {
            assert(kids@[k as int]@ == km);
            assert(group_prefix(p@).is_prefix_of(km));
        }
        let (_, tail) = kc.as_slice().split_at(plen);
        let leaf = string_from_chars(tail);
        proof {
            assert(leaf@ =~= leaf_of(km, p@));
            lemma_under_parts(orig, km);
            let j = choose|j: int| 0 <= j < orig.len() && km.is_prefix_of(#[trigger] orig[j].0@);
            assert(km.len() <= orig[j].0@.len());
            assert forall|i: int| 0 <= i < sub@.len() implies (#[trigger] sub@[i]).0@.len() <= bound by {
                assert(orig.contains(sub@[i]));
            }
            assert(own_v@ == own_attrs(orig, km));
        }
        let ghost subv = sub@;
        let ghost ownv = own_v@;
        let ghost leafv = leaf@;
        proof {
            lemma_under_parts(orig, km);
            assert(attrs_or(group_attrs(subv, km), ownv) == own_attrs(orig, km));
        }
        let child = build_group(kids[k].as_str(), leaf, own_v, sub, Ghost(bound));
        let ghost prev = children@;
        children.push(child);
        proof {
            assert forall|m: int| #![trigger children@[m]] 0 <= m < k + 1 implies forall|d: nat| #[trigger] tree_built(
                children@[m],
                ks[m],
                leaf_of(ks[m], p@),
                own_attrs(orig, ks[m]),
                nodes_under(orig, ks[m]),
                d,
            ) by {
                if m == k {
                    assert(children@[m] == child);
                    assert forall|d: nat| #[trigger] tree_built(
                        children@[m],
                        ks[m],
                        leaf_of(ks[m], p@),
                        own_attrs(orig, ks[m]),
                        nodes_under(orig, ks[m]),
                        d,
                    ) by {
                        assert(tree_built(child, km, leafv, attrs_or(group_attrs(subv, km), ownv), subv, d));
                    }
                } else {
                    assert(children@[m] == prev[m]);
                }
            }
            assert forall|m: int| 0 <= m < buckets@.len() implies (#[trigger] buckets@[m])@ == nodes_under(orig, ks[k + 1 + m]) by {
            }
        }
        k = k + 1;
    }
    let ghost cs = children@;
    let r = GroupSummary::from_parts(name, None, attrs, vars, children);
    proof {
        assert(sorted_by_key(cs)) by {
            assert forall|a: int, b: int| 0 <= a < b < cs.len() implies crate::text::lex_le(#[trigger] cs[a].key(), #[trigger] cs[b].key()) by {
                assert(tree_built(cs[a], ks[a], leaf_of(ks[a], p@), own_attrs(orig, ks[a]), nodes_under(orig, ks[a]), 0));
                assert(tree_built(cs[b], ks[b], leaf_of(ks[b], p@), own_attrs(orig, ks[b]), nodes_under(orig, ks[b]), 0));
                assert(crate::order::lex_order()(ks[a], ks[b]));
                let pl = group_prefix(p@).len() as int;
                assert(ks[a].take(pl) =~= group_prefix(p@));
                assert(ks[b].take(pl) =~= group_prefix(p@));
                crate::text::lemma_lex_lt_suffix(ks[a], ks[b], pl);
            }
        }
        lemma_sort_by_key_sorted_id(cs);
        assert(r.children@ == cs);
        assert forall|d: nat| #[trigger] tree_built(r, p@, name@, attrs_or(group_attrs(orig, p@), attrs@), orig, d) by {
            if d > 0 {
                assert forall|m: int| 0 <= m < ks.len() implies tree_built(
                    #[trigger] r.children@[m],
                    ks[m],
                    leaf_of(ks[m], p@),
                    own_attrs(orig, ks[m]),
                    nodes_under(orig, ks[m]),
                    (d - 1) as nat,
                ) by {
                    assert(r.children@[m] == cs[m]);
                }
            }
        }
    }
    r
}

/// Builds the root group from `nodes`, each a store-relative path (`""`
/// for the root) and what is there. The root's attributes are those of its
/// group node at `""` (none when there is no such node); an array at `""`
/// contributes nothing. Below the root, each group holds the arrays
/// directly in it, in node order, and one child per child group, in path
/// order; a child group is found from a group node directly in its parent
/// or from the first segment of any deeper path (an implicit group, with
/// no attributes).
pub fn build_tree_from_flat(nodes: Vec<(String, FlatNode)>) -> (r: GroupSummary)
    requires
        no_root_slash(nodes@, Seq::empty()),
    ensures
        forall|d: nat|
            #[trigger] tree_built(r, Seq::empty(), Seq::empty(), own_attrs(nodes@, Seq::empty()), nodes@, d),
{
    proof {
        lemma_longest_path(nodes@);
    }
    let root = String::new();
    let no_attrs: Vec<(String, AttrValue)> = Vec::new();
    let ghost nv = nodes@;
    proof {
        reveal_strlit("");
        assert(""@ =~= Seq::<char>::empty());
        assert(root@ =~= Seq::<char>::empty());
        assert(attrs_or(group_attrs(nv, Seq::empty()), no_attrs@) == own_attrs(nv, Seq::empty()));
    }
    let r = build_group("", root, no_attrs, nodes, Ghost(longest_path(nv)));
    proof {
        assert forall|d: nat| #[trigger] tree_built(r, Seq::empty(), Seq::empty(), own_attrs(nv, Seq::empty()), nv, d) by {
            assert(tree_built(r, ""@, Seq::empty(), attrs_or(group_attrs(nv, ""@), no_attrs@), nv, d));
        }
    }
    r
}

} // verus!
