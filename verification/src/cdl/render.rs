//! Renders a [`DatasetSummary`] as an `ncdump -h`-style CDL header.
//!
//! Layout follows ncdump: `netcdf NAME {` ... `}`, sections `dimensions:` /
//! `variables:` / `// global attributes:` indented with tabs, attributes
//! with two tabs, nested groups as `group: NAME {` ... `} // group NAME`
//! blocks indented two spaces per level. Sections with nothing in them are
//! omitted, as ncdump does.

use vstd::prelude::*;
use crate::cdl::literal::{NumberPolicy, attr_literal, cdl_name, spec_attr_literal, spec_cdl_name};
use crate::cdl::specials::{attrs_view, global_specials, spec_global_specials, spec_var_specials,
    var_specials};
use crate::cdl::types::{cdl_type_name, spec_cdl_type_name};
use crate::group::{derefs, vars_in_order};
use crate::model::{AttrValue, AttrValueV, DatasetSummary, DimInfo, GroupSummary, SourceFormat,
    VarSummary};
use crate::text::{chars_eq, chars_of, dec, join, join_strings, push_char, push_dec, push_str,
    strings_view};

verus! {

/// How to render.
#[derive(Debug, Clone, PartialEq, Eq)]
pub struct CdlOptions {
    /// The name after `netcdf` on the first line (ncdump uses the file name
    /// without its extension; `-n` overrides it).
    pub name: String,
    /// Append the special virtual attributes `ncdump -s` shows (`_Storage`,
    /// `_ChunkSizes`, `_Format`, ...).
    pub specials: bool,
    /// `ncdump -g`: print only these groups (leaf name or full path such as
    /// `/group_a/nested`; `/` selects the root) and their descendants.
    /// Enclosing groups still print as empty wrappers.
    pub groups: Option<Vec<String>>,
}

impl CdlOptions {
    /// Options that render everything, without specials, under `name`.
    pub fn new(name: String) -> (r: Self)
        ensures
            r.name == name,
            !r.specials,
            r.groups is None,
    {
        CdlOptions { name, specials: false, groups: None }
    }
}

/// Why a rendering was refused.
#[derive(Debug, Clone, PartialEq, Eq)]
pub enum CdlError {
    /// A `-g` group name matched nothing in the dataset.
    UnknownGroup(String),
}

impl CdlError {
    /// The error message: `group "NAME" not found`.
    pub fn message(&self) -> (r: String)
        ensures
            match self {
                CdlError::UnknownGroup(g) => r@ == "group \""@ + g@ + "\" not found"@,
            },
    {
        match self {
            CdlError::UnknownGroup(g) => {
                let mut s = String::new();
                push_str(&mut s, "group \"");
                push_str(&mut s, g.as_str());
                push_str(&mut s, "\" not found");
                s
            },
        }
    }
}

/// How numbers of the wide variants are spelled for a format.
pub open spec fn policy_for(format: SourceFormat) -> NumberPolicy {
    match format {
        SourceFormat::NetCdf | SourceFormat::Hdf5 => NumberPolicy::NetCdf,
        _ => NumberPolicy::Json,
    }
}

/// `s` without trailing `c`s.
pub open spec fn trim_end_char(s: Seq<char>, c: char) -> Seq<char>
    decreases s.len(),
{
    if s.len() > 0 && s.last() == c {
        trim_end_char(s.drop_last(), c)
    } else {
        s
    }
}

/// `s` without leading `c`s.
pub open spec fn trim_start_char(s: Seq<char>, c: char) -> Seq<char>
    decreases s.len(),
{
    if s.len() > 0 && s[0] == c {
        trim_start_char(s.drop_first(), c)
    } else {
        s
    }
}

/// Does the `-g` argument `wanted` select the group at `path` named
/// `name` (the root has the empty path)?
pub open spec fn spec_matches_group(path: Seq<char>, name: Seq<char>, wanted: Seq<char>) -> bool {
    let w = trim_end_char(wanted, '/');
    if path.len() == 0 {
        w.len() == 0 || w == seq!['/']
    } else {
        w == name || w == path || trim_start_char(w, '/') == trim_start_char(path, '/')
    }
}

/// The path of a child group.
pub open spec fn child_path(path: Seq<char>, name: Seq<char>) -> Seq<char> {
    path + seq!['/'] + name
}

/// Does `wanted` name this group or any descendant?
pub open spec fn spec_group_exists(g: GroupSummary, path: Seq<char>, wanted: Seq<char>) -> bool
    decreases g,
{
    spec_matches_group(path, g.name@, wanted) || child_exists(g.children@, g, path, wanted)
}

/// Does `wanted` name one of `cs` (children of `parent`) or a descendant?
pub open spec fn child_exists(cs: Seq<GroupSummary>, parent: GroupSummary, path: Seq<char>, wanted: Seq<char>) -> bool
    decreases parent, cs.len(),
{
    if cs.len() == 0 {
        false
    } else {
        child_exists(cs.drop_last(), parent, path, wanted) || (parent.children@.contains(cs.last())
            && spec_group_exists(cs.last(), child_path(path, cs.last().name@), wanted))
    }
}

/// Is the group's own content selected by the `-g` filter?
pub open spec fn spec_group_included(opts: CdlOptions, path: Seq<char>, name: Seq<char>) -> bool {
    match opts.groups {
        None => true,
        Some(ws) => exists|i: int| 0 <= i < ws@.len() && spec_matches_group(path, name, #[trigger] ws@[i]@),
    }
}

/// Does this group or any descendant have contents that will print?
pub open spec fn spec_subtree_has_output(opts: CdlOptions, g: GroupSummary, path: Seq<char>, included: bool) -> bool
    decreases g,
{
    included || child_has_output(opts, g.children@, g, path)
}

/// Does one of `cs` (children of `parent`) have output?
pub open spec fn child_has_output(opts: CdlOptions, cs: Seq<GroupSummary>, parent: GroupSummary, path: Seq<char>) -> bool
    decreases parent, cs.len(),
{
    if cs.len() == 0 {
        false
    } else {
        child_has_output(opts, cs.drop_last(), parent, path) || (parent.children@.contains(cs.last())
            && spec_subtree_has_output(opts, cs.last(), child_path(path, cs.last().name@),
                spec_group_included(opts, child_path(path, cs.last().name@), cs.last().name@)))
    }
}

/// Two spaces per nesting level.
pub open spec fn indent(depth: nat) -> Seq<char> {
    Seq::new(2 * depth, |i: int| ' ')
}

/// One line of the `dimensions:` section.
pub open spec fn dim_line(d: DimInfo, ind: Seq<char>) -> Seq<char> {
    if d.is_unlimited {
        ind + "\t"@ + spec_cdl_name(d.name@) + " = UNLIMITED ; // ("@ + dec(d.size as nat) + " currently)\n"@
    } else {
        ind + "\t"@ + spec_cdl_name(d.name@) + " = "@ + dec(d.size as nat) + " ;\n"@
    }
}

/// The lines of the `dimensions:` section.
pub open spec fn dim_lines(ds: Seq<DimInfo>, ind: Seq<char>) -> Seq<char>
    decreases ds.len(),
{
    if ds.len() == 0 {
        Seq::empty()
    } else {
        dim_lines(ds.drop_last(), ind) + dim_line(ds.last(), ind)
    }
}

/// The `dimensions:` section, absent when there are none.
pub open spec fn dims_text(g: GroupSummary, ind: Seq<char>) -> Seq<char> {
    if g.dims@.len() == 0 {
        Seq::empty()
    } else {
        ind + "dimensions:\n"@ + dim_lines(g.dims@, ind)
    }
}

/// One attribute line: `owner:name = literal ;`.
pub open spec fn attr_line(ind: Seq<char>, owner: Seq<char>, a: (Seq<char>, AttrValueV), policy: NumberPolicy) -> Seq<char> {
    ind + "\t\t"@ + owner + ":"@ + spec_cdl_name(a.0) + " = "@ + spec_attr_literal(a.1, policy) + " ;\n"@
}

/// Attribute lines.
pub open spec fn attr_lines(ind: Seq<char>, owner: Seq<char>, attrs: Seq<(Seq<char>, AttrValueV)>, policy: NumberPolicy) -> Seq<char>
    decreases attrs.len(),
{
    if attrs.len() == 0 {
        Seq::empty()
    } else {
        attr_lines(ind, owner, attrs.drop_last(), policy) + attr_line(ind, owner, attrs.last(), policy)
    }
}

/// The declaration line of a variable.
pub open spec fn var_decl(v: VarSummary, ind: Seq<char>) -> Seq<char> {
    let t = spec_cdl_type_name(v.dtype@);
    let n = spec_cdl_name(v.name@);
    if v.dims@.len() == 0 {
        ind + "\t"@ + t + " "@ + n + " ;\n"@
    } else {
        ind + "\t"@ + t + " "@ + n + "("@
            + join(v.dims@.map_values(|d: String| spec_cdl_name(d@)), ", "@) + ") ;\n"@
    }
}

/// A variable's declaration and its attribute lines (specials last).
pub open spec fn var_text(summary: DatasetSummary, opts: CdlOptions, v: VarSummary, ind: Seq<char>) -> Seq<char> {
    let n = spec_cdl_name(v.name@);
    let policy = policy_for(summary.format);
    var_decl(v, ind) + attr_lines(ind, n, attrs_view(v.attrs@), policy) + if opts.specials {
        attr_lines(ind, n, spec_var_specials(v, summary.format), policy)
    } else {
        Seq::empty()
    }
}

/// The text of a list of variables.
pub open spec fn vars_lines(summary: DatasetSummary, opts: CdlOptions, vs: Seq<VarSummary>, ind: Seq<char>) -> Seq<char>
    decreases vs.len(),
{
    if vs.len() == 0 {
        Seq::empty()
    } else {
        vars_lines(summary, opts, vs.drop_last(), ind) + var_text(summary, opts, vs.last(), ind)
    }
}

/// The `variables:` section, absent when there are none.
pub open spec fn vars_text(summary: DatasetSummary, opts: CdlOptions, g: GroupSummary, ind: Seq<char>) -> Seq<char> {
    let vs = vars_in_order(g);
    if vs.len() == 0 {
        Seq::empty()
    } else {
        ind + "variables:\n"@ + vars_lines(summary, opts, vs, ind)
    }
}

/// The attributes printed for a group: its own, then (for the root, with
/// specials) the global specials.
pub open spec fn group_attrs(summary: DatasetSummary, opts: CdlOptions, g: GroupSummary, depth: nat) -> Seq<(Seq<char>, AttrValueV)> {
    attrs_view(g.attrs@) + if opts.specials && depth == 0 {
        spec_global_specials(summary)
    } else {
        Seq::empty()
    }
}

/// The `// global attributes:` (root) or `// group attributes:` section.
pub open spec fn gattrs_text(summary: DatasetSummary, opts: CdlOptions, g: GroupSummary, depth: nat, ind: Seq<char>) -> Seq<char> {
    let a = group_attrs(summary, opts, g, depth);
    if a.len() == 0 {
        Seq::empty()
    } else {
        "\n"@ + ind + "// "@ + (if depth == 0 { "global attributes"@ } else { "group attributes"@ }) + ":\n"@
            + attr_lines(ind, Seq::empty(), a, policy_for(summary.format))
    }
}

/// The text inside a group's braces.
pub open spec fn body_text(summary: DatasetSummary, opts: CdlOptions, g: GroupSummary, depth: nat, path: Seq<char>, included: bool) -> Seq<char>
    decreases g, 2nat, 0nat,
{
    let ind = indent(depth);
    (if included {
        dims_text(g, ind) + vars_text(summary, opts, g, ind) + gattrs_text(summary, opts, g, depth, ind)
    } else {
        Seq::empty()
    }) + children_text(summary, opts, g.children@, g, depth, path, included)
}

/// The `group:` block of child `c` of a group at `path` (empty when nothing
/// in its subtree prints).
pub open spec fn child_block(summary: DatasetSummary, opts: CdlOptions, c: GroupSummary, depth: nat, path: Seq<char>, included: bool) -> Seq<char>
    decreases c, 3nat, 0nat,
{
    let cp = child_path(path, c.name@);
    let ci = included || spec_group_included(opts, cp, c.name@);
    let ind = indent(depth);
    if spec_subtree_has_output(opts, c, cp, ci) {
        "\n"@ + ind + "group: "@ + spec_cdl_name(c.name@) + " {\n"@ + body_text(summary, opts, c, depth + 1, cp, ci)
            + ind + "  } // group "@ + spec_cdl_name(c.name@) + "\n"@
    } else {
        Seq::empty()
    }
}

/// The blocks of the children `cs` of `parent`.
pub open spec fn children_text(summary: DatasetSummary, opts: CdlOptions, cs: Seq<GroupSummary>, parent: GroupSummary, depth: nat, path: Seq<char>, included: bool) -> Seq<char>
    decreases parent, 1nat, cs.len(),
{
    if cs.len() == 0 {
        Seq::empty()
    } else {
        children_text(summary, opts, cs.drop_last(), parent, depth, path, included) + if parent.children@.contains(cs.last()) {
            child_block(summary, opts, cs.last(), depth, path, included)
        } else {
            Seq::empty()
        }
    }
}

/// Prefixes of a child list: a match in a prefix is a match in the list.
proof fn lemma_child_exists_prefix(cs: Seq<GroupSummary>, k: int, parent: GroupSummary, path: Seq<char>, wanted: Seq<char>)
    requires
        0 <= k <= cs.len(),
        child_exists(cs.take(k), parent, path, wanted),
    ensures
        child_exists(cs, parent, path, wanted),
    decreases cs.len() - k,
{
    if k == cs.len() {
        assert(cs.take(k) == cs);
    } else {
        assert(cs.take(k + 1).drop_last() == cs.take(k));
        lemma_child_exists_prefix(cs, k + 1, parent, path, wanted);
    }
}

/// Prefixes of a child list: output in a prefix is output in the list.
proof fn lemma_child_has_output_prefix(opts: CdlOptions, cs: Seq<GroupSummary>, k: int, parent: GroupSummary, path: Seq<char>)
    requires
        0 <= k <= cs.len(),
        child_has_output(opts, cs.take(k), parent, path),
    ensures
        child_has_output(opts, cs, parent, path),
    decreases cs.len() - k,
{
    if k == cs.len() {
        assert(cs.take(k) == cs);
    } else {
        assert(cs.take(k + 1).drop_last() == cs.take(k));
        lemma_child_has_output_prefix(opts, cs, k + 1, parent, path);
    }
}

/// A missing group found in a prefix of the `-g` list is the first missing.
proof fn lemma_first_missing_prefix(root: GroupSummary, ws: Seq<String>, k: int)
    requires
        0 <= k <= ws.len(),
        first_missing(root, ws.take(k)) is Some,
    ensures
        first_missing(root, ws) == first_missing(root, ws.take(k)),
    decreases ws.len() - k,
{
    if k == ws.len() {
        assert(ws.take(k) == ws);
    } else {
        assert(ws.take(k + 1).drop_last() == ws.take(k));
        lemma_first_missing_prefix(root, ws, k + 1);
    }
}

/// The first `-g` argument that names no group, if any.
pub open spec fn first_missing(root: GroupSummary, ws: Seq<String>) -> Option<Seq<char>>
    decreases ws.len(),
{
    if ws.len() == 0 {
        None
    } else {
        match first_missing(root, ws.drop_last()) {
            Some(w) => Some(w),
            None => if spec_group_exists(root, Seq::empty(), ws.last()@) { None } else { Some(ws.last()@) },
        }
    }
}

/// The CDL header of `summary`, or the first `-g` group that is missing.
pub open spec fn spec_render(summary: DatasetSummary, opts: CdlOptions) -> Result<Seq<char>, Seq<char>> {
    let missing = match opts.groups {
        Some(ws) => first_missing(summary.root, ws@),
        None => None,
    };
    match missing {
        Some(w) => Err(w),
        None => Ok("netcdf "@ + spec_cdl_name(opts.name@) + " {\n"@ + body_text(summary, opts,
            summary.root, 0, Seq::empty(), spec_group_included(opts, Seq::empty(), Seq::empty())) + "}\n"@),
    }
}

/// The number of characters of `s` left once its trailing `c`s go.
fn trim_end_len(s: &[char], c: char) -> (n: usize)
    ensures
        n <= s.len(),
        s@.take(n as int) == trim_end_char(s@, c),
{
    let mut n: usize = s.len();
    assert(s@.take(n as int) == s@);
    while n > 0 && s[n - 1] == c
        invariant
            n <= s.len(),
            trim_end_char(s@.take(n as int), c) == trim_end_char(s@, c),
        decreases n,
    {
        assert(s@.take(n as int).drop_last() == s@.take(n - 1));
        n = n - 1;
    }
    n
}

/// The number of leading `c`s of `s`.
fn trim_start_len(s: &[char], c: char) -> (n: usize)
    ensures
        n <= s.len(),
        s@.skip(n as int) == trim_start_char(s@, c),
{
    let mut n: usize = 0;
    assert(s@.skip(0) == s@);
    while n < s.len() && s[n] == c
        invariant
            n <= s.len(),
            trim_start_char(s@.skip(n as int), c) == trim_start_char(s@, c),
        decreases s.len() - n,
    {
        assert(s@.skip(n as int).drop_first() == s@.skip(n + 1));
        n = n + 1;
    }
    n
}

/// Does the `-g` argument `wanted` select the group at `path` named
/// `name`? `wanted` matches by leaf name or by full path, with or without
/// the leading `/`; `/` (or nothing) selects the root.
pub fn matches_group(path: &str, name: &str, wanted: &str) -> (r: bool)
    ensures
        r == spec_matches_group(path@, name@, wanted@),
{
    let w = chars_of(wanted);
    let n = trim_end_len(w.as_slice(), '/');
    let (wt, _) = w.as_slice().split_at(n);
    let p = chars_of(path);
    if p.len() == 0 {
        let r = wt.len() == 0 || (wt.len() == 1 && wt[0] == '/');
        assert(r == (wt@.len() == 0 || wt@ == seq!['/'])) by {
            if wt.len() == 1 && wt[0] == '/' {
                assert(wt@ =~= seq!['/']);
            }
        }
        return r;
    }
    let nm = chars_of(name);
    if chars_eq(wt, nm.as_slice()) {
        return true;
    }
    if chars_eq(wt, p.as_slice()) {
        return true;
    }
    let a = trim_start_len(wt, '/');
    let b = trim_start_len(p.as_slice(), '/');
    let (_, wa) = wt.split_at(a);
    let (_, pb) = p.as_slice().split_at(b);
    chars_eq(wa, pb)
}

/// `path/name`.
fn make_child_path(path: &String, name: &String) -> (r: String)
    ensures
        r@ == child_path(path@, name@),
{
    let mut s = path.clone();
    push_char(&mut s, '/');
    push_str(&mut s, name.as_str());
    s
}

/// Does `wanted` name this group (at `path`) or any descendant?
fn group_exists(group: &GroupSummary, path: &String, wanted: &str) -> (r: bool)
    ensures
        r == spec_group_exists(*group, path@, wanted@),
    decreases group,
{
    if matches_group(path.as_str(), group.name.as_str(), wanted) {
        return true;
    }
    let mut i: usize = 0;
    while i < group.children.len()
        invariant
            i <= group.children.len(),
            !child_exists(group.children@.take(i as int), *group, path@, wanted@),
        decreases group.children.len() - i,
    {
        let child = &group.children[i];
        let cp = make_child_path(path, &child.name);
        let found = group_exists(child, &cp, wanted);
        proof {
            let t = group.children@.take(i + 1);
            assert(t.drop_last() == group.children@.take(i as int));
            assert(t.last() == *child);
            assert(group.children@.contains(*child)) by {
                assert(group.children@[i as int] == *child);
            }
        }
        if found {
            proof {
                lemma_child_exists_prefix(group.children@, i + 1, *group, path@, wanted@);
            }
            return true;
        }
        i = i + 1;
    }
    assert(group.children@.take(group.children.len() as int) == group.children@);
    false
}

/// Is the group at `path` named `name` selected by the options' `-g` list?
fn group_included(opts: &CdlOptions, path: &str, name: &str) -> (r: bool)
    ensures
        r == spec_group_included(*opts, path@, name@),
{
    match &opts.groups {
        None => true,
        Some(ws) => {
            let mut i: usize = 0;
            while i < ws.len()
                invariant
                    i <= ws.len(),
                    opts.groups == Some(*ws),
                    forall|j: int| 0 <= j < i ==> !spec_matches_group(path@, name@, #[trigger] ws@[j]@),
                decreases ws.len() - i,
            {
                if matches_group(path, name, ws[i].as_str()) {
                    assert(spec_matches_group(path@, name@, ws@[i as int]@));
                    let ghost wsv = opts.groups->Some_0;
                    assert(wsv@[i as int]@ == ws@[i as int]@);
                    assert(exists|j: int| 0 <= j < wsv@.len() && spec_matches_group(path@, name@, #[trigger] wsv@[j]@));
                    return true;
                }
                i = i + 1;
            }
            false
        },
    }
}

/// Does this group or any descendant have contents that will print?
fn subtree_has_output(opts: &CdlOptions, group: &GroupSummary, path: &String, included: bool) -> (r: bool)
    ensures
        r == spec_subtree_has_output(*opts, *group, path@, included),
    decreases group,
{
    if included {
        return true;
    }
    let mut i: usize = 0;
    while i < group.children.len()
        invariant
            i <= group.children.len(),
            !child_has_output(*opts, group.children@.take(i as int), *group, path@),
        decreases group.children.len() - i,
    {
        let child = &group.children[i];
        let cp = make_child_path(path, &child.name);
        let ci = group_included(opts, cp.as_str(), child.name.as_str());
        let found = subtree_has_output(opts, child, &cp, ci);
        proof {
            let t = group.children@.take(i + 1);
            assert(t.drop_last() == group.children@.take(i as int));
            assert(t.last() == *child);
            assert(group.children@.contains(*child)) by {
                assert(group.children@[i as int] == *child);
            }
        }
        if found {
            proof {
                lemma_child_has_output_prefix(*opts, group.children@, i + 1, *group, path@);
            }
            return true;
        }
        i = i + 1;
    }
    assert(group.children@.take(group.children.len() as int) == group.children@);
    false
}

/// Splitting an attribute list splits its lines.
proof fn lemma_attr_lines_concat(ind: Seq<char>, owner: Seq<char>, a: Seq<(Seq<char>, AttrValueV)>, b: Seq<(Seq<char>, AttrValueV)>, policy: NumberPolicy)
    ensures
        attr_lines(ind, owner, a + b, policy) == attr_lines(ind, owner, a, policy) + attr_lines(ind, owner, b, policy),
    decreases b.len(),
{
    if b.len() == 0 {
        assert(a + b == a);
    } else {
        assert((a + b).drop_last() == a + b.drop_last());
        assert((a + b).last() == b.last());
        lemma_attr_lines_concat(ind, owner, a, b.drop_last(), policy);
    }
}

/// Appends one attribute line.
fn write_attribute(out: &mut String, ind: &String, owner: &String, attr_name: &String, value: &AttrValue, policy: NumberPolicy)
    ensures
        final(out)@ == old(out)@ + attr_line(ind@, owner@, (attr_name@, value@), policy),
{
    let ghost start = out@;
    push_str(out, ind.as_str());
    push_str(out, "\t\t");
    push_str(out, owner.as_str());
    push_str(out, ":");
    let n = cdl_name(attr_name.as_str());
    push_str(out, n.as_str());
    push_str(out, " = ");
    let lit = attr_literal(value, policy);
    push_str(out, lit.as_str());
    push_str(out, " ;\n");
    assert(out@ =~= start + attr_line(ind@, owner@, (attr_name@, value@), policy));
}

/// Appends the lines of a list of attributes.
fn write_attr_lines(out: &mut String, ind: &String, owner: &String, attrs: &Vec<(String, AttrValue)>, policy: NumberPolicy)
    ensures
        final(out)@ == old(out)@ + attr_lines(ind@, owner@, attrs_view(attrs@), policy),
{
    let ghost start = out@;
    let mut i: usize = 0;
    while i < attrs.len()
        invariant
            i <= attrs.len(),
            out@ == start + attr_lines(ind@, owner@, attrs_view(attrs@.take(i as int)), policy),
        decreases attrs.len() - i,
    {
        write_attribute(out, ind, owner, &attrs[i].0, &attrs[i].1, policy);
        proof {
            let t = attrs_view(attrs@.take(i + 1));
            assert(t.drop_last() =~= attrs_view(attrs@.take(i as int)));
            assert(t.last() == (attrs@[i as int].0@, attrs@[i as int].1@));
        }
        i = i + 1;
    }
    assert(attrs@.take(attrs.len() as int) == attrs@);
}

/// Appends the `dimensions:` section.
fn write_dimensions(out: &mut String, group: &GroupSummary, ind: &String)
    ensures
        final(out)@ == old(out)@ + dims_text(*group, ind@),
{
    if group.dims.len() == 0 {
        assert(old(out)@ + dims_text(*group, ind@) == old(out)@);
        return;
    }
    let ghost start = out@;
    push_str(out, ind.as_str());
    push_str(out, "dimensions:\n");
    let ghost head = out@;
    let mut i: usize = 0;
    while i < group.dims.len()
        invariant
            i <= group.dims.len(),
            out@ == head + dim_lines(group.dims@.take(i as int), ind@),
        decreases group.dims.len() - i,
    {
        let dim = &group.dims[i];
        let ghost before = out@;
        push_str(out, ind.as_str());
        push_str(out, "\t");
        let n = cdl_name(dim.name.as_str());
        push_str(out, n.as_str());
        if dim.is_unlimited {
            push_str(out, " = UNLIMITED ; // (");
            push_dec(out, dim.size);
            push_str(out, " currently)\n");
        } else {
            push_str(out, " = ");
            push_dec(out, dim.size);
            push_str(out, " ;\n");
        }
        proof {
            assert(out@ =~= before + dim_line(*dim, ind@));
            assert(group.dims@.take(i + 1).drop_last() == group.dims@.take(i as int));
            assert(group.dims@.take(i + 1).last() == *dim);
        }
        i = i + 1;
    }
    assert(group.dims@.take(group.dims.len() as int) == group.dims@);
    assert(out@ =~= start + dims_text(*group, ind@));
}

/// Appends one variable: its declaration and attribute lines.
fn write_variable(out: &mut String, summary: &DatasetSummary, opts: &CdlOptions, var: &VarSummary, ind: &String)
    ensures
        final(out)@ == old(out)@ + var_text(*summary, *opts, *var, ind@),
{
    let ghost start = out@;
    let policy = match summary.format {
        SourceFormat::NetCdf | SourceFormat::Hdf5 => NumberPolicy::NetCdf,
        _ => NumberPolicy::Json,
    };
    let name = cdl_name(var.name.as_str());
    let tname = cdl_type_name(var.dtype.as_str());
    push_str(out, ind.as_str());
    push_str(out, "\t");
    push_str(out, tname);
    push_str(out, " ");
    push_str(out, name.as_str());
    if var.dims.len() == 0 {
        push_str(out, " ;\n");
    } else {
        let mut names: Vec<String> = Vec::new();
        let mut i: usize = 0;
        while i < var.dims.len()
            invariant
                i <= var.dims.len(),
                names@.len() == i,
                forall|j: int| 0 <= j < i ==> #[trigger] names@[j]@ == spec_cdl_name(var.dims@[j]@),
            decreases var.dims.len() - i,
        {
            names.push(cdl_name(var.dims[i].as_str()));
            i = i + 1;
        }
        assert(strings_view(names@) =~= var.dims@.map_values(|d: String| spec_cdl_name(d@)));
        let dims = join_strings(names.as_slice(), ", ");
        push_str(out, "(");
        push_str(out, dims.as_str());
        push_str(out, ") ;\n");
    }
    assert(out@ =~= start + var_decl(*var, ind@));
    let ghost after_decl = out@;
    write_attr_lines(out, ind, &name, &var.attrs, policy);
    let ghost after_attrs = out@;
    if opts.specials {
        let sp = var_specials(var, summary.format);
        write_attr_lines(out, ind, &name, &sp, policy);
    }
    assert(out@ =~= start + var_text(*summary, *opts, *var, ind@));
}

/// Appends the `variables:` section.
fn write_variables(out: &mut String, summary: &DatasetSummary, opts: &CdlOptions, group: &GroupSummary, ind: &String)
    ensures
        final(out)@ == old(out)@ + vars_text(*summary, *opts, *group, ind@),
{
    let vars = group.variables_in_order();
    if vars.len() == 0 {
        assert(derefs(vars@).len() == 0);
        assert(old(out)@ + vars_text(*summary, *opts, *group, ind@) == old(out)@);
        return;
    }
    let ghost start = out@;
    push_str(out, ind.as_str());
    push_str(out, "variables:\n");
    let ghost head = out@;
    let ghost vs = derefs(vars@);
    let mut i: usize = 0;
    while i < vars.len()
        invariant
            i <= vars.len(),
            vs == derefs(vars@),
            out@ == head + vars_lines(*summary, *opts, vs.take(i as int), ind@),
        decreases vars.len() - i,
    {
        write_variable(out, summary, opts, vars[i], ind);
        proof {
            assert(vs.take(i + 1).drop_last() == vs.take(i as int));
            assert(vs.take(i + 1).last() == *vars@[i as int]);
        }
        i = i + 1;
    }
    assert(vs.take(vars.len() as int) == vs);
    assert(out@ =~= start + vars_text(*summary, *opts, *group, ind@));
}

/// The extra attributes of a group: the global specials for the root
/// when specials are on, nothing otherwise.
fn extra_group_attrs(summary: &DatasetSummary, opts: &CdlOptions, root: bool, Ghost(depth): Ghost<nat>) -> (r: Vec<(String, AttrValue)>)
    requires
        root == (depth == 0),
    ensures
        attrs_view(r@) == (if opts.specials && depth == 0 {
            spec_global_specials(*summary)
        } else {
            Seq::<(Seq<char>, AttrValueV)>::empty()
        }),
{
    if opts.specials && root {
        global_specials(summary)
    } else {
        let r: Vec<(String, AttrValue)> = Vec::new();
        assert(attrs_view(r@) =~= Seq::<(Seq<char>, AttrValueV)>::empty());
        r
    }
}

/// Appends the group (or global) attribute section.
fn write_group_attributes(out: &mut String, summary: &DatasetSummary, opts: &CdlOptions, group: &GroupSummary, root: bool, ind: &String, Ghost(depth): Ghost<nat>)
    requires
        root == (depth == 0),
    ensures
        final(out)@ == old(out)@ + gattrs_text(*summary, *opts, *group, depth, ind@),
{
    let policy = match summary.format {
        SourceFormat::NetCdf | SourceFormat::Hdf5 => NumberPolicy::NetCdf,
        _ => NumberPolicy::Json,
    };
    assert(policy == policy_for(summary.format));
    let sp = extra_group_attrs(summary, opts, root, Ghost(depth));
    let ghost all = group_attrs(*summary, *opts, *group, depth);
    assert(all == attrs_view(group.attrs@) + attrs_view(sp@));
    if group.attrs.len() == 0 && sp.len() == 0 {
        assert(all.len() == 0);
        assert(gattrs_text(*summary, *opts, *group, depth, ind@) == Seq::<char>::empty());
        assert(old(out)@ + Seq::<char>::empty() =~= old(out)@);
        return;
    }
    let ghost heading = if depth == 0 { "global attributes"@ } else { "group attributes"@ };
    let ghost hdr = "\n"@ + ind@ + "// "@ + heading + ":\n"@;
    let mut sec = String::new();
    push_str(&mut sec, "\n");
    push_str(&mut sec, ind.as_str());
    push_str(&mut sec, "// ");
    if root {
        push_str(&mut sec, "global attributes");
    } else {
        push_str(&mut sec, "group attributes");
    }
    push_str(&mut sec, ":\n");
    assert(sec@ =~= hdr);
    let owner = String::new();
    write_attr_lines(&mut sec, ind, &owner, &group.attrs, policy);
    write_attr_lines(&mut sec, ind, &owner, &sp, policy);
    proof {
        assert(owner@ == Seq::<char>::empty());
        let la = attr_lines(ind@, owner@, attrs_view(group.attrs@), policy);
        let lb = attr_lines(ind@, owner@, attrs_view(sp@), policy);
        lemma_attr_lines_concat(ind@, owner@, attrs_view(group.attrs@), attrs_view(sp@), policy);
        vstd::seq_lib::lemma_concat_associative(hdr, la, lb);
        assert(sec@ == hdr + attr_lines(ind@, Seq::empty(), all, policy));
        assert(all.len() > 0);
        assert(gattrs_text(*summary, *opts, *group, depth, ind@)
            == hdr + attr_lines(ind@, Seq::empty(), all, policy));
    }
    push_str(out, sec.as_str());
}

/// Appends the `group:` block of one child.
#[verifier::rlimit(40)]
#[verifier::spinoff_prover]
fn write_child_block(
    out: &mut String,
    summary: &DatasetSummary,
    opts: &CdlOptions,
    child: &GroupSummary,
    ind: &String,
    child_ind: &String,
    path: &String,
    included: bool,
    Ghost(depth): Ghost<nat>,
)
    requires
        ind@ == indent(depth),
        child_ind@ == indent(depth + 1),
    ensures
        final(out)@ == old(out)@ + child_block(*summary, *opts, *child, depth, path@, included),
    decreases child, 3nat,
{
    let ghost start = out@;
    let cp = make_child_path(path, &child.name);
    let ci = included || group_included(opts, cp.as_str(), child.name.as_str());
    if subtree_has_output(opts, child, &cp, ci) {
        let cname = cdl_name(child.name.as_str());
        push_str(out, "\n");
        push_str(out, ind.as_str());
        push_str(out, "group: ");
        push_str(out, cname.as_str());
        push_str(out, " {\n");
        write_group_body(out, summary, opts, child, false, child_ind, &cp, ci, Ghost(depth + 1));
        push_str(out, ind.as_str());
        push_str(out, "  } // group ");
        push_str(out, cname.as_str());
        push_str(out, "\n");
    }
    assert(out@ =~= start + child_block(*summary, *opts, *child, depth, path@, included));
}

/// Appends the text inside a group's braces, recursing into children.
fn write_group_body(
    out: &mut String,
    summary: &DatasetSummary,
    opts: &CdlOptions,
    group: &GroupSummary,
    root: bool,
    ind: &String,
    path: &String,
    included: bool,
    Ghost(depth): Ghost<nat>,
)
    requires
        root == (depth == 0),
        ind@ == indent(depth),
    ensures
        final(out)@ == old(out)@ + body_text(*summary, *opts, *group, depth, path@, included),
    decreases group, 2nat,
{
    let ghost start = out@;
    if included {
        write_dimensions(out, group, ind);
        write_variables(out, summary, opts, group, ind);
        write_group_attributes(out, summary, opts, group, root, ind, Ghost(depth));
    }
    let ghost own = out@;
    assert(own =~= start + if included {
        dims_text(*group, indent(depth)) + vars_text(*summary, *opts, *group, indent(depth))
            + gattrs_text(*summary, *opts, *group, depth, indent(depth))
    } else {
        Seq::empty()
    });
    let mut child_ind = ind.clone();
    push_char(&mut child_ind, ' ');
    push_char(&mut child_ind, ' ');
    assert(child_ind@ =~= indent(depth + 1));
    let mut i: usize = 0;
    while i < group.children.len()
        invariant
            i <= group.children.len(),
            root == (depth == 0),
            ind@ == indent(depth),
            child_ind@ == indent(depth + 1),
            out@ == own + children_text(*summary, *opts, group.children@.take(i as int), *group, depth, path@, included),
        decreases group.children.len() - i,
    {
        let child = &group.children[i];
        proof {
            let t = group.children@.take(i + 1);
            assert(t.drop_last() == group.children@.take(i as int));
            assert(t.last() == *child);
            assert(group.children@.contains(*child)) by {
                assert(group.children@[i as int] == *child);
            }
        }
        write_child_block(out, summary, opts, child, ind, &child_ind, path, included, Ghost(depth));
        assert(out@ =~= own + children_text(*summary, *opts, group.children@.take(i + 1), *group, depth, path@, included));
        i = i + 1;
    }
    assert(group.children@.take(group.children.len() as int) == group.children@);
}

/// Renders the CDL header for `summary`: `netcdf NAME {`, the root group's
/// sections, nested `group:` blocks, and `}`. With a `-g` list, every
/// entry must name a group (else `UnknownGroup` with the first that does
/// not); only selected groups and their descendants print their
/// contents, inside empty wrappers for their ancestors.
pub fn render_cdl(summary: &DatasetSummary, opts: &CdlOptions) -> (r: Result<String, CdlError>)
    ensures
        match r {
            Ok(t) => spec_render(*summary, *opts) == Ok::<Seq<char>, Seq<char>>(t@),
            Err(CdlError::UnknownGroup(g)) => spec_render(*summary, *opts) == Err::<Seq<char>, Seq<char>>(g@),
        },
{
    let root_path = String::new();
    if let Some(groups) = &opts.groups {
        let mut i: usize = 0;
        while i < groups.len()
            invariant
                i <= groups.len(),
                opts.groups == Some(*groups),
                root_path@ == Seq::<char>::empty(),
                first_missing(summary.root, groups@.take(i as int)) is None,
            decreases groups.len() - i,
        {
            let found = group_exists(&summary.root, &root_path, groups[i].as_str());
            proof {
                assert(groups@.take(i + 1).drop_last() == groups@.take(i as int));
                assert(groups@.take(i + 1).last() == groups@[i as int]);
            }
            if !found {
                proof {
                    lemma_first_missing_prefix(summary.root, groups@, i + 1);
                }
                return Err(CdlError::UnknownGroup(groups[i].clone()));
            }
            i = i + 1;
        }
        assert(groups@.take(groups.len() as int) == groups@);
    }
    let mut out = String::new();
    push_str(&mut out, "netcdf ");
    let n = cdl_name(opts.name.as_str());
    push_str(&mut out, n.as_str());
    push_str(&mut out, " {\n");
    let root_included = group_included(opts, root_path.as_str(), root_path.as_str());
    let ind = String::new();
    assert(ind@ =~= indent(0));
    write_group_body(&mut out, summary, opts, &summary.root, true, &ind, &root_path, root_included, Ghost(0));
    push_str(&mut out, "}\n");
    Ok(out)
}

} // verus!
