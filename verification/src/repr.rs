//! The xarray-style HTML repr of a summary: its variables, sections and
//! (for a group with children) its DataTree layout, and the page around it.
//!
//! Attribute values are shown the way Python's `str()` shows them. The
//! text of a value without floating-point numbers comes from
//! [`attr_plain_text`]; the caller produces the text of the others (it
//! formats floating-point numbers), and the texts come in beside the
//! summary, one per attribute.

use vstd::prelude::*;
use crate::html::{
    child_items, contains_name, dim_section, header_components, render_footer, spec_obj_repr, spec_render_footer,
    spec_text_repr_fallback, top_level_repr, icon, id_text, index_coord_names, mapping_section, push_escaped_html,
    section_text, sections_repr, spec_format_dims, spec_html_escape, spec_icon, spec_index_coord_names,
    spec_sections_repr, tree_item_count, tree_items, IdGen,
};
use crate::model::{spec_is_list, spec_scalars, AttrScalar, AttrValue, AttrValueV, DatasetSummary, GroupSummary, ScalarV, VarSummary, scalars_view};
use crate::text::{dec, dec_int, i64_to_string, join, join_strings, owned, push_char, push_dec, push_str, strings_view, u64_to_string};

verus! {

/// How one element of an attribute value shows, as Python's `str()` shows
/// it: text as it is (quoted `'...'` inside a list), integers in decimal.
/// Floating-point elements have no text here.
pub open spec fn scalar_text(x: ScalarV, quoted: bool) -> Seq<char> {
    match x {
        ScalarV::Text(t) => if quoted { seq!['\''] + t + seq!['\''] } else { t },
        ScalarV::Int(i) => dec_int(i as int),
        ScalarV::UInt(u) => dec(u as nat),
        _ => Seq::empty(),
    }
}

/// Does a value hold floating-point numbers?
pub open spec fn is_float_valued(v: AttrValueV) -> bool {
    match v {
        AttrValueV::Float(_) | AttrValueV::FloatList(_) | AttrValueV::Float32(_)
        | AttrValueV::Float32List(_) => true,
        _ => false,
    }
}

/// The text of a value with no floating-point numbers in it: a scalar as
/// its element shows, a list as `[a, b, c]` with quoted text items. `None`
/// for the floating-point variants.
pub open spec fn spec_attr_plain_text(v: AttrValueV) -> Option<Seq<char>> {
    if is_float_valued(v) {
        None
    } else if spec_is_list(v) {
        Some(seq!['['] + join(spec_scalars(v).map_values(|x: ScalarV| scalar_text(x, true)), seq![',', ' '])
            + seq![']'])
    } else {
        Some(scalar_text(spec_scalars(v)[0], false))
    }
}

/// The text of one element (see [`scalar_text`]).
fn scalar_to_string(x: &AttrScalar, quoted: bool) -> (r: String)
    ensures
        r@ == scalar_text(x@, quoted),
{
    match x {
        AttrScalar::Text(t) => if quoted {
            let mut s = String::new();
            push_char(&mut s, '\'');
            push_str(&mut s, t);
            push_char(&mut s, '\'');
            assert(s@ =~= seq!['\''] + t@ + seq!['\'']);
            s
        } else {
            owned(t)
        },
        AttrScalar::Int(i) => i64_to_string(*i),
        AttrScalar::UInt(u) => u64_to_string(*u),
        _ => {
            let s = String::new();
            assert(s@ =~= Seq::<char>::empty());
            s
        },
    }
}

/// The text a value with no floating-point numbers shows (see
/// [`spec_attr_plain_text`]); `None` for the floating-point variants,
/// whose text the caller produces.
pub fn attr_plain_text(v: &AttrValue) -> (r: Option<String>)
    ensures
        crate::zarr::opt_text(r) == spec_attr_plain_text(v@),
{
    match v {
        AttrValue::Float(_) | AttrValue::FloatList(_) | AttrValue::Float32(_) | AttrValue::Float32List(_) => {
            return None;
        },
        _ => {},
    }
    let xs = v.scalars();
    if !v.is_list() {
        assert(spec_scalars(v@).len() == 1);
        return Some(scalar_to_string(&xs[0], false));
    }
    let ghost texts = spec_scalars(v@).map_values(|x: ScalarV| scalar_text(x, true));
    let mut parts: Vec<String> = Vec::new();
    let mut i: usize = 0;
    while i < xs.len()
        invariant
            i <= xs.len(),
            scalars_view(xs@) == spec_scalars(v@),
            texts == spec_scalars(v@).map_values(|x: ScalarV| scalar_text(x, true)),
            parts@.len() == i,
            forall|j: int| 0 <= j < i ==> #[trigger] parts@[j]@ == texts[j],
        decreases xs.len() - i,
    {
        let t = scalar_to_string(&xs[i], true);
        assert(xs@[i as int]@ == spec_scalars(v@)[i as int]);
        parts.push(t);
        i = i + 1;
    }
    assert(strings_view(parts@) =~= texts);
    let mut s = String::new();
    push_char(&mut s, '[');
    let inner = join_strings(parts.as_slice(), ", ");
    proof {
        reveal_strlit(", ");
        assert(", "@ =~= seq![',', ' ']);
    }
    push_str(&mut s, inner.as_str());
    push_char(&mut s, ']');
    assert(s@ =~= seq!['['] + join(texts, seq![',', ' ']) + seq![']']);
    Some(s)
}

/// One attribute row: the name and the shown value, both escaped.
pub open spec fn attr_row(name: Seq<char>, shown: Seq<char>) -> Seq<char> {
    "<dt><span>"@ + spec_html_escape(name) + " :</span></dt><dd>"@ + spec_html_escape(shown) + "</dd>"@
}

/// The rows of `attrs`, each shown as the matching text of `shown`.
pub open spec fn attr_rows(attrs: Seq<(String, AttrValue)>, shown: Seq<String>) -> Seq<char>
    decreases attrs.len(),
{
    if attrs.len() == 0 {
        Seq::empty()
    } else {
        attr_rows(attrs.drop_last(), shown.take(attrs.len() - 1)) + attr_row(attrs.last().0@, shown[attrs.len() - 1]@)
    }
}

/// xarray's `summarize_attrs`: the attribute list of a variable or group.
pub open spec fn spec_summarize_attrs(attrs: Seq<(String, AttrValue)>, shown: Seq<String>) -> Seq<char> {
    "<dl class='xr-attrs'>"@ + attr_rows(attrs, shown) + "</dl>"@
}

/// The attribute list of a variable or group, each attribute shown as the
/// matching text of `shown`.
pub fn summarize_attrs(attrs: &[(String, AttrValue)], shown: &[String]) -> (r: String)
    requires
        attrs@.len() == shown@.len(),
    ensures
        r@ == spec_summarize_attrs(attrs@, shown@),
{
    let mut rows = String::new();
    let mut i: usize = 0;
    while i < attrs.len()
        invariant
            i <= attrs.len(),
            attrs@.len() == shown@.len(),
            rows@ == attr_rows(attrs@.take(i as int), shown@.take(i as int)),
        decreases attrs.len() - i,
    {
        proof {
            let t = attrs@.take(i + 1);
            assert(t.drop_last() =~= attrs@.take(i as int));
            assert(shown@.take(i + 1).take(i as int) =~= shown@.take(i as int));
        }
        push_str(&mut rows, "<dt><span>");
        push_escaped_html(&mut rows, attrs[i].0.as_str());
        push_str(&mut rows, " :</span></dt><dd>");
        push_escaped_html(&mut rows, shown[i].as_str());
        push_str(&mut rows, "</dd>");
        i = i + 1;
    }
    proof {
        assert(attrs@.take(attrs@.len() as int) =~= attrs@);
        assert(shown@.take(shown@.len() as int) =~= shown@);
    }
    let mut out = owned("<dl class='xr-attrs'>");
    push_str(&mut out, rows.as_str());
    push_str(&mut out, "</dl>");
    out
}

/// The escaped names of `xs`.
pub open spec fn escaped_all(xs: Seq<String>) -> Seq<Seq<char>> {
    xs.map_values(|x: String| spec_html_escape(x@))
}

/// A variable's dimensions as xarray lists them: `(time, lat)`.
pub open spec fn dims_text(dims: Seq<String>) -> Seq<char> {
    "("@ + join(escaped_all(dims), ", "@) + ")"@
}

/// A chunk shape as `2, 3`.
pub open spec fn chunks_text(chunks: Seq<u64>) -> Seq<char> {
    join(chunks.map_values(|c: u64| dec(c as nat)), ", "@)
}

/// The preview a variable shows, escaped: its value peek, or
/// `[metadata only]`.
pub open spec fn preview_text(var: VarSummary) -> Seq<char> {
    spec_html_escape(
        match var.preview {
            Some(p) => p@,
            None => "[metadata only]"@,
        },
    )
}

/// What a variable's data repr holds: its chunk shape, when it has one,
/// above its preview.
pub open spec fn data_body(var: VarSummary) -> Seq<char> {
    match var.chunks {
        Some(c) => "chunksize=("@ + chunks_text(c@) + ")\n"@ + preview_text(var),
        None => preview_text(var),
    }
}

/// The class that marks an index coordinate's name.
pub open spec fn index_class(is_index: bool) -> Seq<char> {
    if is_index {
        " class='xr-has-index'"@
    } else {
        Seq::empty()
    }
}

/// xarray's `summarize_variable` for the variable `var` listed as `name`,
/// taking the ids `attrs-{n}` and `data-{n+1}`.
#[verifier::opaque]
pub open spec fn spec_summarize_variable(name: Seq<char>, var: VarSummary, is_index: bool, shown: Seq<String>, n: nat) -> Seq<char> {
    let attrs_id = id_text("attrs"@, n);
    let data_id = id_text("data"@, n + 1);
    "<div class='xr-var-name'><span"@ + index_class(is_index) + ">"@ + spec_html_escape(name) + "</span></div>"@
        + "<div class='xr-var-dims'>"@ + dims_text(var.dims@) + "</div>"@ + "<div class='xr-var-dtype'>"@
        + spec_html_escape(var.dtype@) + "</div>"@ + "<div class='xr-var-preview xr-preview'>"@ + preview_text(var)
        + "</div>"@ + "<input id='"@ + attrs_id + "' class='xr-var-attrs-in' type='checkbox' "@ + (if var.attrs@.len()
        == 0 {
        "disabled"@
    } else {
        Seq::empty()
    }) + ">"@ + "<label for='"@ + attrs_id + "' title='Show/Hide attributes'>"@ + spec_icon("icon-file-text2"@)
        + "</label>"@ + "<input id='"@ + data_id + "' class='xr-var-data-in' type='checkbox'>"@ + "<label for='"@
        + data_id + "' title='Show/Hide data repr'>"@ + spec_icon("icon-database"@) + "</label>"@
        + "<div class='xr-var-attrs'>"@ + spec_summarize_attrs(var.attrs@, shown) + "</div>"@
        + "<div class='xr-var-data'><pre>"@ + data_body(var) + "</pre></div>"@
}

/// Appends `dims_text(dims)`.
fn push_dims(out: &mut String, dims: &[String])
    ensures
        final(out)@ == old(out)@ + dims_text(dims@),
{
    let ghost start = out@;
    push_str(out, "(");
    let mut i: usize = 0;
    while i < dims.len()
        invariant
            i <= dims.len(),
            out@ == start + "("@ + join(escaped_all(dims@.take(i as int)), ", "@),
        decreases dims.len() - i,
    {
        let ghost before = out@;
        proof {
            assert(escaped_all(dims@.take(i + 1)).drop_last() =~= escaped_all(dims@.take(i as int)));
            assert(escaped_all(dims@.take(i + 1)).last() == spec_html_escape(dims@[i as int]@));
        }
        if i > 0 {
            push_str(out, ", ");
        }
        push_escaped_html(out, dims[i].as_str());
        proof {
            if i == 0 {
                assert(escaped_all(dims@.take(1)) =~= seq![spec_html_escape(dims@[0]@)]);
            }
        }
        i = i + 1;
    }
    proof {
        assert(dims@.take(dims@.len() as int) =~= dims@);
    }
    push_str(out, ")");
}

/// Appends `chunks_text(chunks)`.
fn push_chunks(out: &mut String, chunks: &[u64])
    ensures
        final(out)@ == old(out)@ + chunks_text(chunks@),
{
    let ghost start = out@;
    let mut i: usize = 0;
    while i < chunks.len()
        invariant
            i <= chunks.len(),
            out@ == start + join(chunks@.take(i as int).map_values(|c: u64| dec(c as nat)), ", "@),
        decreases chunks.len() - i,
    {
        proof {
            assert(chunks@.take(i + 1).map_values(|c: u64| dec(c as nat)).drop_last() =~= chunks@.take(i as int).map_values(
                |c: u64| dec(c as nat),
            ));
        }
        if i > 0 {
            push_str(out, ", ");
        }
        push_dec(out, chunks[i]);
        proof {
            if i == 0 {
                assert(chunks@.take(1).map_values(|c: u64| dec(c as nat)) =~= seq![dec(chunks@[0] as nat)]);
            }
        }
        i = i + 1;
    }
    proof {
        assert(chunks@.take(chunks@.len() as int) =~= chunks@);
    }
}

/// Appends `preview_text(var)`.
fn push_preview(out: &mut String, var: &VarSummary)
    ensures
        final(out)@ == old(out)@ + preview_text(*var),
{
    match &var.preview {
        Some(p) => push_escaped_html(out, p.as_str()),
        None => push_escaped_html(out, "[metadata only]"),
    }
}

/// xarray's `summarize_variable`: one variable's row, listed as `name`,
/// marked as an index coordinate when `is_index`, its attributes shown as
/// `shown`. Takes two ids from `ids`.
pub fn summarize_variable(ids: &mut IdGen, name: &str, var: &VarSummary, is_index: bool, shown: &[String]) -> (r: String)
    requires
        old(ids)@ + 2 <= u64::MAX,
        var.attrs@.len() == shown@.len(),
    ensures
        final(ids)@ == old(ids)@ + 2,
        r@ == spec_summarize_variable(name@, *var, is_index, shown@, old(ids)@ as nat),
{
    let attrs_id = ids.next("attrs");
    let data_id = ids.next("data");
    let mut out = owned("<div class='xr-var-name'><span");
    if is_index {
        push_str(&mut out, " class='xr-has-index'");
    }
    push_str(&mut out, ">");
    push_escaped_html(&mut out, name);
    push_str(&mut out, "</span></div>");
    push_str(&mut out, "<div class='xr-var-dims'>");
    push_dims(&mut out, var.dims.as_slice());
    push_str(&mut out, "</div>");
    push_str(&mut out, "<div class='xr-var-dtype'>");
    push_escaped_html(&mut out, var.dtype.as_str());
    push_str(&mut out, "</div>");
    push_str(&mut out, "<div class='xr-var-preview xr-preview'>");
    push_preview(&mut out, var);
    push_str(&mut out, "</div>");
    push_str(&mut out, "<input id='");
    push_str(&mut out, attrs_id.as_str());
    push_str(&mut out, "' class='xr-var-attrs-in' type='checkbox' ");
    if var.attrs.len() == 0 {
        push_str(&mut out, "disabled");
    }
    push_str(&mut out, ">");
    push_str(&mut out, "<label for='");
    push_str(&mut out, attrs_id.as_str());
    push_str(&mut out, "' title='Show/Hide attributes'>");
    let attrs_icon = icon("icon-file-text2");
    push_str(&mut out, attrs_icon.as_str());
    push_str(&mut out, "</label>");
    push_str(&mut out, "<input id='");
    push_str(&mut out, data_id.as_str());
    push_str(&mut out, "' class='xr-var-data-in' type='checkbox'>");
    push_str(&mut out, "<label for='");
    push_str(&mut out, data_id.as_str());
    push_str(&mut out, "' title='Show/Hide data repr'>");
    let data_icon = icon("icon-database");
    push_str(&mut out, data_icon.as_str());
    push_str(&mut out, "</label>");
    push_str(&mut out, "<div class='xr-var-attrs'>");
    let attrs_dl = summarize_attrs(var.attrs.as_slice(), shown);
    push_str(&mut out, attrs_dl.as_str());
    push_str(&mut out, "</div>");
    push_str(&mut out, "<div class='xr-var-data'><pre>");
    match &var.chunks {
        Some(c) => {
            push_str(&mut out, "chunksize=(");
            push_chunks(&mut out, c.as_slice());
            push_str(&mut out, ")\n");
        },
        None => {},
    }
    push_preview(&mut out, var);
    push_str(&mut out, "</pre></div>");
    proof {
        reveal_strlit("");
        reveal(spec_summarize_variable);
    }
    assert(out@ =~= spec_summarize_variable(name@, *var, is_index, shown@, old(ids)@ as nat));
    out
}

/// The `<li>` rows of `vars`, variable `i` taking its ids from `n + 2i`,
/// index coordinates being those named in `index_names`.
pub open spec fn var_items(vars: Seq<VarSummary>, index_names: Seq<Seq<char>>, shown: Seq<Vec<String>>, n: nat) -> Seq<char>
    decreases vars.len(),
{
    if vars.len() == 0 {
        Seq::empty()
    } else {
        let k = (vars.len() - 1) as nat;
        var_items(vars.drop_last(), index_names, shown.take(k as int), n) + "<li class='xr-var-item'>"@
            + spec_summarize_variable(vars[k as int].name@, vars[k as int], index_names.contains(vars[k as int].name@), shown[k as int]@, n + 2 * k)
            + "</li>"@
    }
}

/// A list of variables, as xarray's `summarize_coords`/`summarize_vars`.
pub open spec fn spec_var_list(vars: Seq<VarSummary>, index_names: Seq<Seq<char>>, shown: Seq<Vec<String>>, n: nat) -> Seq<char> {
    "<ul class='xr-var-list'>"@ + var_items(vars, index_names, shown, n) + "</ul>"@
}

/// Each variable's attributes have a shown text each.
pub open spec fn shown_fit(vars: Seq<VarSummary>, shown: Seq<Vec<String>>) -> bool {
    &&& vars.len() == shown.len()
    &&& forall|i: int| 0 <= i < vars.len() ==> (#[trigger] vars[i]).attrs@.len() == shown[i]@.len()
}

/// The rows of `vars`, marking those named in `index_names` as index
/// coordinates. Takes two ids per variable.
fn summarize_var_list(ids: &mut IdGen, vars: &[VarSummary], index_names: &[String], shown: &[Vec<String>]) -> (r: String)
    requires
        old(ids)@ + 2 * vars@.len() <= u64::MAX,
        shown_fit(vars@, shown@),
    ensures
        final(ids)@ == old(ids)@ + 2 * vars@.len(),
        r@ == spec_var_list(vars@, strings_view(index_names@), shown@, old(ids)@ as nat),
{
    let ghost n0 = ids@ as nat;
    let mut items = String::new();
    let mut i: usize = 0;
    while i < vars.len()
        invariant
            i <= vars.len(),
            shown_fit(vars@, shown@),
            n0 + 2 * vars@.len() <= u64::MAX,
            ids@ == n0 + 2 * i,
            items@ == var_items(vars@.take(i as int), strings_view(index_names@), shown@.take(i as int), n0),
        decreases vars.len() - i,
    {
        proof {
            assert(vars@.take(i + 1).drop_last() =~= vars@.take(i as int));
            assert(shown@.take(i + 1).take(i as int) =~= shown@.take(i as int));
            assert(vars@[i as int].attrs@.len() == shown@[i as int]@.len());
        }
        let is_index = contains_name(index_names, vars[i].name.as_str());
        let row = summarize_variable(ids, vars[i].name.as_str(), &vars[i], is_index, shown[i].as_slice());
        push_str(&mut items, "<li class='xr-var-item'>");
        push_str(&mut items, row.as_str());
        push_str(&mut items, "</li>");
        i = i + 1;
    }
    proof {
        assert(vars@.take(vars@.len() as int) =~= vars@);
        assert(shown@.take(shown@.len() as int) =~= shown@);
    }
    let mut out = owned("<ul class='xr-var-list'>");
    push_str(&mut out, items.as_str());
    push_str(&mut out, "</ul>");
    out
}

/// xarray's `summarize_coords`: the coordinate rows, index coordinates
/// marked.
pub fn summarize_coords(ids: &mut IdGen, coords: &[VarSummary], shown: &[Vec<String>]) -> (r: String)
    requires
        old(ids)@ + 2 * coords@.len() <= u64::MAX,
        shown_fit(coords@, shown@),
    ensures
        final(ids)@ == old(ids)@ + 2 * coords@.len(),
        r@ == spec_var_list(coords@, spec_index_coord_names(coords@), shown@, old(ids)@ as nat),
{
    let index_names = index_coord_names(coords);
    summarize_var_list(ids, coords, index_names.as_slice(), shown)
}

/// xarray's `summarize_vars`: the data variable rows.
pub fn summarize_vars(ids: &mut IdGen, vars: &[VarSummary], shown: &[Vec<String>]) -> (r: String)
    requires
        old(ids)@ + 2 * vars@.len() <= u64::MAX,
        shown_fit(vars@, shown@),
    ensures
        final(ids)@ == old(ids)@ + 2 * vars@.len(),
        r@ == spec_var_list(vars@, Seq::empty(), shown@, old(ids)@ as nat),
{
    let none: Vec<String> = Vec::new();
    proof {
        assert(strings_view(none@) =~= Seq::<Seq<char>>::empty());
    }
    summarize_var_list(ids, vars, none.as_slice(), shown)
}

/// A mapping section named `name` over `n_items` items, expanded below
/// `max` items, with the section id `section-{n}`.
pub open spec fn mapping_text(name: Seq<char>, n_items: usize, max: usize, details: Seq<char>, n: nat) -> Seq<char> {
    section_text(id_text("section"@, n), name + ":"@, Seq::empty(), details, Some(n_items), true, !(n_items < max), false)
}

/// The `Coordinates` section: ids `n` on for the rows, then one for the
/// section.
#[verifier::opaque]
pub open spec fn spec_coord_section(coords: Seq<VarSummary>, shown: Seq<Vec<String>>, n: nat) -> Seq<char> {
    mapping_text("Coordinates"@, coords.len() as usize, 25, spec_var_list(coords, spec_index_coord_names(coords), shown, n), n + 2 * coords.len())
}

/// The `Data variables` section.
#[verifier::opaque]
pub open spec fn spec_datavar_section(vars: Seq<VarSummary>, shown: Seq<Vec<String>>, n: nat) -> Seq<char> {
    mapping_text("Data variables"@, vars.len() as usize, 15, spec_var_list(vars, Seq::empty(), shown, n), n + 2 * vars.len())
}

/// The `Attributes` section.
#[verifier::opaque]
pub open spec fn spec_attr_section(attrs: Seq<(String, AttrValue)>, shown: Seq<String>, n: nat) -> Seq<char> {
    mapping_text("Attributes"@, attrs.len() as usize, 10, spec_summarize_attrs(attrs, shown), n)
}

/// xarray's `coord_section`, expanded below 25 coordinates.
pub fn coord_section(ids: &mut IdGen, coords: &[VarSummary], shown: &[Vec<String>]) -> (r: String)
    requires
        old(ids)@ + 2 * coords@.len() + 1 <= u64::MAX,
        shown_fit(coords@, shown@),
    ensures
        final(ids)@ == old(ids)@ + 2 * coords@.len() + 1,
        r@ == spec_coord_section(coords@, shown@, old(ids)@ as nat),
{
    let details = summarize_coords(ids, coords, shown);
    proof {
        reveal(spec_coord_section);
    }
    mapping_section(ids, "Coordinates", coords.len(), Some(25), details.as_str())
}

/// xarray's `datavar_section`, expanded below 15 data variables.
pub fn datavar_section(ids: &mut IdGen, vars: &[VarSummary], shown: &[Vec<String>]) -> (r: String)
    requires
        old(ids)@ + 2 * vars@.len() + 1 <= u64::MAX,
        shown_fit(vars@, shown@),
    ensures
        final(ids)@ == old(ids)@ + 2 * vars@.len() + 1,
        r@ == spec_datavar_section(vars@, shown@, old(ids)@ as nat),
{
    let details = summarize_vars(ids, vars, shown);
    proof {
        reveal(spec_datavar_section);
    }
    mapping_section(ids, "Data variables", vars.len(), Some(15), details.as_str())
}

/// xarray's `attr_section`, expanded below 10 attributes.
pub fn attr_section(ids: &mut IdGen, attrs: &[(String, AttrValue)], shown: &[String]) -> (r: String)
    requires
        old(ids)@ < u64::MAX,
        attrs@.len() == shown@.len(),
    ensures
        final(ids)@ == old(ids)@ + 1,
        r@ == spec_attr_section(attrs@, shown@, old(ids)@ as nat),
{
    let details = summarize_attrs(attrs, shown);
    proof {
        reveal(spec_attr_section);
    }
    mapping_section(ids, "Attributes", attrs.len(), Some(10), details.as_str())
}

/// The text each attribute shows, laid out like a group: for the group's
/// own attributes, for each coordinate's and each data variable's
/// attributes, and, in the same shape, for each child group.
pub struct GroupTexts {
    pub attrs: Vec<String>,
    pub coords: Vec<Vec<String>>,
    pub data_vars: Vec<Vec<String>>,
    pub children: Vec<GroupTexts>,
}

/// `t` has a text for each attribute of `g` and of its variables, down
/// the whole tree.
pub open spec fn texts_fit(g: GroupSummary, t: GroupTexts) -> bool
    decreases g, 1nat, 0nat,
{
    &&& g.attrs@.len() == t.attrs@.len()
    &&& shown_fit(g.coords@, t.coords@)
    &&& shown_fit(g.data_vars@, t.data_vars@)
    &&& g.children@.len() == t.children@.len()
    &&& children_fit(g.children@, t.children@, g)
}

/// Each of the children `cs` of `parent` fits its texts in `ts`.
pub open spec fn children_fit(cs: Seq<GroupSummary>, ts: Seq<GroupTexts>, parent: GroupSummary) -> bool
    decreases parent, 0nat, cs.len(),
{
    if cs.len() == 0 {
        true
    } else {
        &&& children_fit(cs.drop_last(), ts.drop_last(), parent)
        &&& parent.children@.contains(cs.last()) ==> texts_fit(cs.last(), ts.last())
    }
}

/// Does a group show its `Dimensions` section?
pub open spec fn shows_dims(g: GroupSummary, always: bool) -> bool {
    always || g.coords@.len() > 0 || g.data_vars@.len() > 0
}

/// Does a group show its `Data variables` section?
pub open spec fn shows_data(g: GroupSummary, always: bool) -> bool {
    always || g.data_vars@.len() > 0
}

/// How many ids a group's own sections take.
pub open spec fn section_ids(g: GroupSummary, always: bool) -> nat {
    (if shows_dims(g, always) { 1nat } else { 0nat }) + (if g.coords@.len() > 0 {
        2 * g.coords@.len() + 1
    } else {
        0nat
    }) + (if shows_data(g, always) { 2 * g.data_vars@.len() + 1 } else { 0nat }) + (if g.attrs@.len() > 0 {
        1nat
    } else {
        0nat
    })
}

/// The `Dimensions` section of a group, with the section id `section-{n}`.
#[verifier::opaque]
pub open spec fn dims_section_text(g: GroupSummary, n: nat) -> Seq<char> {
    section_text(id_text("section"@, n), "Dimensions:"@, spec_format_dims(g.dims@, spec_index_coord_names(g.coords@)),
        Seq::empty(), None, false, true, false)
}

/// A group's own sections, ids from `n` on: its dimensions (always when
/// `always`, else when it has variables), coordinates (when it has any),
/// data variables (always when `always`, else when it has any) and
/// attributes (when it has any).
pub open spec fn spec_group_sections(g: GroupSummary, t: GroupTexts, always: bool, n: nat) -> Seq<Seq<char>> {
    let d = if shows_dims(g, always) { seq![dims_section_text(g, n)] } else { Seq::empty() };
    let n1 = n + if shows_dims(g, always) { 1nat } else { 0nat };
    let c = if g.coords@.len() > 0 { d.push(spec_coord_section(g.coords@, t.coords@, n1)) } else { d };
    let n2 = n1 + if g.coords@.len() > 0 { 2 * g.coords@.len() + 1 } else { 0nat };
    let v = if shows_data(g, always) { c.push(spec_datavar_section(g.data_vars@, t.data_vars@, n2)) } else { c };
    let n3 = n2 + if shows_data(g, always) { 2 * g.data_vars@.len() + 1 } else { 0nat };
    if g.attrs@.len() > 0 {
        v.push(spec_attr_section(g.attrs@, t.attrs@, n3))
    } else {
        v
    }
}

/// A group's own sections (see [`spec_group_sections`]).
fn group_sections(ids: &mut IdGen, group: &GroupSummary, always: bool, texts: &GroupTexts) -> (r: Vec<String>)
    requires
        old(ids)@ + section_ids(*group, always) <= u64::MAX,
        group.attrs@.len() == texts.attrs@.len(),
        shown_fit(group.coords@, texts.coords@),
        shown_fit(group.data_vars@, texts.data_vars@),
    ensures
        final(ids)@ == old(ids)@ + section_ids(*group, always),
        strings_view(r@) == spec_group_sections(*group, *texts, always, old(ids)@ as nat),
{
    let ghost n = ids@ as nat;
    let mut sections: Vec<String> = Vec::new();
    let show_dims = always || group.coords.len() > 0 || group.data_vars.len() > 0;
    if show_dims {
        let d = dim_section(ids, group.dims.as_slice(), group.coords.as_slice());
        proof {
            reveal(dims_section_text);
        }
        sections.push(d);
    }
    if group.coords.len() > 0 {
        sections.push(coord_section(ids, group.coords.as_slice(), texts.coords.as_slice()));
    }
    if always || group.data_vars.len() > 0 {
        sections.push(datavar_section(ids, group.data_vars.as_slice(), texts.data_vars.as_slice()));
    }
    if group.attrs.len() > 0 {
        sections.push(attr_section(ids, group.attrs.as_slice(), texts.attrs.as_slice()));
    }
    assert(strings_view(sections@) =~= spec_group_sections(*group, *texts, always, n));
    sections
}

/// How many ids a DataTree node's sections take: one per child group box
/// and what its sections take, then its own sections'.
pub open spec fn tree_ids(g: GroupSummary) -> nat
    decreases g, 1nat, 0nat,
{
    children_ids(g.children@, g) + section_ids(g, false)
}

/// How many ids the boxes of the children `cs` of `parent` take.
pub open spec fn children_ids(cs: Seq<GroupSummary>, parent: GroupSummary) -> nat
    decreases parent, 0nat, cs.len(),
{
    if cs.len() == 0 {
        0
    } else {
        children_ids(cs.drop_last(), parent) + if parent.children@.contains(cs.last()) {
            1 + tree_ids(cs.last())
        } else {
            0
        }
    }
}

/// The sections of a DataTree node, ids from `n` on: a box per child
/// group when it has any, then its own sections.
pub open spec fn spec_datatree_sections(g: GroupSummary, t: GroupTexts, n: nat) -> Seq<Seq<char>>
    decreases g, 1nat, 0nat,
{
    let kids = if g.children@.len() > 0 {
        seq!["<div class='xr-children'>"@ + child_boxes(g.children@, t.children@, g, n) + "</div>"@]
    } else {
        Seq::empty()
    };
    kids + spec_group_sections(g, t, false, n + children_ids(g.children@, g))
}

/// The box of the child group `node`, taking the ids from `n` on: its
/// name, item count and sections, with a short connector when it is the
/// last child (`end`).
pub open spec fn box_text(node: GroupSummary, t: GroupTexts, end: bool, n: nat) -> Seq<char>
    decreases node, 2nat, 0nat,
{
    let sections = spec_datatree_sections(node, t, n + 1);
    let group_id = id_text("group"@, n);
    "<div class='xr-group-box'><div class='xr-group-box-vline' style='height: "@ + (if end {
        "1.2em"@
    } else {
        "100%"@
    }) + "'></div><div class='xr-group-box-hline'></div><div class='xr-group-box-contents'><input id='"@ + group_id
        + "' type='checkbox' /><label for='"@ + group_id + "' title='Expand/collapse group'>"@ + spec_html_escape(
        node.name@,
    ) + " <span>("@ + dec(tree_items(node)) + ")</span></label>"@ + (if sections.len() == 0 {
        Seq::empty()
    } else {
        spec_sections_repr(sections)
    }) + "</div></div>"@
}

/// The boxes of the children `cs` of `parent`, ids from `n` on.
pub open spec fn child_boxes(cs: Seq<GroupSummary>, ts: Seq<GroupTexts>, parent: GroupSummary, n: nat) -> Seq<char>
    decreases parent, 0nat, cs.len(),
{
    if cs.len() == 0 {
        Seq::empty()
    } else {
        let prev = child_boxes(cs.drop_last(), ts.drop_last(), parent, n);
        if parent.children@.contains(cs.last()) {
            prev + box_text(cs.last(), ts.last(), cs.len() == parent.children@.len(), n + children_ids(
                cs.drop_last(),
                parent,
            ))
        } else {
            prev
        }
    }
}

/// One more child's box.
proof fn lemma_child_boxes_step(cs: Seq<GroupSummary>, ts: Seq<GroupTexts>, parent: GroupSummary, n: nat)
    requires
        cs.len() > 0,
        parent.children@.contains(cs.last()),
    ensures
        child_boxes(cs, ts, parent, n) == child_boxes(cs.drop_last(), ts.drop_last(), parent, n) + box_text(
            cs.last(),
            ts.last(),
            cs.len() == parent.children@.len(),
            n + children_ids(cs.drop_last(), parent),
        ),
{
    reveal_with_fuel(child_boxes, 2);
}

/// Counts over a prefix of the children are no more than over them all.
proof fn lemma_children_counts_prefix(cs: Seq<GroupSummary>, k: int, parent: GroupSummary)
    requires
        0 <= k <= cs.len(),
    ensures
        children_ids(cs.take(k), parent) <= children_ids(cs, parent),
        child_items(cs.take(k), parent) <= child_items(cs, parent),
    decreases cs.len() - k,
{
    if k < cs.len() {
        lemma_children_counts_prefix(cs, k + 1, parent);
        assert(cs.take(k + 1).drop_last() =~= cs.take(k));
    } else {
        assert(cs.take(k) =~= cs);
    }
}

/// The texts of child `i` fit it.
proof fn lemma_child_fits(cs: Seq<GroupSummary>, ts: Seq<GroupTexts>, parent: GroupSummary, i: int)
    requires
        children_fit(cs, ts, parent),
        cs.len() == ts.len(),
        0 <= i < cs.len(),
        parent.children@.contains(cs[i]),
    ensures
        texts_fit(cs[i], ts[i]),
    decreases cs.len(),
{
    if i < cs.len() - 1 {
        assert(cs.drop_last()[i] == cs[i]);
        assert(ts.drop_last()[i] == ts[i]);
        lemma_child_fits(cs.drop_last(), ts.drop_last(), parent, i);
    }
}

/// xarray's `children_section`: the boxes of a node's child groups.
fn children_section(ids: &mut IdGen, group: &GroupSummary, texts: &GroupTexts) -> (r: String)
    requires
        old(ids)@ + children_ids(group.children@, *group) <= u64::MAX,
        tree_items(*group) <= usize::MAX,
        texts_fit(*group, *texts),
    ensures
        final(ids)@ == old(ids)@ + children_ids(group.children@, *group),
        r@ == "<div class='xr-children'>"@ + child_boxes(group.children@, texts.children@, *group, old(ids)@ as nat)
            + "</div>"@,
    decreases group, 1nat,
{
    let ghost n0 = ids@ as nat;
    let n = group.children.len();
    let mut boxes = String::new();
    let mut i: usize = 0;
    while i < n
        invariant
            i <= n,
            n == group.children@.len(),
            n0 + children_ids(group.children@, *group) <= u64::MAX,
            tree_items(*group) <= usize::MAX,
            texts_fit(*group, *texts),
            ids@ == n0 + children_ids(group.children@.take(i as int), *group),
            boxes@ == child_boxes(group.children@.take(i as int), texts.children@.take(i as int), *group, n0),
        decreases n - i,
    {
        let child = &group.children[i];
        let ghost cs = group.children@.take(i + 1);
        proof {
            assert(cs.drop_last() =~= group.children@.take(i as int));
            assert(texts.children@.take(i + 1).drop_last() =~= texts.children@.take(i as int));
            assert(cs.last() == *child);
            assert(group.children@.contains(*child)) by {
                assert(group.children@[i as int] == *child);
            }
            lemma_children_counts_prefix(group.children@, i + 1, *group);
            lemma_child_fits(group.children@, texts.children@, *group, i as int);
            assert(child_items(cs, *group) >= tree_items(*child));
        }
        let ghost before = ids@ as nat;
        let b = datatree_child_repr(ids, child, &texts.children[i], i + 1 == n);
        push_str(&mut boxes, b.as_str());
        proof {
            let ts = texts.children@.take(i + 1);
            assert(ts.last() == texts.children@[i as int]);
            assert(before == n0 + children_ids(cs.drop_last(), *group));
            lemma_child_boxes_step(cs, ts, *group, n0);
            assert(child_boxes(cs, ts, *group, n0) == child_boxes(cs.drop_last(), ts.drop_last(), *group, n0) + box_text(
                cs.last(),
                ts.last(),
                cs.len() == group.children@.len(),
                n0 + children_ids(cs.drop_last(), *group),
            ));
        }
        i = i + 1;
    }
    proof {
        assert(group.children@.take(n as int) =~= group.children@);
        assert(texts.children@.take(n as int) =~= texts.children@);
    }
    let mut out = owned("<div class='xr-children'>");
    push_str(&mut out, boxes.as_str());
    push_str(&mut out, "</div>");
    out
}

/// The sections of a DataTree node (see [`spec_datatree_sections`]).
fn datatree_sections(ids: &mut IdGen, group: &GroupSummary, texts: &GroupTexts) -> (r: Vec<String>)
    requires
        old(ids)@ + tree_ids(*group) <= u64::MAX,
        tree_items(*group) <= usize::MAX,
        texts_fit(*group, *texts),
    ensures
        final(ids)@ == old(ids)@ + tree_ids(*group),
        strings_view(r@) == spec_datatree_sections(*group, *texts, old(ids)@ as nat),
    decreases group, 2nat,
{
    let ghost n0 = ids@ as nat;
    let mut sections: Vec<String> = Vec::new();
    if group.children.len() > 0 {
        let c = children_section(ids, group, texts);
        sections.push(c);
    }
    let mut own = group_sections(ids, group, false, texts);
    let ghost head = sections@;
    let ghost tail = own@;
    sections.append(&mut own);
    proof {
        assert(sections@ == head + tail);
        assert(strings_view(sections@) =~= strings_view(head) + strings_view(tail));
        if group.children@.len() == 0 {
            assert(children_ids(group.children@, *group) == 0);
        }
    }
    assert(strings_view(sections@) =~= spec_datatree_sections(*group, *texts, n0));
    sections
}

/// xarray's `_datatree_child_repr`: one child group's box, with its
/// left-hand connector (short when `end`, the last child).
fn datatree_child_repr(ids: &mut IdGen, node: &GroupSummary, texts: &GroupTexts, end: bool) -> (r: String)
    requires
        old(ids)@ + 1 + tree_ids(*node) <= u64::MAX,
        tree_items(*node) <= usize::MAX,
        texts_fit(*node, *texts),
    ensures
        final(ids)@ == old(ids)@ + 1 + tree_ids(*node),
        r@ == box_text(*node, *texts, end, old(ids)@ as nat),
    decreases node, 3nat,
{
    let group_id = ids.next("group");
    let item_count = tree_item_count(node);
    let sections = datatree_sections(ids, node, texts);
    let mut out = owned("<div class='xr-group-box'><div class='xr-group-box-vline' style='height: ");
    if end {
        push_str(&mut out, "1.2em");
    } else {
        push_str(&mut out, "100%");
    }
    push_str(&mut out, "'></div><div class='xr-group-box-hline'></div><div class='xr-group-box-contents'><input id='");
    push_str(&mut out, group_id.as_str());
    push_str(&mut out, "' type='checkbox' /><label for='");
    push_str(&mut out, group_id.as_str());
    push_str(&mut out, "' title='Expand/collapse group'>");
    push_escaped_html(&mut out, node.name.as_str());
    push_str(&mut out, " <span>(");
    push_dec(&mut out, item_count as u64);
    push_str(&mut out, ")</span></label>");
    if sections.len() > 0 {
        let body = sections_repr(sections.as_slice());
        push_str(&mut out, body.as_str());
    }
    push_str(&mut out, "</div></div>");
    proof {
        reveal_strlit("");
    }
    out
}

/// The Dataset repr of a group without children, ids from `n` on.
pub open spec fn spec_dataset_repr(g: GroupSummary, t: GroupTexts, n: nat) -> Seq<char> {
    spec_obj_repr(header_components("Dataset"@, g), spec_group_sections(g, t, true, n), spec_text_repr_fallback("Dataset"@, g))
}

/// The DataTree repr of a group with children, ids from `n` on.
pub open spec fn spec_datatree_repr(g: GroupSummary, t: GroupTexts, n: nat) -> Seq<char> {
    spec_obj_repr(header_components("DataTree"@, g), spec_datatree_sections(g, t, n), spec_text_repr_fallback("DataTree"@, g))
}

/// xarray's `dataset_repr`: a flat repr of a group, every section shown.
pub fn dataset_repr(ids: &mut IdGen, group: &GroupSummary, texts: &GroupTexts) -> (r: String)
    requires
        old(ids)@ + section_ids(*group, true) <= u64::MAX,
        texts_fit(*group, *texts),
    ensures
        final(ids)@ == old(ids)@ + section_ids(*group, true),
        r@ == spec_dataset_repr(*group, *texts, old(ids)@ as nat),
{
    let sections = group_sections(ids, group, true, texts);
    top_level_repr("Dataset", group, sections.as_slice())
}

/// xarray's `datatree_repr`: a nested repr of a group and its children.
pub fn datatree_repr(ids: &mut IdGen, root: &GroupSummary, texts: &GroupTexts) -> (r: String)
    requires
        old(ids)@ + tree_ids(*root) <= u64::MAX,
        tree_items(*root) <= usize::MAX,
        texts_fit(*root, *texts),
    ensures
        final(ids)@ == old(ids)@ + tree_ids(*root),
        r@ == spec_datatree_repr(*root, *texts, old(ids)@ as nat),
{
    let sections = datatree_sections(ids, root, texts);
    top_level_repr("DataTree", root, sections.as_slice())
}

/// The styling of the parts of the page that are not xarray's repr (the
/// footer and the version-history card).
pub open spec fn spec_extra_css() -> Seq<char> {
    "\n.gq-footer {\n  margin-top: 8px;\n  padding-top: 6px;\n  border-top: solid 1px var(--xr-border-color, #e0e0e0);\n  font-size: 0.85em;\n  color: var(--xr-font-color2, rgba(0, 0, 0, 0.54));\n}\n.gq-footer .gq-badge {\n  display: inline-block;\n  padding: 1px 6px;\n  margin-right: 6px;\n  border-radius: 3px;\n  background: var(--xr-background-color-row-odd, #f0f0f0);\n  font-weight: 500;\n}\n.gq-version-info {\n  margin-top: 8px;\n  padding: 6px 8px;\n  border: solid 1px var(--xr-border-color, #e0e0e0);\n  border-radius: 4px;\n  font-size: 0.85em;\n}\n.gq-version-info dt {\n  font-weight: 500;\n  float: left;\n  clear: left;\n  margin-right: 6px;\n}\n.gq-version-info dd {\n  margin: 0 0 2px 0;\n}\n.gq-ancestry {\n  margin: 2px 0 0 0;\n  padding-left: 1.2em;\n  max-height: 8em;\n  overflow-y: auto;\n}\n"@
}

/// [`spec_extra_css`].
pub fn extra_css() -> (r: &'static str)
    ensures
        r@ == spec_extra_css(),
{
    "\n.gq-footer {\n  margin-top: 8px;\n  padding-top: 6px;\n  border-top: solid 1px var(--xr-border-color, #e0e0e0);\n  font-size: 0.85em;\n  color: var(--xr-font-color2, rgba(0, 0, 0, 0.54));\n}\n.gq-footer .gq-badge {\n  display: inline-block;\n  padding: 1px 6px;\n  margin-right: 6px;\n  border-radius: 3px;\n  background: var(--xr-background-color-row-odd, #f0f0f0);\n  font-weight: 500;\n}\n.gq-version-info {\n  margin-top: 8px;\n  padding: 6px 8px;\n  border: solid 1px var(--xr-border-color, #e0e0e0);\n  border-radius: 4px;\n  font-size: 0.85em;\n}\n.gq-version-info dt {\n  font-weight: 500;\n  float: left;\n  clear: left;\n  margin-right: 6px;\n}\n.gq-version-info dd {\n  margin: 0 0 2px 0;\n}\n.gq-ancestry {\n  margin: 2px 0 0 0;\n  padding-left: 1.2em;\n  max-height: 8em;\n  overflow-y: auto;\n}\n"
}

/// The repr a summary's root gets: a Dataset without children, else a
/// DataTree, ids from 0.
pub open spec fn spec_repr_body(root: GroupSummary, t: GroupTexts) -> Seq<char> {
    if root.children@.len() == 0 {
        spec_dataset_repr(root, t, 0)
    } else {
        spec_datatree_repr(root, t, 0)
    }
}

/// The complete page previewing `summary`.
pub open spec fn spec_render_page(
    summary: DatasetSummary,
    source_name: Seq<char>,
    file_size: Option<u64>,
    xarray_css: Seq<char>,
    icons_svg: Seq<char>,
    t: GroupTexts,
) -> Seq<char> {
    "<!doctype html><html><head><meta charset=\"utf-8\"><title>"@ + spec_html_escape(source_name) + "</title><style>"@
        + xarray_css + spec_extra_css() + "</style></head><body><div>"@ + icons_svg + spec_repr_body(summary.root, t)
        + "</div>"@ + spec_render_footer(summary, source_name, file_size) + "</body></html>"@
}

/// Can the repr of `root` be rendered: do the texts fit, and do its ids and
/// item counts fit their counters?
pub open spec fn repr_fits(root: GroupSummary, t: GroupTexts) -> bool {
    &&& texts_fit(root, t)
    &&& section_ids(root, true) <= u64::MAX
    &&& tree_ids(root) <= u64::MAX
    &&& tree_items(root) <= usize::MAX
}

/// Renders a complete, self-contained HTML document previewing `summary`,
/// its attributes shown as `texts`: the repr of its root (a Dataset when
/// the root has no children, else a DataTree) and the footer.
/// `xarray_css` and `icons_svg` are xarray's repr stylesheet and inline
/// icon definitions, which the host ships alongside.
pub fn render_page(
    summary: &DatasetSummary,
    source_name: &str,
    file_size: Option<u64>,
    xarray_css: &str,
    icons_svg: &str,
    texts: &GroupTexts,
) -> (r: String)
    requires
        repr_fits(summary.root, *texts),
    ensures
        r@ == spec_render_page(*summary, source_name@, file_size, xarray_css@, icons_svg@, *texts),
{
    let mut ids = IdGen::new();
    let body = if summary.root.children.len() == 0 {
        dataset_repr(&mut ids, &summary.root, texts)
    } else {
        datatree_repr(&mut ids, &summary.root, texts)
    };
    let footer = render_footer(summary, source_name, file_size);
    let mut out = owned("<!doctype html><html><head><meta charset=\"utf-8\"><title>");
    push_escaped_html(&mut out, source_name);
    push_str(&mut out, "</title><style>");
    push_str(&mut out, xarray_css);
    push_str(&mut out, extra_css());
    push_str(&mut out, "</style></head><body><div>");
    push_str(&mut out, icons_svg);
    push_str(&mut out, body.as_str());
    push_str(&mut out, "</div>");
    push_str(&mut out, footer.as_str());
    push_str(&mut out, "</body></html>");
    out
}

/// Does `t` fit `g` (see [`texts_fit`])?
pub fn texts_match(g: &GroupSummary, t: &GroupTexts) -> (r: bool)
    ensures
        r == texts_fit(*g, *t),
    decreases g,
{
    if g.attrs.len() != t.attrs.len() || g.children.len() != t.children.len() {
        return false;
    }
    if !vars_match(g.coords.as_slice(), t.coords.as_slice()) || !vars_match(
        g.data_vars.as_slice(),
        t.data_vars.as_slice(),
    ) {
        return false;
    }
    let mut i: usize = 0;
    while i < g.children.len()
        invariant
            i <= g.children@.len(),
            g.children@.len() == t.children@.len(),
            children_fit(g.children@.take(i as int), t.children@.take(i as int), *g),
        decreases g.children.len() - i,
    {
        let ghost cs = g.children@.take(i + 1);
        proof {
            assert(cs.drop_last() =~= g.children@.take(i as int));
            assert(t.children@.take(i + 1).drop_last() =~= t.children@.take(i as int));
            assert(cs.last() == g.children@[i as int]);
            assert(g.children@.contains(g.children@[i as int]));
        }
        if !texts_match(&g.children[i], &t.children[i]) {
            proof {
                if children_fit(g.children@, t.children@, *g) {
                    lemma_children_fit_prefix(g.children@, t.children@, *g, i + 1);
                    assert(t.children@.take(i + 1).last() == t.children@[i as int]);
                }
            }
            return false;
        }
        i = i + 1;
    }
    proof {
        assert(g.children@.take(g.children@.len() as int) =~= g.children@);
        assert(t.children@.take(t.children@.len() as int) =~= t.children@);
    }
    true
}

/// The children fit over a prefix when they fit over all.
proof fn lemma_children_fit_prefix(cs: Seq<GroupSummary>, ts: Seq<GroupTexts>, parent: GroupSummary, k: int)
    requires
        0 <= k <= cs.len(),
        cs.len() == ts.len(),
        children_fit(cs, ts, parent),
    ensures
        children_fit(cs.take(k), ts.take(k), parent),
    decreases cs.len() - k,
{
    if k < cs.len() {
        lemma_children_fit_prefix(cs, ts, parent, k + 1);
        assert(cs.take(k + 1).drop_last() =~= cs.take(k));
        assert(ts.take(k + 1).drop_last() =~= ts.take(k));
    } else {
        assert(cs.take(k) =~= cs);
        assert(ts.take(k) =~= ts);
    }
}

/// Does each variable's attribute count match its texts?
fn vars_match(vars: &[VarSummary], shown: &[Vec<String>]) -> (r: bool)
    ensures
        r == shown_fit(vars@, shown@),
{
    if vars.len() != shown.len() {
        return false;
    }
    let mut i: usize = 0;
    while i < vars.len()
        invariant
            i <= vars.len(),
            vars@.len() == shown@.len(),
            forall|j: int| 0 <= j < i ==> (#[trigger] vars@[j]).attrs@.len() == shown@[j]@.len(),
        decreases vars.len() - i,
    {
        if vars[i].attrs.len() != shown[i].len() {
            return false;
        }
        i = i + 1;
    }
    true
}

/// [`section_ids`], counted.
fn count_section_ids(g: &GroupSummary, always: bool) -> (r: u128)
    ensures
        r == section_ids(*g, always),
{
    let mut n: u128 = 0;
    if always || g.coords.len() > 0 || g.data_vars.len() > 0 {
        n = n + 1;
    }
    if g.coords.len() > 0 {
        n = n + 2 * (g.coords.len() as u128) + 1;
    }
    if always || g.data_vars.len() > 0 {
        n = n + 2 * (g.data_vars.len() as u128) + 1;
    }
    if g.attrs.len() > 0 {
        n = n + 1;
    }
    n
}

/// [`tree_ids`], counted, or none when it is past `u64::MAX`.
fn count_tree_ids(g: &GroupSummary) -> (r: Option<u64>)
    ensures
        match r {
            Some(x) => x == tree_ids(*g),
            None => tree_ids(*g) > u64::MAX,
        },
    decreases g,
{
    let mut total: u64 = 0;
    let mut i: usize = 0;
    while i < g.children.len()
        invariant
            i <= g.children@.len(),
            total == children_ids(g.children@.take(i as int), *g),
        decreases g.children.len() - i,
    {
        let ghost cs = g.children@.take(i + 1);
        proof {
            assert(cs.drop_last() =~= g.children@.take(i as int));
            assert(cs.last() == g.children@[i as int]);
            assert(g.children@.contains(g.children@[i as int]));
            lemma_children_counts_prefix(g.children@, i + 1, *g);
        }
        let c = match count_tree_ids(&g.children[i]) {
            Some(c) => c,
            None => {
                return None;
            },
        };
        if c == u64::MAX || total > u64::MAX - 1 - c {
            return None;
        }
        total = total + 1 + c;
        i = i + 1;
    }
    proof {
        assert(g.children@.take(g.children@.len() as int) =~= g.children@);
    }
    let own = count_section_ids(g, false);
    if own > (u64::MAX - total) as u128 {
        return None;
    }
    Some(total + own as u64)
}

/// [`tree_items`], counted, or none when it is past `usize::MAX`.
fn count_tree_items(g: &GroupSummary) -> (r: Option<usize>)
    ensures
        match r {
            Some(x) => x == tree_items(*g),
            None => tree_items(*g) > usize::MAX,
        },
    decreases g,
{
    let a = g.coords.len();
    let b = g.data_vars.len();
    let c = g.attrs.len();
    if a > usize::MAX - b || a + b > usize::MAX - c {
        return None;
    }
    let mut total: usize = a + b + c;
    let mut i: usize = 0;
    while i < g.children.len()
        invariant
            i <= g.children@.len(),
            total == g.coords@.len() + g.data_vars@.len() + g.attrs@.len() + child_items(g.children@.take(i as int), *g),
        decreases g.children.len() - i,
    {
        let ghost cs = g.children@.take(i + 1);
        proof {
            assert(cs.drop_last() =~= g.children@.take(i as int));
            assert(cs.last() == g.children@[i as int]);
            assert(g.children@.contains(g.children@[i as int]));
            lemma_children_counts_prefix(g.children@, i + 1, *g);
        }
        let k = match count_tree_items(&g.children[i]) {
            Some(k) => k,
            None => {
                return None;
            },
        };
        if total > usize::MAX - k {
            return None;
        }
        total = total + k;
        i = i + 1;
    }
    proof {
        assert(g.children@.take(g.children@.len() as int) =~= g.children@);
    }
    Some(total)
}

/// Can the repr of `root` be rendered with the texts `t` (see
/// [`repr_fits`])? A caller asks this before [`render_page`].
pub fn repr_renderable(root: &GroupSummary, t: &GroupTexts) -> (r: bool)
    ensures
        r == repr_fits(*root, *t),
{
    if !texts_match(root, t) {
        return false;
    }
    if count_section_ids(root, true) > u64::MAX as u128 {
        return false;
    }
    if count_tree_ids(root).is_none() {
        return false;
    }
    count_tree_items(root).is_some()
}

} // verus!
