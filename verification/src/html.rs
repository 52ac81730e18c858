//! HTML preview markup in the style of xarray's `_repr_html_`: escaping,
//! the collapsible sections, the dimension list, the plain-text fallback,
//! and the footer with its format badge, size and version history.
//!
//! Element ids come from a monotonic [`IdGen`] rather than random UUIDs,
//! so the same summary always renders the same markup.

use vstd::prelude::*;
use crate::decimal::{lemma_dec_canonical, lemma_digits_append_zeros, lemma_digits_split, pow2, zeros};
use crate::floatfmt::lemma_pow25_pos;
use crate::group::names_of;
use crate::model::{DatasetSummary, DimInfo, GroupSummary, SnapshotInfo, SourceFormat, VarSummary,
    VersionInfo};
use crate::text::{chars_of, dec, digit, digits_value, join, join_strings, owned, push_char, push_dec, push_str,
    str_eq, strings_view};

verus! {

/// How one character is written in HTML text or attribute content.
pub open spec fn escape_html_char(c: char) -> Seq<char> {
    if c == '&' {
        "&amp;"@
    } else if c == '<' {
        "&lt;"@
    } else if c == '>' {
        "&gt;"@
    } else if c == '"' {
        "&quot;"@
    } else if c == '\'' {
        "&#x27;"@
    } else {
        seq![c]
    }
}

/// `s` escaped for HTML.
pub open spec fn spec_html_escape(s: Seq<char>) -> Seq<char>
    decreases s.len(),
{
    if s.len() == 0 {
        Seq::empty()
    } else {
        spec_html_escape(s.drop_last()) + escape_html_char(s.last())
    }
}

/// Appends `s` escaped for HTML.
pub fn push_escaped_html(out: &mut String, s: &str)
    ensures
        final(out)@ == old(out)@ + spec_html_escape(s@),
{
    let cs = chars_of(s);
    let ghost start = out@;
    let mut i: usize = 0;
    while i < cs.len()
        invariant
            i <= cs.len(),
            cs@ == s@,
            out@ == start + spec_html_escape(cs@.take(i as int)),
        decreases cs.len() - i,
    {
        let c = cs[i];
        let ghost before = out@;
        if c == '&' {
            push_str(out, "&amp;");
        } else if c == '<' {
            push_str(out, "&lt;");
        } else if c == '>' {
            push_str(out, "&gt;");
        } else if c == '"' {
            push_str(out, "&quot;");
        } else if c == '\'' {
            push_str(out, "&#x27;");
        } else {
            push_char(out, c);
        }
        assert(out@ =~= before + escape_html_char(c));
        assert(cs@.take(i + 1).drop_last() == cs@.take(i as int));
        i = i + 1;
    }
    assert(cs@.take(cs.len() as int) == cs@);
}

/// Escapes the five characters HTML requires escaping in text/attribute
/// content, matching Python's `html.escape(s, quote=True)`.
pub fn html_escape(s: &str) -> (r: String)
    ensures
        r@ == spec_html_escape(s@),
{
    let mut out = String::new();
    push_escaped_html(&mut out, s);
    out
}

/// The page a preview host shows in place of a preview that failed: a
/// small self-contained HTML document with `message`, escaped, in a styled
/// card.
pub fn error_card(message: &str) -> (r: String)
    ensures
        r@ == "<!doctype html><html><head><meta charset=\"utf-8\"><title>Preview unavailable</title><style>:root { color-scheme: light dark; }body { font-family: -apple-system, BlinkMacSystemFont, sans-serif; margin: 0; padding: 24px; color: #1a1a1a; background: #fff; }.gq-error { border: solid 1px #e0b4b4; background: #fdf2f2; border-radius: 6px; padding: 16px 20px; }.gq-error h1 { margin: 0 0 8px 0; font-size: 1.1em; color: #a33; }.gq-error p { margin: 0; font-family: ui-monospace, Menlo, monospace; font-size: 0.9em; white-space: pre-wrap; word-break: break-word; }@media (prefers-color-scheme: dark) {body { color: #f0f0f0; background: #111; }.gq-error { border-color: #7a3b3b; background: #2a1717; }.gq-error h1 { color: #ff8a80; }}</style></head><body><div class=\"gq-error\"><h1>Preview unavailable</h1><p>"@ + spec_html_escape(message@) + "</p></div></body></html>"@,
{
    let mut out = owned("<!doctype html><html><head><meta charset=\"utf-8\"><title>Preview unavailable</title><style>:root { color-scheme: light dark; }body { font-family: -apple-system, BlinkMacSystemFont, sans-serif; margin: 0; padding: 24px; color: #1a1a1a; background: #fff; }.gq-error { border: solid 1px #e0b4b4; background: #fdf2f2; border-radius: 6px; padding: 16px 20px; }.gq-error h1 { margin: 0 0 8px 0; font-size: 1.1em; color: #a33; }.gq-error p { margin: 0; font-family: ui-monospace, Menlo, monospace; font-size: 0.9em; white-space: pre-wrap; word-break: break-word; }@media (prefers-color-scheme: dark) {body { color: #f0f0f0; background: #111; }.gq-error { border-color: #7a3b3b; background: #2a1717; }.gq-error h1 { color: #ff8a80; }}</style></head><body><div class=\"gq-error\"><h1>Preview unavailable</h1><p>");
    push_escaped_html(&mut out, message);
    push_str(&mut out, "</p></div></body></html>");
    out
}

/// At least four digits, zero-padded on the left (`{:04}`).
pub open spec fn pad4(s: Seq<char>) -> Seq<char> {
    if s.len() < 4 {
        zeros((4 - s.len()) as nat) + s
    } else {
        s
    }
}

/// The id `next` hands out for `prefix` as the `n`-th id.
pub open spec fn id_text(prefix: Seq<char>, n: nat) -> Seq<char> {
    prefix + seq!['-'] + pad4(dec(n))
}

/// Monotonic id generator, standing in for xarray's `uuid.uuid4()` calls so
/// rendered output is deterministic.
pub struct IdGen {
    issued: u64,
}

impl View for IdGen {
    type V = u64;

    /// How many ids have been handed out.
    closed spec fn view(&self) -> u64 {
        self.issued
    }
}

impl IdGen {
    /// A generator that has handed out nothing yet.
    pub fn new() -> (r: Self)
        ensures
            r@ == 0,
    {
        IdGen { issued: 0 }
    }

    /// The next id for `prefix`: `prefix-0000`, `prefix-0001`, ...
    pub fn next(&mut self, prefix: &str) -> (r: String)
        requires
            old(self)@ < u64::MAX,
        ensures
            final(self)@ == old(self)@ + 1,
            r@ == id_text(prefix@, old(self)@ as nat),
    {
        let n = self.issued;
        self.issued = n + 1;
        let mut out = owned(prefix);
        push_char(&mut out, '-');
        let ghost before = out@;
        if n < 10 {
            push_str(&mut out, "000");
        } else if n < 100 {
            push_str(&mut out, "00");
        } else if n < 1000 {
            push_str(&mut out, "0");
        }
        push_dec(&mut out, n);
        proof {
            lemma_dec_len_small(n as nat);
            reveal_strlit("000");
            reveal_strlit("00");
            reveal_strlit("0");
        }
        assert(out@ =~= id_text(prefix@, n as nat));
        out
    }
}

/// The numeral of a number below 10, 100, 1000 has 1, 2, 3 digits.
proof fn lemma_dec_len_small(n: nat)
    ensures
        n < 10 ==> dec(n).len() == 1,
        10 <= n < 100 ==> dec(n).len() == 2,
        100 <= n < 1000 ==> dec(n).len() == 3,
        1000 <= n ==> dec(n).len() >= 4,
    decreases n,
{
    if n >= 10 {
        lemma_dec_len_small(n / 10);
    }
}

/// A zero-padded numeral spells its number back.
proof fn lemma_pad4_value(n: nat)
    ensures
        digits_value(pad4(dec(n))) == n,
{
    lemma_dec_canonical(n);
    let d = dec(n);
    if d.len() < 4 {
        let k = (4 - d.len()) as nat;
        let z = zeros(k);
        let e = Seq::<char>::empty();
        lemma_digits_append_zeros(e, k);
        assert(e + z =~= z);
        assert(digits_value(e) == 0);
        assert(digits_value(z) == 0) by {
            assert(digits_value(e + z) == 0 * crate::decimal::pow10(k));
        }
        lemma_digits_split(z + d, k as int);
        assert((z + d).take(k as int) =~= z);
        assert((z + d).skip(k as int) =~= d);
        let p = crate::decimal::pow10(((z + d).len() - k) as nat);
        assert(digits_value(z + d) == 0 * p + n);
        assert(0 * p == 0) by (nonlinear_arith);
        assert(pad4(d) == z + d);
        assert(digits_value(pad4(d)) == n);
    }
}

/// Ids from one generator never repeat: the ids handed out as the `m`-th
/// and the `n`-th differ whenever `m` and `n` do, whatever the prefix.
pub proof fn lemma_id_text_injective(prefix: Seq<char>, m: nat, n: nat)
    requires
        m != n,
    ensures
        id_text(prefix, m) != id_text(prefix, n),
{
    lemma_pad4_value(m);
    lemma_pad4_value(n);
    let k = prefix.len() as int + 1;
    assert(id_text(prefix, m).skip(k) =~= pad4(dec(m)));
    assert(id_text(prefix, n).skip(k) =~= pad4(dec(n)));
}

/// Names of coords that are structurally "index coords": 1-D, and their
/// name equals their sole dimension's name.
pub open spec fn is_index_coord(v: VarSummary) -> bool {
    v.dims@.len() == 1 && v.dims@[0]@ == v.name@
}

/// The names of the index coordinates among `coords`, in order.
pub open spec fn spec_index_coord_names(coords: Seq<VarSummary>) -> Seq<Seq<char>>
    decreases coords.len(),
{
    if coords.len() == 0 {
        Seq::empty()
    } else {
        let rest = spec_index_coord_names(coords.drop_last());
        if is_index_coord(coords.last()) {
            rest.push(coords.last().name@)
        } else {
            rest
        }
    }
}

/// Names of coords that are structurally "index coords": 1-D, and their
/// name equals their sole dimension's name.
pub fn index_coord_names(coords: &[VarSummary]) -> (r: Vec<String>)
    ensures
        strings_view(r@) == spec_index_coord_names(coords@),
{
    let mut out: Vec<String> = Vec::new();
    let mut i: usize = 0;
    while i < coords.len()
        invariant
            i <= coords.len(),
            strings_view(out@) == spec_index_coord_names(coords@.take(i as int)),
        decreases coords.len() - i,
    {
        let v = &coords[i];
        let ghost before = out@;
        proof {
            assert(coords@.take(i + 1).drop_last() == coords@.take(i as int));
            assert(coords@.take(i + 1).last() == *v);
        }
        if v.dims.len() == 1 && str_eq(v.dims[0].as_str(), v.name.as_str()) {
            out.push(v.name.clone());
            assert(strings_view(out@) =~= strings_view(before).push(v.name@));
        }
        i = i + 1;
    }
    assert(coords@.take(coords.len() as int) == coords@);
    out
}

/// Does `names` hold `name`?
pub fn contains_name(names: &[String], name: &str) -> (r: bool)
    ensures
        r == strings_view(names@).contains(name@),
{
    let mut i: usize = 0;
    while i < names.len()
        invariant
            i <= names.len(),
            forall|j: int| 0 <= j < i ==> #[trigger] names@[j]@ != name@,
        decreases names.len() - i,
    {
        if str_eq(names[i].as_str(), name) {
            assert(strings_view(names@)[i as int] == name@);
            return true;
        }
        i = i + 1;
    }
    assert forall|j: int| 0 <= j < strings_view(names@).len() implies strings_view(names@)[j] != name@ by {
        assert(strings_view(names@)[j] == names@[j]@);
    }
    false
}

/// One `<li>` of the dimension list.
pub open spec fn dim_item(d: DimInfo, with_index: Seq<Seq<char>>) -> Seq<char> {
    "<li><span"@ + (if with_index.contains(d.name@) { " class='xr-has-index'"@ } else { Seq::empty() })
        + ">"@ + spec_html_escape(d.name@) + "</span>: "@ + dec(d.size as nat) + "</li>"@
}

/// The `<li>` items of a dimension list.
pub open spec fn dim_items(ds: Seq<DimInfo>, with_index: Seq<Seq<char>>) -> Seq<char>
    decreases ds.len(),
{
    if ds.len() == 0 {
        Seq::empty()
    } else {
        dim_items(ds.drop_last(), with_index) + dim_item(ds.last(), with_index)
    }
}

/// The dimension list, or nothing when there are no dimensions.
pub open spec fn spec_format_dims(ds: Seq<DimInfo>, with_index: Seq<Seq<char>>) -> Seq<char> {
    if ds.len() == 0 {
        Seq::empty()
    } else {
        "<ul class='xr-dim-list'>"@ + dim_items(ds, with_index) + "</ul>"@
    }
}

/// The `<ul>` of dimensions (`name: size`), marking those named in
/// `dims_with_index`; empty when there are no dimensions.
pub fn format_dims(dims: &[DimInfo], dims_with_index: &[String]) -> (r: String)
    ensures
        r@ == spec_format_dims(dims@, strings_view(dims_with_index@)),
{
    let mut out = String::new();
    if dims.len() == 0 {
        return out;
    }
    let ghost idx = strings_view(dims_with_index@);
    push_str(&mut out, "<ul class='xr-dim-list'>");
    let ghost head = out@;
    let mut i: usize = 0;
    while i < dims.len()
        invariant
            i <= dims.len(),
            idx == strings_view(dims_with_index@),
            out@ == head + dim_items(dims@.take(i as int), idx),
        decreases dims.len() - i,
    {
        let d = &dims[i];
        let ghost before = out@;
        push_str(&mut out, "<li><span");
        if contains_name(dims_with_index, d.name.as_str()) {
            push_str(&mut out, " class='xr-has-index'");
        }
        push_str(&mut out, ">");
        push_escaped_html(&mut out, d.name.as_str());
        push_str(&mut out, "</span>: ");
        push_dec(&mut out, d.size);
        push_str(&mut out, "</li>");
        assert(out@ =~= before + dim_item(*d, idx));
        assert(dims@.take(i + 1).drop_last() == dims@.take(i as int));
        assert(dims@.take(i + 1).last() == *d);
        i = i + 1;
    }
    assert(dims@.take(dims.len() as int) == dims@);
    push_str(&mut out, "</ul>");
    out
}

/// The icon markup for an icon id.
pub open spec fn spec_icon(name: Seq<char>) -> Seq<char> {
    "<svg class='icon xr-"@ + name + "'><use xlink:href='#"@ + name + "'></use></svg>"@
}

/// The `<svg>` element that shows one of the inline icons.
pub fn icon(name: &str) -> (r: String)
    ensures
        r@ == spec_icon(name@),
{
    let mut out = String::new();
    push_str(&mut out, "<svg class='icon xr-");
    push_str(&mut out, name);
    push_str(&mut out, "'><use xlink:href='#");
    push_str(&mut out, name);
    push_str(&mut out, "'></use></svg>");
    out
}

/// Does a section have items to show?
pub open spec fn has_items(n_items: Option<usize>) -> bool {
    match n_items {
        Some(n) => n > 0,
        None => false,
    }
}

/// The `<input>` of a collapsible section.
pub open spec fn section_input(id: Seq<char>, live: bool, checked: bool) -> Seq<char> {
    "<input id='"@ + id + "' class='xr-section-summary-in' type='checkbox'"@
        + (if live { Seq::empty() } else { " disabled"@ })
        + (if checked { " checked"@ } else { Seq::empty() }) + " />"@
}

/// The `<label>` of a collapsible section.
pub open spec fn section_label(id: Seq<char>, span_grid: bool, live: bool, header: Seq<char>, n_items: Option<usize>) -> Seq<char> {
    "<label for='"@ + id + "' class='xr-section-summary"@
        + (if span_grid { " xr-span-grid"@ } else { Seq::empty() }) + "'"@
        + (if live { " title='Expand/collapse section'"@ } else { Seq::empty() }) + ">"@ + header
        + (match n_items {
            Some(n) => " <span>("@ + dec(n as nat) + ")</span>"@,
            None => Seq::empty(),
        }) + "</label>"@
}

/// The inline details and (when not empty) the details of a section.
pub open spec fn section_details(inline_details: Seq<char>, details: Seq<char>) -> Seq<char> {
    "<div class='xr-section-inline-details'>"@ + inline_details + "</div>"@
        + (if details.len() > 0 {
            "<div class='xr-section-details'>"@ + details + "</div>"@
        } else {
            Seq::empty()
        })
}

/// The markup of one collapsible section with input id `id`.
pub open spec fn section_text(
    id: Seq<char>,
    header: Seq<char>,
    inline_details: Seq<char>,
    details: Seq<char>,
    n_items: Option<usize>,
    enabled: bool,
    collapsed: bool,
    span_grid: bool,
) -> Seq<char> {
    let live = enabled && has_items(n_items);
    section_input(id, live, !(collapsed || !has_items(n_items)))
        + section_label(id, span_grid, live, header, n_items)
        + section_details(inline_details, details)
}

fn build_section_input(id: &str, live: bool, checked: bool) -> (r: String)
    ensures
        r@ == section_input(id@, live, checked),
{
    let mut html = String::new();
    push_str(&mut html, "<input id='");
    push_str(&mut html, id);
    push_str(&mut html, "' class='xr-section-summary-in' type='checkbox'");
    if !live {
        push_str(&mut html, " disabled");
    }
    if checked {
        push_str(&mut html, " checked");
    }
    push_str(&mut html, " />");
    assert(html@ =~= section_input(id@, live, checked));
    html
}

fn build_section_label(id: &str, span_grid: bool, live: bool, header: &str, n_items: Option<usize>) -> (r: String)
    ensures
        r@ == section_label(id@, span_grid, live, header@, n_items),
{
    let mut html = String::new();
    push_str(&mut html, "<label for='");
    push_str(&mut html, id);
    push_str(&mut html, "' class='xr-section-summary");
    if span_grid {
        push_str(&mut html, " xr-span-grid");
    }
    push_str(&mut html, "'");
    if live {
        push_str(&mut html, " title='Expand/collapse section'");
    }
    push_str(&mut html, ">");
    push_str(&mut html, header);
    let ghost mid = html@;
    match n_items {
        Some(n) => {
            push_str(&mut html, " <span>(");
            push_dec(&mut html, n as u64);
            push_str(&mut html, ")</span>");
        },
        None => {},
    }
    push_str(&mut html, "</label>");
    assert(html@ =~= section_label(id@, span_grid, live, header@, n_items));
    html
}

fn build_section_details(inline_details: &str, details: &str) -> (r: String)
    ensures
        r@ == section_details(inline_details@, details@),
{
    let mut html = String::new();
    push_str(&mut html, "<div class='xr-section-inline-details'>");
    push_str(&mut html, inline_details);
    push_str(&mut html, "</div>");
    let dc = chars_of(details);
    if dc.len() > 0 {
        push_str(&mut html, "<div class='xr-section-details'>");
        push_str(&mut html, details);
        push_str(&mut html, "</div>");
    }
    assert(html@ =~= section_details(inline_details@, details@));
    html
}

/// One collapsible section (`<input>` + `<label>` + details), as xarray's
/// `collapsible_section`: disabled when not enabled or empty, pre-checked
/// (expanded) unless collapsed or empty. Takes the next `section` id.
pub fn collapsible_section(
    ids: &mut IdGen,
    header: &str,
    inline_details: &str,
    details: &str,
    n_items: Option<usize>,
    enabled: bool,
    collapsed: bool,
    span_grid: bool,
) -> (r: String)
    requires
        old(ids)@ < u64::MAX,
    ensures
        final(ids)@ == old(ids)@ + 1,
        r@ == section_text(id_text("section"@, old(ids)@ as nat), header@, inline_details@, details@,
            n_items, enabled, collapsed, span_grid),
{
    let data_id = ids.next("section");
    let has = match n_items {
        Some(n) => n > 0,
        None => false,
    };
    let live = enabled && has;
    let mut html = build_section_input(data_id.as_str(), live, !(collapsed || !has));
    let label = build_section_label(data_id.as_str(), span_grid, live, header, n_items);
    push_str(&mut html, label.as_str());
    let tail = build_section_details(inline_details, details);
    push_str(&mut html, tail.as_str());
    html
}

/// xarray's `_mapping_section`: a section headed `name:` with a count,
/// expanded only when it has fewer than `max_items_collapse` items.
pub fn mapping_section(ids: &mut IdGen, name: &str, n_items: usize, max_items_collapse: Option<usize>, details: &str) -> (r: String)
    requires
        old(ids)@ < u64::MAX,
    ensures
        final(ids)@ == old(ids)@ + 1,
        r@ == section_text(id_text("section"@, old(ids)@ as nat), name@ + ":"@, Seq::empty(), details@,
            Some(n_items), true, !(match max_items_collapse {
                Some(max) => n_items < max,
                None => true,
            }), false),
{
    let expanded = match max_items_collapse {
        Some(max) => n_items < max,
        None => true,
    };
    let mut header = owned(name);
    push_str(&mut header, ":");
    let empty = String::new();
    collapsible_section(ids, header.as_str(), empty.as_str(), details, Some(n_items), true, !expanded, false)
}

/// The `Dimensions:` section of a group: the dimension list, marking the
/// dimensions that have an index coordinate, inline and never expandable.
pub fn dim_section(ids: &mut IdGen, dims: &[DimInfo], coords: &[VarSummary]) -> (r: String)
    requires
        old(ids)@ < u64::MAX,
    ensures
        final(ids)@ == old(ids)@ + 1,
        r@ == section_text(id_text("section"@, old(ids)@ as nat), "Dimensions:"@,
            spec_format_dims(dims@, spec_index_coord_names(coords@)), Seq::empty(), None, false, true, false),
{
    let index_names = index_coord_names(coords);
    let dim_list = format_dims(dims, index_names.as_slice());
    let empty = String::new();
    collapsible_section(ids, "Dimensions:", dim_list.as_str(), empty.as_str(), None, false, true, false)
}

/// The `<li>` items of a section list.
pub open spec fn section_items(sections: Seq<Seq<char>>) -> Seq<char>
    decreases sections.len(),
{
    if sections.len() == 0 {
        Seq::empty()
    } else {
        section_items(sections.drop_last()) + "<li class='xr-section-item'>"@ + sections.last() + "</li>"@
    }
}

/// The list of sections of a repr.
pub open spec fn spec_sections_repr(sections: Seq<Seq<char>>) -> Seq<char> {
    "<ul class='xr-sections'>"@ + section_items(sections) + "</ul>"@
}

/// Wraps each section in an `<li>` of one `<ul class='xr-sections'>`.
pub fn sections_repr(sections: &[String]) -> (r: String)
    ensures
        r@ == spec_sections_repr(strings_view(sections@)),
{
    let mut out = String::new();
    push_str(&mut out, "<ul class='xr-sections'>");
    let ghost head = out@;
    let mut i: usize = 0;
    while i < sections.len()
        invariant
            i <= sections.len(),
            out@ == head + section_items(strings_view(sections@.take(i as int))),
        decreases sections.len() - i,
    {
        push_str(&mut out, "<li class='xr-section-item'>");
        push_str(&mut out, sections[i].as_str());
        push_str(&mut out, "</li>");
        proof {
            let t = strings_view(sections@.take(i + 1));
            assert(t.drop_last() =~= strings_view(sections@.take(i as int)));
            assert(t.last() == sections@[i as int]@);
        }
        i = i + 1;
    }
    assert(sections@.take(sections.len() as int) == sections@);
    push_str(&mut out, "</ul>");
    out
}

/// The `name: size` entries of the fallback's dimension line.
pub open spec fn dim_entries(ds: Seq<DimInfo>) -> Seq<Seq<char>> {
    ds.map_values(|d: DimInfo| d.name@ + ": "@ + dec(d.size as nat))
}

/// The keys of an attribute list.
pub open spec fn attr_keys(a: Seq<(String, crate::model::AttrValue)>) -> Seq<Seq<char>> {
    a.map_values(|p: (String, crate::model::AttrValue)| p.0@)
}

/// The names of a list of groups.
pub open spec fn group_names(cs: Seq<GroupSummary>) -> Seq<Seq<char>> {
    cs.map_values(|c: GroupSummary| c.name@)
}

/// A `\nLabel: a, b, c` line, present when the list is not empty.
pub open spec fn listing(label: Seq<char>, names: Seq<Seq<char>>) -> Seq<char> {
    if names.len() > 0 {
        label + join(names, ", "@)
    } else {
        Seq::empty()
    }
}

/// The plain text of the fallback, before escaping.
pub open spec fn fallback_plain(obj_type: Seq<char>, g: GroupSummary) -> Seq<char> {
    "<"@ + obj_type + ">"@ + (if g.name@.len() > 0 { " "@ + g.name@ } else { Seq::empty() })
        + "\nDimensions: "@ + join(dim_entries(g.dims@), ", "@)
        + listing("\nCoordinates: "@, names_of(g.coords@))
        + listing("\nData variables: "@, names_of(g.data_vars@))
        + listing("\nAttributes: "@, attr_keys(g.attrs@))
        + listing("\nGroups: "@, group_names(g.children@))
}

/// Plain-text fallback shown when the stylesheet isn't injected.
pub open spec fn spec_text_repr_fallback(obj_type: Seq<char>, g: GroupSummary) -> Seq<char> {
    "<pre class='xr-text-repr-fallback'>"@ + spec_html_escape(fallback_plain(obj_type, g)) + "</pre>"@
}

/// Appends a `\nLabel: a, b, c` line when `names` is not empty.
fn push_listing(out: &mut String, label: &str, names: &Vec<String>)
    ensures
        final(out)@ == old(out)@ + listing(label@, strings_view(names@)),
{
    if names.len() > 0 {
        push_str(out, label);
        let joined = join_strings(names.as_slice(), ", ");
        push_str(out, joined.as_str());
    }
}

/// The names of a list of variables.
fn var_names(vs: &Vec<VarSummary>) -> (r: Vec<String>)
    ensures
        strings_view(r@) == names_of(vs@),
{
    let mut out: Vec<String> = Vec::new();
    let mut i: usize = 0;
    while i < vs.len()
        invariant
            i <= vs.len(),
            out@.len() == i,
            forall|j: int| 0 <= j < i ==> #[trigger] out@[j]@ == vs@[j].name@,
        decreases vs.len() - i,
    {
        out.push(vs[i].name.clone());
        i = i + 1;
    }
    assert(strings_view(out@) =~= names_of(vs@));
    out
}

/// The plain text of the fallback.
fn fallback_text(obj_type: &str, group: &GroupSummary) -> (r: String)
    ensures
        r@ == fallback_plain(obj_type@, *group),
{
    let mut s = String::new();
    push_str(&mut s, "<");
    push_str(&mut s, obj_type);
    push_str(&mut s, ">");
    if !group.name.as_str().is_empty() {
        push_str(&mut s, " ");
        push_str(&mut s, group.name.as_str());
    }
    push_str(&mut s, "\nDimensions: ");
    let mut dims: Vec<String> = Vec::new();
    let mut i: usize = 0;
    while i < group.dims.len()
        invariant
            i <= group.dims.len(),
            dims@.len() == i,
            forall|j: int| 0 <= j < i ==> #[trigger] dims@[j]@ == group.dims@[j].name@ + ": "@ + dec(group.dims@[j].size as nat),
        decreases group.dims.len() - i,
    {
        let mut e = group.dims[i].name.clone();
        push_str(&mut e, ": ");
        push_dec(&mut e, group.dims[i].size);
        dims.push(e);
        i = i + 1;
    }
    assert(strings_view(dims@) =~= dim_entries(group.dims@));
    let joined = join_strings(dims.as_slice(), ", ");
    push_str(&mut s, joined.as_str());
    let ghost head = s@;
    push_listing(&mut s, "\nCoordinates: ", &var_names(&group.coords));
    push_listing(&mut s, "\nData variables: ", &var_names(&group.data_vars));
    let mut keys: Vec<String> = Vec::new();
    let mut k: usize = 0;
    while k < group.attrs.len()
        invariant
            k <= group.attrs.len(),
            keys@.len() == k,
            forall|j: int| 0 <= j < k ==> #[trigger] keys@[j]@ == group.attrs@[j].0@,
        decreases group.attrs.len() - k,
    {
        keys.push(group.attrs[k].0.clone());
        k = k + 1;
    }
    assert(strings_view(keys@) =~= attr_keys(group.attrs@));
    push_listing(&mut s, "\nAttributes: ", &keys);
    let mut gnames: Vec<String> = Vec::new();
    let mut c: usize = 0;
    while c < group.children.len()
        invariant
            c <= group.children.len(),
            gnames@.len() == c,
            forall|j: int| 0 <= j < c ==> #[trigger] gnames@[j]@ == group.children@[j].name@,
        decreases group.children.len() - c,
    {
        gnames.push(group.children[c].name.clone());
        c = c + 1;
    }
    assert(strings_view(gnames@) =~= group_names(group.children@));
    push_listing(&mut s, "\nGroups: ", &gnames);
    assert(s@ =~= fallback_plain(obj_type@, *group));
    s
}

/// Plain-text fallback shown (via CSS, hidden by default) when the
/// stylesheet isn't injected — xarray's `xr-text-repr-fallback`: the
/// object type and name, then the dimensions, coordinates, data
/// variables, attributes and child groups by name, escaped.
pub fn text_repr_fallback(obj_type: &str, group: &GroupSummary) -> (r: String)
    ensures
        r@ == spec_text_repr_fallback(obj_type@, *group),
{
    let plain = fallback_text(obj_type, group);
    let mut out = String::new();
    push_str(&mut out, "<pre class='xr-text-repr-fallback'>");
    push_escaped_html(&mut out, plain.as_str());
    push_str(&mut out, "</pre>");
    out
}

/// The top-level wrapper: the fallback, then the hidden styled repr with
/// its header and sections.
pub open spec fn spec_obj_repr(header_components: Seq<Seq<char>>, sections: Seq<Seq<char>>, fallback: Seq<char>) -> Seq<char> {
    fallback + "<div class='xr-wrap' style='display:none'>"@ + "<div class='xr-header'>"@
        + join(header_components, ""@) + "</div>"@ + spec_sections_repr(sections) + "</div>"@
}

/// The top-level wrapper: the fallback, then the hidden styled repr with
/// its header and sections.
pub fn obj_repr(header_components: &[String], sections: &[String], fallback: &str) -> (r: String)
    ensures
        r@ == spec_obj_repr(strings_view(header_components@), strings_view(sections@), fallback@),
{
    let mut out = owned(fallback);
    push_str(&mut out, "<div class='xr-wrap' style='display:none'>");
    push_str(&mut out, "<div class='xr-header'>");
    let header = join_strings(header_components, "");
    push_str(&mut out, header.as_str());
    push_str(&mut out, "</div>");
    let body = sections_repr(sections);
    push_str(&mut out, body.as_str());
    push_str(&mut out, "</div>");
    out
}

/// The header components of a top-level repr: the object type, and the
/// name when the group has one.
pub open spec fn header_components(obj_type: Seq<char>, g: GroupSummary) -> Seq<Seq<char>> {
    seq!["<div class='xr-obj-type'>"@ + obj_type + "</div>"@] + if g.name@.len() > 0 {
        seq!["<div class='xr-obj-name'>"@ + spec_html_escape(g.name@) + "</div>"@]
    } else {
        Seq::empty()
    }
}

/// The top-level repr of `group` with the given sections.
pub fn top_level_repr(obj_type: &str, group: &GroupSummary, sections: &[String]) -> (r: String)
    ensures
        r@ == spec_obj_repr(header_components(obj_type@, *group), strings_view(sections@),
            spec_text_repr_fallback(obj_type@, *group)),
{
    let mut comps: Vec<String> = Vec::new();
    let mut t = String::new();
    push_str(&mut t, "<div class='xr-obj-type'>");
    push_str(&mut t, obj_type);
    push_str(&mut t, "</div>");
    comps.push(t);
    if !group.name.as_str().is_empty() {
        let mut n = String::new();
        push_str(&mut n, "<div class='xr-obj-name'>");
        push_escaped_html(&mut n, group.name.as_str());
        push_str(&mut n, "</div>");
        comps.push(n);
    }
    assert(strings_view(comps@) =~= header_components(obj_type@, *group));
    let fallback = text_repr_fallback(obj_type, group);
    obj_repr(comps.as_slice(), sections, fallback.as_str())
}

/// Total variable + attribute count of a group and all its descendants.
pub open spec fn tree_items(g: GroupSummary) -> nat
    decreases g, 1nat, 0nat,
{
    g.coords@.len() + g.data_vars@.len() + g.attrs@.len() + child_items(g.children@, g)
}

/// The item counts of the children `cs` of `parent`, summed.
pub open spec fn child_items(cs: Seq<GroupSummary>, parent: GroupSummary) -> nat
    decreases parent, 0nat, cs.len(),
{
    if cs.len() == 0 {
        0
    } else {
        child_items(cs.drop_last(), parent) + if parent.children@.contains(cs.last()) {
            tree_items(cs.last())
        } else {
            0
        }
    }
}

proof fn lemma_child_items_prefix(cs: Seq<GroupSummary>, k: int, parent: GroupSummary)
    requires
        0 <= k <= cs.len(),
    ensures
        child_items(cs.take(k), parent) <= child_items(cs, parent),
    decreases cs.len() - k,
{
    if k < cs.len() {
        lemma_child_items_prefix(cs, k + 1, parent);
        assert(cs.take(k + 1).drop_last() == cs.take(k));
    } else {
        assert(cs.take(k) == cs);
    }
}

/// Total variable + attribute count for a group, including all
/// descendant groups (xarray's `_tree_item_count`).
pub fn tree_item_count(group: &GroupSummary) -> (r: usize)
    requires
        tree_items(*group) <= usize::MAX,
    ensures
        r == tree_items(*group),
    decreases group,
{
    let own: usize = group.coords.len() + group.data_vars.len() + group.attrs.len();
    let mut total: usize = own;
    let mut i: usize = 0;
    while i < group.children.len()
        invariant
            i <= group.children.len(),
            tree_items(*group) <= usize::MAX,
            own == group.coords@.len() + group.data_vars@.len() + group.attrs@.len(),
            total == own + child_items(group.children@.take(i as int), *group),
        decreases group.children.len() - i,
    {
        let child = &group.children[i];
        proof {
            let t = group.children@.take(i + 1);
            assert(t.drop_last() == group.children@.take(i as int));
            assert(t.last() == *child);
            assert(group.children@.contains(*child)) by {
                assert(group.children@[i as int] == *child);
            }
            lemma_child_items_prefix(group.children@, i + 1, *group);
        }
        let n = tree_item_count(child);
        total = total + n;
        i = i + 1;
    }
    assert(group.children@.take(group.children.len() as int) == group.children@);
    total
}

/// The badge text for a source format.
pub open spec fn spec_format_badge(format: SourceFormat) -> Seq<char> {
    match format {
        SourceFormat::NetCdf => "netCDF"@,
        SourceFormat::Hdf5 => "HDF5"@,
        SourceFormat::ZarrV2 => "Zarr v2"@,
        SourceFormat::ZarrV3 => "Zarr v3"@,
        SourceFormat::Icechunk => "Icechunk"@,
        SourceFormat::Grib => "GRIB"@,
    }
}

/// The badge text for a source format.
pub fn format_badge(format: SourceFormat) -> (r: &'static str)
    ensures
        r@ == spec_format_badge(format),
{
    match format {
        SourceFormat::NetCdf => "netCDF",
        SourceFormat::Hdf5 => "HDF5",
        SourceFormat::ZarrV2 => "Zarr v2",
        SourceFormat::ZarrV3 => "Zarr v3",
        SourceFormat::Icechunk => "Icechunk",
        SourceFormat::Grib => "GRIB",
    }
}

/// How many halvings bring `b` below `2^53`.
pub open spec fn shift53(b: nat) -> nat
    decreases b,
{
    if b < 0x20_0000_0000_0000 {
        0
    } else {
        1 + shift53(b / 2)
    }
}

/// The binary64 nearest to the integer `b` (ties to even), as an integer:
/// what `b as f64` holds.
pub open spec fn nearest_double(b: nat) -> nat {
    let s = shift53(b);
    let p = pow2(s);
    let q = b / p;
    let r = b % p;
    (if 2 * r > p || (2 * r == p && q % 2 == 1) { q + 1 } else { q }) * p
}

/// `1024^k`.
pub open spec fn pow1024(k: nat) -> nat
    decreases k,
{
    if k == 0 {
        1
    } else {
        1024 * pow1024((k - 1) as nat)
    }
}

/// The binary unit (`1` = KiB ... `5` = PiB) a size of `f` bytes is shown in.
pub open spec fn size_unit(f: nat) -> nat {
    if f < pow1024(2) {
        1
    } else if f < pow1024(3) {
        2
    } else if f < pow1024(4) {
        3
    } else if f < pow1024(5) {
        4
    } else {
        5
    }
}

/// The name of binary unit `k`.
pub open spec fn unit_name(k: nat) -> Seq<char> {
    if k == 1 {
        "KiB"@
    } else if k == 2 {
        "MiB"@
    } else if k == 3 {
        "GiB"@
    } else if k == 4 {
        "TiB"@
    } else {
        "PiB"@
    }
}

/// `f / d` in tenths, rounded half to even.
pub open spec fn tenths(f: nat, d: nat) -> nat {
    let t = (f * 10) / d;
    let r = (f * 10) % d;
    if 2 * r > d || (2 * r == d && t % 2 == 1) { t + 1 } else { t }
}

/// A byte count as a human-readable binary (IEC) size.
pub open spec fn spec_human_size(bytes: u64) -> Seq<char> {
    if bytes < 1024 {
        dec(bytes as nat) + " B"@
    } else {
        let f = nearest_double(bytes as nat);
        let k = size_unit(f);
        let t = tenths(f, pow1024(k));
        dec(t / 10) + seq!['.', crate::text::digit_char(t % 10), ' '] + unit_name(k)
    }
}

/// `b as f64` for an integer `b`, as the integer it holds.
fn nearest_double_of(b: u64) -> (f: u128)
    ensures
        f == nearest_double(b as nat),
{
    let mut p: u128 = 1;
    let ghost mut s: nat = 0;
    assert(shift53(b as nat) == s + shift53((b as nat) / pow2(s))) by {
        assert((b as nat) / 1 == b);
    }
    while (b as u128) / p >= 0x20_0000_0000_0000
        invariant
            p == pow2(s),
            1 <= p <= 0x1_0000_0000_0000_0000,
            shift53(b as nat) == s + shift53((b as nat) / pow2(s)),
        decreases 0x1_0000_0000_0000_0000 - p,
    {
        proof {
            let q = (b as nat) / pow2(s);
            assert(q >= 0x20_0000_0000_0000);
            assert(shift53(q) == 1 + shift53(q / 2));
            vstd::arithmetic::div_mod::lemma_div_denominator(b as int, pow2(s) as int, 2);
            assert(pow2(s + 1) == pow2(s) * 2);
            assert(q / 2 == (b as nat) / pow2(s + 1));
            assert(p <= 0x8000_0000_0000) by {
                if p > 0x8000_0000_0000 {
                    assert((b as u128) / p < 0x20_0000_0000_0000) by (nonlinear_arith)
                        requires p > 0x8000_0000_0000, b < 0x1_0000_0000_0000_0000u128;
                }
            }
        }
        p = p * 2;
        proof {
            s = s + 1;
        }
    }
    let q: u128 = (b as u128) / p;
    let r: u128 = (b as u128) % p;
    let up = 2 * r > p || (2 * r == p && q % 2 == 1);
    let qq: u128 = if up { q + 1 } else { q };
    proof {
        assert(shift53((b as nat) / pow2(s)) == 0);
        assert(q < 0x20_0000_0000_0000);
        assert(qq * p <= 0x20_0000_0000_0000 * 0x1_0000_0000_0000_0000) by (nonlinear_arith)
            requires qq <= 0x20_0000_0000_0000, p <= 0x1_0000_0000_0000_0000;
    }
    qq * p
}

/// Formats a byte count as a human-readable binary (IEC) size, e.g.
/// `1.0 KiB`, `3.4 MiB`. Values under 1 KiB are shown as an exact byte
/// count. Larger values are the byte count as a binary64 divided by
/// 1024 until below 1024 (at most down to PiB), printed with one decimal
/// (rounded half to even on the exact value).
pub fn human_size(bytes: u64) -> (r: String)
    ensures
        r@ == spec_human_size(bytes),
{
    let mut out = String::new();
    if bytes < 1024 {
        push_dec(&mut out, bytes);
        push_str(&mut out, " B");
        return out;
    }
    let f = nearest_double_of(bytes);
    assert(f <= 0x1_0000_0000_0000_0000) by {
        assert(nearest_double(bytes as nat) <= 0x1_0000_0000_0000_0000) by {
            lemma_nearest_double_bound(bytes as nat);
        }
    }
    assert(pow1024(2) == 0x10_0000 && pow1024(3) == 0x4000_0000 && pow1024(4) == 0x100_0000_0000
        && pow1024(5) == 0x4_0000_0000_0000) by {
        reveal_with_fuel(pow1024, 6);
    }
    let (k, d, unit): (u64, u128, &str) = if f < 0x10_0000 {
        (1, 1024, "KiB")
    } else if f < 0x4000_0000 {
        (2, 0x10_0000, "MiB")
    } else if f < 0x100_0000_0000 {
        (3, 0x4000_0000, "GiB")
    } else if f < 0x4_0000_0000_0000 {
        (4, 0x100_0000_0000, "TiB")
    } else {
        (5, 0x4_0000_0000_0000, "PiB")
    };
    assert(d == pow1024(k as nat) && unit@ == unit_name(k as nat) && k == size_unit(f as nat));
    let t: u128 = (f * 10) / d;
    let ghost fi: int = f * 10;
    let ghost di: int = d as int;
    assert(fi / di <= fi) by (nonlinear_arith)
        requires fi >= 0, di >= 1;
    let r: u128 = (f * 10) % d;
    let tt: u128 = if 2 * r > d || (2 * r == d && t % 2 == 1) { t + 1 } else { t };
    assert(tt == tenths(f as nat, d as nat));
    let whole: u128 = tt / 10;
    crate::text::push_dec_wide(&mut out, whole);
    push_char(&mut out, '.');
    push_char(&mut out, digit((tt % 10) as u64));
    push_char(&mut out, ' ');
    push_str(&mut out, unit);
    assert(out@ =~= spec_human_size(bytes));
    out
}

/// Halving down to below `2^53` leaves less than `2^53`.
proof fn lemma_shift53_quotient(b: nat)
    ensures
        b / pow2(shift53(b)) < 0x20_0000_0000_0000,
    decreases b,
{
    if b < 0x20_0000_0000_0000 {
        assert(pow2(0) == 1);
    } else {
        let k = shift53(b / 2);
        lemma_shift53_quotient(b / 2);
        lemma_pow25_pos(k);
        vstd::arithmetic::div_mod::lemma_div_denominator(b as int, 2, pow2(k) as int);
        assert(pow2(k + 1) == 2 * pow2(k));
        assert(shift53(b) == k + 1);
    }
}

/// Below `2^53 * 2^t`, at most `t` halvings are needed.
proof fn lemma_shift53_bound(b: nat, t: nat)
    requires
        b < 0x20_0000_0000_0000 * pow2(t),
    ensures
        pow2(shift53(b)) <= pow2(t),
    decreases t,
{
    lemma_pow25_pos(t);
    if b < 0x20_0000_0000_0000 {
        assert(pow2(0) == 1);
    } else {
        if t == 0 {
            assert(pow2(0) == 1);
            assert(false);
        }
        let t1 = (t - 1) as nat;
        assert(pow2(t) == 2 * pow2(t1));
        let x = pow2(t1);
        assert(b / 2 < 0x20_0000_0000_0000 * x) by (nonlinear_arith)
            requires b < 0x20_0000_0000_0000 * (2 * x);
        lemma_shift53_bound(b / 2, t1);
        assert(pow2(shift53(b)) == 2 * pow2(shift53(b / 2)));
    }
}

proof fn lemma_nearest_double_bound(b: nat)
    requires
        b < 0x1_0000_0000_0000_0000,
    ensures
        nearest_double(b) <= 0x1_0000_0000_0000_0000,
{
    let s = shift53(b);
    let p = pow2(s);
    lemma_pow25_pos(s);
    let q = b / p;
    lemma_shift53_quotient(b);
    reveal_with_fuel(pow2, 12);
    assert(pow2(11) == 2048);
    lemma_shift53_bound(b, 11);
    assert(p <= 2048);
    assert(q * p <= b) by {
        vstd::arithmetic::div_mod::lemma_fundamental_div_mod(b as int, p as int);
        vstd::arithmetic::div_mod::lemma_mod_bound(b as int, p as int);
    }
    assert((q + 1) * p <= 0x20_0000_0000_0000 * 2048) by (nonlinear_arith)
        requires q < 0x20_0000_0000_0000, p <= 2048;
}

/// The first eight characters of a snapshot id.
pub open spec fn short_id(id: Seq<char>) -> Seq<char> {
    if id.len() <= 8 { id } else { id.take(8) }
}

/// The first eight characters of `id`.
fn short_id_of(id: &str) -> (r: String)
    ensures
        r@ == short_id(id@),
{
    let cs = chars_of(id);
    let n: usize = if cs.len() <= 8 { cs.len() } else { 8 };
    let (head, _) = cs.as_slice().split_at(n);
    assert(head@ =~= short_id(id@));
    crate::text::string_from_chars(head)
}

/// The tip snapshot's rows of the version card.
pub open spec fn tip_rows(tip: SnapshotInfo) -> Seq<char> {
    "<dt>Snapshot</dt><dd><code>"@ + spec_html_escape(short_id(tip.id@)) + "</code></dd>"@
        + (match tip.message {
            Some(m) => "<dt>Message</dt><dd>"@ + spec_html_escape(m@) + "</dd>"@,
            None => Seq::empty(),
        }) + (match tip.wrote_at {
            Some(t) => "<dt>Written</dt><dd>"@ + spec_html_escape(t@) + "</dd>"@,
            None => Seq::empty(),
        })
}

/// One `<li>` of the ancestry list.
pub open spec fn ancestry_item(e: SnapshotInfo) -> Seq<char> {
    match e.message {
        Some(m) => "<li><code>"@ + spec_html_escape(short_id(e.id@)) + "</code> &mdash; "@
            + spec_html_escape(m@) + "</li>"@,
        None => "<li><code>"@ + spec_html_escape(short_id(e.id@)) + "</code></li>"@,
    }
}

/// The `<li>` items of the ancestry list.
pub open spec fn ancestry_items(es: Seq<SnapshotInfo>) -> Seq<char>
    decreases es.len(),
{
    if es.len() == 0 {
        Seq::empty()
    } else {
        ancestry_items(es.drop_last()) + ancestry_item(es.last())
    }
}

/// The snapshot count: `n`, or `n+` when the walk was truncated.
pub open spec fn snapshot_count(v: VersionInfo) -> Seq<char> {
    dec(v.ancestry@.len()) + if v.truncated { "+"@ } else { Seq::empty() }
}

/// The Icechunk version card.
pub open spec fn spec_render_version_info(v: VersionInfo) -> Seq<char> {
    "<dl class='gq-version-info'>"@ + "<dt>Branch</dt><dd>"@ + spec_html_escape(v.branch@) + "</dd>"@
        + (if v.ancestry@.len() > 0 { tip_rows(v.ancestry@[0]) } else { Seq::empty() })
        + "<dt>Snapshots</dt><dd>"@ + snapshot_count(v) + "</dd>"@
        + (if v.ancestry@.len() > 0 {
            "<dt>Ancestry</dt><dd><ol class='gq-ancestry'>"@ + ancestry_items(v.ancestry@)
                + (if v.truncated { "<li>&hellip; (truncated)</li>"@ } else { Seq::empty() })
                + "</ol></dd>"@
        } else {
            Seq::empty()
        }) + "</dl>"@
}

fn tip_rows_of(tip: &SnapshotInfo) -> (r: String)
    ensures
        r@ == tip_rows(*tip),
{
    let mut s = String::new();
    push_str(&mut s, "<dt>Snapshot</dt><dd><code>");
    let short = short_id_of(tip.id.as_str());
    push_escaped_html(&mut s, short.as_str());
    push_str(&mut s, "</code></dd>");
    let ghost a = s@;
    match &tip.message {
        Some(m) => {
            push_str(&mut s, "<dt>Message</dt><dd>");
            push_escaped_html(&mut s, m.as_str());
            push_str(&mut s, "</dd>");
        },
        None => {},
    }
    let ghost b = s@;
    assert(b =~= a + match tip.message {
        Some(m) => "<dt>Message</dt><dd>"@ + spec_html_escape(m@) + "</dd>"@,
        None => Seq::empty(),
    });
    match &tip.wrote_at {
        Some(t) => {
            push_str(&mut s, "<dt>Written</dt><dd>");
            push_escaped_html(&mut s, t.as_str());
            push_str(&mut s, "</dd>");
        },
        None => {},
    }
    assert(s@ =~= tip_rows(*tip));
    s
}

fn ancestry_list(es: &Vec<SnapshotInfo>) -> (r: String)
    ensures
        r@ == ancestry_items(es@),
{
    let mut s = String::new();
    let mut i: usize = 0;
    while i < es.len()
        invariant
            i <= es.len(),
            s@ == ancestry_items(es@.take(i as int)),
        decreases es.len() - i,
    {
        let e = &es[i];
        let ghost before = s@;
        let short = short_id_of(e.id.as_str());
        push_str(&mut s, "<li><code>");
        push_escaped_html(&mut s, short.as_str());
        match &e.message {
            Some(m) => {
                push_str(&mut s, "</code> &mdash; ");
                push_escaped_html(&mut s, m.as_str());
                push_str(&mut s, "</li>");
            },
            None => {
                push_str(&mut s, "</code></li>");
            },
        }
        assert(s@ =~= before + ancestry_item(*e));
        assert(es@.take(i + 1).drop_last() == es@.take(i as int));
        assert(es@.take(i + 1).last() == *e);
        i = i + 1;
    }
    assert(es@.take(es.len() as int) == es@);
    s
}

/// The Icechunk version card: branch, tip snapshot (id shortened to eight
/// characters, message, time), the snapshot count (`n+` when the history
/// walk was capped) and the ancestry list, newest first.
pub fn render_version_info(v: &VersionInfo) -> (r: String)
    ensures
        r@ == spec_render_version_info(*v),
{
    let mut s = String::new();
    push_str(&mut s, "<dl class='gq-version-info'>");
    push_str(&mut s, "<dt>Branch</dt><dd>");
    push_escaped_html(&mut s, v.branch.as_str());
    push_str(&mut s, "</dd>");
    if v.ancestry.len() > 0 {
        let rows = tip_rows_of(&v.ancestry[0]);
        push_str(&mut s, rows.as_str());
    }
    push_str(&mut s, "<dt>Snapshots</dt><dd>");
    push_dec(&mut s, v.ancestry.len() as u64);
    if v.truncated {
        push_str(&mut s, "+");
    }
    push_str(&mut s, "</dd>");
    let ghost mid = s@;
    if v.ancestry.len() > 0 {
        push_str(&mut s, "<dt>Ancestry</dt><dd><ol class='gq-ancestry'>");
        let items = ancestry_list(&v.ancestry);
        push_str(&mut s, items.as_str());
        if v.truncated {
            push_str(&mut s, "<li>&hellip; (truncated)</li>");
        }
        push_str(&mut s, "</ol></dd>");
    }
    push_str(&mut s, "</dl>");
    assert(s@ =~= spec_render_version_info(*v));
    s
}

/// The page footer: format badge, source name, size when known, and the
/// version card for version-controlled stores.
pub open spec fn spec_render_footer(summary: DatasetSummary, source_name: Seq<char>, file_size: Option<u64>) -> Seq<char> {
    "<div class='gq-footer'>"@ + "<span class='gq-badge'>"@ + spec_html_escape(spec_format_badge(summary.format))
        + "</span>"@ + spec_html_escape(source_name) + (match file_size {
            Some(n) => " &mdash; "@ + spec_human_size(n),
            None => Seq::empty(),
        }) + "</div>"@ + (match summary.version_info {
            Some(v) => spec_render_version_info(v),
            None => Seq::empty(),
        })
}

/// The page footer: format badge, source name, size when known, and the
/// version card for version-controlled stores.
pub fn render_footer(summary: &DatasetSummary, source_name: &str, file_size: Option<u64>) -> (r: String)
    ensures
        r@ == spec_render_footer(*summary, source_name@, file_size),
{
    let mut footer = String::new();
    push_str(&mut footer, "<div class='gq-footer'>");
    push_str(&mut footer, "<span class='gq-badge'>");
    push_escaped_html(&mut footer, format_badge(summary.format));
    push_str(&mut footer, "</span>");
    push_escaped_html(&mut footer, source_name);
    if let Some(size) = file_size {
        push_str(&mut footer, " &mdash; ");
        let hs = human_size(size);
        push_str(&mut footer, hs.as_str());
    }
    push_str(&mut footer, "</div>");
    let ghost mid = footer@;
    if let Some(v) = &summary.version_info {
        let card = render_version_info(v);
        push_str(&mut footer, card.as_str());
    }
    assert(footer@ =~= spec_render_footer(*summary, source_name@, file_size));
    footer
}


/// Is `c` a character that may not stand bare in HTML text or a quoted
/// attribute value?
pub open spec fn html_special(c: char) -> bool {
    c == '<' || c == '>' || c == '"' || c == '\''
}

/// Escaped text holds no `<`, `>`, `"` or `'`: it can stand anywhere in a
/// page without being read as markup.
pub proof fn lemma_html_escape_is_inert(s: Seq<char>)
    ensures
        forall|i: int| 0 <= i < spec_html_escape(s).len() ==> !html_special(#[trigger] spec_html_escape(s)[i]),
    decreases s.len(),
{
    if s.len() > 0 {
        lemma_html_escape_is_inert(s.drop_last());
        let a = spec_html_escape(s.drop_last());
        let b = escape_html_char(s.last());
        reveal_strlit("&amp;");
        reveal_strlit("&lt;");
        reveal_strlit("&gt;");
        reveal_strlit("&quot;");
        reveal_strlit("&#x27;");
        assert forall|i: int| 0 <= i < b.len() implies !html_special(#[trigger] b[i]) by {}
        assert forall|i: int| 0 <= i < (a + b).len() implies !html_special(#[trigger] (a + b)[i]) by {
            if i < a.len() {
                assert((a + b)[i] == a[i]);
            } else {
                assert((a + b)[i] == b[i - a.len()]);
            }
        }
    }
}

} // verus!
