//! Reassembling GRIB messages into variables.
//!
//! A GRIB file is a flat concatenation of self-delimiting messages, each a
//! single 2-D field for one variable, level, reference time and forecast
//! step. The messages are regrouped the way cfgrib does for xarray: one
//! variable per (parameter, level type, statistical process), with `time` /
//! `step` / level / horizontal dimensions recovered from the distinct values
//! seen across the group's messages. A group that does not reshape into a
//! full hypercube is listed message by message instead, so a preview never
//! fails on a ragged or truncated file.
//!
//! The reading of the messages themselves (and the formatting of their
//! floating-point values) happens before this module: it works on
//! [`MessageInfo`], the plain values one message contributes.

use vstd::prelude::*;
use crate::decimal::lemma_dec_canonical;
use crate::model::{AttrValue, AttrValueV, DatasetSummary, GroupSummary, SourceFormat, VarSummary};
use crate::group::{coord_pred, data_pred, dim_pairs, dims_match, first_sizes, names_of};
use crate::cdl::specials::{attrs_view, push_attr, push_text};
use crate::text::{dec, join, join_strings, lex_lt, owned, push_char, push_dec, push_str, str_eq, str_lt, strings_eq, strings_view};
use crate::order::{increasing, lemma_lex_irreflexive, lemma_lex_order, lemma_lex_total, lemma_lex_transitive,
    lemma_sorted_set_is, lex_order, sort_by_key, sorted_set, strict_order};

verus! {

/// Upper bound on messages read from one file: a preview only ever shows a
/// summary, so reading stops there and the file says so.
pub const MESSAGE_LIMIT: usize = 10000;

/// GRIB edition number, byte 7 of the indicator section; 2 for data too
/// short or too odd to say.
pub open spec fn spec_edition(data: Seq<u8>) -> i64 {
    if data.len() > 7 && data[0] == 0x47u8 && data[1] == 0x52u8 && data[2] == 0x49u8 && data[3] == 0x42u8 {
        data[7] as i64
    } else {
        2
    }
}

/// GRIB edition number, byte 7 of the indicator section. Defaults to 2
/// for data too short or too odd to say.
pub fn edition(data: &[u8]) -> (r: i64)
    ensures
        r == spec_edition(data@),
{
    if data.len() > 7 && data[0] == 0x47 && data[1] == 0x52 && data[2] == 0x49 && data[3] == 0x42 {
        data[7] as i64
    } else {
        2
    }
}

/// A compact stand-in for a value list: the values joined by `,` when
/// there are at most eight, else `len|first|second|last`.
pub open spec fn spec_signature(values: Seq<Seq<char>>) -> Seq<char> {
    if values.len() <= 8 {
        join(values, seq![','])
    } else {
        dec(values.len()) + seq!['|'] + values[0] + seq!['|'] + values[1] + seq!['|']
            + values[values.len() - 1]
    }
}

/// A compact stand-in for a value list, so comparing two horizontal axes
/// doesn't mean comparing a few thousand formatted floats.
pub fn signature(values: &[String]) -> (r: String)
    ensures
        r@ == spec_signature(strings_view(values@)),
{
    if values.len() <= 8 {
        let mut sep = String::new();
        push_char(&mut sep, ',');
        assert(sep@ =~= seq![',']);
        join_strings(values, sep.as_str())
    } else {
        let mut s = String::new();
        push_dec(&mut s, values.len() as u64);
        push_char(&mut s, '|');
        push_str(&mut s, values[0].as_str());
        push_char(&mut s, '|');
        push_str(&mut s, values[1].as_str());
        push_char(&mut s, '|');
        push_str(&mut s, values[values.len() - 1].as_str());
        assert(s@ =~= spec_signature(strings_view(values@)));
        s
    }
}

/// A preview of a coordinate's values: all of them when there are at most
/// four, else the first three, `...`, and the last.
pub open spec fn spec_preview_of(values: Seq<Seq<char>>) -> Option<Seq<char>> {
    if values.len() == 0 {
        None
    } else if values.len() <= 4 {
        Some(join(values, seq![' ']))
    } else {
        Some(join(values.take(3), seq![' ']) + seq![' ', '.', '.', '.', ' '] + values[values.len() - 1])
    }
}

/// `10.0 12.5 15.0 ... 42.0`, matching the netCDF reader's preview shape.
pub fn preview_of(values: &[String]) -> (r: Option<String>)
    ensures
        match r {
            Some(p) => spec_preview_of(strings_view(values@)) == Some(p@),
            None => spec_preview_of(strings_view(values@)) is None,
        },
{
    let mut sep = String::new();
    push_char(&mut sep, ' ');
    assert(sep@ =~= seq![' ']);
    if values.len() == 0 {
        None
    } else if values.len() <= 4 {
        Some(join_strings(values, sep.as_str()))
    } else {
        let (head, _) = values.split_at(3);
        let mut s = join_strings(head, sep.as_str());
        push_str(&mut s, " ... ");
        proof {
            reveal_strlit(" ... ");
        }
        push_str(&mut s, values[values.len() - 1].as_str());
        assert(strings_view(head@) =~= strings_view(values@).take(3));
        assert(s@ =~= join(strings_view(values@).take(3), seq![' ']) + seq![' ', '.', '.', '.', ' ']
            + strings_view(values@)[values.len() - 1]);
        Some(s)
    }
}

/// One recovered axis, before it is interned under a final name.
#[derive(Debug, Clone, PartialEq, Eq)]
pub struct Axis {
    pub base: String,
    pub dtype: String,
    pub values: Vec<String>,
    /// `false` when `values` are placeholders that carry only the axis
    /// length, because materializing the real coordinates would cost more
    /// than a preview is worth.
    pub materialized: bool,
    pub units: Option<String>,
}

/// The text of an optional string.
pub open spec fn opt_text(o: Option<String>) -> Option<Seq<char>> {
    match o {
        Some(s) => Some(s@),
        None => None,
    }
}

/// The mathematical content of an [`Axis`].
pub struct AxisV {
    pub base: Seq<char>,
    pub dtype: Seq<char>,
    pub values: Seq<Seq<char>>,
    pub materialized: bool,
    pub units: Option<Seq<char>>,
}

impl View for Axis {
    type V = AxisV;

    open spec fn view(&self) -> AxisV {
        AxisV {
            base: self.base@,
            dtype: self.dtype@,
            values: strings_view(self.values@),
            materialized: self.materialized,
            units: opt_text(self.units),
        }
    }
}

/// The numerals `0`, `1`, ... `len - 1`.
pub open spec fn index_values(len: nat) -> Seq<Seq<char>> {
    Seq::new(len, |i: int| dec(i as nat))
}

/// The axis of `len` index placeholders.
pub open spec fn placeholder_axis(base: Seq<char>, len: nat) -> AxisV {
    AxisV { base, dtype: "float64"@, values: index_values(len), materialized: false, units: None }
}

/// An axis whose coordinate values aren't materialized: index placeholders
/// carry the length (and keep two differently-sized axes from interning to
/// the same name), and the coordinate is reported without a preview.
pub fn placeholder(base: &str, len: u64) -> (r: Axis)
    ensures
        r@ == placeholder_axis(base@, len as nat),
{
    let mut values: Vec<String> = Vec::new();
    let mut i: u64 = 0;
    while i < len
        invariant
            i <= len,
            values@.len() == i,
            forall|j: int| 0 <= j < i ==> #[trigger] values@[j]@ == dec(j as nat),
        decreases len - i,
    {
        values.push(crate::text::u64_to_string(i));
        i = i + 1;
    }
    assert(strings_view(values@) =~= index_values(len as nat));
    Axis { base: owned(base), dtype: owned("float64"), values, materialized: false, units: None }
}

/// The axis of materialized degree values.
pub open spec fn degrees_axis(base: Seq<char>, units: Seq<char>, values: Seq<Seq<char>>) -> AxisV {
    AxisV { base, dtype: "float64"@, values, materialized: true, units: Some(units) }
}

/// An axis of degrees (latitude/longitude) with materialized values.
pub fn degrees(base: &str, units: &str, values: Vec<String>) -> (r: Axis)
    ensures
        r@ == degrees_axis(base@, units@, strings_view(values@)),
{
    Axis { base: owned(base), dtype: owned("float64"), values, materialized: true, units: Some(owned(units)) }
}

/// One recovered coordinate: a real dimension (more than one distinct value
/// across the group) or a scalar coordinate (exactly one).
#[derive(Debug, Clone, PartialEq, Eq)]
pub struct Coord {
    pub name: String,
    pub axis: Axis,
}

/// The mathematical content of a [`Coord`].
pub struct CoordV {
    pub name: Seq<char>,
    pub axis: AxisV,
}

impl View for Coord {
    type V = CoordV;

    open spec fn view(&self) -> CoordV {
        CoordV { name: self.name@, axis: self.axis@ }
    }
}

/// The mathematical content of a [`VarSummary`] (everything but its
/// storage details and chunks).
pub struct VarV {
    pub name: Seq<char>,
    pub dtype: Seq<char>,
    pub dims: Seq<Seq<char>>,
    pub shape: Seq<u64>,
    pub attrs: Seq<(Seq<char>, AttrValueV)>,
    pub preview: Option<Seq<char>>,
}

/// The content of `v`.
pub open spec fn var_v(v: VarSummary) -> VarV {
    VarV {
        name: v.name@,
        dtype: v.dtype@,
        dims: strings_view(v.dims@),
        shape: v.shape@,
        attrs: attrs_view(v.attrs@),
        preview: opt_text(v.preview),
    }
}

/// No chunk grid and no storage details: how GRIB variables are reported.
pub open spec fn plain_var(v: VarSummary) -> bool {
    v.chunks is None && v.storage is None
}

/// The variable a coordinate becomes: 1-D along itself, or 0-D when it
/// holds exactly one value; its units as the one attribute; a preview when
/// the values are real.
pub open spec fn coord_var(c: CoordV) -> VarV {
    let scalar = c.axis.values.len() == 1;
    VarV {
        name: c.name,
        dtype: c.axis.dtype,
        dims: if scalar { Seq::empty() } else { seq![c.name] },
        shape: if scalar { Seq::empty() } else { seq![c.axis.values.len() as u64] },
        attrs: match c.axis.units {
            Some(u) => seq![("units"@, AttrValueV::Text(u))],
            None => Seq::empty(),
        },
        preview: if c.axis.materialized { spec_preview_of(c.axis.values) } else { None },
    }
}

impl Coord {
    /// Exactly one distinct value: cfgrib's scalar coordinate.
    pub fn is_scalar(&self) -> (r: bool)
        ensures
            r == (self@.axis.values.len() == 1),
    {
        self.axis.values.len() == 1
    }

    /// The coordinate as a variable.
    pub fn to_var(&self) -> (r: VarSummary)
        ensures
            var_v(r) == coord_var(self@),
            plain_var(r),
    {
        let (dims, shape) = if self.is_scalar() {
            let d: Vec<String> = Vec::new();
            let s: Vec<u64> = Vec::new();
            assert(strings_view(d@) =~= Seq::<Seq<char>>::empty());
            (d, s)
        } else {
            let d = vec![self.name.clone()];
            let s = vec![self.axis.values.len() as u64];
            assert(strings_view(d@) =~= seq![self.name@]);
            assert(s@ =~= seq![self@.axis.values.len() as u64]);
            (d, s)
        };
        let mut attrs: Vec<(String, AttrValue)> = Vec::new();
        match &self.axis.units {
            Some(u) => push_text(&mut attrs, "units", u.clone()),
            None => {},
        }
        proof {
            reveal_strlit("units");
            assert(attrs_view(Seq::<(String, AttrValue)>::empty()) =~= Seq::empty());
            assert(attrs_view(attrs@) =~= coord_var(self@).attrs);
        }
        let preview = if self.axis.materialized {
            preview_of(self.axis.values.as_slice())
        } else {
            None
        };
        VarSummary {
            name: self.name.clone(),
            dtype: self.axis.dtype.clone(),
            dims,
            shape,
            chunks: None,
            attrs,
            preview,
            storage: None,
        }
    }
}

/// The first coordinate named `n`.
pub open spec fn find_coord(cs: Seq<CoordV>, n: Seq<char>) -> Option<CoordV>
    decreases cs.len(),
{
    if cs.len() == 0 {
        None
    } else if cs[0].name == n {
        Some(cs[0])
    } else {
        find_coord(cs.drop_first(), n)
    }
}

/// Names strictly increasing: sorted, and none twice.
pub open spec fn coords_wf(cs: Seq<CoordV>) -> bool {
    forall|i: int, j: int| 0 <= i < j < cs.len() ==> lex_lt(#[trigger] cs[i].name, #[trigger] cs[j].name)
}

/// Where a name not yet present goes to keep the names sorted: after every
/// name that is not greater.
pub open spec fn name_pos(cs: Seq<CoordV>, n: Seq<char>) -> nat
    decreases cs.len(),
{
    if cs.len() == 0 {
        0
    } else if lex_lt(n, cs[0].name) {
        0
    } else {
        1 + name_pos(cs.drop_first(), n)
    }
}

/// The `k`-th name tried for a name based at `base`: `base`, then
/// `base_2`, `base_3`, ...
pub open spec fn candidate(base: Seq<char>, k: nat) -> Seq<char> {
    if k <= 1 {
        base
    } else {
        base + seq!['_'] + dec(k)
    }
}

/// May an axis with values `vals` take the `k`-th name: is it free, or
/// held by a coordinate with exactly these values?
pub open spec fn fits(cs: Seq<CoordV>, base: Seq<char>, vals: Seq<Seq<char>>, k: nat) -> bool {
    match find_coord(cs, candidate(base, k)) {
        None => true,
        Some(c) => c.axis.values == vals,
    }
}

/// The first suffix whose name fits.
pub open spec fn intern_suffix(cs: Seq<CoordV>, base: Seq<char>, sig: Seq<Seq<char>>) -> nat {
    choose|k: nat| k >= 1 && fits(cs, base, sig, k) && forall|j: nat| 1 <= j < k ==> !fits(cs, base, sig, j)
}

/// Interning `a` into `cs`: the name it gets (the first of `base`,
/// `base_2`, ... that is free or names a coordinate with exactly the same
/// values), and the coordinates afterwards (with a new coordinate
/// inserted in name order when the name was free).
pub open spec fn spec_intern(cs: Seq<CoordV>, a: AxisV) -> (Seq<CoordV>, Seq<char>) {
    let n = candidate(a.base, intern_suffix(cs, a.base, a.values));
    match find_coord(cs, n) {
        Some(_) => (cs, n),
        None => (cs.insert(name_pos(cs, n) as int, CoordV { name: n, axis: a }), n),
    }
}

/// Coordinates interned by name, keeping distinct value sets apart.
///
/// Two variable groups can legitimately want the same coordinate name for
/// different values (`heightAboveGround` is 2 m for a temperature field
/// and 10 m for winds), and silently sharing one would misreport both. A
/// name is reused only when the values match exactly; otherwise the next claimant
/// gets `name_2`, `name_3`, ... so nothing is lost and nothing lies. The
/// coordinates are kept in name order.
pub struct Coords {
    pub by_name: Vec<Coord>,
}

impl View for Coords {
    type V = Seq<CoordV>;

    open spec fn view(&self) -> Seq<CoordV> {
        self.by_name@.map_values(|c: Coord| c@)
    }
}

/// Where `find_coord` finds a name.
proof fn lemma_find_coord_index(cs: Seq<CoordV>, n: Seq<char>)
    ensures
        match find_coord(cs, n) {
            Some(c) => exists|i: int| 0 <= i < cs.len() && cs[i] == c && #[trigger] cs[i].name == n,
            None => forall|i: int| 0 <= i < cs.len() ==> #[trigger] cs[i].name != n,
        },
    decreases cs.len(),
{
    if cs.len() > 0 && cs[0].name != n {
        lemma_find_coord_index(cs.drop_first(), n);
        match find_coord(cs, n) {
            Some(c) => {
                let i = choose|i: int| 0 <= i < cs.drop_first().len() && cs.drop_first()[i] == c
                    && #[trigger] cs.drop_first()[i].name == n;
                assert(cs[i + 1] == c && cs[i + 1].name == n);
            },
            None => {
                assert forall|i: int| 0 <= i < cs.len() implies #[trigger] cs[i].name != n by {
                    if i > 0 {
                        assert(cs[i] == cs.drop_first()[i - 1]);
                    }
                }
            },
        }
    }
}

/// A name held at index `i` of a sorted, duplicate-free list is what
/// `find_coord` finds.
proof fn lemma_find_coord_at(cs: Seq<CoordV>, i: int)
    requires
        coords_wf(cs),
        0 <= i < cs.len(),
    ensures
        find_coord(cs, cs[i].name) == Some(cs[i]),
    decreases i,
{
    if i > 0 {
        assert(lex_lt(cs[0].name, cs[i].name));
        lemma_lex_irreflexive(cs[i].name);
        assert(coords_wf(cs.drop_first())) by {
            assert forall|a: int, b: int| 0 <= a < b < cs.drop_first().len()
                implies lex_lt(#[trigger] cs.drop_first()[a].name, #[trigger] cs.drop_first()[b].name) by {
                assert(cs.drop_first()[a] == cs[a + 1] && cs.drop_first()[b] == cs[b + 1]);
            }
        }
        assert(cs.drop_first()[i - 1] == cs[i]);
        lemma_find_coord_at(cs.drop_first(), i - 1);
    }
}

/// `name_pos` lies after every name that is not greater and before the
/// first that is.
proof fn lemma_name_pos_props(cs: Seq<CoordV>, n: Seq<char>)
    ensures
        name_pos(cs, n) <= cs.len(),
        forall|i: int| 0 <= i < name_pos(cs, n) ==> !lex_lt(n, #[trigger] cs[i].name),
        name_pos(cs, n) < cs.len() ==> lex_lt(n, cs[name_pos(cs, n) as int].name),
    decreases cs.len(),
{
    if cs.len() > 0 && !lex_lt(n, cs[0].name) {
        lemma_name_pos_props(cs.drop_first(), n);
        assert forall|i: int| 0 <= i < name_pos(cs, n) implies !lex_lt(n, #[trigger] cs[i].name) by {
            if i > 0 {
                assert(cs[i] == cs.drop_first()[i - 1]);
            }
        }
    }
}

/// Different suffixes give different names.
pub proof fn lemma_candidate_injective(base: Seq<char>, a: nat, b: nat)
    requires
        a >= 1,
        b >= 1,
        candidate(base, a) == candidate(base, b),
    ensures
        a == b,
{
    lemma_dec_canonical(a);
    lemma_dec_canonical(b);
    if a >= 2 && b >= 2 {
        let ta = candidate(base, a);
        assert(ta.skip(base.len() as int + 1) =~= dec(a));
        assert(candidate(base, b).skip(base.len() as int + 1) =~= dec(b));
    } else if a >= 2 {
        assert(candidate(base, a).len() > base.len());
    } else if b >= 2 {
        assert(candidate(base, b).len() > base.len());
    }
}

/// Pigeonhole: if the names `lo`-th to `m`-th are all among `names`, there
/// are at least `m - lo + 1` names.
pub proof fn lemma_taken_names_bound(names: Seq<Seq<char>>, base: Seq<char>, lo: nat, m: nat)
    requires
        lo >= 1,
        forall|j: nat| lo <= j <= m ==> names.contains(#[trigger] candidate(base, j)),
    ensures
        m + 1 <= lo + names.len(),
{
    if m >= lo {
        let x = vstd::set_lib::set_int_range(lo as int, m as int + 1);
        let f = |j: int| choose|i: int| 0 <= i < names.len() && #[trigger] names[i] == candidate(base, j as nat);
        vstd::set_lib::lemma_int_range(lo as int, m as int + 1);
        assert forall|j: int| #[trigger] x.contains(j) implies 0 <= f(j) < names.len() && names[f(j)] == candidate(base, j as nat) by {
            assert(names.contains(candidate(base, j as nat)));
        }
        assert(vstd::relations::injective_on(f, x)) by {
            assert forall|a: int, b: int| x.contains(a) && x.contains(b) && #[trigger] f(a) == #[trigger] f(b) implies a == b by {
                lemma_candidate_injective(base, a as nat, b as nat);
            }
        }
        let y = x.map(f);
        vstd::set_lib::lemma_map_size(x, y, f);
        let z = vstd::set_lib::set_int_range(0, names.len() as int);
        vstd::set_lib::lemma_int_range(0, names.len() as int);
        assert(y.subset_of(z)) by {
            assert forall|v: int| #[trigger] y.contains(v) implies z.contains(v) by {
                let j = choose|j: int| x.contains(j) && f(j) == v;
            }
        }
        vstd::set_lib::lemma_len_subset(y, z);
    }
}

/// The names of `cs`.
pub open spec fn coord_names(cs: Seq<CoordV>) -> Seq<Seq<char>> {
    cs.map_values(|c: CoordV| c.name)
}

impl Coords {
    /// No coordinates yet.
    pub fn new() -> (r: Self)
        ensures
            r@ == Seq::<CoordV>::empty(),
    {
        let r = Coords { by_name: Vec::new() };
        assert(r@ =~= Seq::<CoordV>::empty());
        r
    }

    /// The index of the coordinate named `name`, if any.
    fn index_of(&self, name: &str) -> (r: Option<usize>)
        requires
            coords_wf(self@),
        ensures
            match r {
                Some(i) => i < self@.len() && self@[i as int].name == name@
                    && find_coord(self@, name@) == Some(self@[i as int]),
                None => find_coord(self@, name@) is None,
            },
    {
        let mut i: usize = 0;
        while i < self.by_name.len()
            invariant
                i <= self.by_name.len(),
                self@.len() == self.by_name@.len(),
                coords_wf(self@),
                forall|j: int| 0 <= j < i ==> #[trigger] self@[j].name != name@,
            decreases self.by_name.len() - i,
        {
            assert(self@[i as int].name == self.by_name@[i as int].name@);
            if str_eq(self.by_name[i].name.as_str(), name) {
                proof {
                    lemma_find_coord_at(self@, i as int);
                }
                return Some(i);
            }
            i = i + 1;
        }
        proof {
            lemma_find_coord_index(self@, name@);
        }
        None
    }

    /// Interns an axis under the first of `base`, `base_2`, `base_3`, ...
    /// that is free or already names a coordinate with exactly the same
    /// values, and returns that name. A free name is taken by a new
    /// coordinate, inserted in name order.
    pub fn intern(&mut self, axis: Axis) -> (r: String)
        requires
            coords_wf(old(self)@),
        ensures
            coords_wf(final(self)@),
            (final(self)@, r@) == spec_intern(old(self)@, axis@),
    {
        let ghost cs = self@;
        let ghost base = axis.base@;
        let wanted = signature(axis.values.as_slice());
        let ghost sig = axis@.values;
        let n = self.by_name.len();
        let mut suffix: u128 = 1;
        loop
            invariant
                1 <= suffix <= n + 1,
                n <= usize::MAX,
                n == cs.len(),
                cs == old(self)@,
                self@ == cs,
                self.by_name@.len() == n,
                coords_wf(cs),
                base == axis@.base,
                sig == axis@.values,
                wanted@ == spec_signature(axis@.values),
                forall|j: nat| 1 <= j < suffix ==> !#[trigger] fits(cs, base, sig, j),
            decreases n + 1 - suffix,
        {
            let name = if suffix == 1 {
                axis.base.clone()
            } else {
                let mut t = axis.base.clone();
                push_char(&mut t, '_');
                crate::text::push_dec_wide(&mut t, suffix);
                t
            };
            assert(name@ == candidate(base, suffix as nat));
            match self.index_of(name.as_str()) {
                Some(i) => {
                    let existing = signature(self.by_name[i].axis.values.as_slice());
                    assert(existing@ == spec_signature(cs[i as int].axis.values));
                    // The signatures tell most differing value lists apart
                    // cheaply; only equal ones are compared in full.
                    if str_eq(existing.as_str(), wanted.as_str())
                        && strings_eq(self.by_name[i].axis.values.as_slice(), axis.values.as_slice()) {
                        proof {
                            assert(fits(cs, base, sig, suffix as nat));
                            lemma_intern_suffix_is(cs, base, sig, suffix as nat);
                        }
                        return name;
                    }
                    proof {
                        assert(!fits(cs, base, sig, suffix as nat));
                        assert forall|j: nat| 1 <= j <= suffix implies coord_names(cs).contains(#[trigger] candidate(base, j)) by {
                            if j < suffix {
                                assert(!fits(cs, base, sig, j));
                            }
                            lemma_find_coord_index(cs, candidate(base, j));
                            let k = choose|k: int| 0 <= k < cs.len() && #[trigger] cs[k].name == candidate(base, j);
                            assert(coord_names(cs)[k] == candidate(base, j));
                        }
                        lemma_taken_names_bound(coord_names(cs), base, 1, suffix as nat);
                    }
                    suffix = suffix + 1;
                },
                None => {
                    proof {
                        assert(fits(cs, base, sig, suffix as nat));
                        lemma_intern_suffix_is(cs, base, sig, suffix as nat);
                    }
                    let mut p: usize = 0;
                    proof {
                        assert(cs.skip(0) == cs);
                    }
                    while p < self.by_name.len() && !str_lt(name.as_str(), self.by_name[p].name.as_str())
                        invariant
                            p <= self.by_name.len(),
                            self.by_name@.len() == cs.len(),
                            self@ == cs,
                            name_pos(cs, name@) == p + name_pos(cs.skip(p as int), name@),
                        decreases self.by_name.len() - p,
                    {
                        proof {
                            assert(cs.skip(p as int).drop_first() == cs.skip(p + 1));
                            assert(cs.skip(p as int)[0] == cs[p as int]);
                        }
                        p = p + 1;
                    }
                    proof {
                        if p < cs.len() {
                            assert(cs.skip(p as int)[0] == cs[p as int]);
                        }
                        lemma_find_coord_index(cs, name@);
                        assert(name_pos(cs.skip(p as int), name@) == 0);
                        lemma_name_pos_props(cs, name@);
                        lemma_insert_keeps_wf(cs, p as int, name@);
                    }
                    let ret = name.clone();
                    self.by_name.insert(p, Coord { name, axis });
                    proof {
                        assert(self@ =~= cs.insert(p as int, CoordV { name: ret@, axis: axis@ }));
                        let ns = self@;
                        assert forall|i: int, j: int| 0 <= i < j < ns.len() implies lex_lt(#[trigger] ns[i].name, #[trigger] ns[j].name) by {
                            if j < p {
                                assert(ns[i] == cs[i] && ns[j] == cs[j]);
                            } else if j == p {
                                assert(ns[i] == cs[i]);
                            } else if i < p {
                                assert(ns[i] == cs[i] && ns[j] == cs[j - 1]);
                                lemma_lex_transitive(cs[i].name, ret@, cs[j - 1].name);
                            } else if i == p {
                                assert(ns[j] == cs[j - 1]);
                            } else {
                                assert(ns[i] == cs[i - 1] && ns[j] == cs[j - 1]);
                            }
                        }
                    }
                    return ret;
                },
            }
        }
    }

    /// The coordinate named `name`, which must have been handed out.
    pub fn get(&self, name: &str) -> (r: &Coord)
        requires
            coords_wf(self@),
            find_coord(self@, name@) is Some,
        ensures
            find_coord(self@, name@) == Some(r@),
    {
        match self.index_of(name) {
            Some(i) => &self.by_name[i],
            None => {
                proof {
                    assert(false);
                }
                &self.by_name[0]
            },
        }
    }
}

/// The suffix found first is the one `intern_suffix` names.
proof fn lemma_intern_suffix_is(cs: Seq<CoordV>, base: Seq<char>, sig: Seq<Seq<char>>, k: nat)
    requires
        k >= 1,
        fits(cs, base, sig, k),
        forall|j: nat| 1 <= j < k ==> !#[trigger] fits(cs, base, sig, j),
    ensures
        intern_suffix(cs, base, sig) == k,
{
    let c = intern_suffix(cs, base, sig);
    assert(c >= 1 && fits(cs, base, sig, c) && forall|j: nat| 1 <= j < c ==> !fits(cs, base, sig, j));
    if c < k {
        assert(!fits(cs, base, sig, c));
    } else if c > k {
        assert(!fits(cs, base, sig, k));
    }
}

/// Inserting a name that is not present at its sorted position keeps the
/// names strictly increasing.
proof fn lemma_insert_keeps_wf(cs: Seq<CoordV>, p: int, n: Seq<char>)
    requires
        coords_wf(cs),
        0 <= p <= cs.len(),
        forall|i: int| 0 <= i < cs.len() ==> #[trigger] cs[i].name != n,
        forall|i: int| 0 <= i < p ==> !lex_lt(n, #[trigger] cs[i].name),
        p < cs.len() ==> lex_lt(n, cs[p].name),
    ensures
        forall|i: int| 0 <= i < p ==> lex_lt(#[trigger] cs[i].name, n),
        forall|i: int| p <= i < cs.len() ==> lex_lt(n, #[trigger] cs[i].name),
{
    assert forall|i: int| 0 <= i < p implies lex_lt(#[trigger] cs[i].name, n) by {
        lemma_lex_total(cs[i].name, n);
    }
    assert forall|i: int| p <= i < cs.len() implies lex_lt(n, #[trigger] cs[i].name) by {
        if i > p {
            lemma_lex_transitive(n, cs[p].name, cs[i].name);
        }
    }
}


/// The kind of a message's first fixed surface, as far as naming its level
/// dimension goes: the surfaces cfgrib spells its own way, and the rest.
#[derive(Debug, Clone, Copy, PartialEq, Eq, Structural)]
pub enum SurfaceKind {
    IsobaricSurface,
    SpecifiedHeightLevelAboveGround,
    SpecificAltitudeAboveMeanSeaLevel,
    MeanSeaLevel,
    GroundOrWater,
    HybridLevel,
    SigmaLevel,
    DepthBelowSeaLevel,
    DepthBelowLandSurface,
    PotentialVorticitySurface,
    EntireAtmosphereAsSingleLayer,
    EntireAtmosphere,
    Tropopause,
    Other,
}

/// What one GRIB message contributes, as plain values: its header fields,
/// with every date and floating-point value already formatted.
#[derive(Debug, Clone, PartialEq)]
pub struct MessageInfo {
    /// The parameter's short name (`TMP`, `UGRD`, ...).
    pub var: String,
    /// The parameter's long name.
    pub name: String,
    pub units: String,
    pub surface: SurfaceKind,
    /// The surface's coordinate name in the GRIB tables (used for the
    /// surfaces of kind [`SurfaceKind::Other`]).
    pub surface_coordinate_name: String,
    /// The surface's name in the GRIB tables (the level of a message
    /// without a surface value).
    pub surface_name: String,
    /// The surface's unit in the GRIB tables.
    pub surface_unit: String,
    /// The first fixed surface's value, formatted.
    pub level_text: Option<String>,
    /// The same value divided by 100 (pascals to hectopascals), formatted.
    pub level_hpa_text: Option<String>,
    /// The abbreviation of the statistical process, if any.
    pub statistical_process: Option<String>,
    pub grid_ny: u64,
    pub grid_nx: u64,
    pub proj: String,
    pub is_regular_grid: bool,
    /// The latitudes and longitudes of a regular grid, formatted.
    pub lat_lng: Option<(Vec<String>, Vec<String>)>,
    /// The reference time, formatted.
    pub reference_time: String,
    /// The valid (forecast) time, formatted.
    pub valid_time: String,
    /// The forecast step in hours, formatted.
    pub step_text: String,
    pub discipline: String,
    pub category: String,
    pub parameter_value: u8,
    pub data_compression: String,
}

/// cfgrib's `typeOfLevel`, which also names the level dimension.
pub open spec fn spec_level_type(kind: SurfaceKind, coordinate_name: Seq<char>) -> Seq<char> {
    match kind {
        SurfaceKind::IsobaricSurface => "isobaricInhPa"@,
        SurfaceKind::SpecifiedHeightLevelAboveGround => "heightAboveGround"@,
        SurfaceKind::SpecificAltitudeAboveMeanSeaLevel => "heightAboveSea"@,
        SurfaceKind::MeanSeaLevel => "meanSea"@,
        SurfaceKind::GroundOrWater => "surface"@,
        SurfaceKind::HybridLevel => "hybrid"@,
        SurfaceKind::SigmaLevel => "sigma"@,
        SurfaceKind::DepthBelowSeaLevel => "depthBelowSea"@,
        SurfaceKind::DepthBelowLandSurface => "depthBelowLandLayer"@,
        SurfaceKind::PotentialVorticitySurface => "potentialVorticity"@,
        SurfaceKind::EntireAtmosphereAsSingleLayer => "atmosphere"@,
        SurfaceKind::EntireAtmosphere => "atmosphere"@,
        SurfaceKind::Tropopause => "tropopause"@,
        SurfaceKind::Other => if coordinate_name.len() == 0 { "level"@ } else { coordinate_name },
    }
}

/// The common surfaces are named after the surface alone: the coordinate
/// name the tables give does not change their level type.
pub proof fn lemma_named_surfaces_ignore_the_coordinate_name(kind: SurfaceKind, a: Seq<char>, b: Seq<char>)
    requires
        kind != SurfaceKind::Other,
    ensures
        spec_level_type(kind, a) == spec_level_type(kind, b),
{
}

/// A message at mean sea level has the level type `meanSea`, as ecCodes
/// names it.
pub proof fn lemma_mean_sea_level_is_mean_sea(coordinate_name: Seq<char>)
    ensures
        spec_level_type(SurfaceKind::MeanSeaLevel, coordinate_name) == "meanSea"@,
{
}

/// The common surfaces carry ecCodes' `typeOfLevel` names, whatever
/// coordinate name the tables give.
pub proof fn lemma_common_surfaces_use_eccodes_names(coordinate_name: Seq<char>)
    ensures
        spec_level_type(SurfaceKind::IsobaricSurface, coordinate_name) == "isobaricInhPa"@,
        spec_level_type(SurfaceKind::SpecifiedHeightLevelAboveGround, coordinate_name) == "heightAboveGround"@,
        spec_level_type(SurfaceKind::SpecificAltitudeAboveMeanSeaLevel, coordinate_name) == "heightAboveSea"@,
        spec_level_type(SurfaceKind::MeanSeaLevel, coordinate_name) == "meanSea"@,
        spec_level_type(SurfaceKind::GroundOrWater, coordinate_name) == "surface"@,
        spec_level_type(SurfaceKind::HybridLevel, coordinate_name) == "hybrid"@,
        spec_level_type(SurfaceKind::SigmaLevel, coordinate_name) == "sigma"@,
        spec_level_type(SurfaceKind::DepthBelowSeaLevel, coordinate_name) == "depthBelowSea"@,
        spec_level_type(SurfaceKind::DepthBelowLandSurface, coordinate_name) == "depthBelowLandLayer"@,
        spec_level_type(SurfaceKind::PotentialVorticitySurface, coordinate_name) == "potentialVorticity"@,
        spec_level_type(SurfaceKind::EntireAtmosphereAsSingleLayer, coordinate_name) == "atmosphere"@,
        spec_level_type(SurfaceKind::EntireAtmosphere, coordinate_name) == "atmosphere"@,
        spec_level_type(SurfaceKind::Tropopause, coordinate_name) == "tropopause"@,
{
}

/// Any other surface is named by its coordinate name, or `level` when the
/// tables give none.
pub proof fn lemma_other_surfaces_take_their_coordinate_name(coordinate_name: Seq<char>)
    ensures
        coordinate_name.len() > 0 ==> spec_level_type(SurfaceKind::Other, coordinate_name) == coordinate_name,
        coordinate_name.len() == 0 ==> spec_level_type(SurfaceKind::Other, coordinate_name) == "level"@,
{
}

/// Different common surfaces get different level types, so their level
/// dimensions never merge; the one exception is the entire atmosphere,
/// which ecCodes calls `atmosphere` whether or not it is taken as a
/// single layer.
pub proof fn lemma_named_surfaces_have_distinct_level_types(k1: SurfaceKind, k2: SurfaceKind, a: Seq<char>, b: Seq<char>)
    requires
        k1 != SurfaceKind::Other,
        k2 != SurfaceKind::Other,
        k1 != k2,
        !((k1 == SurfaceKind::EntireAtmosphere || k1 == SurfaceKind::EntireAtmosphereAsSingleLayer)
            && (k2 == SurfaceKind::EntireAtmosphere || k2 == SurfaceKind::EntireAtmosphereAsSingleLayer)),
    ensures
        spec_level_type(k1, a) != spec_level_type(k2, b),
{
    reveal_strlit("isobaricInhPa");
    assert("isobaricInhPa"@.len() == 13 && "isobaricInhPa"@[0] == 'i' && "isobaricInhPa"@[12] == 'a');
    reveal_strlit("heightAboveGround");
    assert("heightAboveGround"@.len() == 17 && "heightAboveGround"@[0] == 'h' && "heightAboveGround"@[16] == 'd');
    reveal_strlit("heightAboveSea");
    assert("heightAboveSea"@.len() == 14 && "heightAboveSea"@[0] == 'h' && "heightAboveSea"@[13] == 'a');
    reveal_strlit("meanSea");
    assert("meanSea"@.len() == 7 && "meanSea"@[0] == 'm' && "meanSea"@[6] == 'a');
    reveal_strlit("surface");
    assert("surface"@.len() == 7 && "surface"@[0] == 's' && "surface"@[6] == 'e');
    reveal_strlit("hybrid");
    assert("hybrid"@.len() == 6 && "hybrid"@[0] == 'h' && "hybrid"@[5] == 'd');
    reveal_strlit("sigma");
    assert("sigma"@.len() == 5 && "sigma"@[0] == 's' && "sigma"@[4] == 'a');
    reveal_strlit("depthBelowSea");
    assert("depthBelowSea"@.len() == 13 && "depthBelowSea"@[0] == 'd' && "depthBelowSea"@[12] == 'a');
    reveal_strlit("depthBelowLandLayer");
    assert("depthBelowLandLayer"@.len() == 19 && "depthBelowLandLayer"@[0] == 'd' && "depthBelowLandLayer"@[18] == 'r');
    reveal_strlit("potentialVorticity");
    assert("potentialVorticity"@.len() == 18 && "potentialVorticity"@[0] == 'p' && "potentialVorticity"@[17] == 'y');
    reveal_strlit("atmosphere");
    assert("atmosphere"@.len() == 10 && "atmosphere"@[0] == 'a' && "atmosphere"@[9] == 'e');
    reveal_strlit("tropopause");
    assert("tropopause"@.len() == 10 && "tropopause"@[0] == 't' && "tropopause"@[9] == 'e');
    let x = spec_level_type(k1, a);
    let y = spec_level_type(k2, b);
    if x == y {
        assert(x.len() == y.len() && x[0] == y[0] && x[x.len() - 1] == y[y.len() - 1]);
    }
}

/// The level type of message `m`.
pub open spec fn msg_level_type(m: MessageInfo) -> Seq<char> {
    spec_level_type(m.surface, m.surface_coordinate_name@)
}

/// cfgrib's `typeOfLevel`. The common surfaces get ecCodes' spelling so a
/// GRIB user recognizes them; anything else falls back to the surface's
/// coordinate name, or `level` when it has none.
pub fn level_type(kind: SurfaceKind, coordinate_name: &str) -> (r: String)
    ensures
        r@ == spec_level_type(kind, coordinate_name@),
{
    match kind {
        SurfaceKind::IsobaricSurface => owned("isobaricInhPa"),
        SurfaceKind::SpecifiedHeightLevelAboveGround => owned("heightAboveGround"),
        SurfaceKind::SpecificAltitudeAboveMeanSeaLevel => owned("heightAboveSea"),
        SurfaceKind::MeanSeaLevel => owned("meanSea"),
        SurfaceKind::GroundOrWater => owned("surface"),
        SurfaceKind::HybridLevel => owned("hybrid"),
        SurfaceKind::SigmaLevel => owned("sigma"),
        SurfaceKind::DepthBelowSeaLevel => owned("depthBelowSea"),
        SurfaceKind::DepthBelowLandSurface => owned("depthBelowLandLayer"),
        SurfaceKind::PotentialVorticitySurface => owned("potentialVorticity"),
        SurfaceKind::EntireAtmosphereAsSingleLayer => owned("atmosphere"),
        SurfaceKind::EntireAtmosphere => owned("atmosphere"),
        SurfaceKind::Tropopause => owned("tropopause"),
        SurfaceKind::Other => {
            if coordinate_name.unicode_len() == 0 {
                owned("level")
            } else {
                owned(coordinate_name)
            }
        },
    }
}

/// cfgrib's `stepType` of message `m`.
pub open spec fn spec_step_type(m: MessageInfo) -> Seq<char> {
    match m.statistical_process {
        Some(p) => p@,
        None => "instant"@,
    }
}

/// cfgrib's `stepType`: the statistical process over the step range, or
/// `instant` for a field valid at a single moment.
pub fn step_type(m: &MessageInfo) -> (r: String)
    ensures
        r@ == spec_step_type(*m),
{
    match &m.statistical_process {
        Some(p) => p.clone(),
        None => owned("instant"),
    }
}

/// What `str::to_lowercase` returns for a string.
pub uninterp spec fn lowercase(s: Seq<char>) -> Seq<char>;

/// `str::to_lowercase`: the Unicode lowercase mapping of each character.
/// The contract names the result and claims only that it depends on the
/// text alone.
#[verifier::external_body]
fn to_lowercase(s: &str) -> (r: String)
    ensures
        r@ == lowercase(s@),
{
    s.to_lowercase()
}

/// What makes one variable: parameter, level type, statistical process.
pub open spec fn msg_key(m: MessageInfo) -> (Seq<char>, Seq<char>, Seq<char>) {
    (m.var@, msg_level_type(m), spec_step_type(m))
}

/// The keys of the messages, in message order.
pub open spec fn msg_keys(ms: Seq<MessageInfo>) -> Seq<(Seq<char>, Seq<char>, Seq<char>)> {
    ms.map_values(|m: MessageInfo| msg_key(m))
}

/// The order of `(String, String, String)` tuples: by the first string,
/// then the second, then the third.
pub open spec fn key_lt(a: (Seq<char>, Seq<char>, Seq<char>), b: (Seq<char>, Seq<char>, Seq<char>)) -> bool {
    ||| lex_lt(a.0, b.0)
    ||| a.0 == b.0 && lex_lt(a.1, b.1)
    ||| a.0 == b.0 && a.1 == b.1 && lex_lt(a.2, b.2)
}

/// [`key_lt`] as a relation.
pub open spec fn key_order() -> spec_fn((Seq<char>, Seq<char>, Seq<char>), (Seq<char>, Seq<char>, Seq<char>)) -> bool {
    |a: (Seq<char>, Seq<char>, Seq<char>), b: (Seq<char>, Seq<char>, Seq<char>)| key_lt(a, b)
}

/// [`key_lt`] is a strict total order.
pub proof fn lemma_key_order()
    ensures
        strict_order(key_order()),
{
    lemma_lex_order();
    assert forall|a: (Seq<char>, Seq<char>, Seq<char>)| !#[trigger] key_order()(a, a) by {
        lemma_lex_irreflexive(a.0);
        lemma_lex_irreflexive(a.1);
        lemma_lex_irreflexive(a.2);
    }
    assert forall|a: (Seq<char>, Seq<char>, Seq<char>), b: (Seq<char>, Seq<char>, Seq<char>), c: (Seq<char>, Seq<char>, Seq<char>)|
        #[trigger] key_order()(a, b) && #[trigger] key_order()(b, c) implies key_order()(a, c) by {
        if lex_lt(a.0, b.0) && lex_lt(b.0, c.0) {
            lemma_lex_transitive(a.0, b.0, c.0);
        }
        if a.0 == b.0 && b.0 == c.0 && lex_lt(a.1, b.1) && lex_lt(b.1, c.1) {
            lemma_lex_transitive(a.1, b.1, c.1);
        }
        if a.0 == b.0 && b.0 == c.0 && a.1 == b.1 && b.1 == c.1 && lex_lt(a.2, b.2) && lex_lt(b.2, c.2) {
            lemma_lex_transitive(a.2, b.2, c.2);
        }
    }
    assert forall|a: (Seq<char>, Seq<char>, Seq<char>), b: (Seq<char>, Seq<char>, Seq<char>)|
        a != b implies #[trigger] key_order()(a, b) || #[trigger] key_order()(b, a) by {
        lemma_lex_total(a.0, b.0);
        lemma_lex_total(a.1, b.1);
        lemma_lex_total(a.2, b.2);
    }
}

/// The indices below `n` of the messages whose key is `k`, in order.
pub open spec fn members_of(ms: Seq<MessageInfo>, k: (Seq<char>, Seq<char>, Seq<char>), n: nat) -> Seq<usize>
    decreases n,
{
    if n == 0 {
        Seq::empty()
    } else if msg_key(ms[n - 1]) == k {
        members_of(ms, k, (n - 1) as nat).push((n - 1) as usize)
    } else {
        members_of(ms, k, (n - 1) as nat)
    }
}

/// With no message below `n` keyed `k`, there are no members.
proof fn lemma_members_of_none(ms: Seq<MessageInfo>, k: (Seq<char>, Seq<char>, Seq<char>), n: nat)
    requires
        forall|j: int| 0 <= j < n ==> msg_key(#[trigger] ms[j]) != k,
    ensures
        members_of(ms, k, n) == Seq::<usize>::empty(),
    decreases n,
{
    if n > 0 {
        lemma_members_of_none(ms, k, (n - 1) as nat);
    }
}

/// The messages of one variable: its key and the indices of its messages.
#[derive(Debug, Clone, PartialEq, Eq)]
pub struct MessageGroup {
    pub var: String,
    pub level: String,
    pub step: String,
    pub members: Vec<usize>,
}

/// The key of a group.
pub open spec fn group_key(g: MessageGroup) -> (Seq<char>, Seq<char>, Seq<char>) {
    (g.var@, g.level@, g.step@)
}

/// The keys of the groups, in order.
pub open spec fn group_keys(gs: Seq<MessageGroup>) -> Seq<(Seq<char>, Seq<char>, Seq<char>)> {
    gs.map_values(|g: MessageGroup| group_key(g))
}

/// Is group `g` keyed before `(var, level, step)`?
fn group_before(g: &MessageGroup, var: &str, level: &str, step: &str) -> (r: bool)
    ensures
        r == key_lt(group_key(*g), (var@, level@, step@)),
{
    if str_lt(g.var.as_str(), var) {
        return true;
    }
    if !str_eq(g.var.as_str(), var) {
        return false;
    }
    if str_lt(g.level.as_str(), level) {
        return true;
    }
    if !str_eq(g.level.as_str(), level) {
        return false;
    }
    str_lt(g.step.as_str(), step)
}

/// The messages grouped into variables: one group per distinct key, in key
/// order, each holding the indices of its messages in file order.
pub fn group_messages(ms: &[MessageInfo]) -> (r: Vec<MessageGroup>)
    ensures
        group_keys(r@) == sorted_set(msg_keys(ms@), key_order()),
        increasing(group_keys(r@), key_order()),
        group_keys(r@).to_set() == msg_keys(ms@).to_set(),
        forall|i: int| 0 <= i < r@.len() ==> #[trigger] r@[i].members@ == members_of(ms@, group_key(r@[i]), ms@.len()),
{
    let mut gs: Vec<MessageGroup> = Vec::new();
    let mut i: usize = 0;
    proof {
        lemma_key_order();
        assert(group_keys(gs@).to_set() =~= msg_keys(ms@.take(0)).to_set());
    }
    while i < ms.len()
        invariant
            i <= ms.len(),
            strict_order(key_order()),
            increasing(group_keys(gs@), key_order()),
            group_keys(gs@).to_set() == msg_keys(ms@.take(i as int)).to_set(),
            forall|g: int| 0 <= g < gs@.len() ==> #[trigger] gs@[g].members@ == members_of(ms@, group_key(gs@[g]), i as nat),
        decreases ms.len() - i,
    {
        let var = ms[i].var.clone();
        let level = level_type(ms[i].surface, ms[i].surface_coordinate_name.as_str());
        let step = step_type(&ms[i]);
        let ghost k = (var@, level@, step@);
        let ghost ks = group_keys(gs@);
        let ghost old_gs = gs@;
        assert(k == msg_key(ms@[i as int]));
        let mut p: usize = 0;
        while p < gs.len()
            invariant
                p <= gs.len(),
                gs@ == old_gs,
                ks == group_keys(gs@),
                k == (var@, level@, step@),
                forall|j: int| 0 <= j < p ==> key_lt(#[trigger] ks[j], k),
            ensures
                p <= gs.len(),
                forall|j: int| 0 <= j < p ==> key_lt(#[trigger] ks[j], k),
                p < gs.len() ==> !key_lt(ks[p as int], k),
            decreases gs.len() - p,
        {
            assert(ks[p as int] == group_key(gs@[p as int]));
            if !group_before(&gs[p], var.as_str(), level.as_str(), step.as_str()) {
                break;
            }
            p = p + 1;
        }
        if p < gs.len() {
            assert(ks[p as int] == group_key(gs@[p as int]));
        }
        proof {
            assert(msg_keys(ms@.take(i + 1)) =~= msg_keys(ms@.take(i as int)).push(k));
            msg_keys(ms@.take(i as int)).lemma_push_to_set_commute(k);
        }
        if p < gs.len() && str_eq(gs[p].var.as_str(), var.as_str()) && str_eq(gs[p].level.as_str(), level.as_str())
            && str_eq(gs[p].step.as_str(), step.as_str()) {
            let mut g = gs.remove(p);
            g.members.push(i);
            gs.insert(p, g);
            proof {
                assert(ks[p as int] == k);
                assert(group_keys(gs@) =~= ks);
                assert(ks.to_set().insert(k) =~= ks.to_set());
                assert forall|j: int| 0 <= j < gs@.len() implies #[trigger] gs@[j].members@ == members_of(ms@, group_key(gs@[j]), (i + 1) as nat) by {
                    if j != p {
                        assert(gs@[j] == old_gs[j]);
                        assert(ks[j] != k) by {
                            assert(key_order()(ks[j], ks[p as int]) || key_order()(ks[p as int], ks[j]));
                        }
                    }
                }
            }
        } else {
            let mut members: Vec<usize> = Vec::new();
            members.push(i);
            proof {
                if p < ks.len() {
                    assert(ks[p as int] != k);
                    assert(!key_lt(ks[p as int], k));
                    assert(key_order()(ks[p as int], k) || key_order()(k, ks[p as int]));
                    assert(key_order()(k, ks[p as int]));
                }
                assert(!ks.to_set().contains(k)) by {
                    if ks.to_set().contains(k) {
                        let j = choose|j: int| 0 <= j < ks.len() && ks[j] == k;
                        if j < p {
                            assert(key_order()(k, k));
                        } else if j > p {
                            assert(key_order()(ks[p as int], ks[j]));
                            assert(key_order()(k, k));
                        }
                    }
                }
                assert forall|j: int| 0 <= j < i implies msg_key(#[trigger] ms@[j]) != k by {
                    assert(msg_keys(ms@.take(i as int))[j] == msg_key(ms@[j]));
                }
                lemma_members_of_none(ms@, k, i as nat);
                assert(members@ =~= members_of(ms@, k, (i + 1) as nat));
            }
            gs.insert(p, MessageGroup { var, level, step, members });
            proof {
                let nk = group_keys(gs@);
                assert(nk =~= ks.insert(p as int, k));
                assert forall|a: int, b: int| 0 <= a < b < nk.len() implies key_order()(#[trigger] nk[a], #[trigger] nk[b]) by {
                    if b < p {
                        assert(nk[a] == ks[a] && nk[b] == ks[b]);
                    } else if b == p {
                        assert(nk[a] == ks[a]);
                    } else if a < p {
                        assert(nk[a] == ks[a] && nk[b] == ks[b - 1]);
                        if b - 1 > p {
                            assert(key_order()(ks[p as int], ks[b - 1]));
                        }
                    } else if a == p {
                        assert(nk[b] == ks[b - 1]);
                        if b - 1 > p {
                            assert(key_order()(ks[p as int], ks[b - 1]));
                        }
                    } else {
                        assert(nk[a] == ks[a - 1] && nk[b] == ks[b - 1]);
                    }
                }
                assert(nk.to_set() =~= ks.to_set().insert(k)) by {
                    assert forall|y| nk.to_set().contains(y) implies ks.to_set().insert(k).contains(y) by {
                        let c = choose|c: int| 0 <= c < nk.len() && nk[c] == y;
                        if c < p {
                            assert(ks[c] == y);
                        } else if c > p {
                            assert(ks[c - 1] == y);
                        }
                    }
                    assert forall|y| ks.to_set().insert(k).contains(y) implies nk.to_set().contains(y) by {
                        if y == k {
                            assert(nk[p as int] == y);
                        } else {
                            let c = choose|c: int| 0 <= c < ks.len() && ks[c] == y;
                            if c < p {
                                assert(nk[c] == y);
                            } else {
                                assert(nk[c + 1] == y);
                            }
                        }
                    }
                }
                assert forall|j: int| 0 <= j < gs@.len() implies #[trigger] gs@[j].members@ == members_of(ms@, group_key(gs@[j]), (i + 1) as nat) by {
                    if j < p {
                        assert(gs@[j] == old_gs[j]);
                        assert(ks[j] != k);
                    } else if j > p {
                        assert(gs@[j] == old_gs[j - 1]);
                        assert(ks[j - 1] != k);
                    }
                }
            }
        }
        i = i + 1;
    }
    proof {
        assert(ms@.take(ms.len() as int) =~= ms@);
        lemma_sorted_set_is(msg_keys(ms@), group_keys(gs@), key_order());
    }
    gs
}


/// The recovered axes of one variable, slowest-varying first, with the
/// grid's type and projection.
#[derive(Debug, Clone, PartialEq, Eq)]
pub struct Axes {
    pub axes: Vec<Axis>,
    pub grid_type: String,
    pub proj: String,
}

/// The mathematical content of [`Axes`].
pub struct AxesV {
    pub axes: Seq<AxisV>,
    pub grid_type: Seq<char>,
    pub proj: Seq<char>,
}

impl View for Axes {
    type V = AxesV;

    open spec fn view(&self) -> AxesV {
        AxesV { axes: self.axes@.map_values(|a: Axis| a@), grid_type: self.grid_type@, proj: self.proj@ }
    }
}

/// The content of an optional [`Axes`].
pub open spec fn opt_axes(o: Option<Axes>) -> Option<AxesV> {
    match o {
        Some(a) => Some(a@),
        None => None,
    }
}

/// Member `m`'s value on the level axis of a group whose first message is
/// `first`: isobaric levels in hectopascals, others as they are, and the
/// surface's name when the message gives no value.
pub open spec fn level_value(first: MessageInfo, m: MessageInfo) -> Seq<char> {
    let text = if first.surface == SurfaceKind::IsobaricSurface { m.level_hpa_text } else { m.level_text };
    match text {
        Some(t) => t@,
        None => m.surface_name@,
    }
}

/// The unit of the level axis: `hPa` for isobaric levels, else the
/// surface's unit when it has one.
pub open spec fn level_units(first: MessageInfo) -> Option<Seq<char>> {
    if first.surface == SurfaceKind::IsobaricSurface {
        Some("hPa"@)
    } else if first.surface_unit@.len() == 0 {
        None
    } else {
        Some(first.surface_unit@)
    }
}

/// The two horizontal axes: latitude/longitude degrees on a regular grid
/// (placeholders when its coordinates disagree with its shape), and `y`/`x`
/// placeholders on a projected grid.
pub open spec fn horizontal_axes(first: MessageInfo) -> Seq<AxisV> {
    if first.is_regular_grid {
        match first.lat_lng {
            Some(ll) => if ll.0@.len() == first.grid_ny && ll.1@.len() == first.grid_nx {
                seq![degrees_axis("latitude"@, "degrees_north"@, strings_view(ll.0@)),
                    degrees_axis("longitude"@, "degrees_east"@, strings_view(ll.1@))]
            } else {
                seq![placeholder_axis("latitude"@, first.grid_ny as nat), placeholder_axis("longitude"@, first.grid_nx as nat)]
            },
            None => seq![placeholder_axis("latitude"@, first.grid_ny as nat), placeholder_axis("longitude"@, first.grid_nx as nat)],
        }
    } else {
        seq![placeholder_axis("y"@, first.grid_ny as nat), placeholder_axis("x"@, first.grid_nx as nat)]
    }
}

/// The reference times of the members `mem` of `ms`.
pub open spec fn member_times(ms: Seq<MessageInfo>, mem: Seq<usize>) -> Seq<Seq<char>> {
    mem.map_values(|j: usize| ms[j as int].reference_time@)
}

/// The forecast steps of the members `mem` of `ms`.
pub open spec fn member_steps(ms: Seq<MessageInfo>, mem: Seq<usize>) -> Seq<Seq<char>> {
    mem.map_values(|j: usize| ms[j as int].step_text@)
}

/// The level values of the members `mem` of `ms`, in a group whose first
/// message is `first`.
pub open spec fn member_levels(ms: Seq<MessageInfo>, mem: Seq<usize>, first: MessageInfo) -> Seq<Seq<char>> {
    mem.map_values(|j: usize| level_value(first, ms[j as int]))
}

/// Does every member sit on the grid of the first?
pub open spec fn same_grid(ms: Seq<MessageInfo>, mem: Seq<usize>) -> bool {
    let first = ms[mem[0] as int];
    forall|j: int| 0 <= j < mem.len() ==> {
        let m = #[trigger] ms[mem[j] as int];
        m.grid_ny == first.grid_ny && m.grid_nx == first.grid_nx && m.proj@ == first.proj@
    }
}

/// The axes of the variable made of the messages `mem`: time, step and
/// level (each the distinct values its members show, in order), then the
/// two horizontal axes. There are none when the members mix grids, or do
/// not hold exactly one message per (time, step, level) cell.
pub open spec fn spec_hypercube(ms: Seq<MessageInfo>, mem: Seq<usize>) -> Option<AxesV> {
    let first = ms[mem[0] as int];
    let times = sorted_set(member_times(ms, mem), lex_order());
    let steps = sorted_set(member_steps(ms, mem), lex_order());
    let levels = sorted_set(member_levels(ms, mem, first), lex_order());
    if !same_grid(ms, mem) {
        None
    } else if times.len() * steps.len() * levels.len() != mem.len() {
        None
    } else {
        Some(AxesV {
            axes: seq![
                AxisV { base: "time"@, dtype: "datetime64[ns]"@, values: times, materialized: true, units: None },
                AxisV { base: "step"@, dtype: "timedelta64[ns]"@, values: steps, materialized: true, units: Some("hours"@) },
                AxisV { base: msg_level_type(first), dtype: "float64"@, values: levels, materialized: true, units: level_units(first) },
            ] + horizontal_axes(first),
            grid_type: if first.is_regular_grid { "regular_ll"@ } else { "projected"@ },
            proj: first.proj@,
        })
    }
}

/// The horizontal axes of a group whose first message is `first`.
fn horizontal(first: &MessageInfo) -> (r: Vec<Axis>)
    ensures
        r@.map_values(|a: Axis| a@) == horizontal_axes(*first),
{
    let mut r: Vec<Axis> = Vec::new();
    if first.is_regular_grid {
        match &first.lat_lng {
            Some(ll) => {
                if ll.0.len() as u64 == first.grid_ny && ll.1.len() as u64 == first.grid_nx {
                    r.push(degrees("latitude", "degrees_north", ll.0.clone()));
                    r.push(degrees("longitude", "degrees_east", ll.1.clone()));
                } else {
                    r.push(placeholder("latitude", first.grid_ny));
                    r.push(placeholder("longitude", first.grid_nx));
                }
            },
            None => {
                r.push(placeholder("latitude", first.grid_ny));
                r.push(placeholder("longitude", first.grid_nx));
            },
        }
    } else {
        r.push(placeholder("y", first.grid_ny));
        r.push(placeholder("x", first.grid_nx));
    }
    assert(r@.map_values(|a: Axis| a@) =~= horizontal_axes(*first));
    r
}

/// The recovered axes of the variable made of the messages `members`, or
/// `None` when they do not reshape into a full hypercube on one grid.
pub fn hypercube(ms: &[MessageInfo], members: &[usize]) -> (r: Option<Axes>)
    requires
        members@.len() > 0,
        forall|j: int| 0 <= j < members@.len() ==> #[trigger] members@[j] < ms@.len(),
    ensures
        opt_axes(r) == spec_hypercube(ms@, members@),
{
    let first = &ms[members[0]];
    let ghost mem = members@;
    let mut k: usize = 0;
    while k < members.len()
        invariant
            k <= members.len(),
            mem == members@,
            *first == ms@[mem[0] as int],
            forall|j: int| 0 <= j < mem.len() ==> #[trigger] mem[j] < ms@.len(),
            forall|j: int| 0 <= j < k ==> {
                let m = #[trigger] ms@[mem[j] as int];
                m.grid_ny == first.grid_ny && m.grid_nx == first.grid_nx && m.proj@ == first.proj@
            },
        decreases members.len() - k,
    {
        let m = &ms[members[k]];
        if m.grid_ny != first.grid_ny || m.grid_nx != first.grid_nx || !str_eq(m.proj.as_str(), first.proj.as_str()) {
            return None;
        }
        k = k + 1;
    }
    let isobaric = first.surface == SurfaceKind::IsobaricSurface;
    let mut time_values: Vec<String> = Vec::new();
    let mut step_values: Vec<String> = Vec::new();
    let mut level_values: Vec<String> = Vec::new();
    let mut k: usize = 0;
    while k < members.len()
        invariant
            k <= members.len(),
            mem == members@,
            *first == ms@[mem[0] as int],
            isobaric == (first.surface == SurfaceKind::IsobaricSurface),
            forall|j: int| 0 <= j < mem.len() ==> #[trigger] mem[j] < ms@.len(),
            time_values@.len() == k,
            step_values@.len() == k,
            level_values@.len() == k,
            strings_view(time_values@) == member_times(ms@, mem.take(k as int)),
            strings_view(step_values@) == member_steps(ms@, mem.take(k as int)),
            strings_view(level_values@) == member_levels(ms@, mem.take(k as int), *first),
        decreases members.len() - k,
    {
        let m = &ms[members[k]];
        let ghost old_times = strings_view(time_values@);
        let ghost old_steps = strings_view(step_values@);
        let ghost old_levels = strings_view(level_values@);
        time_values.push(m.reference_time.clone());
        step_values.push(m.step_text.clone());
        let text = if isobaric { &m.level_hpa_text } else { &m.level_text };
        let level = match text {
            Some(t) => t.clone(),
            None => m.surface_name.clone(),
        };
        level_values.push(level);
        proof {
            assert(mem.take(k + 1) =~= mem.take(k as int).push(mem[k as int]));
            assert(*m == ms@[mem[k as int] as int]);
            assert(time_values@[k as int]@ == m.reference_time@);
            assert forall|i: int| 0 <= i < k + 1 implies #[trigger] strings_view(time_values@)[i] == member_times(ms@, mem.take(k + 1))[i] by {
                if i < k {
                    assert(old_times[i] == member_times(ms@, mem.take(k as int))[i]);
                    assert(mem.take(k + 1)[i] == mem.take(k as int)[i]);
                }
            }
            assert forall|i: int| 0 <= i < k + 1 implies #[trigger] strings_view(step_values@)[i] == member_steps(ms@, mem.take(k + 1))[i] by {
                if i < k {
                    assert(old_steps[i] == member_steps(ms@, mem.take(k as int))[i]);
                    assert(mem.take(k + 1)[i] == mem.take(k as int)[i]);
                }
            }
            assert forall|i: int| 0 <= i < k + 1 implies #[trigger] strings_view(level_values@)[i] == member_levels(ms@, mem.take(k + 1), *first)[i] by {
                if i < k {
                    assert(old_levels[i] == member_levels(ms@, mem.take(k as int), *first)[i]);
                    assert(mem.take(k + 1)[i] == mem.take(k as int)[i]);
                }
            }
            assert(strings_view(time_values@) =~= member_times(ms@, mem.take(k + 1)));
            assert(strings_view(step_values@) =~= member_steps(ms@, mem.take(k + 1)));
            assert(strings_view(level_values@) =~= member_levels(ms@, mem.take(k + 1), *first));
        }
        k = k + 1;
    }
    proof {
        assert(mem.take(mem.len() as int) =~= mem);
    }
    let times = crate::order::distinct(time_values.as_slice());
    let steps = crate::order::distinct(step_values.as_slice());
    let levels = crate::order::distinct(level_values.as_slice());
    let n = members.len() as u128;
    assert(times.len() as u128 * steps.len() as u128 <= u128::MAX) by (nonlinear_arith)
        requires times.len() <= u64::MAX, steps.len() <= u64::MAX;
    let ts = times.len() as u128 * steps.len() as u128;
    if ts > n {
        proof {
            assert(levels@.len() >= 1) by {
                assert(strings_view(level_values@).to_set().contains(strings_view(level_values@)[0]));
                if levels@.len() == 0 {
                    assert(strings_view(levels@).to_set() =~= Set::empty());
                }
            }
            assert(times@.len() * steps@.len() * levels@.len() >= times@.len() * steps@.len()) by (nonlinear_arith)
                requires levels@.len() >= 1;
        }
        return None;
    }
    assert(ts * levels.len() as u128 <= u128::MAX) by (nonlinear_arith)
        requires ts <= u64::MAX, levels.len() <= u64::MAX;
    let tsl = ts * levels.len() as u128;
    if tsl != n {
        return None;
    }
    let mut axes: Vec<Axis> = Vec::new();
    axes.push(Axis { base: owned("time"), dtype: owned("datetime64[ns]"), values: times, materialized: true, units: None });
    axes.push(Axis { base: owned("step"), dtype: owned("timedelta64[ns]"), values: steps, materialized: true,
        units: Some(owned("hours")) });
    let level_units = if isobaric {
        Some(owned("hPa"))
    } else if first.surface_unit.unicode_len() == 0 {
        None
    } else {
        Some(first.surface_unit.clone())
    };
    axes.push(Axis { base: level_type(first.surface, first.surface_coordinate_name.as_str()), dtype: owned("float64"),
        values: levels, materialized: true, units: level_units });
    let mut h = horizontal(first);
    axes.append(&mut h);
    let grid_type = if first.is_regular_grid { owned("regular_ll") } else { owned("projected") };
    let r = Axes { axes, grid_type, proj: first.proj.clone() };
    proof {
        assert(same_grid(ms@, mem));
        assert(r@.axes =~= spec_hypercube(ms@, mem)->0.axes);
    }
    Some(r)
}


/// The names a variable tries first: its parameter alone, or, when the
/// parameter appears at more than one level type, the parameter with the
/// level type and then with the level type and step type.
pub open spec fn name_candidates(base: Seq<char>, level: Seq<char>, step: Seq<char>, qualify: bool) -> Seq<Seq<char>> {
    if qualify {
        seq![base + seq!['_'] + level, base + seq!['_'] + level + seq!['_'] + step]
    } else {
        seq![base]
    }
}

/// The first `k >= 2` for which `base_k` is unused.
pub open spec fn name_suffix(used: Seq<Seq<char>>, base: Seq<char>) -> nat {
    choose|k: nat| k >= 2 && !used.contains(candidate(base, k)) && forall|j: nat| 2 <= j < k ==> used.contains(#[trigger] candidate(base, j))
}

/// The name a variable gets: the first unused candidate, else the first
/// unused `base_2`, `base_3`, ...
pub open spec fn spec_variable_name(base: Seq<char>, level: Seq<char>, step: Seq<char>, qualify: bool, used: Seq<Seq<char>>) -> Seq<char> {
    let cs = name_candidates(base, level, step, qualify);
    if !used.contains(cs[0]) {
        cs[0]
    } else if cs.len() > 1 && !used.contains(cs[1]) {
        cs[1]
    } else {
        candidate(base, name_suffix(used, base))
    }
}

/// The first suffix found unused is the one `name_suffix` names.
proof fn lemma_name_suffix_is(used: Seq<Seq<char>>, base: Seq<char>, k: nat)
    requires
        k >= 2,
        !used.contains(candidate(base, k)),
        forall|j: nat| 2 <= j < k ==> used.contains(#[trigger] candidate(base, j)),
    ensures
        name_suffix(used, base) == k,
{
    let c = name_suffix(used, base);
    assert(c >= 2 && !used.contains(candidate(base, c)) && forall|j: nat| 2 <= j < c ==> used.contains(#[trigger] candidate(base, j)));
    if c < k {
        assert(used.contains(candidate(base, c)));
    } else if c > k {
        assert(used.contains(candidate(base, k)));
    }
}

/// Picks a variable's name (see [`spec_variable_name`]) and records it as
/// used.
pub fn variable_name(base: &str, level: &str, step: &str, qualify: bool, used: &mut Vec<String>) -> (r: String)
    ensures
        r@ == spec_variable_name(base@, level@, step@, qualify, strings_view(old(used)@)),
        strings_view(final(used)@) == strings_view(old(used)@).push(r@),
{
    let ghost u = strings_view(used@);
    let mut first = owned(base);
    if qualify {
        push_char(&mut first, '_');
        push_str(&mut first, level);
    }
    assert(first@ == name_candidates(base@, level@, step@, qualify)[0]);
    if !crate::group::contains_str(used, first.as_str()) {
        used.push(first.clone());
        assert(strings_view(used@) =~= u.push(first@));
        return first;
    }
    if qualify {
        let mut second = first.clone();
        push_char(&mut second, '_');
        push_str(&mut second, step);
        assert(second@ == name_candidates(base@, level@, step@, qualify)[1]);
        if !crate::group::contains_str(used, second.as_str()) {
            used.push(second.clone());
            assert(strings_view(used@) =~= u.push(second@));
            return second;
        }
    }
    let n = used.len();
    let mut suffix: u128 = 2;
    loop
        invariant
            2 <= suffix <= n + 2,
            n == used@.len(),
            n <= usize::MAX,
            u == strings_view(used@),
            u == strings_view(old(used)@),
            u.contains(name_candidates(base@, level@, step@, qualify)[0]),
            name_candidates(base@, level@, step@, qualify).len() > 1 ==> u.contains(name_candidates(base@, level@, step@, qualify)[1]),
            forall|j: nat| 2 <= j < suffix ==> u.contains(#[trigger] candidate(base@, j)),
        decreases n + 2 - suffix,
    {
        let mut name = owned(base);
        push_char(&mut name, '_');
        crate::text::push_dec_wide(&mut name, suffix);
        assert(name@ == candidate(base@, suffix as nat));
        if !crate::group::contains_str(used, name.as_str()) {
            proof {
                lemma_name_suffix_is(u, base@, suffix as nat);
            }
            used.push(name.clone());
            assert(strings_view(used@) =~= u.push(name@));
            return name;
        }
        proof {
            lemma_taken_names_bound(u, base@, 2, suffix as nat);
        }
        suffix = suffix + 1;
    }
}

/// The level of a lone message: its surface value, or the surface's name.
pub open spec fn spec_level_text(m: MessageInfo) -> Seq<char> {
    match m.level_text {
        Some(t) => t@,
        None => m.surface_name@,
    }
}

/// A message that did not fit any hypercube, described on its own terms:
/// named by its parameter and position, on horizontal dimensions that carry
/// their size in their names.
pub open spec fn spec_unaligned_var(index: nat, m: MessageInfo) -> VarV {
    VarV {
        name: lowercase(m.var@) + seq!['_'] + dec(index),
        dtype: "float64"@,
        dims: seq![seq!['y', '_'] + dec(m.grid_ny as nat), seq!['x', '_'] + dec(m.grid_nx as nat)],
        shape: seq![m.grid_ny, m.grid_nx],
        attrs: seq![
            ("long_name"@, AttrValueV::Text(m.name@)),
            ("units"@, AttrValueV::Text(m.units@)),
            ("GRIB_shortName"@, AttrValueV::Text(m.var@)),
            ("GRIB_typeOfLevel"@, AttrValueV::Text(msg_level_type(m))),
            ("GRIB_level"@, AttrValueV::Text(spec_level_text(m))),
            ("GRIB_stepType"@, AttrValueV::Text(spec_step_type(m))),
            ("GRIB_referenceTime"@, AttrValueV::Text(m.reference_time@)),
            ("GRIB_validTime"@, AttrValueV::Text(m.valid_time@)),
        ],
        preview: None,
    }
}

/// One message that didn't fit any hypercube, described on its own terms.
///
/// The horizontal dimensions carry their size in their names so that two
/// messages on different grids can share the `unaligned` group without one
/// silently redefining the other's `y`/`x`.
pub fn unaligned_var(index: usize, m: &MessageInfo) -> (r: VarSummary)
    ensures
        var_v(r) == spec_unaligned_var(index as nat, *m),
        plain_var(r),
{
    let mut name = to_lowercase(m.var.as_str());
    push_char(&mut name, '_');
    push_dec(&mut name, index as u64);
    let mut y = owned("y_");
    push_dec(&mut y, m.grid_ny);
    let mut x = owned("x_");
    push_dec(&mut x, m.grid_nx);
    proof {
        reveal_strlit("y_");
        reveal_strlit("x_");
    }
    assert(y@ == seq!['y', '_'] + dec(m.grid_ny as nat));
    assert(x@ == seq!['x', '_'] + dec(m.grid_nx as nat));
    let dims = vec![y, x];
    assert(strings_view(dims@) =~= seq![dims@[0]@, dims@[1]@]);
    let shape = vec![m.grid_ny, m.grid_nx];
    let mut attrs: Vec<(String, AttrValue)> = Vec::new();
    push_text(&mut attrs, "long_name", m.name.clone());
    push_text(&mut attrs, "units", m.units.clone());
    push_text(&mut attrs, "GRIB_shortName", m.var.clone());
    push_text(&mut attrs, "GRIB_typeOfLevel", level_type(m.surface, m.surface_coordinate_name.as_str()));
    let level = match &m.level_text {
        Some(t) => t.clone(),
        None => m.surface_name.clone(),
    };
    push_text(&mut attrs, "GRIB_level", level);
    push_text(&mut attrs, "GRIB_stepType", step_type(m));
    push_text(&mut attrs, "GRIB_referenceTime", m.reference_time.clone());
    push_text(&mut attrs, "GRIB_validTime", m.valid_time.clone());
    let r = VarSummary {
        name,
        dtype: owned("float64"),
        dims,
        shape,
        chunks: None,
        attrs,
        preview: None,
        storage: None,
    };
    proof {
        assert(attrs_view(Seq::<(String, AttrValue)>::empty()) =~= Seq::empty());
        assert(var_v(r).dims =~= spec_unaligned_var(index as nat, *m).dims);
        assert(var_v(r).shape =~= spec_unaligned_var(index as nat, *m).shape);
        assert(var_v(r).attrs =~= spec_unaligned_var(index as nat, *m).attrs);
        assert(var_v(r).name =~= spec_unaligned_var(index as nat, *m).name);
        assert(var_v(r).dtype =~= spec_unaligned_var(index as nat, *m).dtype);
        assert(var_v(r).preview == spec_unaligned_var(index as nat, *m).preview);
    }
    r
}


/// Finding a name after inserting a coordinate whose name was absent.
proof fn lemma_find_after_insert(cs: Seq<CoordV>, p: int, c: CoordV, m: Seq<char>)
    requires
        0 <= p <= cs.len(),
        forall|i: int| 0 <= i < cs.len() ==> #[trigger] cs[i].name != c.name,
    ensures
        find_coord(cs.insert(p, c), m) == (if m == c.name { Some(c) } else { find_coord(cs, m) }),
    decreases cs.len(),
{
    let ins = cs.insert(p, c);
    if p == 0 {
        assert(ins[0] == c);
        assert(ins.drop_first() =~= cs);
    } else {
        assert(ins[0] == cs[0]);
        assert(ins.drop_first() =~= cs.drop_first().insert(p - 1, c));
        if cs[0].name != m {
            assert forall|i: int| 0 <= i < cs.drop_first().len() implies #[trigger] cs.drop_first()[i].name != c.name by {
                assert(cs.drop_first()[i] == cs[i + 1]);
            }
            lemma_find_after_insert(cs.drop_first(), p - 1, c, m);
        }
    }
}

/// After interning, the name handed out is found, and every name found
/// before is found as it was.
proof fn lemma_spec_intern_found(cs: Seq<CoordV>, a: AxisV)
    ensures
        find_coord(spec_intern(cs, a).0, spec_intern(cs, a).1) is Some,
        forall|m: Seq<char>| (#[trigger] find_coord(cs, m)) is Some ==> find_coord(spec_intern(cs, a).0, m) == find_coord(cs, m),
{
    let n = spec_intern(cs, a).1;
    if find_coord(cs, n) is None {
        lemma_find_coord_index(cs, n);
        lemma_name_pos_props(cs, n);
        let c = CoordV { name: n, axis: a };
        lemma_find_after_insert(cs, name_pos(cs, n) as int, c, n);
        assert forall|m: Seq<char>| (#[trigger] find_coord(cs, m)) is Some implies find_coord(spec_intern(cs, a).0, m) == find_coord(cs, m) by {
            lemma_find_after_insert(cs, name_pos(cs, n) as int, c, m);
        }
    }
}

/// Interning `axes` one after the other: the coordinates afterwards and
/// the names handed out, in axis order.
pub open spec fn intern_all(cs: Seq<CoordV>, axes: Seq<AxisV>) -> (Seq<CoordV>, Seq<Seq<char>>)
    decreases axes.len(),
{
    if axes.len() == 0 {
        (cs, Seq::empty())
    } else {
        let prev = intern_all(cs, axes.drop_last());
        let next = spec_intern(prev.0, axes.last());
        (next.0, prev.1.push(next.1))
    }
}

/// Does the coordinate named `n` hold exactly one value?
pub open spec fn is_scalar_in(cs: Seq<CoordV>, n: Seq<char>) -> bool {
    match find_coord(cs, n) {
        Some(c) => c.axis.values.len() == 1,
        None => true,
    }
}

/// A variable's interned axis names split into its dimensions (with their
/// sizes) and its scalar coordinates, each in axis order.
pub open spec fn split_dims(cs: Seq<CoordV>, names: Seq<Seq<char>>) -> (Seq<Seq<char>>, Seq<u64>, Seq<Seq<char>>)
    decreases names.len(),
{
    if names.len() == 0 {
        (Seq::empty(), Seq::empty(), Seq::empty())
    } else {
        let prev = split_dims(cs, names.drop_last());
        let n = names.last();
        if is_scalar_in(cs, n) {
            (prev.0, prev.1, prev.2.push(n))
        } else {
            (prev.0.push(n), prev.1.push(find_coord(cs, n)->0.axis.values.len() as u64), prev.2)
        }
    }
}

/// The attributes of a hypercube variable.
pub open spec fn hypercube_attrs(ax: AxesV, first: MessageInfo, count: usize, scalars: Seq<Seq<char>>) -> Seq<(Seq<char>, AttrValueV)> {
    seq![("long_name"@, AttrValueV::Text(first.name@)), ("units"@, AttrValueV::Text(first.units@))]
        + (if scalars.len() > 0 { seq![("coordinates"@, AttrValueV::Text(join(scalars, seq![' '])))] } else { Seq::empty() })
        + seq![
            ("GRIB_shortName"@, AttrValueV::Text(first.var@)),
            ("GRIB_typeOfLevel"@, AttrValueV::Text(msg_level_type(first))),
            ("GRIB_stepType"@, AttrValueV::Text(spec_step_type(first))),
            ("GRIB_gridType"@, AttrValueV::Text(ax.grid_type)),
            ("GRIB_discipline"@, AttrValueV::Text(first.discipline@)),
            ("GRIB_parameterCategory"@, AttrValueV::Text(first.category@)),
            ("GRIB_parameterNumber"@, AttrValueV::Int(first.parameter_value as i64)),
            ("GRIB_dataCompression"@, AttrValueV::Text(first.data_compression@)),
            ("GRIB_numberOfMessages"@, AttrValueV::Int(count as i64)),
            ("GRIB_proj"@, AttrValueV::Text(ax.proj)),
        ]
}

/// The variable made of `count` messages whose first is `first`, with
/// axes `ax`, once its axes are interned into `cs`: its dimensions are the
/// axes with more than one value, and the others are named in its
/// `coordinates` attribute (xarray's convention, which promotes them into
/// the coordinates).
pub open spec fn spec_hypercube_var(name: Seq<char>, ax: AxesV, first: MessageInfo, count: usize, cs: Seq<CoordV>) -> VarV {
    let interned = intern_all(cs, ax.axes);
    let split = split_dims(interned.0, interned.1);
    VarV {
        name,
        dtype: "float64"@,
        dims: split.0,
        shape: split.1,
        attrs: hypercube_attrs(ax, first, count, split.2),
        preview: None,
    }
}

/// The variable of one hypercube group, interning its axes.
pub fn hypercube_var(name: String, axes: Axes, first: &MessageInfo, count: usize, coords: &mut Coords) -> (r: VarSummary)
    requires
        coords_wf(old(coords)@),
    ensures
        coords_wf(final(coords)@),
        final(coords)@ == intern_all(old(coords)@, axes@.axes).0,
        var_v(r) == spec_hypercube_var(name@, axes@, *first, count, old(coords)@),
        plain_var(r),
{
    let ghost c0 = coords@;
    let ghost ax = axes@;
    let ghost av = axes@.axes;
    let Axes { axes: list, grid_type, proj } = axes;
    let mut list = list;
    let ghost orig = list@;
    let n = list.len();
    let mut interned: Vec<String> = Vec::new();
    let mut i: usize = 0;
    proof {
        assert(av.take(0) =~= Seq::<AxisV>::empty());
        assert(orig.skip(0) =~= orig);
    }
    while i < n
        invariant
            i <= n,
            n == orig.len(),
            av == orig.map_values(|a: Axis| a@),
            list@ == orig.skip(i as int),
            coords_wf(coords@),
            coords@ == intern_all(c0, av.take(i as int)).0,
            strings_view(interned@) == intern_all(c0, av.take(i as int)).1,
            forall|t: int| 0 <= t < interned@.len() ==> (#[trigger] find_coord(coords@, interned@[t]@)) is Some,
        decreases n - i,
    {
        let a = list.remove(0);
        let ghost before = coords@;
        proof {
            assert(a == orig[i as int]);
            assert(av.take(i + 1).drop_last() =~= av.take(i as int));
            assert(av.take(i + 1).last() == a@);
            lemma_spec_intern_found(before, a@);
        }
        let nm = coords.intern(a);
        let ghost old_interned = interned@;
        interned.push(nm);
        proof {
            assert(strings_view(interned@) =~= strings_view(old_interned).push(nm@));
            assert forall|t: int| 0 <= t < interned@.len() implies (#[trigger] find_coord(coords@, interned@[t]@)) is Some by {
                if t < old_interned.len() {
                    assert(interned@[t] == old_interned[t]);
                    assert(find_coord(before, old_interned[t]@) is Some);
                }
            }
            assert(orig.skip(i as int).drop_first() =~= orig.skip(i + 1));
        }
        i = i + 1;
    }
    proof {
        assert(av.take(n as int) =~= av);
    }
    let ghost cs = coords@;
    let ghost names = strings_view(interned@);
    let mut dims: Vec<String> = Vec::new();
    let mut shape: Vec<u64> = Vec::new();
    let mut scalars: Vec<String> = Vec::new();
    let mut j: usize = 0;
    proof {
        assert(names.take(0) =~= Seq::<Seq<char>>::empty());
        assert(strings_view(dims@) =~= Seq::<Seq<char>>::empty());
        assert(strings_view(scalars@) =~= Seq::<Seq<char>>::empty());
    }
    while j < interned.len()
        invariant
            j <= interned.len(),
            coords_wf(cs),
            cs == coords@,
            names == strings_view(interned@),
            forall|t: int| 0 <= t < interned@.len() ==> (#[trigger] find_coord(coords@, interned@[t]@)) is Some,
            (strings_view(dims@), shape@, strings_view(scalars@)) == split_dims(cs, names.take(j as int)),
        decreases interned.len() - j,
    {
        let c = coords.get(interned[j].as_str());
        let ghost pd = strings_view(dims@);
        let ghost ps = strings_view(scalars@);
        proof {
            assert(names.take(j + 1).drop_last() =~= names.take(j as int));
            assert(names.take(j + 1).last() == interned@[j as int]@);
        }
        if c.is_scalar() {
            scalars.push(interned[j].clone());
            assert(strings_view(scalars@) =~= ps.push(interned@[j as int]@));
        } else {
            dims.push(interned[j].clone());
            shape.push(c.axis.values.len() as u64);
            assert(strings_view(dims@) =~= pd.push(interned@[j as int]@));
        }
        j = j + 1;
    }
    proof {
        assert(names.take(interned@.len() as int) =~= names);
    }
    let mut attrs: Vec<(String, AttrValue)> = Vec::new();
    push_text(&mut attrs, "long_name", first.name.clone());
    push_text(&mut attrs, "units", first.units.clone());
    let ghost a1 = attrs_view(attrs@);
    assert(strings_view(scalars@).len() == scalars@.len());
    if scalars.len() > 0 {
        let joined = join_strings(scalars.as_slice(), " ");
        proof {
            reveal_strlit(" ");
            assert(" "@ =~= seq![' ']);
            assert(joined@ == join(strings_view(scalars@), seq![' ']));
        }
        push_text(&mut attrs, "coordinates", joined);
    }
    let ghost a2 = attrs_view(attrs@);
    push_text(&mut attrs, "GRIB_shortName", first.var.clone());
    push_text(&mut attrs, "GRIB_typeOfLevel", level_type(first.surface, first.surface_coordinate_name.as_str()));
    push_text(&mut attrs, "GRIB_stepType", step_type(first));
    push_text(&mut attrs, "GRIB_gridType", grid_type);
    push_text(&mut attrs, "GRIB_discipline", first.discipline.clone());
    push_text(&mut attrs, "GRIB_parameterCategory", first.category.clone());
    push_attr(&mut attrs, "GRIB_parameterNumber", AttrValue::Int(first.parameter_value as i64));
    push_text(&mut attrs, "GRIB_dataCompression", first.data_compression.clone());
    push_attr(&mut attrs, "GRIB_numberOfMessages", AttrValue::Int(#[verifier::truncate] (count as i64)));
    push_text(&mut attrs, "GRIB_proj", proj);
    let r = VarSummary {
        name,
        dtype: owned("float64"),
        dims,
        shape,
        chunks: None,
        attrs,
        preview: None,
        storage: None,
    };
    proof {
        assert(attrs_view(Seq::<(String, AttrValue)>::empty()) =~= Seq::empty());
        let split = split_dims(cs, names);
        let head = seq![("long_name"@, AttrValueV::Text(first.name@)), ("units"@, AttrValueV::Text(first.units@))];
        assert(a1 =~= head);
        assert(split.2 == strings_view(scalars@));
        assert(split.2.len() > 0 <==> scalars@.len() > 0);
        if split.2.len() > 0 {
            assert(a2 == a1 + seq![("coordinates"@, AttrValueV::Text(join(split.2, seq![' '])))]);
        } else {
            assert(a2 == a1);
        }
        let mid = if split.2.len() > 0 { seq![("coordinates"@, AttrValueV::Text(join(split.2, seq![' '])))] } else { Seq::empty() };
        assert(a2 =~= head + mid);
        assert(var_v(r).attrs =~= hypercube_attrs(ax, *first, count, split.2));
    }
    r
}


/// The members of a key are indices of messages with that key, and there
/// is one whenever some message below `n` has the key.
proof fn lemma_members_of_props(ms: Seq<MessageInfo>, k: (Seq<char>, Seq<char>, Seq<char>), n: nat)
    requires
        n <= ms.len(),
        n <= usize::MAX,
    ensures
        forall|t: int| 0 <= t < members_of(ms, k, n).len() ==> #[trigger] members_of(ms, k, n)[t] < n
            && msg_key(ms[members_of(ms, k, n)[t] as int]) == k,
        (exists|j: int| 0 <= j < n && msg_key(#[trigger] ms[j]) == k) ==> members_of(ms, k, n).len() > 0,
    decreases n,
{
    if n > 0 {
        lemma_members_of_props(ms, k, (n - 1) as nat);
        let prev = members_of(ms, k, (n - 1) as nat);
        let cur = members_of(ms, k, n);
        assert forall|t: int| 0 <= t < cur.len() implies #[trigger] cur[t] < n && msg_key(ms[cur[t] as int]) == k by {
            if t < prev.len() {
                assert(cur[t] == prev[t]);
            }
        }
        if exists|j: int| 0 <= j < n && msg_key(#[trigger] ms[j]) == k {
            let j = choose|j: int| 0 <= j < n && msg_key(#[trigger] ms[j]) == k;
            if j < n - 1 {
                assert(exists|j: int| 0 <= j < n - 1 && msg_key(#[trigger] ms[j]) == k);
            }
        }
    }
}

/// What the walk over the groups has built so far: the interned
/// coordinates, the variable names handed out, the hypercube variables,
/// and the messages listed one by one.
pub struct BuildState {
    pub coords: Seq<CoordV>,
    pub used: Seq<Seq<char>>,
    pub data: Seq<VarV>,
    pub unaligned: Seq<VarV>,
}

/// The variable keys, in order: one per distinct message key.
pub open spec fn spec_keys(ms: Seq<MessageInfo>) -> Seq<(Seq<char>, Seq<char>, Seq<char>)> {
    sorted_set(msg_keys(ms), key_order())
}

/// The lowercased parameter of each variable key.
pub open spec fn spec_lows(ms: Seq<MessageInfo>) -> Seq<Seq<char>> {
    spec_keys(ms).map_values(|k: (Seq<char>, Seq<char>, Seq<char>)| lowercase(k.0))
}

/// Does the `i`-th lowercased parameter appear for another variable key
/// too (the same parameter at another level type, say)?
pub open spec fn spec_qualify(lows: Seq<Seq<char>>, i: int) -> bool {
    exists|j: int| 0 <= j < lows.len() && j != i && lows[j] == lows[i]
}

/// The messages `mem` listed one by one.
pub open spec fn unaligned_vars(ms: Seq<MessageInfo>, mem: Seq<usize>) -> Seq<VarV> {
    mem.map_values(|j: usize| spec_unaligned_var(j as nat, ms[j as int]))
}

/// Handling the `i`-th variable key: a hypercube becomes one named
/// variable (its axes interned), anything else is listed message by
/// message.
pub open spec fn build_step(ms: Seq<MessageInfo>, st: BuildState, i: int) -> BuildState {
    let k = spec_keys(ms)[i];
    let mem = members_of(ms, k, ms.len());
    match spec_hypercube(ms, mem) {
        Some(ax) => {
            let name = spec_variable_name(lowercase(k.0), k.1, k.2, spec_qualify(spec_lows(ms), i), st.used);
            BuildState {
                coords: intern_all(st.coords, ax.axes).0,
                used: st.used.push(name),
                data: st.data.push(spec_hypercube_var(name, ax, ms[mem[0] as int], mem.len() as usize, st.coords)),
                unaligned: st.unaligned,
            }
        },
        None => BuildState {
            coords: st.coords,
            used: st.used,
            data: st.data,
            unaligned: st.unaligned + unaligned_vars(ms, mem),
        },
    }
}

/// The state after the first `n` variable keys.
pub open spec fn spec_build_upto(ms: Seq<MessageInfo>, n: nat) -> BuildState
    decreases n,
{
    if n == 0 {
        BuildState { coords: Seq::empty(), used: Seq::empty(), data: Seq::empty(), unaligned: Seq::empty() }
    } else {
        build_step(ms, spec_build_upto(ms, (n - 1) as nat), n - 1)
    }
}

/// The contents of some variables.
pub open spec fn vars_v(vs: Seq<VarSummary>) -> Seq<VarV> {
    vs.map_values(|v: VarSummary| var_v(v))
}

/// The variables of a GRIB file and the messages that fit no hypercube:
/// the interned coordinates (in name order) followed by the hypercube
/// variables (in key order), and the leftovers (in key order, then file
/// order).
pub open spec fn spec_build(ms: Seq<MessageInfo>) -> (Seq<VarV>, Seq<VarV>) {
    let st = spec_build_upto(ms, spec_keys(ms).len());
    (st.coords.map_values(|c: CoordV| coord_var(c)) + st.data, st.unaligned)
}

/// Splits the messages into hypercube variables and leftovers.
pub fn build_variables(ms: &[MessageInfo]) -> (r: (Vec<VarSummary>, Vec<VarSummary>))
    requires
        ms@.len() <= usize::MAX,
    ensures
        vars_v(r.0@) == spec_build(ms@).0,
        vars_v(r.1@) == spec_build(ms@).1,
        forall|i: int| 0 <= i < r.0@.len() ==> plain_var(#[trigger] r.0@[i]),
        forall|i: int| 0 <= i < r.1@.len() ==> plain_var(#[trigger] r.1@[i]),
{
    let groups = group_messages(ms);
    let ghost keys = spec_keys(ms@);
    proof {
        lemma_key_order();
    }
    let mut lows: Vec<String> = Vec::new();
    let mut i: usize = 0;
    while i < groups.len()
        invariant
            i <= groups.len(),
            keys == group_keys(groups@),
            lows@.len() == i,
            forall|t: int| 0 <= t < i ==> #[trigger] lows@[t]@ == lowercase(keys[t].0),
        decreases groups.len() - i,
    {
        lows.push(to_lowercase(groups[i].var.as_str()));
        i = i + 1;
    }
    proof {
        assert(strings_view(lows@) =~= spec_lows(ms@));
    }
    let mut coords = Coords::new();
    let mut used: Vec<String> = Vec::new();
    let mut data: Vec<VarSummary> = Vec::new();
    let mut unaligned: Vec<VarSummary> = Vec::new();
    let mut gi: usize = 0;
    proof {
        assert(strings_view(used@) =~= Seq::<Seq<char>>::empty());
        assert(vars_v(data@) =~= Seq::<VarV>::empty());
        assert(vars_v(unaligned@) =~= Seq::<VarV>::empty());
    }
    while gi < groups.len()
        invariant
            gi <= groups.len(),
            keys == group_keys(groups@),
            keys == spec_keys(ms@),
            increasing(keys, key_order()),
            keys.to_set() == msg_keys(ms@).to_set(),
            forall|t: int| 0 <= t < groups@.len() ==> #[trigger] groups@[t].members@ == members_of(ms@, group_key(groups@[t]), ms@.len()),
            strings_view(lows@) == spec_lows(ms@),
            lows@.len() == groups@.len(),
            ms@.len() <= usize::MAX,
            coords_wf(coords@),
            coords@ == spec_build_upto(ms@, gi as nat).coords,
            strings_view(used@) == spec_build_upto(ms@, gi as nat).used,
            vars_v(data@) == spec_build_upto(ms@, gi as nat).data,
            vars_v(unaligned@) == spec_build_upto(ms@, gi as nat).unaligned,
            forall|t: int| 0 <= t < data@.len() ==> plain_var(#[trigger] data@[t]),
            forall|t: int| 0 <= t < unaligned@.len() ==> plain_var(#[trigger] unaligned@[t]),
        decreases groups.len() - gi,
    {
        let g = &groups[gi];
        let ghost k = keys[gi as int];
        let ghost mem = g.members@;
        let ghost st = spec_build_upto(ms@, gi as nat);
        proof {
            assert(group_key(groups@[gi as int]) == k);
            assert(mem == members_of(ms@, k, ms@.len()));
            assert(msg_keys(ms@).to_set().contains(k)) by {
                assert(keys.to_set().contains(keys[gi as int]));
            }
            let j = choose|j: int| 0 <= j < msg_keys(ms@).len() && msg_keys(ms@)[j] == k;
            assert(msg_key(ms@[j]) == k);
            lemma_members_of_props(ms@, k, ms@.len());
        }
        match hypercube(ms, g.members.as_slice()) {
            Some(axes) => {
                let mut qualify = false;
                let mut j: usize = 0;
                while j < lows.len()
                    invariant
                        j <= lows.len(),
                        gi < lows.len(),
                        qualify == exists|t: int| 0 <= t < j && t != gi && lows@[t]@ == lows@[gi as int]@,
                    decreases lows.len() - j,
                {
                    if j != gi && str_eq(lows[j].as_str(), lows[gi].as_str()) {
                        qualify = true;
                    }
                    j = j + 1;
                }
                proof {
                    let ls = spec_lows(ms@);
                    assert(ls[gi as int] == lows@[gi as int]@);
                    if qualify {
                        let t = choose|t: int| 0 <= t < j && t != gi && lows@[t]@ == lows@[gi as int]@;
                        assert(ls[t] == lows@[t]@);
                    }
                    if spec_qualify(ls, gi as int) {
                        let t = choose|t: int| 0 <= t < ls.len() && t != gi && ls[t] == ls[gi as int];
                        assert(ls[t] == lows@[t]@);
                    }
                    assert(qualify == spec_qualify(ls, gi as int));
                    assert(lows@[gi as int]@ == lowercase(k.0));
                }
                let name = variable_name(lows[gi].as_str(), g.level.as_str(), g.step.as_str(), qualify, &mut used);
                let first = &ms[g.members[0]];
                let v = hypercube_var(name, axes, first, g.members.len(), &mut coords);
                let ghost old_data = data@;
                data.push(v);
                proof {
                    assert(vars_v(data@) =~= vars_v(old_data).push(var_v(v)));
                    assert forall|t: int| 0 <= t < data@.len() implies plain_var(#[trigger] data@[t]) by {
                        if t < old_data.len() {
                            assert(data@[t] == old_data[t]);
                        }
                    }
                }
            },
            None => {
                let mut t: usize = 0;
                let ghost base = unaligned@;
                proof {
                    assert(mem.take(0) =~= Seq::<usize>::empty());
                    assert(vars_v(unaligned@) =~= vars_v(base) + unaligned_vars(ms@, mem.take(0)));
                }
                while t < g.members.len()
                    invariant
                        t <= g.members.len(),
                        mem == g.members@,
                        forall|e: int| 0 <= e < mem.len() ==> #[trigger] mem[e] < ms@.len(),
                        vars_v(unaligned@) == vars_v(base) + unaligned_vars(ms@, mem.take(t as int)),
                        forall|e: int| 0 <= e < unaligned@.len() ==> plain_var(#[trigger] unaligned@[e]),
                    decreases g.members.len() - t,
                {
                    let idx = g.members[t];
                    let v = unaligned_var(idx, &ms[idx]);
                    let ghost before = unaligned@;
                    unaligned.push(v);
                    proof {
                        assert(mem.take(t + 1) =~= mem.take(t as int).push(idx));
                        assert(unaligned_vars(ms@, mem.take(t + 1)) =~= unaligned_vars(ms@, mem.take(t as int)).push(spec_unaligned_var(idx as nat, ms@[idx as int])));
                        assert(vars_v(unaligned@) =~= vars_v(before).push(var_v(v)));
                        assert forall|e: int| 0 <= e < unaligned@.len() implies plain_var(#[trigger] unaligned@[e]) by {
                            if e < before.len() {
                                assert(unaligned@[e] == before[e]);
                            }
                        }
                    }
                    t = t + 1;
                }
                proof {
                    assert(mem.take(mem.len() as int) =~= mem);
                }
            },
        }
        gi = gi + 1;
    }
    let mut vars: Vec<VarSummary> = Vec::new();
    let mut c: usize = 0;
    let ghost st = spec_build_upto(ms@, keys.len());
    proof {
        assert(vars_v(vars@) =~= Seq::<VarV>::empty());
    }
    while c < coords.by_name.len()
        invariant
            c <= coords.by_name.len(),
            coords@ == st.coords,
            vars_v(vars@) == st.coords.take(c as int).map_values(|x: CoordV| coord_var(x)),
            forall|t: int| 0 <= t < vars@.len() ==> plain_var(#[trigger] vars@[t]),
        decreases coords.by_name.len() - c,
    {
        let v = coords.by_name[c].to_var();
        let ghost before = vars@;
        vars.push(v);
        proof {
            assert(coords@[c as int] == coords.by_name@[c as int]@);
            assert(st.coords.take(c + 1).map_values(|x: CoordV| coord_var(x)) =~= st.coords.take(c as int).map_values(|x: CoordV| coord_var(x)).push(coord_var(st.coords[c as int])));
            assert(vars_v(vars@) =~= vars_v(before).push(var_v(v)));
            assert forall|t: int| 0 <= t < vars@.len() implies plain_var(#[trigger] vars@[t]) by {
                if t < before.len() {
                    assert(vars@[t] == before[t]);
                }
            }
        }
        c = c + 1;
    }
    proof {
        assert(st.coords.take(c as int) =~= st.coords);
    }
    let ghost vbefore = vars@;
    let ghost dbefore = data@;
    vars.append(&mut data);
    proof {
        assert(vars_v(vars@) =~= vars_v(vbefore) + vars_v(dbefore));
        assert forall|t: int| 0 <= t < vars@.len() implies plain_var(#[trigger] vars@[t]) by {
            if t < vbefore.len() {
                assert(vars@[t] == vbefore[t]);
            } else {
                assert(vars@[t] == dbefore[t - vbefore.len()]);
            }
        }
    }
    (vars, unaligned)
}


/// Does the walk over a file's messages take another one after `seen`?
/// It stops at [`MESSAGE_LIMIT`], and the summary then says the file holds
/// more.
pub fn admit_message(seen: usize) -> (r: bool)
    ensures
        r == (seen < MESSAGE_LIMIT),
{
    seen < MESSAGE_LIMIT
}

/// Why a GRIB file has no summary.
#[derive(Debug, Clone, Copy, PartialEq, Eq, Structural)]
pub enum GribError {
    /// The file holds no GRIB message at all.
    NoMessages,
}

impl GribError {
    /// The error's message.
    pub fn message(&self) -> (r: String)
        ensures
            r@ == "no GRIB messages found"@,
    {
        owned("no GRIB messages found")
    }
}

/// The messages that could be read, in file order.
pub open spec fn parsed(outs: Seq<Option<MessageInfo>>) -> Seq<MessageInfo>
    decreases outs.len(),
{
    if outs.len() == 0 {
        Seq::empty()
    } else {
        let rest = parsed(outs.drop_last());
        match outs.last() {
            Some(m) => rest.push(m),
            None => rest,
        }
    }
}

/// The text of the root attribute that says the walk stopped early.
pub open spec fn truncated_note() -> Seq<char> {
    "summarized the first 10000 messages; the file holds more"@
}

/// The text of the attribute that explains the `unaligned` group.
pub open spec fn unaligned_note() -> Seq<char> {
    "messages that do not reshape into a regular hypercube, listed one per message"@
}

/// The root attributes of a GRIB summary: the edition, how many messages
/// were walked, whether the walk stopped early, and how many messages
/// could not be read.
pub open spec fn grib_root_attrs(data: Seq<u8>, outs: Seq<Option<MessageInfo>>, truncated: bool) -> Seq<(Seq<char>, AttrValueV)> {
    let unreadable = outs.len() - parsed(outs).len();
    seq![("GRIB_edition"@, AttrValueV::Int(spec_edition(data))), ("ndlook:message_count"@, AttrValueV::Int(#[verifier::truncate] (outs.len() as i64)))]
        + (if truncated { seq![("ndlook:truncated"@, AttrValueV::Text(truncated_note()))] } else { Seq::empty() })
        + (if unreadable > 0 { seq![("ndlook:unreadable_messages"@, AttrValueV::Int(unreadable as i64))] } else { Seq::empty() })
}

/// `g` is the group that [`GroupSummary::from_parts`] builds from a name,
/// attributes and variables, with no dimension registry.
pub open spec fn group_built(g: GroupSummary, name: Seq<char>, attrs: Seq<(Seq<char>, AttrValueV)>, vars: Seq<VarSummary>) -> bool {
    &&& g.name@ == name
    &&& attrs_view(g.attrs@) == attrs
    &&& strings_view(g.var_order@) == names_of(vars)
    &&& g.coords@ == sort_by_key(vars.filter(coord_pred(vars)))
    &&& g.data_vars@ == sort_by_key(vars.filter(data_pred(vars)))
    &&& dims_match(g.dims@, first_sizes(dim_pairs(g.coords@) + dim_pairs(g.data_vars@)))
}

/// Variables with the contents `vs`, reported plainly.
pub open spec fn vars_are(vars: Seq<VarSummary>, vs: Seq<VarV>) -> bool {
    &&& vars_v(vars) == vs
    &&& forall|i: int| 0 <= i < vars.len() ==> plain_var(#[trigger] vars[i])
}

/// `d` summarizes a GRIB file whose first bytes are `data` and whose walk
/// gave `outs` (a message's plain values, or `None` when it could not be
/// read): the root holds the variables and the coordinates, and a child
/// `unaligned` group holds the messages that fit no hypercube, when there
/// are any.
pub open spec fn grib_summary_ok(d: DatasetSummary, data: Seq<u8>, outs: Seq<Option<MessageInfo>>, truncated: bool) -> bool {
    let b = spec_build(parsed(outs));
    &&& d.format == SourceFormat::Grib
    &&& d.version_info is None
    &&& d.file_info is None
    &&& exists|vars: Seq<VarSummary>, un: Seq<VarSummary>| {
        &&& vars_are(vars, b.0)
        &&& vars_are(un, b.1)
        &&& group_built(d.root, Seq::empty(), grib_root_attrs(data, outs, truncated), vars)
        &&& if b.1.len() == 0 {
            d.root.children@.len() == 0
        } else {
            &&& d.root.children@.len() == 1
            &&& group_built(d.root.children@[0], "unaligned"@, seq![("ndlook:note"@, AttrValueV::Text(unaligned_note()))], un)
            &&& d.root.children@[0].children@.len() == 0
        }
    }
}

/// Summarizes a GRIB file from its first bytes `data` and the outcome of
/// reading each message the walk took (`None` for one whose templates
/// could not be read: it is counted, not fatal). `truncated` says whether
/// the walk stopped before the end of the file. A file with no message at
/// all is an error.
pub fn summarize_grib_messages(data: &[u8], outcomes: Vec<Option<MessageInfo>>, truncated: bool) -> (r: Result<DatasetSummary, GribError>)
    ensures
        r is Err <==> outcomes@.len() == 0,
        r matches Ok(d) ==> grib_summary_ok(d, data@, outcomes@, truncated),
{
    let ghost orig = outcomes@;
    let seen = outcomes.len();
    if seen == 0 {
        return Err(GribError::NoMessages);
    }
    let mut outcomes = outcomes;
    let mut rev: Vec<Option<MessageInfo>> = Vec::new();
    while outcomes.len() > 0
        invariant
            outcomes@ == orig.take(outcomes@.len() as int),
            outcomes@.len() <= orig.len(),
            rev@.len() == orig.len() - outcomes@.len(),
            forall|t: int| 0 <= t < rev@.len() ==> #[trigger] rev@[t] == orig[orig.len() - 1 - t],
        decreases outcomes.len(),
    {
        let o = outcomes.pop().unwrap();
        rev.push(o);
        proof {
            assert(outcomes@ =~= orig.take(outcomes@.len() as int));
        }
    }
    let mut metas: Vec<MessageInfo> = Vec::new();
    let mut unparsed: usize = 0;
    let mut taken: usize = 0;
    proof {
        assert(orig.take(0) =~= Seq::<Option<MessageInfo>>::empty());
    }
    while rev.len() > 0
        invariant
            taken + rev@.len() == orig.len(),
            orig.len() == seen,
            unparsed <= taken,
            forall|t: int| 0 <= t < rev@.len() ==> #[trigger] rev@[t] == orig[orig.len() - 1 - t],
            metas@ == parsed(orig.take(taken as int)),
            unparsed == taken - parsed(orig.take(taken as int)).len(),
            parsed(orig.take(taken as int)).len() <= taken,
        decreases rev.len(),
    {
        let o = rev.pop().unwrap();
        proof {
            assert(o == orig[taken as int]);
            assert(orig.take(taken + 1).drop_last() =~= orig.take(taken as int));
            assert(orig.take(taken + 1).last() == o);
        }
        match o {
            Some(m) => metas.push(m),
            None => unparsed = unparsed + 1,
        }
        taken = taken + 1;
    }
    proof {
        assert(orig.take(orig.len() as int) =~= orig);
    }
    let mut root_attrs: Vec<(String, AttrValue)> = Vec::new();
    push_attr(&mut root_attrs, "GRIB_edition", AttrValue::Int(edition(data)));
    push_attr(&mut root_attrs, "ndlook:message_count", AttrValue::Int(#[verifier::truncate] (seen as i64)));
    let ghost a1 = attrs_view(root_attrs@);
    if truncated {
        push_text(&mut root_attrs, "ndlook:truncated", owned("summarized the first 10000 messages; the file holds more"));
    }
    let ghost a2 = attrs_view(root_attrs@);
    if unparsed > 0 {
        push_attr(&mut root_attrs, "ndlook:unreadable_messages", AttrValue::Int(#[verifier::truncate] (unparsed as i64)));
    }
    proof {
        assert(attrs_view(Seq::<(String, AttrValue)>::empty()) =~= Seq::empty());
        let head = seq![("GRIB_edition"@, AttrValueV::Int(spec_edition(data@))), ("ndlook:message_count"@, AttrValueV::Int(#[verifier::truncate] (orig.len() as i64)))];
        assert(a1 =~= head);
        assert(attrs_view(root_attrs@) =~= grib_root_attrs(data@, orig, truncated));
    }
    let (vars, unaligned) = build_variables(metas.as_slice());
    let ghost vs = vars@;
    let ghost un = unaligned@;
    let has_unaligned = unaligned.len() > 0;
    let mut children: Vec<GroupSummary> = Vec::new();
    if has_unaligned {
        let mut note: Vec<(String, AttrValue)> = Vec::new();
        push_text(&mut note, "ndlook:note",
            owned("messages that do not reshape into a regular hypercube, listed one per message"));
        let child = GroupSummary::from_parts(owned("unaligned"), None, note, unaligned, Vec::new());
        proof {
            assert(attrs_view(Seq::<(String, AttrValue)>::empty()) =~= Seq::empty());
            assert(attrs_view(child.attrs@) =~= seq![("ndlook:note"@, AttrValueV::Text(unaligned_note()))]);
            assert(sort_by_key(Seq::<GroupSummary>::empty()) =~= Seq::<GroupSummary>::empty());
        }
        children.push(child);
    }
    let root = GroupSummary::from_parts(String::new(), None, root_attrs, vars, children);
    proof {
        assert(vars_v(un).len() == un.len());
        if has_unaligned {
            let c = children@;
            assert(c.len() == 1);
            assert(c.drop_last() =~= Seq::<GroupSummary>::empty());
            assert(sort_by_key(c.drop_last()) =~= Seq::<GroupSummary>::empty());
            assert(sort_by_key(c) =~= c);
        } else {
            assert(children@ =~= Seq::<GroupSummary>::empty());
        }
        assert(root.name@ =~= Seq::<char>::empty());
        assert(vars_are(vs, spec_build(parsed(orig)).0));
        assert(vars_are(un, spec_build(parsed(orig)).1));
    }
    Ok(DatasetSummary { format: SourceFormat::Grib, root, version_info: None, file_info: None })
}


/// Some suffix from `j` on fits, and the first one that does is
/// `intern_suffix`.
proof fn lemma_intern_suffix_from(cs: Seq<CoordV>, base: Seq<char>, sig: Seq<Seq<char>>, j: nat)
    requires
        j >= 1,
        forall|i: nat| 1 <= i < j ==> !#[trigger] fits(cs, base, sig, i),
    ensures
        intern_suffix(cs, base, sig) >= 1,
        fits(cs, base, sig, intern_suffix(cs, base, sig)),
    decreases cs.len() + 2 - j,
{
    if fits(cs, base, sig, j) {
        lemma_intern_suffix_is(cs, base, sig, j);
    } else {
        assert forall|i: nat| 1 <= i <= j implies coord_names(cs).contains(#[trigger] candidate(base, i)) by {
            if i < j {
                assert(!fits(cs, base, sig, i));
            }
            lemma_find_coord_index(cs, candidate(base, i));
            let k = choose|k: int| 0 <= k < cs.len() && #[trigger] cs[k].name == candidate(base, i);
            assert(coord_names(cs)[k] == candidate(base, i));
        }
        lemma_taken_names_bound(coord_names(cs), base, 1, j);
        lemma_intern_suffix_from(cs, base, sig, j + 1);
    }
}

/// Interning never misreports a coordinate: the name handed out for an
/// axis names a coordinate with exactly the axis's values, and every
/// coordinate interned before keeps its name and its values.
pub proof fn lemma_intern_faithful(cs: Seq<CoordV>, a: AxisV)
    ensures
        find_coord(spec_intern(cs, a).0, spec_intern(cs, a).1) is Some,
        find_coord(spec_intern(cs, a).0, spec_intern(cs, a).1)->0.axis.values == a.values,
        forall|m: Seq<char>| (#[trigger] find_coord(cs, m)) is Some ==> find_coord(spec_intern(cs, a).0, m) == find_coord(cs, m),
{
    let sig = a.values;
    lemma_intern_suffix_from(cs, a.base, sig, 1);
    lemma_spec_intern_found(cs, a);
    let n = spec_intern(cs, a).1;
    if find_coord(cs, n) is None {
        lemma_find_coord_index(cs, n);
        lemma_name_pos_props(cs, n);
        lemma_find_after_insert(cs, name_pos(cs, n) as int, CoordV { name: n, axis: a }, n);
    } else {
        assert(fits(cs, a.base, sig, intern_suffix(cs, a.base, sig)));
    }
}

/// Some suffix from `j` on is unused, and the first one that is is
/// `name_suffix`.
proof fn lemma_name_suffix_from(used: Seq<Seq<char>>, base: Seq<char>, j: nat)
    requires
        j >= 2,
        forall|i: nat| 2 <= i < j ==> used.contains(#[trigger] candidate(base, i)),
    ensures
        name_suffix(used, base) >= 2,
        !used.contains(candidate(base, name_suffix(used, base))),
    decreases used.len() + 2 - j,
{
    if !used.contains(candidate(base, j)) {
        lemma_name_suffix_is(used, base, j);
    } else {
        lemma_taken_names_bound(used, base, 2, j);
        lemma_name_suffix_from(used, base, j + 1);
    }
}

/// Variable names never collide: the name a variable gets is not one
/// handed out before.
pub proof fn lemma_variable_name_fresh(base: Seq<char>, level: Seq<char>, step: Seq<char>, qualify: bool, used: Seq<Seq<char>>)
    ensures
        !used.contains(spec_variable_name(base, level, step, qualify, used)),
{
    lemma_name_suffix_from(used, base, 2);
}

} // verus!
