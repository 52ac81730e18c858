//! Building a [`GroupSummary`] from a reader's flat parts: xarray's
//! coordinate classification, the sorted member lists, and the dimensions
//! derived from the variables' own shapes.

use vstd::prelude::*;
use crate::model::{AttrValue, DimInfo, GroupSummary, VarSummary};
use crate::text::strings_view;
use crate::order::{Named, sort_by_key, sort_by_name, lemma_lex_total, lemma_lex_transitive,
    lemma_lex_irreflexive};
use crate::text::{chars_eq, chars_of, copy_chars, lex_lt, str_eq, str_lt};

verus! {

impl Named for VarSummary {
    open spec fn key(&self) -> Seq<char> {
        self.name@
    }

    fn name_str(&self) -> (r: &str) {
        self.name.as_str()
    }
}

impl Named for GroupSummary {
    open spec fn key(&self) -> Seq<char> {
        self.name@
    }

    fn name_str(&self) -> (r: &str) {
        self.name.as_str()
    }
}

impl Named for DimInfo {
    open spec fn key(&self) -> Seq<char> {
        self.name@
    }

    fn name_str(&self) -> (r: &str) {
        self.name.as_str()
    }
}

/// Unicode `White_Space`, the set `char::is_whitespace` tests.
pub open spec fn is_ws(c: char) -> bool {
    ('\u{9}' <= c && c <= '\u{d}') || c == ' ' || c == '\u{85}' || c == '\u{a0}' || c
        == '\u{1680}' || ('\u{2000}' <= c && c <= '\u{200a}') || c == '\u{2028}' || c
        == '\u{2029}' || c == '\u{202f}' || c == '\u{205f}' || c == '\u{3000}'
}

/// `char::is_whitespace`.
pub fn is_whitespace(c: char) -> (r: bool)
    ensures
        r == is_ws(c),
{
    ('\u{9}' <= c && c <= '\u{d}') || c == ' ' || c == '\u{85}' || c == '\u{a0}' || c
        == '\u{1680}' || ('\u{2000}' <= c && c <= '\u{200a}') || c == '\u{2028}' || c
        == '\u{2029}' || c == '\u{202f}' || c == '\u{205f}' || c == '\u{3000}'
}

/// Length of the run of non-whitespace characters that starts `t`.
pub open spec fn word_len(t: Seq<char>) -> nat
    decreases t.len(),
{
    if t.len() == 0 || is_ws(t[0]) {
        0
    } else {
        1 + word_len(t.drop_first())
    }
}

proof fn lemma_word_len_bound(t: Seq<char>)
    ensures
        word_len(t) <= t.len(),
        t.len() > 0 && !is_ws(t[0]) ==> word_len(t) >= 1,
    decreases t.len(),
{
    if t.len() > 0 && !is_ws(t[0]) {
        lemma_word_len_bound(t.drop_first());
    }
}

/// The whitespace-separated words of `t`, in order (`str::split_whitespace`).
pub open spec fn words(t: Seq<char>) -> Seq<Seq<char>>
    decreases t.len(),
{
    if t.len() == 0 {
        seq![]
    } else if is_ws(t[0]) {
        words(t.drop_first())
    } else {
        let n = word_len(t);
        if 0 < n <= t.len() {
            seq![t.take(n as int)] + words(t.skip(n as int))
        } else {
            seq![]
        }
    }
}

proof fn lemma_word_len_prefix(w: Seq<char>, rest: Seq<char>)
    requires
        forall|i: int| 0 <= i < w.len() ==> !is_ws(#[trigger] w[i]),
    ensures
        word_len(w + rest) == w.len() + word_len(rest),
    decreases w.len(),
{
    if w.len() > 0 {
        assert((w + rest).drop_first() == w.drop_first() + rest);
        lemma_word_len_prefix(w.drop_first(), rest);
    } else {
        assert(w + rest == rest);
    }
}

/// The words of a pending word `w` (no whitespace, non-empty) followed by
/// `rest`.
proof fn lemma_words_after(w: Seq<char>, rest: Seq<char>)
    requires
        w.len() > 0,
        forall|i: int| 0 <= i < w.len() ==> !is_ws(#[trigger] w[i]),
        rest.len() == 0 || is_ws(rest[0]),
    ensures
        words(w + rest) == seq![w] + words(rest),
{
    lemma_word_len_prefix(w, rest);
    assert(word_len(rest) == 0);
    let t = w + rest;
    assert(!is_ws(t[0]));
    assert(t.take(w.len() as int) == w);
    assert(t.skip(w.len() as int) == rest);
}

/// Splits `t` at whitespace into its words (`str::split_whitespace`).
pub fn split_whitespace(t: &str) -> (r: Vec<Vec<char>>)
    ensures
        r@.map_values(|w: Vec<char>| w@) == words(t@),
{
    let cs = chars_of(t);
    let mut out: Vec<Vec<char>> = Vec::new();
    let mut cur: Vec<char> = Vec::new();
    let mut i: usize = 0;
    proof {
        assert(cs@.skip(0) == cs@);
        assert(cur@ + cs@.skip(0) == cs@);
    }
    while i < cs.len()
        invariant
            i <= cs.len(),
            cs@ == t@,
            forall|j: int| 0 <= j < cur@.len() ==> !is_ws(#[trigger] cur@[j]),
            words(t@) == out@.map_values(|w: Vec<char>| w@) + words(cur@ + cs@.skip(i as int)),
        decreases cs.len() - i,
    {
        let c = cs[i];
        let ghost rest = cs@.skip(i as int);
        proof {
            assert(rest[0] == c);
            assert(rest.drop_first() == cs@.skip(i + 1));
        }
        if is_whitespace(c) {
            if cur.len() > 0 {
                proof {
                    lemma_words_after(cur@, rest);
                    assert(words(rest) == words(rest.drop_first()));
                }
                let w = cur;
                out.push(w);
                cur = Vec::new();
                proof {
                    assert(cur@ + cs@.skip(i + 1) == cs@.skip(i + 1));
                    assert(out@.map_values(|w: Vec<char>| w@) == views_after_push(out@));
                }
            } else {
                proof {
                    assert(cur@ + rest == rest);
                    assert(cur@ + cs@.skip(i + 1) == cs@.skip(i + 1));
                }
            }
        } else {
            proof {
                assert(cur@ + rest == cur@.push(c) + rest.drop_first());
            }
            cur.push(c);
        }
        i = i + 1;
    }
    proof {
        assert(cs@.skip(i as int).len() == 0);
        assert(cur@ + cs@.skip(i as int) == cur@);
    }
    if cur.len() > 0 {
        proof {
            lemma_words_after(cur@, seq![]);
            assert(cur@ + Seq::<char>::empty() == cur@);
        }
        out.push(cur);
        proof {
            assert(out@.map_values(|w: Vec<char>| w@) == views_after_push(out@));
        }
    } else {
        proof {
            assert(words(cur@) == Seq::<Seq<char>>::empty());
        }
    }
    proof {
        assert(out@.map_values(|w: Vec<char>| w@) == words(t@));
    }
    out
}


/// The value of the first attribute named `key`, if any.
pub open spec fn find_attr(a: Seq<(String, AttrValue)>, key: Seq<char>) -> Option<AttrValue>
    decreases a.len(),
{
    if a.len() == 0 {
        None
    } else if a[0].0@ == key {
        Some(a[0].1)
    } else {
        find_attr(a.drop_first(), key)
    }
}

/// The value of the first attribute named `key`, if any.
pub fn find_attr_exec<'a>(a: &'a Vec<(String, AttrValue)>, key: &str) -> (r: Option<&'a AttrValue>)
    ensures
        match r {
            Some(v) => find_attr(a@, key@) == Some(*v),
            None => find_attr(a@, key@) is None,
        },
{
    let mut i: usize = 0;
    assert(a@.skip(0) == a@);
    while i < a.len()
        invariant
            i <= a.len(),
            find_attr(a@, key@) == find_attr(a@.skip(i as int), key@),
        decreases a.len() - i,
    {
        proof {
            assert(a@.skip(i as int)[0] == a@[i as int]);
            assert(a@.skip(i as int).drop_first() == a@.skip(i + 1));
        }
        if str_eq(a[i].0.as_str(), key) {
            return Some(&a[i].1);
        }
        i = i + 1;
    }
    None
}

/// The names a variable's `coordinates` attribute lists (xarray's
/// convention): the words of the first such attribute, when it is text.
pub open spec fn coordinates_words(v: VarSummary) -> Seq<Seq<char>> {
    match find_attr(v.attrs@, "coordinates"@) {
        Some(AttrValue::Text(t)) => words(t@),
        _ => seq![],
    }
}

/// Every name listed in some variable's `coordinates` attribute.
pub open spec fn listed_coordinates(vs: Seq<VarSummary>) -> Seq<Seq<char>>
    decreases vs.len(),
{
    if vs.len() == 0 {
        seq![]
    } else {
        listed_coordinates(vs.drop_last()) + coordinates_words(vs.last())
    }
}

/// xarray's coordinate heuristic: a variable is a coordinate if it is named
/// after one of its own dimensions, or listed in a `coordinates` attribute
/// of some variable of the same group.
pub open spec fn is_coordinate(vs: Seq<VarSummary>, v: VarSummary) -> bool {
    strings_view(v.dims@).contains(v.name@) || listed_coordinates(vs).contains(v.name@)
}

/// The `(dimension name, size)` pairs of one variable, axis by axis.
pub open spec fn var_dim_pairs(v: VarSummary) -> Seq<(Seq<char>, u64)> {
    let n = if v.dims@.len() <= v.shape@.len() { v.dims@.len() } else { v.shape@.len() };
    Seq::new(n, |i: int| (v.dims@[i]@, v.shape@[i]))
}

/// The `(dimension name, size)` pairs of every variable, in order.
pub open spec fn dim_pairs(vs: Seq<VarSummary>) -> Seq<(Seq<char>, u64)>
    decreases vs.len(),
{
    if vs.len() == 0 {
        seq![]
    } else {
        dim_pairs(vs.drop_last()) + var_dim_pairs(vs.last())
    }
}

/// Each dimension name mapped to the size it has where it first occurs.
pub open spec fn first_sizes(p: Seq<(Seq<char>, u64)>) -> Map<Seq<char>, u64>
    decreases p.len(),
{
    if p.len() == 0 {
        Map::empty()
    } else {
        let m = first_sizes(p.drop_last());
        if m.contains_key(p.last().0) {
            m
        } else {
            m.insert(p.last().0, p.last().1)
        }
    }
}

/// `ds` lists exactly the dimensions of `m`, sorted by name, none of them
/// unlimited.
pub open spec fn dims_match(ds: Seq<DimInfo>, m: Map<Seq<char>, u64>) -> bool {
    &&& forall|i: int, j: int| 0 <= i < j < ds.len() ==> lex_lt(#[trigger] ds[i].name@, #[trigger] ds[j].name@)
    &&& forall|i: int| 0 <= i < ds.len() ==> {
        &&& m.contains_key(#[trigger] ds[i].name@)
        &&& m[ds[i].name@] == ds[i].size
        &&& !ds[i].is_unlimited
    }
    &&& forall|k: Seq<char>| #[trigger] m.contains_key(k) ==> exists|i: int| 0 <= i < ds.len() && #[trigger] ds[i].name@ == k
}

/// Which of `vs` are coordinates, by xarray's heuristic
/// ([`is_coordinate`]), in order.
pub fn coordinate_flags(vs: &Vec<VarSummary>) -> (r: Vec<bool>)
    ensures
        r@.len() == vs@.len(),
        forall|i: int| 0 <= i < vs@.len() ==> #[trigger] r@[i] == is_coordinate(vs@, vs@[i]),
{
    let listed = collect_listed_coordinates(vs);
    let mut flags: Vec<bool> = Vec::new();
    let mut i: usize = 0;
    while i < vs.len()
        invariant
            i <= vs.len(),
            listed@.map_values(|w: Vec<char>| w@) == listed_coordinates(vs@),
            flags@.len() == i,
            forall|j: int| 0 <= j < i ==> #[trigger] flags@[j] == is_coordinate(vs@, vs@[j]),
        decreases vs.len() - i,
    {
        let name_chars = chars_of(vs[i].name.as_str());
        let is_coord = contains_str(&vs[i].dims, vs[i].name.as_str()) || contains_chars(&listed, name_chars.as_slice());
        flags.push(is_coord);
        i = i + 1;
    }
    flags
}

/// Does `list` hold a string equal to `x`?
pub fn contains_str(list: &Vec<String>, x: &str) -> (r: bool)
    ensures
        r == strings_view(list@).contains(x@),
{
    let mut i: usize = 0;
    while i < list.len()
        invariant
            i <= list.len(),
            forall|j: int| 0 <= j < i ==> list@[j]@ != x@,
        decreases list.len() - i,
    {
        if str_eq(list[i].as_str(), x) {
            proof {
                assert(strings_view(list@)[i as int] == x@);
            }
            return true;
        }
        i = i + 1;
    }
    proof {
        if strings_view(list@).contains(x@) {
            let k = choose|k: int| 0 <= k < strings_view(list@).len() && strings_view(list@)[k] == x@;
            assert(list@[k]@ == x@);
        }
    }
    false
}

/// Does `list` hold a sequence equal to `x`?
pub fn contains_chars(list: &Vec<Vec<char>>, x: &[char]) -> (r: bool)
    ensures
        r == list@.map_values(|w: Vec<char>| w@).contains(x@),
{
    let mut i: usize = 0;
    while i < list.len()
        invariant
            i <= list.len(),
            forall|j: int| 0 <= j < i ==> list@[j]@ != x@,
        decreases list.len() - i,
    {
        if chars_eq(list[i].as_slice(), x) {
            proof {
                assert(list@.map_values(|w: Vec<char>| w@)[i as int] == x@);
            }
            return true;
        }
        i = i + 1;
    }
    proof {
        let lv = list@.map_values(|w: Vec<char>| w@);
        if lv.contains(x@) {
            let k = choose|k: int| 0 <= k < lv.len() && lv[k] == x@;
            assert(list@[k]@ == x@);
        }
    }
    false
}

/// Every name the variables' `coordinates` attributes list.
fn collect_listed_coordinates(vs: &Vec<VarSummary>) -> (r: Vec<Vec<char>>)
    ensures
        r@.map_values(|w: Vec<char>| w@) == listed_coordinates(vs@),
{
    let mut out: Vec<Vec<char>> = Vec::new();
    let mut i: usize = 0;
    while i < vs.len()
        invariant
            i <= vs.len(),
            out@.map_values(|w: Vec<char>| w@) == listed_coordinates(vs@.take(i as int)),
        decreases vs.len() - i,
    {
        let ghost before = out@.map_values(|w: Vec<char>| w@);
        assert(out@.len() == before.len());
        match find_attr_exec(&vs[i].attrs, "coordinates") {
            Some(AttrValue::Text(t)) => {
                let ws = split_whitespace(t.as_str());
                let mut k: usize = 0;
                while k < ws.len()
                    invariant
                        k <= ws.len(),
                        out@.len() == before.len() + k,
                        forall|j: int| 0 <= j < before.len() ==> #[trigger] out@[j]@ == before[j],
                        forall|j: int| 0 <= j < k ==> out@[before.len() + j]@ == #[trigger] ws@[j]@,
                    decreases ws.len() - k,
                {
                    out.push(copy_chars(&ws[k]));
                    k = k + 1;
                }
                proof {
                    assert(out@.map_values(|w: Vec<char>| w@) =~= before + ws@.map_values(
                        |w: Vec<char>| w@,
                    ));
                }
                proof {
                    assert(coordinates_words(vs@[i as int]) == words(t@));
                }
            },
            _ => {
                proof {
                    assert(coordinates_words(vs@[i as int]) == Seq::<Seq<char>>::empty());
                    assert(before + Seq::<Seq<char>>::empty() == before);
                }
            },
        }
        proof {
            assert(vs@.take(i + 1).drop_last() == vs@.take(i as int));
            assert(vs@.take(i + 1).last() == vs@[i as int]);
        }
        i = i + 1;
    }
    proof {
        assert(vs@.take(vs.len() as int) == vs@);
    }
    out
}

/// The views of `(name, size)` pairs.
pub open spec fn pairs_view(p: Seq<(String, u64)>) -> Seq<(Seq<char>, u64)> {
    p.map_values(|x: (String, u64)| (x.0@, x.1))
}

/// Appends the `(dimension name, size)` pairs of every variable of `vs`.
fn collect_dim_pairs(vs: &Vec<VarSummary>, out: &mut Vec<(String, u64)>)
    ensures
        pairs_view(final(out)@) == pairs_view(old(out)@) + dim_pairs(vs@),
{
    let ghost start = pairs_view(out@);
    let mut i: usize = 0;
    while i < vs.len()
        invariant
            i <= vs.len(),
            pairs_view(out@) == start + dim_pairs(vs@.take(i as int)),
        decreases vs.len() - i,
    {
        let v = &vs[i];
        let n = if v.dims.len() <= v.shape.len() { v.dims.len() } else { v.shape.len() };
        let ghost before = pairs_view(out@);
        assert(out@.len() == before.len());
        let mut j: usize = 0;
        while j < n
            invariant
                j <= n,
                n <= v.dims.len(),
                n <= v.shape.len(),
                out@.len() == before.len() + j,
                forall|q: int| #![trigger out@[q]] 0 <= q < before.len() ==> (out@[q].0@, out@[q].1) == before[q],
                forall|q: int| #![trigger var_dim_pairs(*v)[q]] 0 <= q < j ==> (out@[before.len() + q].0@, out@[before.len() + q].1) == var_dim_pairs(*v)[q],
            decreases n - j,
        {
            out.push((v.dims[j].clone(), v.shape[j]));
            j = j + 1;
        }
        proof {
            assert(pairs_view(out@) =~= before + var_dim_pairs(*v));
            assert(vs@.take(i + 1).drop_last() == vs@.take(i as int));
            assert(vs@.take(i + 1).last() == *v);
            assert(dim_pairs(vs@.take(i + 1)) == dim_pairs(vs@.take(i as int)) + var_dim_pairs(*v));
        }
        i = i + 1;
    }
    proof {
        assert(vs@.take(vs.len() as int) == vs@);
    }
}

/// The dimensions named by `pairs`, each with the size of its first
/// occurrence, sorted by name.
fn derive_dims(pairs: &Vec<(String, u64)>) -> (r: Vec<DimInfo>)
    ensures
        dims_match(r@, first_sizes(pairs_view(pairs@))),
{
    let mut ds: Vec<DimInfo> = Vec::new();
    let mut i: usize = 0;
    proof {
        assert(pairs_view(pairs@).take(0) == Seq::<(Seq<char>, u64)>::empty());
    }
    while i < pairs.len()
        invariant
            i <= pairs.len(),
            dims_match(ds@, first_sizes(pairs_view(pairs@).take(i as int))),
        decreases pairs.len() - i,
    {
        let ghost m = first_sizes(pairs_view(pairs@).take(i as int));
        let name = &pairs[i].0;
        let size = pairs[i].1;
        proof {
            assert(pairs_view(pairs@).take(i + 1).drop_last() == pairs_view(pairs@).take(i as int));
            assert(pairs_view(pairs@).take(i + 1).last() == (name@, size));
        }
        let mut p: usize = 0;
        while p < ds.len() && str_lt(ds[p].name.as_str(), name.as_str())
            invariant
                p <= ds.len(),
                forall|q: int| 0 <= q < p ==> lex_lt(#[trigger] ds@[q].name@, name@),
            decreases ds.len() - p,
        {
            p = p + 1;
        }
        if p < ds.len() && str_eq(ds[p].name.as_str(), name.as_str()) {
            proof {
                assert(m.contains_key(ds@[p as int].name@));
            }
        } else {
            proof {
                if m.contains_key(name@) {
                    let q = choose|q: int| 0 <= q < ds@.len() && #[trigger] ds@[q].name@ == name@;
                    if q < p {
                        lemma_lex_irreflexive(name@);
                    } else if q > p {
                        assert(lex_lt(ds@[p as int].name@, ds@[q].name@));
                    }
                }
                if p < ds.len() {
                    lemma_lex_total(ds@[p as int].name@, name@);
                }
            }
            let ghost old_ds = ds@;
            ds.insert(p, DimInfo { name: name.clone(), size, is_unlimited: false });
            proof {
                let m2 = m.insert(name@, size);
                assert forall|a: int, b: int| 0 <= a < b < ds@.len() implies lex_lt(#[trigger] ds@[a].name@, #[trigger] ds@[b].name@) by {
                    if b < p {
                        assert(ds@[a] == old_ds[a] && ds@[b] == old_ds[b]);
                    } else if b == p {
                        assert(ds@[a] == old_ds[a]);
                    } else if a < p {
                        assert(ds@[a] == old_ds[a] && ds@[b] == old_ds[b - 1]);
                        if b - 1 > p {
                            assert(lex_lt(old_ds[p as int].name@, old_ds[b - 1].name@));
                            lemma_lex_transitive(name@, old_ds[p as int].name@, old_ds[b - 1].name@);
                        }
                        lemma_lex_transitive(ds@[a].name@, name@, ds@[b].name@);
                    } else if a == p {
                        assert(ds@[b] == old_ds[b - 1]);
                        if b - 1 > p {
                            assert(lex_lt(old_ds[p as int].name@, old_ds[b - 1].name@));
                            lemma_lex_transitive(name@, old_ds[p as int].name@, old_ds[b - 1].name@);
                        }
                    } else {
                        assert(ds@[a] == old_ds[a - 1] && ds@[b] == old_ds[b - 1]);
                    }
                }
                assert forall|a: int| 0 <= a < ds@.len() implies {
                    &&& m2.contains_key(#[trigger] ds@[a].name@)
                    &&& m2[ds@[a].name@] == ds@[a].size
                    &&& !ds@[a].is_unlimited
                } by {
                    if a < p {
                        assert(ds@[a] == old_ds[a]);
                        assert(ds@[a].name@ != name@) by {
                            lemma_lex_irreflexive(name@);
                        }
                    } else if a > p {
                        assert(ds@[a] == old_ds[a - 1]);
                        assert(ds@[a].name@ != name@) by {
                            if a - 1 > p {
                                assert(lex_lt(old_ds[p as int].name@, old_ds[a - 1].name@));
                                lemma_lex_transitive(name@, old_ds[p as int].name@, old_ds[a - 1].name@);
                            }
                            lemma_lex_irreflexive(name@);
                        }
                    }
                }
                assert forall|k: Seq<char>| #[trigger] m2.contains_key(k) implies exists|a: int| 0 <= a < ds@.len() && #[trigger] ds@[a].name@ == k by {
                    if k == name@ {
                        assert(ds@[p as int].name@ == k);
                    } else {
                        let q = choose|q: int| 0 <= q < old_ds.len() && #[trigger] old_ds[q].name@ == k;
                        if q < p {
                            assert(ds@[q].name@ == k);
                        } else {
                            assert(ds@[q + 1].name@ == k);
                        }
                    }
                }
            }
        }
        i = i + 1;
    }
    proof {
        assert(pairs_view(pairs@).take(pairs.len() as int) == pairs_view(pairs@));
    }
    ds
}

/// The coordinate test of the group whose variables are `vs`.
pub open spec fn coord_pred(vs: Seq<VarSummary>) -> spec_fn(VarSummary) -> bool {
    |v: VarSummary| is_coordinate(vs, v)
}

/// The negation of [`coord_pred`].
pub open spec fn data_pred(vs: Seq<VarSummary>) -> spec_fn(VarSummary) -> bool {
    |v: VarSummary| !is_coordinate(vs, v)
}

/// The names of `vs`, in order.
pub open spec fn names_of(vs: Seq<VarSummary>) -> Seq<Seq<char>> {
    vs.map_values(|v: VarSummary| v.name@)
}

impl GroupSummary {
    /// Builds a [`GroupSummary`] from a flat list of variables and children,
    /// applying xarray's coordinate-classification heuristic and the
    /// deterministic-ordering conventions shared by every format reader.
    ///
    /// A variable is a coordinate if its name matches one of its own
    /// dimensions, or if it is named in some variable's `coordinates`
    /// attribute. `coords`, `data_vars` and `children` are sorted by name
    /// (stably); `var_order` records the names in the order `vars` was
    /// given. `dims` is used as given when `Some`; when `None`, the group's
    /// dimensions are the union of its variables' `(name, size)` pairs
    /// (coordinates first, then data variables; the first size seen wins),
    /// sorted by name, none of them unlimited.
    pub fn from_parts(
        name: String,
        dims: Option<Vec<DimInfo>>,
        attrs: Vec<(String, AttrValue)>,
        vars: Vec<VarSummary>,
        children: Vec<GroupSummary>,
    ) -> (r: Self)
        ensures
            r.name == name,
            r.attrs == attrs,
            strings_view(r.var_order@) == names_of(vars@),
            r.coords@ == sort_by_key(vars@.filter(coord_pred(vars@))),
            r.data_vars@ == sort_by_key(vars@.filter(data_pred(vars@))),
            match dims {
                Some(d) => r.dims == d,
                None => dims_match(r.dims@, first_sizes(dim_pairs(r.coords@) + dim_pairs(r.data_vars@))),
            },
            r.children@ == sort_by_key(children@),
    {
        let listed = collect_listed_coordinates(&vars);
        let mut var_order: Vec<String> = Vec::new();
        let mut i: usize = 0;
        while i < vars.len()
            invariant
                i <= vars.len(),
                var_order@.len() == i,
                forall|j: int| 0 <= j < i ==> #[trigger] var_order@[j]@ == vars@[j].name@,
            decreases vars.len() - i,
        {
            var_order.push(vars[i].name.clone());
            i = i + 1;
        }
        proof {
            assert(strings_view(var_order@) =~= names_of(vars@));
        }
        let ghost orig = vars@;
        let mut rest = vars;
        let mut coords: Vec<VarSummary> = Vec::new();
        let mut data_vars: Vec<VarSummary> = Vec::new();
        let mut k: usize = 0;
        let n = rest.len();
        proof {
            reveal(Seq::filter);
            assert(orig.take(0) == Seq::<VarSummary>::empty());
            assert(orig.skip(0) == orig);
        }
        while rest.len() > 0
            invariant
                k + rest@.len() == orig.len(),
                orig.len() == n,
                rest@ == orig.skip(k as int),
                listed@.map_values(|w: Vec<char>| w@) == listed_coordinates(orig),
                coords@ == orig.take(k as int).filter(coord_pred(orig)),
                data_vars@ == orig.take(k as int).filter(data_pred(orig)),
            decreases rest.len(),
        {
            let v = rest.remove(0);
            proof {
                assert(v == orig[k as int]);
                assert(orig.take(k + 1).drop_last() == orig.take(k as int));
                assert(orig.take(k + 1).last() == v);
                reveal(Seq::filter);
            }
            let name_chars = chars_of(v.name.as_str());
            let is_coord = contains_str(&v.dims, v.name.as_str())
                || contains_chars(&listed, name_chars.as_slice());
            if is_coord {
                coords.push(v);
            } else {
                data_vars.push(v);
            }
            k = k + 1;
            proof {
                assert(rest@ == orig.skip(k as int));
            }
        }
        proof {
            assert(orig.take(k as int) == orig);
        }
        let coords = sort_by_name(coords);
        let data_vars = sort_by_name(data_vars);
        let dims = match dims {
            Some(d) => d,
            None => {
                let mut pairs: Vec<(String, u64)> = Vec::new();
                collect_dim_pairs(&coords, &mut pairs);
                collect_dim_pairs(&data_vars, &mut pairs);
                proof {
                    assert(pairs_view(Seq::<(String, u64)>::empty()) == Seq::<(Seq<char>, u64)>::empty());
                    assert(Seq::<(Seq<char>, u64)>::empty() + dim_pairs(coords@) == dim_pairs(coords@));
                }
                derive_dims(&pairs)
            },
        };
        let children = sort_by_name(children);
        GroupSummary { name, dims, coords, data_vars, attrs, children, var_order }
    }
}

/// The first variable of `vs` named `n`.
pub open spec fn find_var(vs: Seq<VarSummary>, n: Seq<char>) -> Option<VarSummary>
    decreases vs.len(),
{
    if vs.len() == 0 {
        None
    } else if vs[0].name@ == n {
        Some(vs[0])
    } else {
        find_var(vs.drop_first(), n)
    }
}

/// The variables `var_order` names that the group holds, in that order.
pub open spec fn ordered_vars(g: GroupSummary, order: Seq<String>) -> Seq<VarSummary>
    decreases order.len(),
{
    if order.len() == 0 {
        seq![]
    } else {
        let rest = ordered_vars(g, order.drop_last());
        match find_var(g.coords@ + g.data_vars@, order.last()@) {
            Some(v) => rest.push(v),
            None => rest,
        }
    }
}

/// All of a group's variables in native order: `var_order` when it
/// accounts for every variable, else coordinates then data variables.
pub open spec fn vars_in_order(g: GroupSummary) -> Seq<VarSummary> {
    let ordered = ordered_vars(g, g.var_order@);
    if ordered.len() == g.coords@.len() + g.data_vars@.len() {
        ordered
    } else {
        g.coords@ + g.data_vars@
    }
}

/// The targets of a list of references.
pub open spec fn derefs<'a, T>(s: Seq<&'a T>) -> Seq<T> {
    s.map_values(|x: &'a T| *x)
}

fn find_in<'a>(vs: &'a Vec<VarSummary>, name: &str) -> (r: Option<&'a VarSummary>)
    ensures
        match r {
            Some(v) => find_var(vs@, name@) == Some(*v),
            None => find_var(vs@, name@) is None,
        },
{
    let mut i: usize = 0;
    assert(vs@.skip(0) == vs@);
    while i < vs.len()
        invariant
            i <= vs.len(),
            find_var(vs@, name@) == find_var(vs@.skip(i as int), name@),
        decreases vs.len() - i,
    {
        proof {
            assert(vs@.skip(i as int)[0] == vs@[i as int]);
            assert(vs@.skip(i as int).drop_first() == vs@.skip(i + 1));
        }
        if str_eq(vs[i].name.as_str(), name) {
            return Some(&vs[i]);
        }
        i = i + 1;
    }
    None
}

proof fn lemma_find_var_append(a: Seq<VarSummary>, b: Seq<VarSummary>, n: Seq<char>)
    ensures
        find_var(a + b, n) == match find_var(a, n) {
            Some(v) => Some(v),
            None => find_var(b, n),
        },
    decreases a.len(),
{
    if a.len() > 0 {
        assert((a + b)[0] == a[0]);
        assert((a + b).drop_first() == a.drop_first() + b);
        lemma_find_var_append(a.drop_first(), b, n);
    } else {
        assert(a + b == b);
    }
}

impl GroupSummary {
    /// Looks a variable up by name in either `coords` or `data_vars`.
    pub fn variable(&self, name: &str) -> (r: Option<&VarSummary>)
        ensures
            match r {
                Some(v) => find_var(self.coords@ + self.data_vars@, name@) == Some(*v),
                None => find_var(self.coords@ + self.data_vars@, name@) is None,
            },
    {
        proof {
            lemma_find_var_append(self.coords@, self.data_vars@, name@);
        }
        match find_in(&self.coords, name) {
            Some(v) => Some(v),
            None => find_in(&self.data_vars, name),
        }
    }

    /// All variables in native (`var_order`) order. Falls back to
    /// coords-then-data_vars for summaries whose `var_order` does not
    /// account for every variable.
    pub fn variables_in_order(&self) -> (r: Vec<&VarSummary>)
        ensures
            derefs(r@) == vars_in_order(*self),
    {
        let mut ordered: Vec<&VarSummary> = Vec::new();
        let mut i: usize = 0;
        while i < self.var_order.len()
            invariant
                i <= self.var_order.len(),
                derefs(ordered@) == ordered_vars(*self, self.var_order@.take(i as int)),
            decreases self.var_order.len() - i,
        {
            let ghost before = ordered@;
            proof {
                assert(self.var_order@.take(i + 1).drop_last() == self.var_order@.take(i as int));
                assert(self.var_order@.take(i + 1).last() == self.var_order@[i as int]);
            }
            match self.variable(self.var_order[i].as_str()) {
                Some(v) => {
                    ordered.push(v);
                    proof {
                        assert(derefs(ordered@) =~= derefs(before).push(*v));
                    }
                },
                None => {},
            }
            i = i + 1;
        }
        proof {
            assert(self.var_order@.take(self.var_order.len() as int) == self.var_order@);
        }
        if self.coords.len() <= ordered.len() && ordered.len() - self.coords.len()
            == self.data_vars.len() {
            ordered
        } else {
            let mut all: Vec<&VarSummary> = Vec::new();
            let mut j: usize = 0;
            while j < self.coords.len()
                invariant
                    j <= self.coords.len(),
                    all@.len() == j,
                    forall|q: int| 0 <= q < j ==> *#[trigger] all@[q] == self.coords@[q],
                decreases self.coords.len() - j,
            {
                all.push(&self.coords[j]);
                j = j + 1;
            }
            let mut j: usize = 0;
            while j < self.data_vars.len()
                invariant
                    j <= self.data_vars.len(),
                    all@.len() == self.coords.len() + j,
                    forall|q: int| 0 <= q < self.coords.len() ==> *#[trigger] all@[q] == self.coords@[q],
                    forall|q: int| 0 <= q < j ==> *all@[self.coords.len() + q] == #[trigger] self.data_vars@[q],
                decreases self.data_vars.len() - j,
            {
                all.push(&self.data_vars[j]);
                j = j + 1;
            }
            proof {
                assert(derefs(all@) =~= self.coords@ + self.data_vars@);
            }
            all
        }
    }
}

/// The contents of `out`, written as those of all but its last word
/// followed by the last one.
spec fn views_after_push(out: Seq<Vec<char>>) -> Seq<Seq<char>> {
    out.drop_last().map_values(|w: Vec<char>| w@).push(out.last()@)
}


/// The two filters of complementary predicates split a sequence.
proof fn lemma_filter_complement<A>(s: Seq<A>, p: spec_fn(A) -> bool, q: spec_fn(A) -> bool)
    requires
        forall|x: A| #[trigger] q(x) == !p(x),
    ensures
        s.filter(p).len() + s.filter(q).len() == s.len(),
    decreases s.len(),
{
    if s.len() > 0 {
        let t = s.drop_last();
        lemma_filter_complement(t, p, q);
        t.lemma_filter_push(s.last(), p);
        t.lemma_filter_push(s.last(), q);
        assert(t.push(s.last()) =~= s);
        assert(q(s.last()) == !p(s.last()));
    }
}

/// Every variable handed to [`GroupSummary::from_parts`] ends up either a
/// coordinate or a data variable, never both and never neither.
pub proof fn lemma_from_parts_partitions(vars: Seq<VarSummary>)
    ensures
        sort_by_key(vars.filter(coord_pred(vars))).len() + sort_by_key(vars.filter(data_pred(vars))).len() == vars.len(),
        forall|i: int| 0 <= i < vars.len() ==> (coord_pred(vars)(#[trigger] vars[i]) != data_pred(vars)(vars[i])),
{
    lemma_filter_complement(vars, coord_pred(vars), data_pred(vars));
    crate::order::lemma_sort_by_key_sorted(vars.filter(coord_pred(vars)));
    crate::order::lemma_sort_by_key_sorted(vars.filter(data_pred(vars)));
}

} // verus!
