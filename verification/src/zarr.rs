//! Zarr store conventions: keys and node paths, dimension names, numpy
//! dtype strings from v2 typestrings, and the names a store's root takes.

use vstd::prelude::*;
use crate::model::{Endianness, SourceFormat};
use crate::order::{lemma_lex_irreflexive, lemma_lex_transitive};
use crate::text::{chars_of, chars_start_with, dec, lex_lt, owned, parse_unsigned, parse_usize,
    push_char, push_dec, push_dec_wide, push_str, str_eq, str_lt, string_from_chars, strings_view};

verus! {

/// The synthetic name numpy and xarray give an unnamed axis: `dim_{i}`.
pub open spec fn synthetic_dim(i: nat) -> Seq<char> {
    "dim_"@ + dec(i)
}

/// The name of axis `i`: the given name when there is one, else
/// `dim_{i}`.
pub open spec fn dim_name_at(names: Option<Seq<Option<String>>>, i: int) -> Seq<char> {
    match names {
        Some(ns) => if i < ns.len() && ns[i] is Some {
            ns[i]->0@
        } else {
            synthetic_dim(i as nat)
        },
        None => synthetic_dim(i as nat),
    }
}

/// Dimension names for an array of `ndim` axes.
pub open spec fn spec_resolve_dim_names(names: Option<Seq<Option<String>>>, ndim: nat) -> Seq<Seq<char>> {
    Seq::new(ndim, |i: int| dim_name_at(names, i))
}

/// Dimension names for an array of `ndim` axes. Zarr v3's
/// `dimension_names` (or v2's xarray `_ARRAY_DIMENSIONS`) may be absent, and
/// individual axes may carry no name; either falls back to `dim_{i}`. The
/// result is always exactly `ndim` long: a shorter list is padded with
/// synthetic names, a longer one truncated.
pub fn resolve_dim_names(names: &Option<Vec<Option<String>>>, ndim: usize) -> (r: Vec<String>)
    ensures
        strings_view(r@) == spec_resolve_dim_names(match names {
            Some(ns) => Some(ns@),
            None => None,
        }, ndim as nat),
{
    let ghost given = match names {
        Some(ns) => Some(ns@),
        None => None::<Seq<Option<String>>>,
    };
    let mut out: Vec<String> = Vec::new();
    let mut i: usize = 0;
    while i < ndim
        invariant
            i <= ndim,
            given == match names {
                Some(ns) => Some(ns@),
                None => None::<Seq<Option<String>>>,
            },
            out@.len() == i,
            forall|j: int| 0 <= j < i ==> #[trigger] out@[j]@ == dim_name_at(given, j),
        decreases ndim - i,
    {
        let named: Option<String> = match names {
            Some(ns) => if i < ns.len() {
                match &ns[i] {
                    Some(n) => Some(n.clone()),
                    None => None,
                }
            } else {
                None
            },
            None => None,
        };
        let name = match named {
            Some(n) => n,
            None => {
                let mut s = String::new();
                push_str(&mut s, "dim_");
                push_dec(&mut s, i as u64);
                s
            },
        };
        assert(name@ == dim_name_at(given, i as int));
        out.push(name);
        i = i + 1;
    }
    assert(strings_view(out@) =~= spec_resolve_dim_names(given, ndim as nat));
    out
}

/// Dimension names as the first Zarr v3 reader resolved them: one per
/// entry of the array's `dimension_names` (an unnamed entry as `dim_{i}`),
/// whatever the array's rank, or `ndim` synthetic names when the array has
/// no `dimension_names`.
pub fn resolve_v3_dim_names(names: &Option<Vec<Option<String>>>, ndim: usize) -> (r: Vec<String>)
    ensures
        strings_view(r@) == match names {
            Some(ns) => spec_resolve_dim_names(Some(ns@), ns@.len()),
            None => spec_resolve_dim_names(None, ndim as nat),
        },
{
    let n = match names {
        Some(ns) => ns.len(),
        None => ndim,
    };
    resolve_dim_names(names, n)
}

/// The numpy name for a typestring kind and item size, if it has one.
pub open spec fn sized_dtype(kind: char, count: nat, d: Seq<char>) -> Seq<char> {
    if kind == 'f' {
        "float"@ + dec(count * 8)
    } else if kind == 'i' {
        "int"@ + dec(count * 8)
    } else if kind == 'u' {
        "uint"@ + dec(count * 8)
    } else if kind == 'c' {
        "complex"@ + dec(count * 8)
    } else if kind == 'b' {
        "bool"@
    } else if kind == 'S' {
        "|S"@ + dec(count)
    } else if kind == 'U' {
        "<U"@ + dec(count)
    } else {
        d
    }
}

/// A datetime/timedelta typestring after its kind: `8`, or `8[unit]`.
pub open spec fn time_dtype(base: Seq<char>, rest: Seq<char>, d: Seq<char>) -> Seq<char> {
    if rest == seq!['8'] {
        base
    } else if rest.len() > 3 && rest[0] == '8' && rest[1] == '[' && rest.last() == ']' {
        base + seq!['['] + rest.subrange(2, rest.len() - 1) + seq![']']
    } else {
        d
    }
}

/// Is `c` a typestring byte-order mark?
pub open spec fn is_order_mark(c: char) -> bool {
    c == '<' || c == '>' || c == '=' || c == '|'
}

/// The numpy-style dtype for a Zarr v2 typestring.
pub open spec fn spec_v2_dtype(d: Seq<char>) -> Seq<char> {
    if d.len() == 0 {
        d
    } else if is_order_mark(d[0]) && d.len() == 1 {
        d
    } else {
        let kind = if is_order_mark(d[0]) { d[1] } else { d[0] };
        let rest = if is_order_mark(d[0]) { d.skip(2) } else { d.skip(1) };
        if kind == 'M' {
            time_dtype("datetime64"@, rest, d)
        } else if kind == 'm' {
            time_dtype("timedelta64"@, rest, d)
        } else {
            match parse_unsigned(rest, usize::MAX as nat) {
                Some(count) => sized_dtype(kind, count, d),
                None => d,
            }
        }
    }
}

/// Numpy-style dtype string from a Zarr v2 typestring (e.g. `<f4`, `|S8`,
/// `<i8`, `<M8[ns]`). The leading byte-order char (`<`/`>`/`=`/`|`) is
/// dropped; the kind char plus item size in bytes is expanded into numpy's
/// spelled-out name (`f4` → `float32`), and datetime/timedelta typestrings
/// become `datetime64[unit]`/`timedelta64[unit]`. Anything not matching
/// this scheme passes through verbatim. Works on characters, so untrusted
/// multibyte input is handled like any other.
pub fn v2_dtype_string(dtype: &str) -> (r: String)
    ensures
        r@ == spec_v2_dtype(dtype@),
{
    let cs = chars_of(dtype);
    if cs.len() == 0 {
        return owned(dtype);
    }
    let first = cs[0];
    let marked = first == '<' || first == '>' || first == '=' || first == '|';
    if marked && cs.len() == 1 {
        return owned(dtype);
    }
    let kind = if marked { cs[1] } else { first };
    let skip: usize = if marked { 2 } else { 1 };
    let (_, rest) = cs.as_slice().split_at(skip);
    assert(rest@ == dtype@.skip(skip as int));
    if kind == 'M' || kind == 'm' {
        let mut out = String::new();
        if kind == 'M' {
            push_str(&mut out, "datetime64");
        } else {
            push_str(&mut out, "timedelta64");
        }
        let ghost base = out@;
        if rest.len() == 1 && rest[0] == '8' {
            assert(rest@ =~= seq!['8']);
            return out;
        }
        let n = rest.len();
        if n > 3 && rest[0] == '8' && rest[1] == '[' && rest[n - 1] == ']' {
            push_char(&mut out, '[');
            let (inner, _) = rest.split_at(n - 1);
            let (_, unit) = inner.split_at(2);
            assert(unit@ =~= rest@.subrange(2, n - 1));
            crate::text::push_chars(&mut out, unit);
            push_char(&mut out, ']');
            assert(out@ =~= base + seq!['['] + rest@.subrange(2, n - 1) + seq![']']);
            return out;
        }
        assert(!(rest@ == seq!['8'])) by {
            if rest@ == seq!['8'] {
                assert(rest@.len() == 1 && rest@[0] == '8');
            }
        }
        return owned(dtype);
    }
    let count = match parse_usize(rest) {
        Some(c) => c,
        None => {
            return owned(dtype);
        },
    };
    let mut out = String::new();
    if kind == 'f' || kind == 'i' || kind == 'u' || kind == 'c' {
        if kind == 'f' {
            push_str(&mut out, "float");
        } else if kind == 'i' {
            push_str(&mut out, "int");
        } else if kind == 'u' {
            push_str(&mut out, "uint");
        } else {
            push_str(&mut out, "complex");
        }
        push_dec_wide(&mut out, count as u128 * 8);
        out
    } else if kind == 'b' {
        push_str(&mut out, "bool");
        out
    } else if kind == 'S' {
        push_str(&mut out, "|S");
        push_dec(&mut out, count as u64);
        out
    } else if kind == 'U' {
        push_str(&mut out, "<U");
        push_dec(&mut out, count as u64);
        out
    } else {
        owned(dtype)
    }
}

/// The node path of a per-node document key: `"{node_path}/{doc}"`, or
/// `""` when the key is the document itself (the root).
pub open spec fn spec_node_path_for(key: Seq<char>, doc: Seq<char>) -> Option<Seq<char>> {
    if key == doc {
        Some(Seq::empty())
    } else if key.len() > doc.len() && doc.is_suffix_of(key) && key[key.len() - doc.len() - 1] == '/' {
        Some(key.take(key.len() - doc.len() - 1))
    } else {
        None
    }
}

/// If `key` is `"{node_path}/{doc}"` or just `"{doc}"` (the root), returns
/// `node_path` (`""` for the root).
pub fn node_path_for(key: &str, doc: &str) -> (r: Option<String>)
    ensures
        match r {
            Some(p) => spec_node_path_for(key@, doc@) == Some(p@),
            None => spec_node_path_for(key@, doc@) is None,
        },
{
    if str_eq(key, doc) {
        return Some(String::new());
    }
    let k = chars_of(key);
    let d = chars_of(doc);
    if k.len() <= d.len() {
        return None;
    }
    let cut = k.len() - d.len();
    let (head, tail) = k.as_slice().split_at(cut);
    if !crate::text::chars_eq(tail, d.as_slice()) {
        assert(!doc@.is_suffix_of(key@)) by {
            if doc@.is_suffix_of(key@) {
                assert(tail@ =~= doc@);
            }
        }
        return None;
    }
    assert(doc@.is_suffix_of(key@)) by {
        assert(key@.subrange(cut as int, key@.len() as int) =~= tail@);
    }
    if k[cut - 1] != '/' {
        return None;
    }
    let (path, _) = head.split_at(cut - 1);
    assert(path@ =~= key@.take(key@.len() - doc@.len() - 1));
    Some(string_from_chars(path))
}

/// The per-node metadata documents of a Zarr v2 store.
#[derive(Debug, Clone, Copy, PartialEq, Eq, Structural)]
pub enum ZarrDoc {
    /// `.zgroup`
    Group,
    /// `.zarray`
    Array,
    /// `.zattrs`
    Attrs,
}

/// The node and document a `.zmetadata` key names.
pub open spec fn spec_consolidated_doc(key: Seq<char>) -> Option<(Seq<char>, ZarrDoc)> {
    match spec_node_path_for(key, ".zgroup"@) {
        Some(p) => Some((p, ZarrDoc::Group)),
        None => match spec_node_path_for(key, ".zarray"@) {
            Some(p) => Some((p, ZarrDoc::Array)),
            None => match spec_node_path_for(key, ".zattrs"@) {
                Some(p) => Some((p, ZarrDoc::Attrs)),
                None => None,
            },
        },
    }
}

/// The node a `.zmetadata` key describes, and which of its documents the
/// key is: `.zgroup`, `.zarray` or `.zattrs`. Any other key (`.zmetadata`
/// itself included) names nothing.
pub fn consolidated_doc(key: &str) -> (r: Option<(String, ZarrDoc)>)
    ensures
        match r {
            Some(e) => spec_consolidated_doc(key@) == Some((e.0@, e.1)),
            None => spec_consolidated_doc(key@) is None,
        },
{
    if let Some(p) = node_path_for(key, ".zgroup") {
        return Some((p, ZarrDoc::Group));
    }
    if let Some(p) = node_path_for(key, ".zarray") {
        return Some((p, ZarrDoc::Array));
    }
    if let Some(p) = node_path_for(key, ".zattrs") {
        return Some((p, ZarrDoc::Attrs));
    }
    None
}

/// Does some entry put an array at `x`?
pub open spec fn has_array(entries: Seq<(String, ZarrDoc)>, x: Seq<char>) -> bool {
    exists|i: int| 0 <= i < entries.len() && (#[trigger] entries[i]).0@ == x && entries[i].1 == ZarrDoc::Array
}

/// Does some entry put a group or attributes document at `x`?
pub open spec fn has_other(entries: Seq<(String, ZarrDoc)>, x: Seq<char>) -> bool {
    exists|i: int| 0 <= i < entries.len() && (#[trigger] entries[i]).0@ == x && entries[i].1 != ZarrDoc::Array
}

/// The group nodes of a consolidated v2 store: every path with a group or
/// attributes document, and the root, unless an array is there.
pub open spec fn is_group_node(entries: Seq<(String, ZarrDoc)>, x: Seq<char>) -> bool {
    !has_array(entries, x) && (x.len() == 0 || has_other(entries, x))
}

/// Is the store's root a single array: do the array paths hold the root
/// path (the empty one)?
pub fn root_is_array(array_paths: &Vec<String>) -> (r: bool)
    ensures
        r == strings_view(array_paths@).contains(Seq::<char>::empty()),
{
    let mut i: usize = 0;
    while i < array_paths.len()
        invariant
            i <= array_paths.len(),
            forall|j: int| 0 <= j < i ==> #[trigger] array_paths@[j]@.len() != 0,
        decreases array_paths.len() - i,
    {
        if array_paths[i].as_str().is_empty() {
            proof {
                assert(strings_view(array_paths@)[i as int] =~= Seq::<char>::empty());
            }
            return true;
        }
        i = i + 1;
    }
    proof {
        if strings_view(array_paths@).contains(Seq::<char>::empty()) {
            let j = choose|j: int| 0 <= j < strings_view(array_paths@).len() && strings_view(array_paths@)[j] == Seq::<char>::empty();
            assert(array_paths@[j]@.len() == 0);
        }
    }
    false
}

/// The nodes of a consolidated Zarr v2 store, from its `(node path,
/// document)` entries: the array paths, and the group paths (every path
/// with a `.zgroup` or `.zattrs` entry, and the root, that is not an
/// array), each list sorted with nothing twice.
pub fn v2_consolidated_nodes(entries: &Vec<(String, ZarrDoc)>) -> (r: (Vec<String>, Vec<String>))
    ensures
        crate::order::increasing(strings_view(r.0@), crate::order::lex_order()),
        forall|x: Seq<char>| strings_view(r.0@).contains(x) <==> has_array(entries@, x),
        crate::order::increasing(strings_view(r.1@), crate::order::lex_order()),
        forall|x: Seq<char>| strings_view(r.1@).contains(x) <==> is_group_node(entries@, x),
{
    let mut arrays: Vec<String> = Vec::new();
    let mut others: Vec<String> = Vec::new();
    let root = String::new();
    proof {
        assert(root@ =~= Seq::<char>::empty());
    }
    crate::order::insert_sorted(&mut others, root);
    proof {
        assert forall|x: Seq<char>| strings_view(others@).to_set().contains(x) <==> (x.len() == 0 || has_other(entries@.take(0), x)) by {
            if x.len() == 0 {
                assert(x =~= Seq::<char>::empty());
            }
        }
    }
    let mut i: usize = 0;
    while i < entries.len()
        invariant
            i <= entries.len(),
            crate::order::increasing(strings_view(arrays@), crate::order::lex_order()),
            crate::order::increasing(strings_view(others@), crate::order::lex_order()),
            forall|x: Seq<char>| strings_view(arrays@).to_set().contains(x) <==> has_array(entries@.take(i as int), x),
            forall|x: Seq<char>| strings_view(others@).to_set().contains(x) <==> (x.len() == 0 || has_other(entries@.take(i as int), x)),
        decreases entries.len() - i,
    {
        let ghost before = entries@.take(i as int);
        let ghost after = entries@.take(i + 1);
        let path = owned(entries[i].0.as_str());
        proof {
            assert forall|x: Seq<char>| has_array(after, x) <==> has_array(before, x) || (x == path@ && entries@[i as int].1 == ZarrDoc::Array) by {
                if has_array(after, x) {
                    let j = choose|j: int| 0 <= j < after.len() && (#[trigger] after[j]).0@ == x && after[j].1 == ZarrDoc::Array;
                    if j < i {
                        assert(before[j] == after[j]);
                    }
                }
                if has_array(before, x) {
                    let j = choose|j: int| 0 <= j < before.len() && (#[trigger] before[j]).0@ == x && before[j].1 == ZarrDoc::Array;
                    assert(after[j] == before[j]);
                }
                if x == path@ && entries@[i as int].1 == ZarrDoc::Array {
                    assert(after[i as int] == entries@[i as int]);
                }
            }
            assert forall|x: Seq<char>| has_other(after, x) <==> has_other(before, x) || (x == path@ && entries@[i as int].1 != ZarrDoc::Array) by {
                if has_other(after, x) {
                    let j = choose|j: int| 0 <= j < after.len() && (#[trigger] after[j]).0@ == x && after[j].1 != ZarrDoc::Array;
                    if j < i {
                        assert(before[j] == after[j]);
                    }
                }
                if has_other(before, x) {
                    let j = choose|j: int| 0 <= j < before.len() && (#[trigger] before[j]).0@ == x && before[j].1 != ZarrDoc::Array;
                    assert(after[j] == before[j]);
                }
                if x == path@ && entries@[i as int].1 != ZarrDoc::Array {
                    assert(after[i as int] == entries@[i as int]);
                }
            }
        }
        let ghost pv = path@;
        let ghost a0 = strings_view(arrays@).to_set();
        let ghost o0 = strings_view(others@).to_set();
        if entries[i].1 == ZarrDoc::Array {
            crate::order::insert_sorted(&mut arrays, path);
            proof {
                assert forall|x: Seq<char>| strings_view(others@).to_set().contains(x) <==> (x.len() == 0 || has_other(after, x)) by {
                    assert(o0.contains(x) <==> (x.len() == 0 || has_other(before, x)));
                }
                assert forall|x: Seq<char>| strings_view(arrays@).to_set().contains(x) <==> has_array(after, x) by {
                    assert(a0.contains(x) <==> has_array(before, x));
                }
            }
        } else {
            crate::order::insert_sorted(&mut others, path);
            proof {
                assert forall|x: Seq<char>| strings_view(others@).to_set().contains(x) <==> (x.len() == 0 || has_other(after, x)) by {
                    assert(o0.contains(x) <==> (x.len() == 0 || has_other(before, x)));
                }
                assert forall|x: Seq<char>| strings_view(arrays@).to_set().contains(x) <==> has_array(after, x) by {
                    assert(a0.contains(x) <==> has_array(before, x));
                }
            }
        }
        i = i + 1;
    }
    proof {
        assert(entries@.take(entries@.len() as int) =~= entries@);
    }
    let mut groups: Vec<String> = Vec::new();
    let mut k: usize = 0;
    while k < others.len()
        invariant
            k <= others.len(),
            crate::order::increasing(strings_view(others@), crate::order::lex_order()),
            crate::order::increasing(strings_view(groups@), crate::order::lex_order()),
            forall|a: int| 0 <= a < groups@.len() ==> exists|j: int| 0 <= j < k && strings_view(others@)[j] == #[trigger] strings_view(groups@)[a],
            forall|x: Seq<char>| strings_view(groups@).contains(x) <==> (strings_view(others@).take(k as int).contains(x) && !strings_view(arrays@).contains(x)),
        decreases others.len() - k,
    {
        let ghost g0 = strings_view(groups@);
        let ghost os = strings_view(others@);
        let in_arrays = crate::group::contains_str(&arrays, others[k].as_str());
        if !in_arrays {
            groups.push(owned(others[k].as_str()));
            proof {
                let g1 = strings_view(groups@);
                assert(g1 =~= g0.push(os[k as int]));
                assert forall|a: int, b: int| 0 <= a < b < g1.len() implies crate::order::lex_order()(#[trigger] g1[a], #[trigger] g1[b]) by {
                    if b == g1.len() - 1 {
                        let j = choose|j: int| 0 <= j < k && os[j] == #[trigger] g0[a];
                        assert(crate::order::lex_order()(os[j], os[k as int]));
                    } else {
                        assert(g1[a] == g0[a] && g1[b] == g0[b]);
                    }
                }
                assert forall|a: int| 0 <= a < g1.len() implies exists|j: int| 0 <= j < k + 1 && os[j] == #[trigger] g1[a] by {
                    if a == g1.len() - 1 {
                        assert(os[k as int] == g1[a]);
                    } else {
                        assert(g1[a] == g0[a]);
                        let j = choose|j: int| 0 <= j < k && os[j] == #[trigger] g0[a];
                        assert(os[j] == g1[a]);
                    }
                }
            }
        }
        proof {
            let g1 = strings_view(groups@);
            assert(os.take(k + 1) =~= os.take(k as int).push(os[k as int]));
            assert forall|x: Seq<char>| g1.contains(x) <==> (os.take(k + 1).contains(x) && !strings_view(arrays@).contains(x)) by {
                if g1.contains(x) {
                    let a = choose|a: int| 0 <= a < g1.len() && g1[a] == x;
                    if a < g0.len() {
                        assert(g0[a] == g1[a]);
                        assert(g0.contains(x));
                    } else {
                        assert(!in_arrays);
                        assert(x == os[k as int]);
                        assert(os.take(k + 1)[k as int] == x);
                    }
                }
                if g0.contains(x) {
                    let a = choose|a: int| 0 <= a < g0.len() && g0[a] == x;
                    assert(g1[a] == x);
                }
                let t0 = os.take(k as int);
                let t1 = os.take(k + 1);
                if t0.contains(x) {
                    let j = choose|j: int| 0 <= j < t0.len() && t0[j] == x;
                    assert(t1[j] == x);
                }
                if t1.contains(x) {
                    let j = choose|j: int| 0 <= j < t1.len() && t1[j] == x;
                    if j < k {
                        assert(t0[j] == x);
                    } else {
                        assert(x == os[k as int]);
                        if !strings_view(arrays@).contains(x) {
                            assert(g1[g1.len() - 1] == x);
                        }
                    }
                }
            }
        }
        k = k + 1;
    }
    proof {
        let os = strings_view(others@);
        assert(os.take(os.len() as int) =~= os);
        assert forall|x: Seq<char>| strings_view(arrays@).contains(x) <==> has_array(entries@, x) by {
            assert(strings_view(arrays@).to_set().contains(x) == strings_view(arrays@).contains(x));
        }
        assert forall|x: Seq<char>| strings_view(groups@).contains(x) <==> is_group_node(entries@, x) by {
            assert(os.to_set().contains(x) == os.contains(x));
            assert(strings_view(arrays@).to_set().contains(x) == strings_view(arrays@).contains(x));
        }
    }
    (arrays, groups)
}

/// The index of the last `c` in `s`.
pub open spec fn last_index_of(s: Seq<char>, c: char) -> Option<int>
    decreases s.len(),
{
    if s.len() == 0 {
        None
    } else if s.last() == c {
        Some(s.len() - 1)
    } else {
        last_index_of(s.drop_last(), c)
    }
}

/// A `.zmetadata` key split into node path and per-node file.
pub open spec fn spec_split_consolidated_key(key: Seq<char>) -> (Seq<char>, Seq<char>) {
    match last_index_of(key, '/') {
        Some(i) => (key.take(i), key.skip(i + 1)),
        None => (Seq::empty(), key),
    }
}

/// Splits a `.zmetadata` key into the node's relative path and the per-node
/// file it names, at the last `/`: `g/arr/.zarray` → `("g/arr", ".zarray")`,
/// and a root-level `.zgroup` → `("", ".zgroup")`.
pub fn split_consolidated_key(key: &str) -> (r: (String, String))
    ensures
        (r.0@, r.1@) == spec_split_consolidated_key(key@),
{
    let k = chars_of(key);
    let mut n: usize = k.len();
    assert(k@.take(n as int) == k@);
    while n > 0 && k[n - 1] != '/'
        invariant
            n <= k.len(),
            k@ == key@,
            last_index_of(key@, '/') == last_index_of(key@.take(n as int), '/'),
        decreases n,
    {
        assert(key@.take(n as int).drop_last() == key@.take(n - 1));
        n = n - 1;
    }
    if n == 0 {
        assert(key@.take(0).len() == 0);
        return (String::new(), owned(key));
    }
    assert(key@.take(n as int).last() == '/');
    let (head, rest) = k.as_slice().split_at(n);
    let (node, _) = head.split_at(n - 1);
    assert(node@ =~= key@.take(n - 1));
    assert(rest@ =~= key@.skip(n as int));
    (string_from_chars(node), string_from_chars(rest))
}

/// A store key from a prefix and a child name.
pub open spec fn spec_join_key(prefix: Seq<char>, name: Seq<char>) -> Seq<char> {
    if prefix.len() == 0 {
        name
    } else {
        prefix + seq!['/'] + name
    }
}

/// Joins a store-relative prefix and a child name into a key.
pub fn join_key(prefix: &str, name: &str) -> (r: String)
    ensures
        r@ == spec_join_key(prefix@, name@),
{
    if prefix.is_empty() {
        owned(name)
    } else {
        let mut s = owned(prefix);
        push_char(&mut s, '/');
        push_str(&mut s, name);
        s
    }
}

/// `s` without trailing `c`s.
pub open spec fn strip_trailing(s: Seq<char>, c: char) -> Seq<char>
    decreases s.len(),
{
    if s.len() > 0 && s.last() == c {
        strip_trailing(s.drop_last(), c)
    } else {
        s
    }
}

/// `s` without its trailing `/`s, as characters.
fn trim_trailing_slashes(s: &str) -> (r: Vec<char>)
    ensures
        r@ == strip_trailing(s@, '/'),
{
    let cs = chars_of(s);
    let mut n: usize = cs.len();
    assert(cs@.take(n as int) == cs@);
    while n > 0 && cs[n - 1] == '/'
        invariant
            n <= cs.len(),
            cs@ == s@,
            strip_trailing(cs@.take(n as int), '/') == strip_trailing(s@, '/'),
        decreases n,
    {
        assert(cs@.take(n as int).drop_last() == cs@.take(n - 1));
        n = n - 1;
    }
    let (head, _) = cs.as_slice().split_at(n);
    crate::text::slice_to_vec(head)
}

/// `"{location}/{key}"` for error messages about one key; the location
/// alone for the empty key.
pub open spec fn spec_describe(location: Seq<char>, key: Seq<char>) -> Seq<char> {
    if key.len() == 0 {
        location
    } else {
        strip_trailing(location, '/') + seq!['/'] + key
    }
}

/// `"{location}/{key}"`, for error messages about one key.
pub fn describe(location: &str, key: &str) -> (r: String)
    ensures
        r@ == spec_describe(location@, key@),
{
    if key.is_empty() {
        return owned(location);
    }
    let trimmed = trim_trailing_slashes(location);
    let mut s = string_from_chars(trimmed.as_slice());
    push_char(&mut s, '/');
    push_str(&mut s, key);
    s
}

/// What `Path::file_name` gives for a path: its final component when that
/// is a normal one, `None` when the path ends in `..` or has no components
/// but a root or `.`.
pub uninterp spec fn path_file_name(path: Seq<char>) -> Option<Seq<char>>;

/// A text that is one plain path component on every target: not empty,
/// not `.` or `..`, and free of `/` (and of the `\` and `:` that Windows
/// reads as a separator or a prefix).
pub open spec fn plain_component(s: Seq<char>) -> bool {
    &&& s.len() > 0
    &&& s != seq!['.']
    &&& s != seq!['.', '.']
    &&& forall|i: int| 0 <= i < s.len() ==> #[trigger] s[i] != '/' && s[i] != '\\' && s[i] != ':'
}

/// `std::path::Path::file_name` of a path given as text. The contract
/// names the result, and states what the documentation gives for a path
/// of one plain component: that component is the file name. How the
/// components of other paths are found (separators, prefixes, `.`
/// normalization) is the target's and is left unsaid.
#[verifier::external_body]
pub(crate) fn file_name_text(path: &str) -> (r: Option<String>)
    ensures
        opt_text(r) == path_file_name(path@),
        plain_component(path@) ==> opt_text(r) == Some(path@),
{
    std::path::Path::new(path).file_name().map(|name| name.to_string_lossy().into_owned())
}

/// The stem of a file name, as `Path::file_stem` documents it: the whole
/// name when it has no `.` past its first character, else what comes
/// before its last `.`.
pub open spec fn name_stem(name: Seq<char>) -> Seq<char> {
    match last_index_of(name, '.') {
        Some(i) => if i > 0 { name.take(i) } else { name },
        None => name,
    }
}

/// The extension of a file name, as `Path::extension` documents it: none
/// when the name has no `.` past its first character, else what comes
/// after its last `.`.
pub open spec fn name_extension(name: Seq<char>) -> Option<Seq<char>> {
    match last_index_of(name, '.') {
        Some(i) => if i > 0 { Some(name.skip(i + 1)) } else { None },
        None => None,
    }
}

/// What `Path::file_stem` gives for a path: the stem of its file name.
pub open spec fn path_file_stem(path: Seq<char>) -> Option<Seq<char>> {
    match path_file_name(path) {
        Some(n) => Some(name_stem(n)),
        None => None,
    }
}

/// Splits a file name into its stem and extension (see [`name_stem`] and
/// [`name_extension`]).
pub fn split_file_name(name: &str) -> (r: (String, Option<String>))
    ensures
        r.0@ == name_stem(name@),
        opt_text(r.1) == name_extension(name@),
{
    let k = chars_of(name);
    let mut n: usize = k.len();
    assert(k@.take(n as int) == k@);
    while n > 0 && k[n - 1] != '.'
        invariant
            n <= k.len(),
            k@ == name@,
            last_index_of(name@, '.') == last_index_of(name@.take(n as int), '.'),
        decreases n,
    {
        assert(name@.take(n as int).drop_last() == name@.take(n - 1));
        n = n - 1;
    }
    if n <= 1 {
        if n == 1 {
            assert(name@.take(1).last() == '.');
        } else {
            assert(name@.take(0).len() == 0);
        }
        return (owned(name), None);
    }
    assert(name@.take(n as int).last() == '.');
    let (head, rest) = k.as_slice().split_at(n);
    let (stem, _) = head.split_at(n - 1);
    assert(stem@ =~= name@.take(n - 1));
    assert(rest@ =~= name@.skip(n as int));
    (string_from_chars(stem), Some(string_from_chars(rest)))
}

/// `Path::file_stem` of a path given as text.
pub(crate) fn file_stem_text(path: &str) -> (r: Option<String>)
    ensures
        opt_text(r) == path_file_stem(path@),
        plain_component(path@) ==> opt_text(r) == Some(name_stem(path@)),
{
    match file_name_text(path) {
        Some(name) => Some(split_file_name(name.as_str()).0),
        None => None,
    }
}

/// A variable name from a stem: the stem when it is usable, else `array`.
pub open spec fn stem_or_array(stem: Option<Seq<char>>, usable: spec_fn(Seq<char>) -> bool) -> Seq<char> {
    match stem {
        Some(s) => if usable(s) { s } else { "array"@ },
        None => "array"@,
    }
}

/// The root array's name from the store directory's file stem and
/// extension (as `Path::file_stem` and `Path::extension` give them): the
/// stem, unless there is none, it is empty, or the name is a dot-name with
/// no extension (`.zarr`, whose stem is the whole name), in which case
/// `array`. A dot-name with an extension (`.hidden.zarr`) keeps its stem.
pub open spec fn spec_root_name(stem: Option<Seq<char>>, ext: Option<Seq<char>>) -> Seq<char> {
    match stem {
        Some(s) => if s.len() > 0 && !(s[0] == '.' && ext is None) { s } else { "array"@ },
        None => "array"@,
    }
}

/// A stem of a location segment is usable when it is not empty, `.` or `..`.
pub open spec fn proper_stem() -> spec_fn(Seq<char>) -> bool {
    |s: Seq<char>| s.len() > 0 && s != seq!['.'] && s != seq!['.', '.']
}

/// The root array's name from the store directory's file stem and
/// extension (see [`spec_root_name`]).
pub fn root_name_from_parts(stem: Option<String>, ext: Option<String>) -> (r: String)
    ensures
        r@ == spec_root_name(opt_text(stem), opt_text(ext)),
{
    match stem {
        Some(s) => {
            let sc = chars_of(s.as_str());
            if sc.len() > 0 && !(sc[0] == '.' && ext.is_none()) {
                s
            } else {
                owned("array")
            }
        },
        None => owned("array"),
    }
}

/// Derives a variable name for a store whose *root* is a single array:
/// the store directory's file stem (`root.zarr` → `root`), or `array` when
/// the path has no usable stem (`/`, `.`, or a name that is only an
/// extension like `.zarr`).
pub fn root_array_name(path: &str) -> (r: String)
    ensures
        r@ == spec_root_name(path_file_stem(path@), crate::dispatch::path_extension(path@)),
        plain_component(path@) ==> r@ == spec_root_name(Some(name_stem(path@)), name_extension(path@)),
{
    root_name_from_parts(file_stem_text(path), crate::dispatch::extension_of(path))
}

/// The last `/`-separated segment of a location, trailing `/`s ignored.
pub open spec fn last_segment(location: Seq<char>) -> Seq<char> {
    let t = strip_trailing(location, '/');
    match last_index_of(t, '/') {
        Some(i) => t.skip(i + 1),
        None => t,
    }
}

/// A name from the file stem of a location's last segment: the stem when
/// it is usable (see [`proper_stem`]), else `fallback`.
pub fn proper_stem_or(stem: Option<String>, fallback: &str) -> (r: String)
    ensures
        r@ == match opt_text(stem) {
            Some(s) => if proper_stem()(s) { s } else { fallback@ },
            None => fallback@,
        },
{
    match stem {
        Some(s) => {
            let sc = chars_of(s.as_str());
            let dot = sc.len() == 1 && sc[0] == '.';
            let dots = sc.len() == 2 && sc[0] == '.' && sc[1] == '.';
            assert(dot == (s@ == seq!['.'])) by {
                if sc.len() == 1 && sc[0] == '.' {
                    assert(s@ =~= seq!['.']);
                }
            }
            assert(dots == (s@ == seq!['.', '.'])) by {
                if sc.len() == 2 && sc[0] == '.' && sc[1] == '.' {
                    assert(s@ =~= seq!['.', '.']);
                }
            }
            if sc.len() > 0 && !dot && !dots {
                s
            } else {
                owned(fallback)
            }
        },
        None => owned(fallback),
    }
}

/// Name for a store whose *root* is a single array, from its location:
/// the last path segment minus its extension (`s3://b/data/root.zarr` →
/// `root`), or `array` when there is no usable segment (`/`, `.`).
pub fn default_root_name(location: &str) -> (r: String)
    ensures
        r@ == stem_or_array(path_file_stem(last_segment(location@)), proper_stem()),
{
    let t = trim_trailing_slashes(location);
    let tv = string_from_chars(t.as_slice());
    let (_, last) = split_consolidated_key(tv.as_str());
    assert(last@ == last_segment(location@));
    proper_stem_or(file_stem_text(last.as_str()), "array")
}

/// The `ncdump -k`-style kind string for a format.
pub open spec fn spec_zarr_kind_string(format: SourceFormat) -> Seq<char> {
    match format {
        SourceFormat::ZarrV2 => "Zarr v2"@,
        SourceFormat::ZarrV3 => "Zarr v3"@,
        SourceFormat::Icechunk => "Icechunk"@,
        SourceFormat::NetCdf => "netCDF"@,
        SourceFormat::Hdf5 => "HDF5"@,
        SourceFormat::Grib => "GRIB"@,
    }
}

/// The `ncdump -k`-style kind string for a Zarr-family format.
pub fn zarr_kind_string(format: SourceFormat) -> (r: &'static str)
    ensures
        r@ == spec_zarr_kind_string(format),
{
    match format {
        SourceFormat::ZarrV2 => "Zarr v2",
        SourceFormat::ZarrV3 => "Zarr v3",
        SourceFormat::Icechunk => "Icechunk",
        SourceFormat::NetCdf => "netCDF",
        SourceFormat::Hdf5 => "HDF5",
        SourceFormat::Grib => "GRIB",
    }
}

/// The byte order a codec configuration names, if it names one.
pub fn endianness_from_str(s: &str) -> (r: Option<Endianness>)
    ensures
        r == (if s@ == "little"@ {
            Some(Endianness::Little)
        } else if s@ == "big"@ {
            Some(Endianness::Big)
        } else {
            None
        }),
{
    if str_eq(s, "little") {
        Some(Endianness::Little)
    } else if str_eq(s, "big") {
        Some(Endianness::Big)
    } else {
        None
    }
}

/// Is `k` strictly under `prefix`: does it start with it and is it longer?
pub open spec fn strictly_under(prefix: Seq<char>, k: Seq<char>) -> bool {
    prefix.is_prefix_of(k) && k.len() > prefix.len()
}

/// Strictly increasing in `String`'s order.
pub open spec fn strictly_sorted(keys: Seq<String>) -> bool {
    forall|i: int, j: int| 0 <= i < j < keys.len() ==> lex_lt(#[trigger] keys[i]@, #[trigger] keys[j]@)
}

/// The keys strictly under `prefix`, in order.
pub open spec fn spec_keys_under(keys: Seq<String>, prefix: Seq<char>) -> Seq<Seq<char>> {
    strings_view(keys).filter(|k: Seq<char>| strictly_under(prefix, k))
}

/// A proper extension sorts after the sequence it extends.
proof fn lemma_extension_after(p: Seq<char>, k: Seq<char>)
    requires
        strictly_under(p, k),
    ensures
        lex_lt(p, k),
    decreases p.len(),
{
    if p.len() > 0 {
        assert(k[0] == p[0]);
        assert(strictly_under(p.drop_first(), k.drop_first())) by {
            assert(p.drop_first() =~= k.drop_first().subrange(0, p.len() - 1));
        }
        lemma_extension_after(p.drop_first(), k.drop_first());
    }
}

/// Once a key after `p` does not extend it, no later key does.
proof fn lemma_block_ends(p: Seq<char>, a: Seq<char>, b: Seq<char>)
    requires
        lex_lt(p, a),
        !p.is_prefix_of(a),
        lex_lt(a, b),
    ensures
        !p.is_prefix_of(b),
    decreases p.len(),
{
    if p.is_prefix_of(b) {
        if p.len() == 0 {
            assert(p =~= a.subrange(0, 0));
        } else {
            assert(b[0] == p[0]);
            assert(a.len() > 0);
            if a[0] != p[0] {
                // a[0] > p[0] == b[0], contradicting a < b
                assert(a[0] > p[0]);
                assert(lex_lt(a, b) == (a[0] < b[0]));
            } else {
                assert(p.drop_first().is_prefix_of(b.drop_first())) by {
                    assert(p.drop_first() =~= b.drop_first().subrange(0, p.len() - 1));
                }
                assert(!p.drop_first().is_prefix_of(a.drop_first())) by {
                    if p.drop_first().is_prefix_of(a.drop_first()) {
                        assert forall|i: int| 0 <= i < p.len() implies p[i] == a[i] by {
                            if i > 0 {
                                assert(p[i] == p.drop_first()[i - 1]);
                                assert(a[i] == a.drop_first()[i - 1]);
                            }
                        }
                        assert(p =~= a.subrange(0, p.len() as int));
                    }
                }
                lemma_block_ends(p.drop_first(), a.drop_first(), b.drop_first());
            }
        }
    }
}

/// Entries of `keys` (sorted, distinct) that lie strictly under `prefix`
/// (start with it and are longer). Sorted keys keep every key sharing a
/// prefix contiguous, so this is a scan to the first key past `prefix`
/// that stops at the first key past the block.
pub fn keys_under(keys: &[String], prefix: &str) -> (r: Vec<String>)
    requires
        strictly_sorted(keys@),
    ensures
        strings_view(r@) == spec_keys_under(keys@, prefix@),
{
    let n = keys.len();
    let mut start: usize = 0;
    while start < n && !str_lt(prefix, keys[start].as_str())
        invariant
            start <= n == keys.len(),
            forall|j: int| 0 <= j < start ==> !lex_lt(prefix@, #[trigger] keys@[j]@),
        decreases n - start,
    {
        start = start + 1;
    }
    let mut out: Vec<String> = Vec::new();
    let mut end: usize = start;
    let pc = chars_of(prefix);
    proof {
        assert forall|j: int| 0 <= j < keys@.take(start as int).len()
            implies !strictly_under(prefix@, #[trigger] keys@.take(start as int)[j]@) by {
            if strictly_under(prefix@, keys@[j]@) {
                lemma_extension_after(prefix@, keys@[j]@);
            }
        }
        lemma_keys_under_none(keys@.take(start as int), prefix@);
    }
    while end < n
        invariant
            start <= end <= n == keys.len(),
            pc@ == prefix@,
            strictly_sorted(keys@),
            start < n ==> lex_lt(prefix@, keys@[start as int]@),
            forall|j: int| 0 <= j < start ==> !lex_lt(prefix@, #[trigger] keys@[j]@),
            forall|j: int| start <= j < end ==> strictly_under(prefix@, #[trigger] keys@[j]@),
            strings_view(out@) == spec_keys_under(keys@.take(end as int), prefix@),
        ensures
            end < n ==> !prefix@.is_prefix_of(keys@[end as int]@),
            start <= end <= n,
            strings_view(out@) == spec_keys_under(keys@.take(end as int), prefix@),
        decreases n - end,
    {
        let kc = chars_of(keys[end].as_str());
        if !chars_start_with(kc.as_slice(), pc.as_slice()) {
            break;
        }
        proof {
            if end > start {
                lemma_lex_transitive(prefix@, keys@[start as int]@, keys@[end as int]@);
            }
            assert(lex_lt(prefix@, keys@[end as int]@));
            lemma_lex_irreflexive(prefix@);
            assert(keys@[end as int]@.len() > prefix@.len()) by {
                if keys@[end as int]@.len() == prefix@.len() {
                    assert(keys@[end as int]@ =~= prefix@);
                }
            }
            let t = keys@.take(end + 1);
            assert(strings_view(t) =~= strings_view(keys@.take(end as int)).push(keys@[end as int]@));
            assert(strings_view(t).drop_last() =~= strings_view(keys@.take(end as int)));
            assert(strings_view(t).last() == keys@[end as int]@);
            reveal(Seq::filter);
        }
        let ghost before = out@;
        out.push(keys[end].clone());
        assert(strings_view(out@) =~= strings_view(before).push(keys@[end as int]@));
        end = end + 1;
    }
    proof {
        reveal(Seq::filter);
        lemma_filter_rest(keys@, prefix@, start as int, end as int);
    }
    out
}

/// The keys before `start` and from `end` on are not under `prefix`, so
/// the block between is the whole answer.
proof fn lemma_filter_rest(keys: Seq<String>, prefix: Seq<char>, start: int, end: int)
    requires
        0 <= start <= end <= keys.len(),
        strictly_sorted(keys),
        start < keys.len() ==> lex_lt(prefix, keys[start]@),
        forall|j: int| 0 <= j < start ==> !lex_lt(prefix, #[trigger] keys[j]@),
        end < keys.len() ==> !prefix.is_prefix_of(keys[end]@),
    ensures
        spec_keys_under(keys, prefix) == spec_keys_under(keys.take(end), prefix),
    decreases keys.len() - end,
{
    reveal(Seq::filter);
    if end < keys.len() {
        assert forall|m: int| end <= m < keys.len() implies !strictly_under(prefix, #[trigger] keys[m]@) by {
            if m > end {
                if end > start {
                    lemma_lex_transitive(prefix, keys[start]@, keys[end]@);
                }
                lemma_block_ends(prefix, keys[end]@, keys[m]@);
            }
        }
        lemma_filter_suffix_out(keys, prefix, end);
    } else {
        assert(keys.take(end) == keys);
    }
}

/// No key under `prefix`, nothing in the answer.
proof fn lemma_keys_under_none(keys: Seq<String>, prefix: Seq<char>)
    requires
        forall|j: int| 0 <= j < keys.len() ==> !strictly_under(prefix, #[trigger] keys[j]@),
    ensures
        spec_keys_under(keys, prefix) == Seq::<Seq<char>>::empty(),
    decreases keys.len(),
{
    reveal(Seq::filter);
    if keys.len() > 0 {
        let d = keys.drop_last();
        assert forall|j: int| 0 <= j < d.len() implies !strictly_under(prefix, #[trigger] d[j]@) by {
            assert(d[j] == keys[j]);
        }
        lemma_keys_under_none(d, prefix);
        assert(strings_view(keys).drop_last() =~= strings_view(d));
        assert(strings_view(keys).last() == keys[keys.len() - 1]@);
    } else {
        assert(strings_view(keys).len() == 0);
    }
}

/// Dropping a tail of non-members does not change a filter.
proof fn lemma_filter_suffix_out(keys: Seq<String>, prefix: Seq<char>, end: int)
    requires
        0 <= end <= keys.len(),
        forall|m: int| end <= m < keys.len() ==> !strictly_under(prefix, #[trigger] keys[m]@),
    ensures
        spec_keys_under(keys, prefix) == spec_keys_under(keys.take(end), prefix),
    decreases keys.len() - end,
{
    reveal(Seq::filter);
    if end < keys.len() {
        lemma_filter_suffix_out(keys, prefix, end + 1);
        let t = keys.take(end + 1);
        assert(strings_view(t) =~= strings_view(keys.take(end)).push(keys[end]@));
        assert(strings_view(t).drop_last() == strings_view(keys.take(end)));
    } else {
        assert(keys.take(end) == keys);
    }
}


/// Deepest group nesting the directory walkers follow. No real hierarchy
/// is anywhere near this deep; the cap keeps a pathological store (a
/// symlink loop the store could not detect, say) from exhausting a small
/// stack.
pub const MAX_GROUP_DEPTH: usize = 64;

/// Why a walker refuses to descend into a group.
#[derive(Debug, Clone, Copy, PartialEq, Eq, Structural)]
pub enum WalkRefusal {
    /// The group resolves to one of the groups being walked.
    Loop,
    /// The walk is already [`MAX_GROUP_DEPTH`] groups deep.
    TooDeep,
}

/// The groups a directory walk is inside, by canonical path, root first:
/// what it takes to refuse a symlink loop and to cap the nesting depth.
#[derive(Debug, Clone, PartialEq, Eq)]
pub struct WalkGuard {
    pub ancestors: Vec<String>,
}

/// Entering the group whose canonical path is `dir` while inside
/// `ancestors`: the ancestors afterwards, or why the walk may not enter.
pub open spec fn spec_enter(ancestors: Seq<Seq<char>>, dir: Seq<char>) -> Result<Seq<Seq<char>>, WalkRefusal> {
    if ancestors.contains(dir) {
        Err(WalkRefusal::Loop)
    } else if ancestors.len() >= MAX_GROUP_DEPTH {
        Err(WalkRefusal::TooDeep)
    } else {
        Ok(ancestors.push(dir))
    }
}

impl WalkGuard {
    /// A walk that has entered no group yet.
    pub fn new() -> (r: Self)
        ensures
            r.ancestors@.len() == 0,
    {
        WalkGuard { ancestors: Vec::new() }
    }

    /// Registers the group whose canonical path is `dir` as the one now
    /// walked (call [`Self::leave`] once its children are done), unless it
    /// is one of the groups being walked or the walk is too deep already.
    pub fn enter(&mut self, dir: String) -> (r: Result<(), WalkRefusal>)
        ensures
            match spec_enter(strings_view(old(self).ancestors@), dir@) {
                Ok(a) => r is Ok && strings_view(final(self).ancestors@) == a,
                Err(e) => r == Err::<(), WalkRefusal>(e) && final(self).ancestors@ == old(self).ancestors@,
            },
    {
        if crate::group::contains_str(&self.ancestors, dir.as_str()) {
            return Err(WalkRefusal::Loop);
        }
        if self.ancestors.len() >= MAX_GROUP_DEPTH {
            return Err(WalkRefusal::TooDeep);
        }
        let ghost before = strings_view(self.ancestors@);
        self.ancestors.push(dir);
        assert(strings_view(self.ancestors@) =~= before.push(dir@));
        Ok(())
    }

    /// Marks the innermost group as done.
    pub fn leave(&mut self)
        ensures
            final(self).ancestors@ == if old(self).ancestors@.len() == 0 {
                old(self).ancestors@
            } else {
                old(self).ancestors@.drop_last()
            },
    {
        let _ = self.ancestors.pop();
    }
}

/// Entering a group and then leaving it gives back the walk's state as it
/// was.
pub proof fn lemma_enter_then_leave(ancestors: Seq<Seq<char>>, dir: Seq<char>)
    ensures
        spec_enter(ancestors, dir) matches Ok(a) ==> a.drop_last() == ancestors,
{
    if let Ok(a) = spec_enter(ancestors, dir) {
        assert(a.drop_last() =~= ancestors);
    }
}

/// The message of a refused descent into the group whose canonical path
/// is `dir`.
pub fn walk_refusal_message(refusal: WalkRefusal, dir: &str) -> (r: String)
    ensures
        r@ == match refusal {
            WalkRefusal::Loop => "symlink loop: resolves to the enclosing group "@ + dir@,
            WalkRefusal::TooDeep => "group nesting deeper than 64 levels"@,
        },
{
    match refusal {
        WalkRefusal::Loop => {
            let mut s = owned("symlink loop: resolves to the enclosing group ");
            push_str(&mut s, dir);
            s
        },
        WalkRefusal::TooDeep => owned("group nesting deeper than 64 levels"),
    }
}

/// Whether a walker about to descend to `depth` groups below the root goes
/// past [`MAX_GROUP_DEPTH`].
pub fn too_deep(depth: usize) -> (r: bool)
    ensures
        r == (depth > MAX_GROUP_DEPTH),
{
    depth > MAX_GROUP_DEPTH
}


/// Numpy-style dtype string for a Zarr v3 `data_type` name: the scalar
/// type names Zarr v3 defines already match numpy's; `"string"` (Zarr v3's
/// variable-length UTF-8 type) has no fixed-width numpy equivalent and is
/// reported as `object`, as xarray displays it.
pub fn v3_dtype_name(name: &str) -> (r: String)
    ensures
        r@ == if name@ == "string"@ { "object"@ } else { name@ },
{
    if str_eq(name, "string") {
        owned("object")
    } else {
        owned(name)
    }
}

/// The byte order a Zarr v2 typestring states: `<` little, `>` big, and
/// none for `|`, `=` or anything else.
pub fn typestring_endianness(dtype: &str) -> (r: Option<Endianness>)
    ensures
        r == if dtype@.len() > 0 && dtype@[0] == '<' {
            Some(Endianness::Little)
        } else if dtype@.len() > 0 && dtype@[0] == '>' {
            Some(Endianness::Big)
        } else {
            None::<Endianness>
        },
{
    let cs = chars_of(dtype);
    if cs.len() > 0 && cs[0] == '<' {
        Some(Endianness::Little)
    } else if cs.len() > 0 && cs[0] == '>' {
        Some(Endianness::Big)
    } else {
        None
    }
}

/// A chunk-key encoding as `ncdump -s` shows it: its name followed by its
/// separator, which defaults to `.` for the `v2` encoding and `/`
/// otherwise.
pub fn chunk_key_encoding_text(name: &str, separator: Option<&str>) -> (r: String)
    ensures
        r@ == name@ + match separator {
            Some(s) => s@,
            None => if name@ == "v2"@ { seq!['.'] } else { seq!['/'] },
        },
{
    let mut s = owned(name);
    match separator {
        Some(sep) => push_str(&mut s, sep),
        None => {
            if str_eq(name, "v2") {
                push_char(&mut s, '.');
            } else {
                push_char(&mut s, '/');
            }
        },
    }
    s
}


/// The resolved dimension names are exactly one per axis, whatever names
/// were given, so they always zip against the shape.
pub proof fn lemma_resolved_dims_fit_shape(names: Option<Seq<Option<String>>>, ndim: nat)
    ensures
        spec_resolve_dim_names(names, ndim).len() == ndim,
{
}

/// Splitting a consolidated-metadata key and joining the two parts gives
/// the key back, unless its only `/` separates an empty node path
/// (`/x`), where the join drops it.
pub proof fn lemma_join_undoes_split(key: Seq<char>)
    requires
        last_index_of(key, '/') != Some(0int),
    ensures
        spec_join_key(spec_split_consolidated_key(key).0, spec_split_consolidated_key(key).1) == key,
{
    lemma_last_index_of_is(key);
    match last_index_of(key, '/') {
        Some(i) => {
            assert(key.take(i) + seq!['/'] + key.skip(i + 1) =~= key);
        },
        None => {},
    }
}

/// Where `last_index_of` finds a character.
proof fn lemma_last_index_of_is(s: Seq<char>)
    ensures
        match last_index_of(s, '/') {
            Some(i) => 0 <= i < s.len() && s[i] == '/',
            None => true,
        },
    decreases s.len(),
{
    if s.len() > 0 && s.last() != '/' {
        lemma_last_index_of_is(s.drop_last());
    }
}

/// One codec of a Zarr v3 array's chain, as the storage report reads it:
/// its name, its configuration as compact JSON text (`None` when there is
/// none or it is empty), and the `endian` text its configuration holds, if
/// any.
pub struct CodecSpec {
    pub name: String,
    pub configuration: Option<String>,
    pub endian: Option<String>,
}

/// An optional string, by its view.
pub open spec fn opt_text(o: Option<String>) -> Option<Seq<char>> {
    match o {
        Some(t) => Some(t@),
        None => None,
    }
}

/// The `endian` of the first codec named `bytes`, if there is such a codec
/// and it names one.
pub open spec fn first_bytes_endian(codecs: Seq<CodecSpec>) -> Option<Seq<char>>
    decreases codecs.len(),
{
    if codecs.len() == 0 {
        None
    } else if codecs[0].name@ == "bytes"@ {
        opt_text(codecs[0].endian)
    } else {
        first_bytes_endian(codecs.drop_first())
    }
}

/// The byte order an `endian` text names.
pub open spec fn endian_named(e: Option<Seq<char>>) -> Option<Endianness> {
    match e {
        Some(s) => if s == "little"@ {
            Some(Endianness::Little)
        } else if s == "big"@ {
            Some(Endianness::Big)
        } else {
            None
        },
        None => None,
    }
}

/// The chunk key encoding text: the encoding's name, then its separator
/// (`.` for `v2` and `/` otherwise when none is given).
pub open spec fn spec_chunk_key_encoding(name: Seq<char>, separator: Option<Seq<char>>) -> Seq<char> {
    name + match separator {
        Some(s) => s,
        None => if name == "v2"@ {
            seq!['.']
        } else {
            seq!['/']
        },
    }
}

/// `r` lists `codecs` in order, names and configurations kept.
pub open spec fn codecs_listed(r: Seq<crate::model::CodecInfo>, codecs: Seq<CodecSpec>) -> bool {
    &&& r.len() == codecs.len()
    &&& forall|i: int| 0 <= i < r.len() ==> #[trigger] r[i].name@ == codecs[i].name@ && opt_text(r[i].configuration) == opt_text(codecs[i].configuration)
}

/// A storage report with nothing but what Zarr metadata describes: chunked
/// layout, and none of netCDF's deflate, shuffle, checksum, fill-mode and
/// filter details.
pub open spec fn zarr_storage_base(r: crate::model::StorageInfo) -> bool {
    &&& r.layout == Some(crate::model::StorageLayout::Chunked)
    &&& r.deflate_level is None
    &&& !r.shuffle
    &&& !r.fletcher32
    &&& !r.no_fill
    &&& r.filters@.len() == 0
}

/// The storage details of a Zarr v3 array: chunked, its codec chain in
/// order, the byte order that its first `bytes` codec names, its metadata
/// fill value, and its chunk key encoding with the given separator.
pub fn v3_storage_info(
    codecs: Vec<CodecSpec>,
    fill_value: Option<crate::model::AttrValue>,
    key_encoding: &str,
    separator: Option<&str>,
) -> (r: crate::model::StorageInfo)
    ensures
        zarr_storage_base(r),
        codecs_listed(r.codecs@, codecs@),
        r.endianness == endian_named(first_bytes_endian(codecs@)),
        r.fill_value == fill_value,
        r.order is None,
        r.chunk_key_encoding matches Some(t) && t@ == spec_chunk_key_encoding(
            key_encoding@,
            match separator {
                Some(s) => Some(s@),
                None => None,
            },
        ),
{
    let ghost orig = codecs@;
    let mut endianness: Option<Endianness> = None;
    let mut seen_bytes = false;
    let mut infos: Vec<crate::model::CodecInfo> = Vec::new();
    let mut rest = codecs;
    let n = rest.len();
    let mut i: usize = 0;
    proof {
        assert(orig.skip(0) =~= orig);
    }
    while rest.len() > 0
        invariant
            i + rest@.len() == n,
            n == orig.len(),
            rest@ == orig.skip(i as int),
            infos@.len() == i,
            forall|j: int| 0 <= j < i ==> #[trigger] infos@[j].name@ == orig[j].name@ && opt_text(infos@[j].configuration)
                == opt_text(orig[j].configuration),
            seen_bytes ==> endianness == endian_named(first_bytes_endian(orig)),
            !seen_bytes ==> first_bytes_endian(orig) == first_bytes_endian(orig.skip(i as int)),
            !seen_bytes ==> endianness is None,
        decreases rest.len(),
    {
        let c = rest.remove(0);
        proof {
            assert(c == orig[i as int]);
            assert(orig.skip(i as int).drop_first() =~= orig.skip(i + 1));
            assert(orig.skip(i as int)[0] == c);
        }
        if !seen_bytes && str_eq(c.name.as_str(), "bytes") {
            seen_bytes = true;
            endianness = match &c.endian {
                Some(e) => endianness_from_str(e.as_str()),
                None => None,
            };
        }
        infos.push(crate::model::CodecInfo { name: c.name, configuration: c.configuration });
        i = i + 1;
    }
    proof {
        assert(orig.skip(n as int).len() == 0);
    }
    crate::model::StorageInfo {
        layout: Some(crate::model::StorageLayout::Chunked),
        deflate_level: None,
        shuffle: false,
        fletcher32: false,
        endianness,
        no_fill: false,
        filters: Vec::new(),
        codecs: infos,
        fill_value,
        order: None,
        chunk_key_encoding: Some(chunk_key_encoding_text(key_encoding, separator)),
    }
}

/// The storage details of a Zarr v2 array: chunked, its filters then its
/// compressor as the codec chain (`codecs`, in that order), the byte order
/// that its typestring dtype names (none for a structured dtype, given as
/// `None`), its fill value, its memory order, and `v2` with its dimension
/// separator as the chunk key encoding.
pub fn v2_storage_info(
    codecs: Vec<crate::model::CodecInfo>,
    typestring: Option<&str>,
    fill_value: Option<crate::model::AttrValue>,
    order: char,
    separator: char,
) -> (r: crate::model::StorageInfo)
    ensures
        zarr_storage_base(r),
        r.codecs == codecs,
        r.endianness == match typestring {
            Some(t) => if t@.len() > 0 && t@[0] == '<' {
                Some(Endianness::Little)
            } else if t@.len() > 0 && t@[0] == '>' {
                Some(Endianness::Big)
            } else {
                None
            },
            None => None,
        },
        r.fill_value == fill_value,
        r.order == Some(order),
        r.chunk_key_encoding matches Some(t) && t@ == "v2"@.push(separator),
{
    let endianness = match typestring {
        Some(t) => typestring_endianness(t),
        None => None,
    };
    let mut sep = String::new();
    push_char(&mut sep, separator);
    let cke = chunk_key_encoding_text("v2", Some(sep.as_str()));
    proof {
        assert(sep@ =~= seq![separator]);
        reveal_strlit("v2");
        assert("v2"@ + seq![separator] =~= "v2"@.push(separator));
    }
    crate::model::StorageInfo {
        layout: Some(crate::model::StorageLayout::Chunked),
        deflate_level: None,
        shuffle: false,
        fletcher32: false,
        endianness,
        no_fill: false,
        filters: Vec::new(),
        codecs,
        fill_value,
        order: Some(order),
        chunk_key_encoding: Some(cke),
    }
}

/// The `f64` bit pattern of NaN.
pub const F64_NAN_BITS: u64 = 0x7ff8_0000_0000_0000;
/// The `f32` bit pattern of NaN.
pub const F32_NAN_BITS: u32 = 0x7fc0_0000;
/// The `f64` bit pattern of positive infinity.
pub const F64_INFINITY_BITS: u64 = 0x7ff0_0000_0000_0000;
/// The `f32` bit pattern of positive infinity.
pub const F32_INFINITY_BITS: u32 = 0x7f80_0000;
/// The `f64` bit pattern of negative infinity.
pub const F64_NEG_INFINITY_BITS: u64 = 0xfff0_0000_0000_0000;
/// The `f32` bit pattern of negative infinity.
pub const F32_NEG_INFINITY_BITS: u32 = 0xff80_0000;

/// A float fill value, typed by the array's dtype: `float32` arrays get a
/// 32-bit float, everything else a 64-bit one.
pub open spec fn typed_float(is_f32: bool, bits: u64, narrow: u32) -> crate::model::AttrValueV {
    if is_f32 {
        crate::model::AttrValueV::Float32(narrow)
    } else {
        crate::model::AttrValueV::Float(bits)
    }
}

/// A Zarr array's fill value as an attribute value, typed by its dtype.
pub open spec fn spec_fill_value_attr(fill: crate::json::JsonValue, narrow: u32, dtype: Seq<char>) -> Option<crate::model::AttrValueV> {
    let is_f32 = dtype == "float32"@;
    let is_float = "float"@.is_prefix_of(dtype);
    match fill {
        crate::json::JsonValue::Null => None,
        crate::json::JsonValue::Bool(b) => Some(crate::model::AttrValueV::Text(if b { "true"@ } else { "false"@ })),
        crate::json::JsonValue::Number { integer, bits } => match integer {
            Some(i) => if !is_float {
                Some(crate::model::AttrValueV::Int(i))
            } else {
                Some(typed_float(is_f32, bits, narrow))
            },
            None => Some(typed_float(is_f32, bits, narrow)),
        },
        crate::json::JsonValue::String(t) => if t@ == "NaN"@ {
            Some(typed_float(is_f32, F64_NAN_BITS, F32_NAN_BITS))
        } else if t@ == "Infinity"@ {
            Some(typed_float(is_f32, F64_INFINITY_BITS, F32_INFINITY_BITS))
        } else if t@ == "-Infinity"@ {
            Some(typed_float(is_f32, F64_NEG_INFINITY_BITS, F32_NEG_INFINITY_BITS))
        } else {
            Some(crate::model::AttrValueV::Text(t@))
        },
        crate::json::JsonValue::Array { text, .. } => Some(crate::model::AttrValueV::Text(text@)),
        crate::json::JsonValue::Object { text } => Some(crate::model::AttrValueV::Text(text@)),
    }
}

/// A Zarr array's `fill_value` (v2 and v3 share its form) as an attribute
/// value, typed to match the array's `dtype` where that is unambiguous:
/// `null` (v2's "no fill value") is none; `true`/`false` are text; an
/// integer is an integer unless the dtype is a float; any other number, and
/// the texts `"NaN"`, `"Infinity"` and `"-Infinity"`, is a float, 32-bit
/// for a `float32` array (`narrow` is the number as an `f32` bit pattern)
/// and 64-bit otherwise; other text is text; arrays and objects are their
/// JSON text.
pub fn fill_value_attr(fill: &crate::json::JsonValue, narrow: u32, dtype: &str) -> (r: Option<crate::model::AttrValue>)
    ensures
        match r {
            Some(a) => spec_fill_value_attr(*fill, narrow, dtype@) == Some(a@),
            None => spec_fill_value_attr(*fill, narrow, dtype@) is None,
        },
{
    let is_f32 = str_eq(dtype, "float32");
    let is_float = chars_start_with(chars_of(dtype).as_slice(), chars_of("float").as_slice());
    let float_of = |bits: u64, narrow_bits: u32| -> (a: crate::model::AttrValue)
        ensures
            a@ == typed_float(is_f32, bits, narrow_bits),
        {
            if is_f32 {
                crate::model::AttrValue::Float32(narrow_bits)
            } else {
                crate::model::AttrValue::Float(bits)
            }
        };
    match fill {
        crate::json::JsonValue::Null => None,
        crate::json::JsonValue::Bool(b) => Some(crate::model::AttrValue::Text(if *b {
            owned("true")
        } else {
            owned("false")
        })),
        crate::json::JsonValue::Number { integer, bits } => match integer {
            Some(i) => if !is_float {
                Some(crate::model::AttrValue::Int(*i))
            } else {
                Some(float_of(*bits, narrow))
            },
            None => Some(float_of(*bits, narrow)),
        },
        crate::json::JsonValue::String(t) => {
            if str_eq(t.as_str(), "NaN") {
                Some(float_of(F64_NAN_BITS, F32_NAN_BITS))
            } else if str_eq(t.as_str(), "Infinity") {
                Some(float_of(F64_INFINITY_BITS, F32_INFINITY_BITS))
            } else if str_eq(t.as_str(), "-Infinity") {
                Some(float_of(F64_NEG_INFINITY_BITS, F32_NEG_INFINITY_BITS))
            } else {
                Some(crate::model::AttrValue::Text(owned(t.as_str())))
            }
        },
        crate::json::JsonValue::Array { text, .. } => Some(crate::model::AttrValue::Text(owned(text.as_str()))),
        crate::json::JsonValue::Object { text } => Some(crate::model::AttrValue::Text(owned(text.as_str()))),
    }
}

/// The position of the first member named `key`.
pub open spec fn member_pos(members: Seq<(String, crate::json::JsonValue)>, key: Seq<char>) -> Option<int>
    decreases members.len(),
{
    if members.len() == 0 {
        None
    } else if members[0].0@ == key {
        Some(0)
    } else {
        match member_pos(members.drop_first(), key) {
            Some(i) => Some(i + 1),
            None => None,
        }
    }
}

/// An array item as a dimension name: its text when it is a string.
pub open spec fn item_name(item: crate::json::JsonItem) -> Option<Seq<char>> {
    match item {
        crate::json::JsonItem::String(s) => Some(s@),
        _ => None,
    }
}

/// The dimension names xarray records in a Zarr v2 array's
/// `_ARRAY_DIMENSIONS` attribute.
pub open spec fn spec_array_dimensions(members: Seq<(String, crate::json::JsonValue)>) -> Option<Seq<Option<Seq<char>>>> {
    match member_pos(members, "_ARRAY_DIMENSIONS"@) {
        Some(i) => match members[i].1 {
            crate::json::JsonValue::Array { items, .. } => Some(items@.map_values(|item: crate::json::JsonItem| item_name(item))),
            _ => None,
        },
        None => None,
    }
}

/// An optional name, by its view.
pub open spec fn opt_name(o: Option<String>) -> Option<Seq<char>> {
    match o {
        Some(s) => Some(s@),
        None => None,
    }
}

/// The dimension names xarray records in a Zarr v2 array's attributes (its
/// JSON members, in order): the `_ARRAY_DIMENSIONS` list, each string item
/// a name and any other item none; `None` when the attribute is missing or
/// not a list.
pub fn array_dimensions(members: &Vec<(String, crate::json::JsonValue)>) -> (r: Option<Vec<Option<String>>>)
    ensures
        match r {
            Some(v) => spec_array_dimensions(members@) == Some(v@.map_values(|o: Option<String>| opt_name(o))),
            None => spec_array_dimensions(members@) is None,
        },
{
    let mut i: usize = 0;
    proof {
        assert(members@.skip(0) =~= members@);
    }
    while i < members.len()
        invariant
            i <= members.len(),
            forall|j: int| 0 <= j < i ==> members@[j].0@ != "_ARRAY_DIMENSIONS"@,
            member_pos(members@, "_ARRAY_DIMENSIONS"@) == match member_pos(members@.skip(i as int), "_ARRAY_DIMENSIONS"@) {
                Some(k) => Some(k + i),
                None => None,
            },
        decreases members.len() - i,
    {
        proof {
            assert(members@.skip(i as int).drop_first() =~= members@.skip(i + 1));
            assert(members@.skip(i as int)[0] == members@[i as int]);
        }
        if str_eq(members[i].0.as_str(), "_ARRAY_DIMENSIONS") {
            match &members[i].1 {
                crate::json::JsonValue::Array { items, .. } => {
                    let mut names: Vec<Option<String>> = Vec::new();
                    let mut k: usize = 0;
                    while k < items.len()
                        invariant
                            k <= items.len(),
                            names@.len() == k,
                            forall|j: int| 0 <= j < k ==> opt_name(#[trigger] names@[j]) == item_name(items@[j]),
                        decreases items.len() - k,
                    {
                        let name = match &items[k] {
                            crate::json::JsonItem::String(s) => Some(owned(s.as_str())),
                            _ => None,
                        };
                        names.push(name);
                        k = k + 1;
                    }
                    proof {
                        assert(names@.map_values(|o: Option<String>| opt_name(o)) =~= items@.map_values(
                            |item: crate::json::JsonItem| item_name(item),
                        ));
                    }
                    return Some(names);
                },
                _ => {
                    return None;
                },
            }
        }
        i = i + 1;
    }
    proof {
        assert(members@.skip(i as int).len() == 0);
    }
    None
}

/// How a Zarr store's root is read, by the document found there.
#[derive(Debug, Clone, Copy, PartialEq, Eq, Structural)]
pub enum ZarrRoot {
    /// `zarr.json`: a v3 group (consolidated or walked) or array.
    V3,
    /// `.zmetadata`: a v2 store read from its consolidated metadata.
    V2Consolidated,
    /// `.zgroup`: a v2 group, walked.
    V2Group,
    /// `.zarray`: a v2 store whose root is a single array.
    V2Array,
}

/// How many root documents are looked for.
pub const ZARR_ROOT_DOC_COUNT: usize = 4;

/// The root documents in the order they are looked for, and how each is
/// read.
pub open spec fn spec_zarr_root_doc(i: nat) -> (Seq<char>, ZarrRoot) {
    if i == 0 {
        ("zarr.json"@, ZarrRoot::V3)
    } else if i == 1 {
        (".zmetadata"@, ZarrRoot::V2Consolidated)
    } else if i == 2 {
        (".zgroup"@, ZarrRoot::V2Group)
    } else {
        (".zarray"@, ZarrRoot::V2Array)
    }
}

/// Root document `i` (below [`ZARR_ROOT_DOC_COUNT`]) and how a store whose
/// first root document found is that one is read: `zarr.json` first
/// (v3), then v2's consolidated `.zmetadata`, then `.zgroup`, then
/// `.zarray`.
pub fn zarr_root_doc(i: usize) -> (r: (&'static str, ZarrRoot))
    requires
        i < ZARR_ROOT_DOC_COUNT,
    ensures
        (r.0@, r.1) == spec_zarr_root_doc(i as nat),
{
    if i == 0 {
        ("zarr.json", ZarrRoot::V3)
    } else if i == 1 {
        (".zmetadata", ZarrRoot::V2Consolidated)
    } else if i == 2 {
        (".zgroup", ZarrRoot::V2Group)
    } else {
        (".zarray", ZarrRoot::V2Array)
    }
}

} // verus!
