//! Ordering by name: the laws of `String`'s order, and the stable sort by
//! name that every group builder applies.

use vstd::prelude::*;
use crate::text::{lex_lt, lex_le, str_eq, str_lt, strings_view};

verus! {

/// `lex_lt` never relates a sequence to itself.
pub proof fn lemma_lex_irreflexive(a: Seq<char>)
    ensures
        !lex_lt(a, a),
    decreases a.len(),
{
    if a.len() > 0 {
        lemma_lex_irreflexive(a.drop_first());
    }
}

/// `lex_lt` is transitive.
pub proof fn lemma_lex_transitive(a: Seq<char>, b: Seq<char>, c: Seq<char>)
    requires
        lex_lt(a, b),
        lex_lt(b, c),
    ensures
        lex_lt(a, c),
    decreases a.len(),
{
    if a.len() > 0 && b.len() > 0 && c.len() > 0 {
        if a[0] == b[0] && b[0] == c[0] {
            lemma_lex_transitive(a.drop_first(), b.drop_first(), c.drop_first());
        }
    }
}

/// Any two distinct sequences are ordered one way or the other.
pub proof fn lemma_lex_total(a: Seq<char>, b: Seq<char>)
    ensures
        a == b || lex_lt(a, b) || lex_lt(b, a),
    decreases a.len(),
{
    if a.len() > 0 && b.len() > 0 {
        if a[0] == b[0] {
            lemma_lex_total(a.drop_first(), b.drop_first());
            if a.drop_first() == b.drop_first() {
                assert(a =~= seq![a[0]] + a.drop_first());
                assert(b =~= seq![b[0]] + b.drop_first());
            }
        }
    } else if a.len() == 0 && b.len() == 0 {
        assert(a =~= b);
    }
}

/// A value with a name, by which groups order their members.
pub trait Named {
    spec fn key(&self) -> Seq<char>;

    fn name_str(&self) -> (r: &str)
        ensures
            r@ == self.key(),
    ;
}

/// Where a stable insertion places `k` in `s`: before the first element
/// whose key is greater than `k`.
pub open spec fn insert_pos<T: Named>(s: Seq<T>, k: Seq<char>) -> nat
    decreases s.len(),
{
    if s.len() == 0 {
        0
    } else if lex_lt(k, s[0].key()) {
        0
    } else {
        1 + insert_pos(s.drop_first(), k)
    }
}

/// `s` sorted by key, stably (equal keys keep their relative order): each
/// element in turn is inserted after every earlier element whose key is not
/// greater than its own. This is the order `sort_by(|a, b|
/// a.name.cmp(&b.name))` produces.
pub open spec fn sort_by_key<T: Named>(s: Seq<T>) -> Seq<T>
    decreases s.len(),
{
    if s.len() == 0 {
        s
    } else {
        let rest = sort_by_key(s.drop_last());
        rest.insert(insert_pos(rest, s.last().key()) as int, s.last())
    }
}

/// Keys never decrease along `s`.
pub open spec fn sorted_by_key<T: Named>(s: Seq<T>) -> bool {
    forall|i: int, j: int| 0 <= i < j < s.len() ==> lex_le(#[trigger] s[i].key(), #[trigger] s[j].key())
}

proof fn lemma_insert_pos_bound<T: Named>(s: Seq<T>, k: Seq<char>)
    ensures
        insert_pos(s, k) <= s.len(),
    decreases s.len(),
{
    if s.len() > 0 {
        lemma_insert_pos_bound(s.drop_first(), k);
    }
}

pub proof fn lemma_insert_pos_props<T: Named>(s: Seq<T>, k: Seq<char>)
    ensures
        insert_pos(s, k) <= s.len(),
        forall|i: int| 0 <= i < insert_pos(s, k) ==> !lex_lt(k, #[trigger] s[i].key()),
        insert_pos(s, k) < s.len() ==> lex_lt(k, s[insert_pos(s, k) as int].key()),
    decreases s.len(),
{
    if s.len() > 0 && !lex_lt(k, s[0].key()) {
        lemma_insert_pos_props(s.drop_first(), k);
        assert forall|i: int| 0 <= i < insert_pos(s, k) implies !lex_lt(k, #[trigger] s[i].key()) by {
            if i > 0 {
                assert(s[i] == s.drop_first()[i - 1]);
            }
        }
    }
}

/// Sorting keeps the length and yields keys in non-decreasing order.
pub proof fn lemma_sort_by_key_sorted<T: Named>(s: Seq<T>)
    ensures
        sort_by_key(s).len() == s.len(),
        sorted_by_key(sort_by_key(s)),
    decreases s.len(),
{
    if s.len() > 0 {
        let rest = sort_by_key(s.drop_last());
        lemma_sort_by_key_sorted(s.drop_last());
        let k = s.last().key();
        let p = insert_pos(rest, k) as int;
        lemma_insert_pos_props(rest, k);
        let r = rest.insert(p, s.last());
        assert forall|i: int, j: int| 0 <= i < j < r.len() implies lex_le(#[trigger] r[i].key(), #[trigger] r[j].key()) by {
            if i < p && j < p {
                assert(r[i] == rest[i] && r[j] == rest[j]);
            } else if i < p && j == p {
                assert(r[i] == rest[i]);
                lemma_lex_total(rest[i].key(), k);
            } else if i < p && j > p {
                assert(r[i] == rest[i] && r[j] == rest[j - 1]);
            } else if i == p {
                assert(r[j] == rest[j - 1]);
                assert(lex_le(rest[p].key(), rest[j - 1].key()));
                if rest[p].key() != rest[j - 1].key() {
                    lemma_lex_transitive(k, rest[p].key(), rest[j - 1].key());
                }
            } else {
                assert(r[i] == rest[i - 1] && r[j] == rest[j - 1]);
            }
        }
    }
}

/// Nothing in `s` has a key greater than `k`: `k` goes at the end.
proof fn lemma_insert_pos_end<T: Named>(s: Seq<T>, k: Seq<char>)
    requires
        forall|i: int| 0 <= i < s.len() ==> !lex_lt(k, #[trigger] s[i].key()),
    ensures
        insert_pos(s, k) == s.len(),
    decreases s.len(),
{
    if s.len() > 0 {
        assert(!lex_lt(k, s[0].key()));
        assert forall|i: int| 0 <= i < s.drop_first().len() implies !lex_lt(k, #[trigger] s.drop_first()[i].key()) by {
            assert(s.drop_first()[i] == s[i + 1]);
        }
        lemma_insert_pos_end(s.drop_first(), k);
    }
}

/// Sorting what is already in key order changes nothing.
pub proof fn lemma_sort_by_key_sorted_id<T: Named>(s: Seq<T>)
    requires
        sorted_by_key(s),
    ensures
        sort_by_key(s) == s,
    decreases s.len(),
{
    if s.len() > 0 {
        let init = s.drop_last();
        assert(sorted_by_key(init)) by {
            assert forall|i: int, j: int| 0 <= i < j < init.len() implies lex_le(#[trigger] init[i].key(), #[trigger] init[j].key()) by {
                assert(init[i] == s[i] && init[j] == s[j]);
            }
        }
        lemma_sort_by_key_sorted_id(init);
        let k = s.last().key();
        assert forall|i: int| 0 <= i < init.len() implies !lex_lt(k, #[trigger] init[i].key()) by {
            assert(init[i] == s[i]);
            assert(lex_le(s[i].key(), s[s.len() - 1].key()));
            if lex_lt(k, init[i].key()) {
                if init[i].key() == k {
                    lemma_lex_irreflexive(k);
                } else {
                    lemma_lex_transitive(k, init[i].key(), k);
                    lemma_lex_irreflexive(k);
                }
            }
        }
        lemma_insert_pos_end(init, k);
        assert(init.insert(init.len() as int, s.last()) =~= s);
    }
}

/// The elements of `v`, sorted stably by key (the order `sort_by(|a, b|
/// a.name.cmp(&b.name))` gives).
pub fn sort_by_name<T: Named>(v: Vec<T>) -> (r: Vec<T>)
    ensures
        r@ == sort_by_key(v@),
{
    let mut input = v;
    let ghost orig = input@;
    let mut out: Vec<T> = Vec::new();
    let mut i: usize = 0;
    let n = input.len();
    while input.len() > 0
        invariant
            input@ == orig.skip(i as int),
            i + input@.len() == orig.len(),
            n == orig.len(),
            out@ == sort_by_key(orig.take(i as int)),
        decreases input.len(),
    {
        let x = input.remove(0);
        let mut p: usize = 0;
        proof {
            assert(x == orig[i as int]);
            assert(out@.skip(0) == out@);
        }
        while p < out.len() && !str_lt(x.name_str(), out[p].name_str())
            invariant
                p <= out.len(),
                insert_pos(out@, x.key()) == p + insert_pos(out@.skip(p as int), x.key()),
            decreases out.len() - p,
        {
            proof {
                assert(out@.skip(p as int).drop_first() == out@.skip(p + 1));
            }
            p = p + 1;
        }
        proof {
            if p < out.len() {
                assert(out@.skip(p as int)[0] == out@[p as int]);
            }
            assert(out@.skip(p as int).len() == out@.len() - p);
            assert(orig.take(i + 1).drop_last() == orig.take(i as int));
            assert(orig.take(i + 1).last() == x);
        }
        out.insert(p, x);
        i = i + 1;
        proof {
            assert(input@ == orig.skip(i as int));
        }
    }
    proof {
        assert(orig.take(i as int) == orig);
    }
    out
}


/// `lt` is a strict total order.
pub open spec fn strict_order<A>(lt: spec_fn(A, A) -> bool) -> bool {
    &&& forall|a: A| !#[trigger] lt(a, a)
    &&& forall|a: A, b: A, c: A| #[trigger] lt(a, b) && #[trigger] lt(b, c) ==> lt(a, c)
    &&& forall|a: A, b: A| a != b ==> #[trigger] lt(a, b) || #[trigger] lt(b, a)
}

/// Strictly increasing under `lt`: sorted, and nothing twice.
pub open spec fn increasing<A>(s: Seq<A>, lt: spec_fn(A, A) -> bool) -> bool {
    forall|i: int, j: int| 0 <= i < j < s.len() ==> lt(#[trigger] s[i], #[trigger] s[j])
}

/// The values of `s`, each once, in increasing order.
pub open spec fn sorted_set<A>(s: Seq<A>, lt: spec_fn(A, A) -> bool) -> Seq<A> {
    choose|r: Seq<A>| increasing(r, lt) && r.to_set() == s.to_set()
}

/// Two increasing sequences with the same values are the same sequence.
pub proof fn lemma_increasing_unique<A>(lt: spec_fn(A, A) -> bool, r1: Seq<A>, r2: Seq<A>)
    requires
        strict_order(lt),
        increasing(r1, lt),
        increasing(r2, lt),
        r1.to_set() == r2.to_set(),
    ensures
        r1 == r2,
    decreases r1.len(),
{
    if r1.len() == 0 {
        if r2.len() > 0 {
            assert(r2.to_set().contains(r2[0]));
        }
        assert(r1 =~= r2);
    } else {
        assert(r1.to_set().contains(r1[0]));
        assert(r2.to_set().contains(r1[0]));
        assert(r2.len() > 0);
        assert(r2.to_set().contains(r2[0]));
        assert(r1.to_set().contains(r2[0]));
        let i = choose|i: int| 0 <= i < r1.len() && r1[i] == r2[0];
        let j = choose|j: int| 0 <= j < r2.len() && r2[j] == r1[0];
        if r1[0] != r2[0] {
            assert(i > 0 && j > 0);
            assert(lt(r1[0], r1[i]));
            assert(lt(r2[0], r2[j]));
            assert(lt(r1[0], r1[0]));
        }
        let t1 = r1.drop_first();
        let t2 = r2.drop_first();
        assert(increasing(t1, lt)) by {
            assert forall|a: int, b: int| 0 <= a < b < t1.len() implies lt(#[trigger] t1[a], #[trigger] t1[b]) by {
                assert(t1[a] == r1[a + 1] && t1[b] == r1[b + 1]);
            }
        }
        assert(increasing(t2, lt)) by {
            assert forall|a: int, b: int| 0 <= a < b < t2.len() implies lt(#[trigger] t2[a], #[trigger] t2[b]) by {
                assert(t2[a] == r2[a + 1] && t2[b] == r2[b + 1]);
            }
        }
        assert(t1.to_set() =~= t2.to_set()) by {
            assert forall|x: A| t1.to_set().contains(x) implies t2.to_set().contains(x) by {
                let a = choose|a: int| 0 <= a < t1.len() && t1[a] == x;
                assert(r1[a + 1] == x);
                assert(lt(r1[0], x));
                assert(r2.to_set().contains(x));
                let b = choose|b: int| 0 <= b < r2.len() && r2[b] == x;
                if b == 0 {
                    assert(lt(x, x));
                }
                assert(t2[b - 1] == x);
            }
            assert forall|x: A| t2.to_set().contains(x) implies t1.to_set().contains(x) by {
                let a = choose|a: int| 0 <= a < t2.len() && t2[a] == x;
                assert(r2[a + 1] == x);
                assert(lt(r2[0], x));
                assert(r1.to_set().contains(x));
                let b = choose|b: int| 0 <= b < r1.len() && r1[b] == x;
                if b == 0 {
                    assert(lt(x, x));
                }
                assert(t1[b - 1] == x);
            }
        }
        lemma_increasing_unique(lt, t1, t2);
        assert(r1 =~= r2) by {
            assert forall|k: int| 0 <= k < r1.len() implies r1[k] == r2[k] by {
                if k > 0 {
                    assert(r1[k] == t1[k - 1] && r2[k] == t2[k - 1]);
                }
            }
        }
    }
}

/// An increasing sequence with the values of `s` is `sorted_set(s)`.
pub proof fn lemma_sorted_set_is<A>(s: Seq<A>, r: Seq<A>, lt: spec_fn(A, A) -> bool)
    requires
        strict_order(lt),
        increasing(r, lt),
        r.to_set() == s.to_set(),
    ensures
        sorted_set(s, lt) == r,
{
    let c = sorted_set(s, lt);
    assert(increasing(c, lt) && c.to_set() == s.to_set());
    lemma_increasing_unique(lt, c, r);
}

/// Lexicographic order on character sequences, as a relation.
pub open spec fn lex_order() -> spec_fn(Seq<char>, Seq<char>) -> bool {
    |a: Seq<char>, b: Seq<char>| lex_lt(a, b)
}

/// Lexicographic order is a strict total order.
pub proof fn lemma_lex_order()
    ensures
        strict_order(lex_order()),
{
    assert forall|a: Seq<char>| !#[trigger] lex_order()(a, a) by {
        lemma_lex_irreflexive(a);
    }
    assert forall|a: Seq<char>, b: Seq<char>, c: Seq<char>| #[trigger] lex_order()(a, b) && #[trigger] lex_order()(b, c) implies lex_order()(a, c) by {
        lemma_lex_transitive(a, b, c);
    }
    assert forall|a: Seq<char>, b: Seq<char>| a != b implies #[trigger] lex_order()(a, b) || #[trigger] lex_order()(b, a) by {
        lemma_lex_total(a, b);
    }
}


/// Adds `x` to a strictly increasing list of strings, keeping it strictly
/// increasing (nothing happens when `x` is already there).
pub fn insert_sorted(v: &mut Vec<String>, x: String)
    requires
        increasing(strings_view(old(v)@), lex_order()),
    ensures
        increasing(strings_view(final(v)@), lex_order()),
        strings_view(final(v)@).to_set() == strings_view(old(v)@).to_set().insert(x@),
{
    let ghost s = strings_view(v@);
    proof {
        lemma_lex_order();
    }
    let mut p: usize = 0;
    while p < v.len() && str_lt(v[p].as_str(), x.as_str())
        invariant
            p <= v.len(),
            s == strings_view(v@),
            forall|i: int| 0 <= i < p ==> lex_lt(#[trigger] s[i], x@),
        decreases v.len() - p,
    {
        p = p + 1;
    }
    if p < v.len() && str_eq(v[p].as_str(), x.as_str()) {
        assert(s.to_set().insert(x@) =~= s.to_set()) by {
            assert(s[p as int] == x@);
        }
        return;
    }
    proof {
        if p < s.len() {
            lemma_lex_total(s[p as int], x@);
            assert(lex_lt(x@, s[p as int]));
        }
    }
    v.insert(p, x);
    proof {
        let t = strings_view(v@);
        assert(t =~= s.insert(p as int, x@));
        assert forall|i: int, j: int| 0 <= i < j < t.len() implies lex_order()(#[trigger] t[i], #[trigger] t[j]) by {
            if j < p {
                assert(t[i] == s[i] && t[j] == s[j]);
            } else if j == p {
                assert(t[i] == s[i]);
            } else if i < p {
                assert(t[i] == s[i] && t[j] == s[j - 1]);
                if j - 1 > p {
                    assert(lex_order()(s[p as int], s[j - 1]));
                    lemma_lex_transitive(x@, s[p as int], s[j - 1]);
                }
                lemma_lex_transitive(s[i], x@, s[j - 1]);
            } else if i == p {
                assert(t[j] == s[j - 1]);
                if j - 1 > p {
                    assert(lex_order()(s[p as int], s[j - 1]));
                    lemma_lex_transitive(x@, s[p as int], s[j - 1]);
                }
            } else {
                assert(t[i] == s[i - 1] && t[j] == s[j - 1]);
            }
        }
        assert(t.to_set() =~= s.to_set().insert(x@)) by {
            assert forall|y: Seq<char>| t.to_set().contains(y) implies s.to_set().insert(x@).contains(y) by {
                let k = choose|k: int| 0 <= k < t.len() && t[k] == y;
                if k < p {
                    assert(s[k] == y);
                } else if k > p {
                    assert(s[k - 1] == y);
                }
            }
            assert forall|y: Seq<char>| s.to_set().insert(x@).contains(y) implies t.to_set().contains(y) by {
                if y == x@ {
                    assert(t[p as int] == y);
                } else {
                    let k = choose|k: int| 0 <= k < s.len() && s[k] == y;
                    if k < p {
                        assert(t[k] == y);
                    } else {
                        assert(t[k + 1] == y);
                    }
                }
            }
        }
    }
}

/// The distinct values of `values`, in increasing order (what collecting
/// them into a `BTreeSet` and back gives).
pub fn distinct(values: &[String]) -> (r: Vec<String>)
    ensures
        strings_view(r@) == sorted_set(strings_view(values@), lex_order()),
        increasing(strings_view(r@), lex_order()),
        strings_view(r@).to_set() == strings_view(values@).to_set(),
{
    let mut out: Vec<String> = Vec::new();
    let mut i: usize = 0;
    proof {
        lemma_lex_order();
        assert(strings_view(out@).to_set() =~= strings_view(values@.take(0)).to_set());
    }
    while i < values.len()
        invariant
            i <= values.len(),
            increasing(strings_view(out@), lex_order()),
            strings_view(out@).to_set() == strings_view(values@.take(i as int)).to_set(),
        decreases values.len() - i,
    {
        insert_sorted(&mut out, values[i].clone());
        proof {
            assert(strings_view(values@.take(i + 1)) =~= strings_view(values@.take(i as int)).push(values@[i as int]@));
            strings_view(values@.take(i as int)).lemma_push_to_set_commute(values@[i as int]@);
            assert(strings_view(values@.take(i + 1)).to_set() =~= strings_view(values@.take(i as int)).to_set().insert(values@[i as int]@));
        }
        i = i + 1;
    }
    proof {
        assert(values@.take(values.len() as int) =~= values@);
        lemma_lex_order();
        lemma_sorted_set_is(strings_view(values@), strings_view(out@), lex_order());
    }
    out
}


} // verus!
