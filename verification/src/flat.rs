//! Recovering a group hierarchy from a flat list of nodes keyed by path.
//!
//! Three readers end up with a flat node list rather than a directory to
//! walk: Zarr v2 consolidated metadata, Zarr v3 consolidated metadata, and
//! Icechunk snapshots. The hierarchy is recovered from path prefixes,
//! including implicit intermediate groups that carry no node entry of
//! their own (`g` when only `g/arr` is listed). Paths are store-relative:
//! `""` for the root, `"g/arr"` below it.

use vstd::prelude::*;
use crate::order::{increasing, insert_sorted, lemma_lex_order, lemma_sorted_set_is, lex_order, sorted_set};
use crate::text::{chars_of, chars_start_with, string_from_chars, strings_view};

verus! {

/// What a path below the group `p` starts with: `p/`, or nothing for the
/// root.
pub open spec fn group_prefix(p: Seq<char>) -> Seq<char> {
    if p.len() == 0 {
        Seq::empty()
    } else {
        p + seq!['/']
    }
}

/// The part of `path` below the group `p`, when `path` is below it.
pub open spec fn rest_under(path: Seq<char>, p: Seq<char>) -> Option<Seq<char>> {
    if group_prefix(p).is_prefix_of(path) {
        Some(path.skip(group_prefix(p).len() as int))
    } else {
        None
    }
}

/// The index of the first `/` in `s`.
pub open spec fn first_slash(s: Seq<char>) -> Option<int>
    decreases s.len(),
{
    if s.len() == 0 {
        None
    } else if s[0] == '/' {
        Some(0)
    } else {
        match first_slash(s.drop_first()) {
            Some(i) => Some(i + 1),
            None => None,
        }
    }
}

/// Is the node at `path` (a group when `group`) an array directly in the
/// group `p`?
pub open spec fn direct_array(path: Seq<char>, group: bool, p: Seq<char>) -> bool {
    match rest_under(path, p) {
        Some(r) => r.len() > 0 && first_slash(r) is None && !group,
        None => false,
    }
}

/// The child group of `p` that the node at `path` shows: the node itself
/// when it is a group directly in `p`, the first path segment below `p`
/// when the node is deeper (so an implicit group is found too), and none
/// for an array directly in `p` or a node outside `p`.
pub open spec fn child_path(path: Seq<char>, group: bool, p: Seq<char>) -> Option<Seq<char>> {
    match rest_under(path, p) {
        Some(r) => if r.len() == 0 {
            None
        } else {
            match first_slash(r) {
                None => if group { Some(path) } else { None },
                Some(i) => Some(group_prefix(p) + r.take(i)),
            }
        },
        None => None,
    }
}

/// The child groups the nodes below `n` show, in node order (with
/// repeats).
pub open spec fn child_candidates(paths: Seq<Seq<char>>, groups: Seq<bool>, p: Seq<char>, n: nat) -> Seq<Seq<char>>
    decreases n,
{
    if n == 0 {
        Seq::empty()
    } else {
        let r = child_candidates(paths, groups, p, (n - 1) as nat);
        match child_path(paths[n - 1], groups[n - 1], p) {
            Some(c) => r.push(c),
            None => r,
        }
    }
}

/// The part of `path` below the group `p`, when it is below it.
pub(crate) fn rest_of(path: &[char], p: &[char]) -> (r: Option<Vec<char>>)
    ensures
        match r {
            Some(x) => rest_under(path@, p@) == Some(x@),
            None => rest_under(path@, p@) is None,
        },
{
    let mut pre: Vec<char> = crate::text::slice_to_vec(p);
    if p.len() > 0 {
        pre.push('/');
    }
    assert(pre@ == group_prefix(p@));
    if !chars_start_with(path, pre.as_slice()) {
        return None;
    }
    let (_, rest) = path.split_at(pre.len());
    Some(crate::text::slice_to_vec(rest))
}

/// The index of the first `/` in `s`.
pub(crate) fn find_slash(s: &[char]) -> (r: Option<usize>)
    ensures
        match r {
            Some(i) => i < s@.len() && first_slash(s@) == Some(i as int),
            None => first_slash(s@) is None,
        },
{
    let mut i: usize = 0;
    while i < s.len()
        invariant
            i <= s.len(),
            forall|j: int| 0 <= j < i ==> s@[j] != '/',
        decreases s.len() - i,
    {
        if s[i] == '/' {
            proof {
                lemma_first_slash_at(s@, i as int);
            }
            return Some(i);
        }
        i = i + 1;
    }
    proof {
        lemma_first_slash_none(s@);
    }
    None
}

/// A `/` at `i` with none before it is the first.
pub(crate) proof fn lemma_first_slash_at(s: Seq<char>, i: int)
    requires
        0 <= i < s.len(),
        s[i] == '/',
        forall|j: int| 0 <= j < i ==> s[j] != '/',
    ensures
        first_slash(s) == Some(i),
    decreases i,
{
    if i > 0 {
        assert forall|j: int| 0 <= j < i - 1 implies s.drop_first()[j] != '/' by {
            assert(s.drop_first()[j] == s[j + 1]);
        }
        lemma_first_slash_at(s.drop_first(), i - 1);
    }
}

/// No `/` at all means no first one.
pub(crate) proof fn lemma_first_slash_none(s: Seq<char>)
    requires
        forall|j: int| 0 <= j < s.len() ==> s[j] != '/',
    ensures
        first_slash(s) is None,
    decreases s.len(),
{
    if s.len() > 0 {
        assert forall|j: int| 0 <= j < s.len() - 1 implies s.drop_first()[j] != '/' by {
            assert(s.drop_first()[j] == s[j + 1]);
        }
        lemma_first_slash_none(s.drop_first());
    }
}

/// The child groups of the group `p` (every group node directly in it,
/// and every group implied by a deeper node's path), each once, in path
/// order.
pub fn child_groups(paths: &[String], groups: &[bool], p: &str) -> (r: Vec<String>)
    requires
        paths@.len() == groups@.len(),
    ensures
        strings_view(r@) == sorted_set(child_candidates(strings_view(paths@), groups@, p@, paths@.len()), lex_order()),
        increasing(strings_view(r@), lex_order()),
        strings_view(r@).to_set() == child_candidates(strings_view(paths@), groups@, p@, paths@.len()).to_set(),
{
    let pc = chars_of(p);
    let mut pre: Vec<char> = crate::text::slice_to_vec(pc.as_slice());
    if pc.len() > 0 {
        pre.push('/');
    }
    assert(pre@ == group_prefix(p@));
    let mut out: Vec<String> = Vec::new();
    let mut i: usize = 0;
    proof {
        lemma_lex_order();
        assert(strings_view(out@).to_set() =~= child_candidates(strings_view(paths@), groups@, p@, 0).to_set());
    }
    while i < paths.len()
        invariant
            i <= paths.len(),
            paths@.len() == groups@.len(),
            pc@ == p@,
            pre@ == group_prefix(p@),
            increasing(strings_view(out@), lex_order()),
            strings_view(out@).to_set() == child_candidates(strings_view(paths@), groups@, p@, i as nat).to_set(),
        decreases paths.len() - i,
    {
        let path = chars_of(paths[i].as_str());
        let ghost before = child_candidates(strings_view(paths@), groups@, p@, i as nat);
        assert(strings_view(paths@)[i as int] == paths@[i as int]@);
        match rest_of(path.as_slice(), pc.as_slice()) {
            Some(rest) => {
                if rest.len() > 0 {
                    match find_slash(rest.as_slice()) {
                        None => {
                            if groups[i] {
                                insert_sorted(&mut out, paths[i].clone());
                                proof {
                                    before.lemma_push_to_set_commute(paths@[i as int]@);
                                }
                            }
                        },
                        Some(k) => {
                            let (first, _) = rest.as_slice().split_at(k);
                            let mut c = crate::text::slice_to_vec(pre.as_slice());
                            let mut t: usize = 0;
                            while t < first.len()
                                invariant
                                    t <= first.len(),
                                    c@ == pre@ + first@.take(t as int),
                                decreases first.len() - t,
                            {
                                c.push(first[t]);
                                assert(first@.take(t + 1) =~= first@.take(t as int).push(first@[t as int]));
                                t = t + 1;
                            }
                            assert(first@.take(first@.len() as int) =~= first@);
                            assert(first@ =~= rest@.take(k as int));
                            let cs = string_from_chars(c.as_slice());
                            proof {
                                before.lemma_push_to_set_commute(cs@);
                            }
                            insert_sorted(&mut out, cs);
                        },
                    }
                }
            },
            None => {},
        }
        i = i + 1;
    }
    proof {
        lemma_sorted_set_is(child_candidates(strings_view(paths@), groups@, p@, paths@.len()), strings_view(out@), lex_order());
    }
    out
}


/// What `first_slash` finds: the position of a `/` with none before it,
/// or no `/` at all.
pub(crate) proof fn lemma_first_slash_means(s: Seq<char>)
    ensures
        match first_slash(s) {
            Some(i) => 0 <= i < s.len() && s[i] == '/' && forall|j: int| 0 <= j < i ==> s[j] != '/',
            None => forall|j: int| 0 <= j < s.len() ==> s[j] != '/',
        },
    decreases s.len(),
{
    if s.len() > 0 && s[0] != '/' {
        lemma_first_slash_means(s.drop_first());
        match first_slash(s.drop_first()) {
            Some(i) => {
                assert forall|j: int| 0 <= j < i + 1 implies s[j] != '/' by {
                    if j > 0 {
                        assert(s[j] == s.drop_first()[j - 1]);
                    }
                }
                assert(s[i + 1] == s.drop_first()[i]);
            },
            None => {
                assert forall|j: int| 0 <= j < s.len() implies s[j] != '/' by {
                    if j > 0 {
                        assert(s[j] == s.drop_first()[j - 1]);
                    }
                }
            },
        }
    }
}

} // verus!
