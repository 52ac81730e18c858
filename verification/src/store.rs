//! An in-memory Zarr store: a map of keys to bytes, with listing that can
//! be switched off to mimic a plain HTTP server. Keys are store-relative,
//! `/`-separated, with no leading slash.

use vstd::prelude::*;
use crate::flat::{first_slash, group_prefix, rest_under};
use crate::text::{chars_of, chars_start_with, lex_lt, owned, str_eq, str_lt, string_from_chars, strings_view};
use crate::order::{lemma_lex_irreflexive, lemma_lex_total, lemma_lex_transitive};

verus! {

/// A map of keys to bytes, kept in key order.
#[derive(Debug)]
pub struct MemoryStore {
    pub entries: Vec<(String, Vec<u8>)>,
    pub can_list: bool,
    pub location: String,
}

/// The keys of some entries, in order.
pub open spec fn entry_keys(es: Seq<(String, Vec<u8>)>) -> Seq<Seq<char>> {
    es.map_values(|e: (String, Vec<u8>)| e.0@)
}

/// Keys strictly increasing: sorted, and none twice.
pub open spec fn entries_wf(es: Seq<(String, Vec<u8>)>) -> bool {
    forall|i: int, j: int| 0 <= i < j < es.len() ==> lex_lt(#[trigger] es[i].0@, #[trigger] es[j].0@)
}

/// The bytes stored under `k`.
pub open spec fn lookup(es: Seq<(String, Vec<u8>)>, k: Seq<char>) -> Option<Seq<u8>>
    decreases es.len(),
{
    if es.len() == 0 {
        None
    } else if es[0].0@ == k {
        Some(es[0].1@)
    } else {
        lookup(es.drop_first(), k)
    }
}

impl View for MemoryStore {
    type V = Map<Seq<char>, Seq<u8>>;

    /// The store's contents: each key to its bytes.
    open spec fn view(&self) -> Map<Seq<char>, Seq<u8>> {
        Map::new(|k: Seq<char>| lookup(self.entries@, k) is Some, |k: Seq<char>| lookup(self.entries@, k)->0)
    }
}

/// Where `lookup` finds a key, and when it finds none.
proof fn lemma_lookup_index(es: Seq<(String, Vec<u8>)>, k: Seq<char>)
    ensures
        match lookup(es, k) {
            Some(v) => exists|i: int| 0 <= i < es.len() && #[trigger] es[i].0@ == k && es[i].1@ == v,
            None => forall|i: int| 0 <= i < es.len() ==> #[trigger] es[i].0@ != k,
        },
    decreases es.len(),
{
    if es.len() > 0 && es[0].0@ != k {
        lemma_lookup_index(es.drop_first(), k);
        match lookup(es, k) {
            Some(v) => {
                let i = choose|i: int| 0 <= i < es.drop_first().len() && #[trigger] es.drop_first()[i].0@ == k
                    && es.drop_first()[i].1@ == v;
                assert(es[i + 1] == es.drop_first()[i]);
            },
            None => {
                assert forall|i: int| 0 <= i < es.len() implies #[trigger] es[i].0@ != k by {
                    if i > 0 {
                        assert(es[i] == es.drop_first()[i - 1]);
                    }
                }
            },
        }
    }
}

/// In sorted entries, the key at index `i` looks up its own bytes.
proof fn lemma_lookup_at(es: Seq<(String, Vec<u8>)>, i: int)
    requires
        entries_wf(es),
        0 <= i < es.len(),
    ensures
        lookup(es, es[i].0@) == Some(es[i].1@),
    decreases i,
{
    if i > 0 {
        assert(lex_lt(es[0].0@, es[i].0@));
        lemma_lex_irreflexive(es[i].0@);
        assert(entries_wf(es.drop_first())) by {
            assert forall|a: int, b: int| 0 <= a < b < es.drop_first().len()
                implies lex_lt(#[trigger] es.drop_first()[a].0@, #[trigger] es.drop_first()[b].0@) by {
                assert(es.drop_first()[a] == es[a + 1] && es.drop_first()[b] == es[b + 1]);
            }
        }
        assert(es.drop_first()[i - 1] == es[i]);
        lemma_lookup_at(es.drop_first(), i - 1);
    }
}

/// Looking up in sorted entries is the same as looking up the entry that
/// holds the key.
proof fn lemma_lookup_unique(es: Seq<(String, Vec<u8>)>, k: Seq<char>)
    requires
        entries_wf(es),
    ensures
        forall|i: int| 0 <= i < es.len() && #[trigger] es[i].0@ == k ==> lookup(es, k) == Some(es[i].1@),
{
    assert forall|i: int| 0 <= i < es.len() && #[trigger] es[i].0@ == k implies lookup(es, k) == Some(es[i].1@) by {
        lemma_lookup_at(es, i);
    }
}

impl MemoryStore {
    /// An empty store at `location` that can list.
    pub fn new(location: &str) -> (r: Self)
        ensures
            r@ == Map::<Seq<char>, Seq<u8>>::empty(),
            entries_wf(r.entries@),
            r.can_list,
            r.location@ == location@,
    {
        let r = MemoryStore { entries: Vec::new(), can_list: true, location: owned(location) };
        assert(r@ =~= Map::<Seq<char>, Seq<u8>>::empty());
        r
    }

    /// Stores `value` under `key`, replacing what was there.
    pub fn insert(&mut self, key: &str, value: &[u8])
        requires
            entries_wf(old(self).entries@),
        ensures
            entries_wf(final(self).entries@),
            final(self)@ == old(self)@.insert(key@, value@),
            final(self).can_list == old(self).can_list,
            final(self).location == old(self).location,
    {
        let ghost es = self.entries@;
        let mut p: usize = 0;
        while p < self.entries.len() && str_lt(self.entries[p].0.as_str(), key)
            invariant
                p <= self.entries.len(),
                self.entries@ == es,
                forall|i: int| 0 <= i < p ==> lex_lt(#[trigger] es[i].0@, key@),
            decreases self.entries.len() - p,
        {
            p = p + 1;
        }
        let bytes = crate::text::copy_slice(value);
        if p < self.entries.len() && str_eq(self.entries[p].0.as_str(), key) {
            let (k, _) = self.entries.remove(p);
            let ghost kv = k@;
            self.entries.insert(p, (k, bytes));
            proof {
                let ns = self.entries@;
                assert(kv == key@);
                assert(ns.len() == es.len());
                assert(forall|i: int| 0 <= i < ns.len() && i != p ==> ns[i] == es[i]);
                assert(ns[p as int].0@ == key@ && ns[p as int].1@ == value@);
                assert forall|i: int, j: int| 0 <= i < j < ns.len() implies lex_lt(#[trigger] ns[i].0@, #[trigger] ns[j].0@) by {
                    assert(ns[i].0@ == es[i].0@ && ns[j].0@ == es[j].0@);
                }
                lemma_lookup_unique(es, key@);
                lemma_lookup_unique(ns, key@);
                assert forall|k2: Seq<char>| #![trigger lookup(ns, k2)] k2 != key@ implies lookup(ns, k2) == lookup(es, k2) by {
                    lemma_lookup_index(es, k2);
                    lemma_lookup_index(ns, k2);
                    lemma_lookup_unique(es, k2);
                    lemma_lookup_unique(ns, k2);
                    if lookup(es, k2) is Some {
                        let i = choose|i: int| 0 <= i < es.len() && #[trigger] es[i].0@ == k2 && es[i].1@ == lookup(es, k2)->0;
                        assert(ns[i].0@ == k2);
                    }
                    if lookup(ns, k2) is Some {
                        let i = choose|i: int| 0 <= i < ns.len() && #[trigger] ns[i].0@ == k2 && ns[i].1@ == lookup(ns, k2)->0;
                        assert(es[i].0@ == k2);
                    }
                }
                assert(self@ =~= old(self)@.insert(key@, value@));
            }
        } else {
            proof {
                if p < es.len() {
                    lemma_lex_total(es[p as int].0@, key@);
                    assert(lex_lt(key@, es[p as int].0@));
                }
            }
            self.entries.insert(p, (owned(key), bytes));
            proof {
                let ns = self.entries@;
                assert(ns =~= es.insert(p as int, ns[p as int]));
                assert forall|i: int, j: int| 0 <= i < j < ns.len() implies lex_lt(#[trigger] ns[i].0@, #[trigger] ns[j].0@) by {
                    if j < p {
                        assert(ns[i] == es[i] && ns[j] == es[j]);
                    } else if j == p {
                        assert(ns[i] == es[i]);
                    } else if i < p {
                        assert(ns[i] == es[i] && ns[j] == es[j - 1]);
                        if j - 1 > p {
                            lemma_lex_transitive(key@, es[p as int].0@, es[j - 1].0@);
                        }
                        lemma_lex_transitive(es[i].0@, key@, es[j - 1].0@);
                    } else if i == p {
                        assert(ns[j] == es[j - 1]);
                        if j - 1 > p {
                            lemma_lex_transitive(key@, es[p as int].0@, es[j - 1].0@);
                        }
                    } else {
                        assert(ns[i] == es[i - 1] && ns[j] == es[j - 1]);
                    }
                }
                lemma_lookup_unique(ns, key@);
                assert(ns[p as int].0@ == key@);
                assert forall|k2: Seq<char>| #![trigger lookup(ns, k2)] k2 != key@ implies lookup(ns, k2) == lookup(es, k2) by {
                    lemma_lookup_index(es, k2);
                    lemma_lookup_index(ns, k2);
                    lemma_lookup_unique(es, k2);
                    lemma_lookup_unique(ns, k2);
                    if lookup(es, k2) is Some {
                        let i = choose|i: int| 0 <= i < es.len() && #[trigger] es[i].0@ == k2 && es[i].1@ == lookup(es, k2)->0;
                        if i < p {
                            assert(ns[i] == es[i]);
                        } else {
                            assert(ns[i + 1] == es[i]);
                        }
                    }
                    if lookup(ns, k2) is Some {
                        let i = choose|i: int| 0 <= i < ns.len() && #[trigger] ns[i].0@ == k2 && ns[i].1@ == lookup(ns, k2)->0;
                        if i < p {
                            assert(ns[i] == es[i]);
                        } else if i > p {
                            assert(ns[i] == es[i - 1]);
                        }
                    }
                }
                assert(self@ =~= old(self)@.insert(key@, value@));
            }
        }
    }

    /// The bytes stored under `key`, if any.
    pub fn get(&self, key: &str) -> (r: Option<Vec<u8>>)
        requires
            entries_wf(self.entries@),
        ensures
            match r {
                Some(v) => self@.contains_key(key@) && self@[key@] == v@,
                None => !self@.contains_key(key@),
            },
    {
        let mut i: usize = 0;
        while i < self.entries.len()
            invariant
                i <= self.entries.len(),
                entries_wf(self.entries@),
                forall|j: int| 0 <= j < i ==> #[trigger] self.entries@[j].0@ != key@,
            decreases self.entries.len() - i,
        {
            if str_eq(self.entries[i].0.as_str(), key) {
                proof {
                    lemma_lookup_at(self.entries@, i as int);
                }
                return Some(crate::text::copy_slice(self.entries[i].1.as_slice()));
            }
            i = i + 1;
        }
        proof {
            lemma_lookup_index(self.entries@, key@);
        }
        None
    }
}

/// The first path segment of what key `k` holds below `prefix`, when `k`
/// is deeper than one segment below it.
pub open spec fn dir_below(k: Seq<char>, prefix: Seq<char>) -> Option<Seq<char>> {
    match rest_under(k, prefix) {
        Some(r) => match first_slash(r) {
            Some(i) => Some(r.take(i)),
            None => None,
        },
        None => None,
    }
}

/// What key `k` holds directly below `prefix`, when it is one nonempty
/// segment below it.
pub open spec fn file_below(k: Seq<char>, prefix: Seq<char>) -> Option<Seq<char>> {
    match rest_under(k, prefix) {
        Some(r) => if r.len() > 0 && first_slash(r) is None { Some(r) } else { None },
        None => None,
    }
}

/// The child directories of `prefix` the first `n` keys show, each once,
/// in the order they first appear.
pub open spec fn listed_dirs(keys: Seq<Seq<char>>, prefix: Seq<char>, n: nat) -> Seq<Seq<char>>
    decreases n,
{
    if n == 0 {
        Seq::empty()
    } else {
        let prev = listed_dirs(keys, prefix, (n - 1) as nat);
        match dir_below(keys[n - 1], prefix) {
            Some(d) => if prev.contains(d) { prev } else { prev.push(d) },
            None => prev,
        }
    }
}

/// The files directly in `prefix` among the first `n` keys, in key order.
pub open spec fn listed_files(keys: Seq<Seq<char>>, prefix: Seq<char>, n: nat) -> Seq<Seq<char>>
    decreases n,
{
    if n == 0 {
        Seq::empty()
    } else {
        let prev = listed_files(keys, prefix, (n - 1) as nat);
        match file_below(keys[n - 1], prefix) {
            Some(f) => prev.push(f),
            None => prev,
        }
    }
}

impl MemoryStore {
    /// The immediate children of `prefix`: its subdirectories (each once,
    /// in key order) and its files; `None` when the store cannot list.
    pub fn list_dir(&self, prefix: &str) -> (r: Option<(Vec<String>, Vec<String>)>)
        ensures
            r is None <==> !self.can_list,
            r matches Some(l) ==> strings_view(l.0@) == listed_dirs(entry_keys(self.entries@), prefix@, self.entries@.len())
                && strings_view(l.1@) == listed_files(entry_keys(self.entries@), prefix@, self.entries@.len()),
    {
        if !self.can_list {
            return None;
        }
        let pc = chars_of(prefix);
        let mut pre: Vec<char> = crate::text::slice_to_vec(pc.as_slice());
        if pc.len() > 0 {
            pre.push('/');
        }
        assert(pre@ == group_prefix(prefix@));
        let ghost keys = entry_keys(self.entries@);
        let mut dirs: Vec<String> = Vec::new();
        let mut files: Vec<String> = Vec::new();
        let mut i: usize = 0;
        proof {
            assert(strings_view(dirs@) =~= Seq::<Seq<char>>::empty());
            assert(strings_view(files@) =~= Seq::<Seq<char>>::empty());
        }
        while i < self.entries.len()
            invariant
                i <= self.entries.len(),
                keys == entry_keys(self.entries@),
                pre@ == group_prefix(prefix@),
                strings_view(dirs@) == listed_dirs(keys, prefix@, i as nat),
                strings_view(files@) == listed_files(keys, prefix@, i as nat),
            decreases self.entries.len() - i,
        {
            let k = chars_of(self.entries[i].0.as_str());
            assert(keys[i as int] == k@);
            if chars_start_with(k.as_slice(), pre.as_slice()) {
                let (_, rest) = k.as_slice().split_at(pre.len());
                assert(rest@ == k@.skip(pre@.len() as int));
                match crate::flat::find_slash(rest) {
                    Some(s) => {
                        let (d, _) = rest.split_at(s);
                        let dir = string_from_chars(d);
                        assert(dir@ == rest@.take(s as int));
                        let ghost before = strings_view(dirs@);
                        if !crate::group::contains_str(&dirs, dir.as_str()) {
                            dirs.push(dir);
                            assert(strings_view(dirs@) =~= before.push(rest@.take(s as int)));
                        }
                    },
                    None => {
                        if rest.len() > 0 {
                            let ghost before = strings_view(files@);
                            files.push(string_from_chars(rest));
                            assert(strings_view(files@) =~= before.push(rest@));
                        }
                    },
                }
            }
            i = i + 1;
        }
        Some((dirs, files))
    }
}


/// A read gives back what the last write under its key wrote, and a write
/// leaves every other key as it was.
pub proof fn lemma_read_after_write(m: Map<Seq<char>, Seq<u8>>, k: Seq<char>, v: Seq<u8>, other: Seq<char>)
    requires
        other != k,
    ensures
        m.insert(k, v).contains_key(k),
        m.insert(k, v)[k] == v,
        m.insert(k, v).contains_key(other) == m.contains_key(other),
        m.contains_key(other) ==> m.insert(k, v)[other] == m[other],
{
}

/// A listing names each subdirectory once.
pub proof fn lemma_listed_dirs_distinct(keys: Seq<Seq<char>>, prefix: Seq<char>, n: nat)
    ensures
        forall|i: int, j: int| 0 <= i < j < listed_dirs(keys, prefix, n).len()
            ==> #[trigger] listed_dirs(keys, prefix, n)[i] != #[trigger] listed_dirs(keys, prefix, n)[j],
    decreases n,
{
    if n > 0 {
        lemma_listed_dirs_distinct(keys, prefix, (n - 1) as nat);
        let prev = listed_dirs(keys, prefix, (n - 1) as nat);
        let cur = listed_dirs(keys, prefix, n);
        assert forall|i: int, j: int| 0 <= i < j < cur.len() implies #[trigger] cur[i] != #[trigger] cur[j] by {
            if j < prev.len() {
                assert(cur[i] == prev[i] && cur[j] == prev[j]);
            } else {
                assert(cur[i] == prev[i]);
                assert(prev.contains(prev[i]));
            }
        }
    }
}

} // verus!
