//! Icechunk repositories: recognizing one by its layout, the refs a caller
//! can ask to preview (`branch:main`, `tag:v1`, `snapshot:ABC123`) and their
//! single-string spelling, and the path convention of its nodes.

use vstd::prelude::*;
use crate::model::SnapshotInfo;
use crate::text::{chars_of, push_str, str_eq, string_from_chars, strings_view};

verus! {

/// What a directory holds at the top level, as far as telling an Icechunk
/// repository apart goes.
#[derive(Debug, Clone, Copy, PartialEq, Eq, Structural)]
pub struct RepoLayout {
    /// A `snapshots/` directory.
    pub snapshots_dir: bool,
    /// A `refs/` directory (spec v1 ref store).
    pub refs_dir: bool,
    /// A `repo` file (spec v2 ref store).
    pub repo_file: bool,
}

/// The layout rule: a `snapshots/` directory plus a ref store, either a
/// `refs/` directory or a `repo` file.
pub open spec fn spec_is_icechunk_repo(layout: RepoLayout) -> bool {
    layout.snapshots_dir && (layout.refs_dir || layout.repo_file)
}

/// Does a directory with this layout look like an Icechunk repository root?
///
/// An Icechunk repo keeps immutable snapshot files under `snapshots/` and
/// its refs either in a `refs/` directory (spec v1) or in a single `repo`
/// file (spec v2). Checking for the snapshot store plus one of the ref
/// stores is enough to distinguish a repo from a plain Zarr store or an
/// unrelated directory.
pub fn is_icechunk_repo(layout: RepoLayout) -> (r: bool)
    ensures
        r == spec_is_icechunk_repo(layout),
{
    layout.snapshots_dir && (layout.refs_dir || layout.repo_file)
}

/// Does the top-level directory listing of a remote store show an Icechunk
/// repository: a `snapshots/` directory beside a `refs/` or a
/// `transactions/` one? (A remote store's `repo` file is probed on its
/// own.)
pub fn listing_is_icechunk(dirs: &Vec<String>) -> (r: bool)
    ensures
        r == (strings_view(dirs@).contains("snapshots"@) && (strings_view(dirs@).contains("refs"@)
            || strings_view(dirs@).contains("transactions"@))),
{
    crate::group::contains_str(dirs, "snapshots") && (crate::group::contains_str(dirs, "refs")
        || crate::group::contains_str(dirs, "transactions"))
}

/// Whether a summarize call should also collect the repo's full branch
/// and tag lists.
#[derive(Debug, Clone, Copy, PartialEq, Eq, Structural)]
pub enum ListRefs {
    Yes,
    No,
}

/// A ref into an Icechunk repo's version history that a caller wants to
/// preview: a branch tip, an immutable tag, or a specific snapshot.
#[derive(Debug, Clone, PartialEq, Eq)]
pub enum IcechunkRef {
    Branch(String),
    Tag(String),
    Snapshot(String),
}

/// An [`IcechunkRef`] by value.
pub enum RefV {
    Branch(Seq<char>),
    Tag(Seq<char>),
    Snapshot(Seq<char>),
}

impl View for IcechunkRef {
    type V = RefV;

    open spec fn view(&self) -> RefV {
        match self {
            IcechunkRef::Branch(n) => RefV::Branch(n@),
            IcechunkRef::Tag(n) => RefV::Tag(n@),
            IcechunkRef::Snapshot(n) => RefV::Snapshot(n@),
        }
    }
}

/// The kind word of a ref.
pub open spec fn ref_kind(r: RefV) -> Seq<char> {
    match r {
        RefV::Branch(_) => "branch"@,
        RefV::Tag(_) => "tag"@,
        RefV::Snapshot(_) => "snapshot"@,
    }
}

/// The name of a ref as the caller spelled it.
pub open spec fn ref_name(r: RefV) -> Seq<char> {
    match r {
        RefV::Branch(n) => n,
        RefV::Tag(n) => n,
        RefV::Snapshot(n) => n,
    }
}

/// The `kind:value` spelling of a ref.
pub open spec fn ref_text(r: RefV) -> Seq<char> {
    ref_kind(r) + seq![':'] + ref_name(r)
}

impl IcechunkRef {
    /// Short label: `branch`, `tag` or `snapshot` — the `kind` half of the
    /// `kind:value` spelling.
    pub fn kind(&self) -> (r: &'static str)
        ensures
            r@ == ref_kind(self@),
    {
        match self {
            IcechunkRef::Branch(_) => "branch",
            IcechunkRef::Tag(_) => "tag",
            IcechunkRef::Snapshot(_) => "snapshot",
        }
    }

    /// The name as the caller spelled it: the branch/tag name, or the raw
    /// snapshot id string.
    pub fn display_name(&self) -> (r: &str)
        ensures
            r@ == ref_name(self@),
    {
        match self {
            IcechunkRef::Branch(name) => name.as_str(),
            IcechunkRef::Tag(name) => name.as_str(),
            IcechunkRef::Snapshot(name) => name.as_str(),
        }
    }

    /// The `kind:value` spelling (`branch:main`, `tag:v1`,
    /// `snapshot:ABC123`) used wherever a ref travels as a single string.
    pub fn to_string(&self) -> (r: String)
        ensures
            r@ == ref_text(self@),
    {
        let mut s = String::new();
        push_str(&mut s, self.kind());
        push_str(&mut s, ":");
        push_str(&mut s, self.display_name());
        proof {
            reveal_strlit(":");
        }
        assert(s@ =~= ref_text(self@));
        s
    }
}

/// What is wrong with a string that is not a `kind:value` ref.
#[derive(Debug, Clone, PartialEq, Eq)]
pub enum RefProblem {
    /// No `:` at all, so there is no kind to speak of.
    MissingSeparator,
    /// A known kind, but nothing after the `:`.
    EmptyValue,
    /// Something before the `:` that isn't one of the three kinds.
    UnknownKind(String),
}

/// A [`RefProblem`] by value.
pub enum ProblemV {
    MissingSeparator,
    EmptyValue,
    UnknownKind(Seq<char>),
}

impl View for RefProblem {
    type V = ProblemV;

    open spec fn view(&self) -> ProblemV {
        match self {
            RefProblem::MissingSeparator => ProblemV::MissingSeparator,
            RefProblem::EmptyValue => ProblemV::EmptyValue,
            RefProblem::UnknownKind(k) => ProblemV::UnknownKind(k@),
        }
    }
}

/// Why a string wasn't a valid `kind:value` ref.
#[derive(Debug, Clone, PartialEq, Eq)]
pub struct ParseIcechunkRefError {
    /// Quoted back to the user so the message names what was rejected.
    pub raw: String,
    pub problem: RefProblem,
}

/// The user-facing message of a parse error.
pub open spec fn error_message(raw: Seq<char>, problem: ProblemV) -> Seq<char> {
    "invalid Icechunk ref \""@ + raw + "\": "@ + match problem {
        ProblemV::MissingSeparator => "expected \"kind:value\" (kind one of branch, tag, snapshot)"@,
        ProblemV::EmptyValue => "value must not be empty"@,
        ProblemV::UnknownKind(k) => "unknown kind \""@ + k + "\" (expected branch, tag, or snapshot)"@,
    }
}

impl ParseIcechunkRefError {
    /// The message, which is user-facing as it is.
    pub fn to_string(&self) -> (r: String)
        ensures
            r@ == error_message(self.raw@, self.problem@),
    {
        let mut s = String::new();
        push_str(&mut s, "invalid Icechunk ref \"");
        push_str(&mut s, self.raw.as_str());
        push_str(&mut s, "\": ");
        match &self.problem {
            RefProblem::MissingSeparator => {
                push_str(&mut s, "expected \"kind:value\" (kind one of branch, tag, snapshot)");
            },
            RefProblem::EmptyValue => {
                push_str(&mut s, "value must not be empty");
            },
            RefProblem::UnknownKind(k) => {
                push_str(&mut s, "unknown kind \"");
                push_str(&mut s, k.as_str());
                push_str(&mut s, "\" (expected branch, tag, or snapshot)");
            },
        }
        assert(s@ =~= error_message(self.raw@, self.problem@));
        s
    }
}

/// The index of the first `c` in `s`.
pub open spec fn first_index_of(s: Seq<char>, c: char) -> Option<int>
    decreases s.len(),
{
    if s.len() == 0 {
        None
    } else if s[0] == c {
        Some(0)
    } else {
        match first_index_of(s.drop_first(), c) {
            Some(i) => Some(i + 1),
            None => None,
        }
    }
}

/// How a string parses as a ref: split at the first `:`, read the kind,
/// then refuse an empty value of a known kind.
pub open spec fn spec_parse_ref(raw: Seq<char>) -> Result<RefV, ProblemV> {
    match first_index_of(raw, ':') {
        None => Err(ProblemV::MissingSeparator),
        Some(i) => {
            let kind = raw.take(i);
            let value = raw.skip(i + 1);
            if kind != "branch"@ && kind != "tag"@ && kind != "snapshot"@ {
                Err(ProblemV::UnknownKind(kind))
            } else if value.len() == 0 {
                Err(ProblemV::EmptyValue)
            } else if kind == "branch"@ {
                Ok(RefV::Branch(value))
            } else if kind == "tag"@ {
                Ok(RefV::Tag(value))
            } else {
                Ok(RefV::Snapshot(value))
            }
        },
    }
}

/// The first `:` of `cs`, if any.
fn find_colon(cs: &[char]) -> (r: Option<usize>)
    ensures
        match r {
            Some(i) => first_index_of(cs@, ':') == Some(i as int) && i < cs.len(),
            None => first_index_of(cs@, ':') is None,
        },
{
    let mut i: usize = 0;
    assert(cs@.skip(0) == cs@);
    while i < cs.len()
        invariant
            i <= cs.len(),
            forall|j: int| 0 <= j < i ==> cs@[j] != ':',
            first_index_of(cs@, ':') == match first_index_of(cs@.skip(i as int), ':') {
                Some(k) => Some(k + i),
                None => None,
            },
        decreases cs.len() - i,
    {
        assert(cs@.skip(i as int)[0] == cs@[i as int]);
        assert(cs@.skip(i as int).drop_first() == cs@.skip(i + 1));
        if cs[i] == ':' {
            return Some(i);
        }
        i = i + 1;
    }
    None
}

/// Parses the `kind:value` spelling of a ref. Only the first `:`
/// separates: a value may hold colons of its own.
pub fn parse_ref(raw: &str) -> (r: Result<IcechunkRef, ParseIcechunkRefError>)
    ensures
        match r {
            Ok(rf) => spec_parse_ref(raw@) == Ok::<RefV, ProblemV>(rf@),
            Err(e) => e.raw@ == raw@ && spec_parse_ref(raw@) == Err::<RefV, ProblemV>(e.problem@),
        },
{
    let cs = chars_of(raw);
    let i = match find_colon(cs.as_slice()) {
        Some(i) => i,
        None => {
            return Err(ParseIcechunkRefError { raw: string_from_chars(cs.as_slice()), problem: RefProblem::MissingSeparator });
        },
    };
    let (kind_part, rest) = cs.as_slice().split_at(i);
    let (_, value_part) = rest.split_at(1);
    assert(kind_part@ == raw@.take(i as int));
    assert(value_part@ =~= raw@.skip(i + 1));
    let kind = string_from_chars(kind_part);
    let is_branch = str_eq(kind.as_str(), "branch");
    let is_tag = str_eq(kind.as_str(), "tag");
    let is_snapshot = str_eq(kind.as_str(), "snapshot");
    if !is_branch && !is_tag && !is_snapshot {
        return Err(ParseIcechunkRefError { raw: string_from_chars(cs.as_slice()), problem: RefProblem::UnknownKind(kind) });
    }
    if value_part.len() == 0 {
        return Err(ParseIcechunkRefError { raw: string_from_chars(cs.as_slice()), problem: RefProblem::EmptyValue });
    }
    let value = string_from_chars(value_part);
    if is_branch {
        Ok(IcechunkRef::Branch(value))
    } else if is_tag {
        Ok(IcechunkRef::Tag(value))
    } else {
        Ok(IcechunkRef::Snapshot(value))
    }
}

impl core::str::FromStr for IcechunkRef {
    type Err = ParseIcechunkRefError;

    fn from_str(raw: &str) -> (r: Result<Self, Self::Err>)
        ensures
            match r {
                Ok(rf) => spec_parse_ref(raw@) == Ok::<RefV, ProblemV>(rf@),
                Err(e) => e.raw@ == raw@ && spec_parse_ref(raw@) == Err::<RefV, ProblemV>(e.problem@),
            },
    {
        parse_ref(raw)
    }
}

/// A ref with a nonempty name reads back, from its `kind:value` spelling,
/// as the very same ref: `parse_ref` is the inverse of `to_string`.
pub proof fn lemma_ref_round_trip(r: RefV)
    requires
        ref_name(r).len() > 0,
    ensures
        spec_parse_ref(ref_text(r)) == Ok::<RefV, ProblemV>(r),
{
    reveal_strlit("branch");
    reveal_strlit("tag");
    reveal_strlit("snapshot");
    let k = ref_kind(r);
    let t = ref_text(r);
    assert forall|j: int| 0 <= j < k.len() implies k[j] != ':' by {}
    lemma_first_index_after(k, seq![':'] + ref_name(r), ':');
    assert(t == k + (seq![':'] + ref_name(r)));
    assert(first_index_of(t, ':') == Some(k.len() as int));
    assert(t.take(k.len() as int) =~= k);
    assert(t.skip(k.len() as int + 1) =~= ref_name(r));
}

/// When `a` holds no `c` and `b` starts with `c`, the first `c` of
/// `a + b` is just after `a`.
proof fn lemma_first_index_after(a: Seq<char>, b: Seq<char>, c: char)
    requires
        forall|j: int| 0 <= j < a.len() ==> a[j] != c,
        b.len() > 0,
        b[0] == c,
    ensures
        first_index_of(a + b, c) == Some(a.len() as int),
    decreases a.len(),
{
    if a.len() == 0 {
        assert(a + b == b);
    } else {
        assert((a + b)[0] == a[0]);
        assert((a + b).drop_first() == a.drop_first() + b);
        lemma_first_index_after(a.drop_first(), b, c);
    }
}

/// `path` without its leading `/`s: the relative-path convention of the
/// plain Zarr reader.
pub open spec fn spec_normalize_path(p: Seq<char>) -> Seq<char>
    decreases p.len(),
{
    if p.len() > 0 && p[0] == '/' {
        spec_normalize_path(p.drop_first())
    } else {
        p
    }
}

/// Icechunk paths are absolute (`/`, `/group_a/nested`); strip the leading
/// slashes so the root becomes `""`.
pub fn normalize_path(path: &str) -> (r: String)
    ensures
        r@ == spec_normalize_path(path@),
{
    let cs = chars_of(path);
    let mut n: usize = 0;
    assert(cs@.skip(0) == cs@);
    while n < cs.len() && cs[n] == '/'
        invariant
            n <= cs.len(),
            cs@ == path@,
            spec_normalize_path(cs@.skip(n as int)) == spec_normalize_path(path@),
        decreases cs.len() - n,
    {
        assert(cs@.skip(n as int).drop_first() == cs@.skip(n + 1));
        n = n + 1;
    }
    let (_, rest) = cs.as_slice().split_at(n);
    assert(rest@ == cs@.skip(n as int));
    string_from_chars(rest)
}


/// A normalized path has no leading `/` left, so normalizing it again
/// changes nothing.
pub proof fn lemma_normalize_path_idempotent(p: Seq<char>)
    ensures
        spec_normalize_path(p).len() == 0 || spec_normalize_path(p)[0] != '/',
        spec_normalize_path(spec_normalize_path(p)) == spec_normalize_path(p),
    decreases p.len(),
{
    if p.len() > 0 && p[0] == '/' {
        lemma_normalize_path_idempotent(p.drop_first());
    }
}

/// The walk down a branch's history, newest snapshot first, that a version
/// summary shows. The reader reads each snapshot the walk asks for and
/// records it; the walk decides what to read next and when to stop: at the
/// first snapshot, or once `limit` snapshots are recorded (the history is
/// then truncated).
pub struct AncestryWalk {
    /// The snapshots recorded so far, newest first.
    pub entries: Vec<SnapshotInfo>,
    /// The walk stopped at its limit with history left.
    pub truncated: bool,
    /// The snapshot to read next, while the history goes on.
    pub next: Option<String>,
    /// The most snapshots the walk records.
    pub limit: usize,
}

impl AncestryWalk {
    /// A walk from the snapshot `tip`.
    pub fn new(tip: String, limit: usize) -> (r: Self)
        ensures
            r.entries@.len() == 0,
            !r.truncated,
            r.next == Some(tip),
            r.limit == limit,
    {
        AncestryWalk { entries: Vec::new(), truncated: false, next: Some(tip), limit }
    }

    /// The snapshot to read next, or none when the walk is over: when the
    /// history has ended, or when the limit is reached with history left,
    /// which marks the walk truncated.
    pub fn next_lookup(&mut self) -> (r: Option<String>)
        ensures
            final(self).entries == old(self).entries,
            final(self).next == old(self).next,
            final(self).limit == old(self).limit,
            match old(self).next {
                None => r is None && final(self).truncated == old(self).truncated,
                Some(id) => if old(self).entries@.len() >= old(self).limit {
                    r is None && final(self).truncated
                } else {
                    r == Some(id) && final(self).truncated == old(self).truncated
                },
            },
    {
        match &self.next {
            None => None,
            Some(id) => {
                if self.entries.len() >= self.limit {
                    self.truncated = true;
                    None
                } else {
                    Some(id.clone())
                }
            },
        }
    }

    /// Records the snapshot just read: its id, its message (an empty one
    /// is no message), when it was written, and its parent, which the walk
    /// reads next.
    pub fn record(&mut self, id: String, message: String, wrote_at: String, parent: Option<String>)
        ensures
            final(self).entries@ == old(self).entries@.push(
                SnapshotInfo {
                    id,
                    message: if message@.len() == 0 {
                        None
                    } else {
                        Some(message)
                    },
                    wrote_at: Some(wrote_at),
                },
            ),
            final(self).next == parent,
            final(self).truncated == old(self).truncated,
            final(self).limit == old(self).limit,
    {
        let empty = str_eq(message.as_str(), "");
        proof {
            reveal_strlit("");
            assert(""@ =~= Seq::<char>::empty());
            if message@.len() == 0 {
                assert(message@ =~= ""@);
            }
            assert(empty == (message@.len() == 0));
        }
        let message = if empty {
            None
        } else {
            Some(message)
        };
        self.entries.push(SnapshotInfo { id, message, wrote_at: Some(wrote_at) });
        self.next = parent;
    }
}

} // verus!
