//! Format detection: which reader a source goes to, decided from what a
//! look at it found (its signature bytes, its name, the entries at a
//! directory's root), and the user-facing reason when none claims it.
//! Also the recognizers for command-line sources: URLs, and the dataset
//! name `ncdump` prints.

use vstd::prelude::*;
use crate::icechunk::{RepoLayout, is_icechunk_repo};
use crate::text::{chars_of, owned, push_str, str_eq, string_from_chars};

verus! {

/// Which reader family a source should go to. Detected from the source, or
/// supplied by a caller to override detection.
#[derive(Debug, Clone, Copy, PartialEq, Eq, Structural)]
pub enum FormatHint {
    /// NetCDF-3/4 or HDF5 file.
    NetCdf,
    /// Zarr v2 or v3 store (the reader distinguishes the two).
    Zarr,
    /// Icechunk repository.
    Icechunk,
}

/// What `Path::extension` gives for a path: the extension of its file
/// name (see [`crate::zarr::name_extension`]), `None` when it has none.
pub open spec fn path_extension(path: Seq<char>) -> Option<Seq<char>> {
    match crate::zarr::path_file_name(path) {
        Some(n) => crate::zarr::name_extension(n),
        None => None,
    }
}

/// `Path::extension` of a path given as text.
pub(crate) fn extension_of(path: &str) -> (r: Option<String>)
    ensures
        crate::zarr::opt_text(r) == path_extension(path@),
        crate::zarr::plain_component(path@) ==> crate::zarr::opt_text(r) == crate::zarr::name_extension(path@),
{
    match crate::zarr::file_name_text(path) {
        Some(name) => crate::zarr::split_file_name(name.as_str()).1,
        None => None,
    }
}

/// ASCII lowercase of one character.
pub open spec fn ascii_lower(c: char) -> char {
    if 'A' <= c && c <= 'Z' {
        ((c as int) + 32) as char
    } else {
        c
    }
}

/// ASCII lowercase of a string.
pub open spec fn ascii_lowercase(s: Seq<char>) -> Seq<char> {
    s.map_values(|c: char| ascii_lower(c))
}

/// The extensions (lowercase, without the dot) routed to the NetCDF/HDF5
/// reader even without a recognized signature.
pub open spec fn netcdf_like(ext: Seq<char>) -> bool {
    ext == "nc"@ || ext == "nc4"@ || ext == "cdf"@ || ext == "h5"@ || ext == "hdf5"@ || ext == "he5"@
}

/// Does a name carry one of the netCDF-like extensions, in any case?
pub open spec fn spec_has_netcdf_like_extension(name: Seq<char>) -> bool {
    match path_extension(name) {
        Some(e) => netcdf_like(ascii_lowercase(e)),
        None => false,
    }
}

/// The last `.` of `a + ['.'] + e`, when `e` holds none, is the one
/// after `a`.
proof fn lemma_last_dot_before_extension(a: Seq<char>, e: Seq<char>)
    requires
        forall|i: int| 0 <= i < e.len() ==> #[trigger] e[i] != '.',
    ensures
        crate::zarr::last_index_of(a + seq!['.'] + e, '.') == Some(a.len() as int),
    decreases e.len(),
{
    let t = a + seq!['.'] + e;
    if e.len() == 0 {
        assert(t.last() == '.');
    } else {
        assert(t.last() == e.last());
        assert(t.drop_last() =~= a + seq!['.'] + e.drop_last());
        lemma_last_dot_before_extension(a, e.drop_last());
    }
}

/// A file name `stem.ext` is read for its extension `ext`, and it counts
/// as netCDF-like exactly when `ext`, in any ASCII letter case, is one of
/// `nc`, `nc4`, `cdf`, `h5`, `hdf5` and `he5`.
pub proof fn lemma_netcdf_extensions_are_recognized(stem: Seq<char>, ext: Seq<char>)
    requires
        stem.len() > 0,
        forall|i: int| 0 <= i < ext.len() ==> #[trigger] ext[i] != '.',
    ensures
        crate::zarr::name_extension(stem + seq!['.'] + ext) == Some(ext),
        netcdf_like(ascii_lowercase(ext)) <==> (ascii_lowercase(ext) == "nc"@ || ascii_lowercase(ext) == "nc4"@
            || ascii_lowercase(ext) == "cdf"@ || ascii_lowercase(ext) == "h5"@ || ascii_lowercase(ext) == "hdf5"@
            || ascii_lowercase(ext) == "he5"@),
{
    lemma_last_dot_before_extension(stem, ext);
    assert((stem + seq!['.'] + ext).skip(stem.len() as int + 1) =~= ext);
}

/// The ASCII lowercase of `s`.
fn to_ascii_lower(s: &str) -> (r: String)
    ensures
        r@ == ascii_lowercase(s@),
{
    let cs = chars_of(s);
    let mut out: Vec<char> = Vec::new();
    let mut i: usize = 0;
    while i < cs.len()
        invariant
            i <= cs.len(),
            cs@ == s@,
            out@.len() == i,
            forall|j: int| 0 <= j < i ==> #[trigger] out@[j] == ascii_lower(cs@[j]),
        decreases cs.len() - i,
    {
        let c = cs[i];
        let l = if 'A' <= c && c <= 'Z' {
            ((c as u32) + 32) as u8 as char
        } else {
            c
        };
        assert(l == ascii_lower(c)) by {
            if 'A' <= c && c <= 'Z' {
                assert((c as u32) + 32 < 256);
            }
        }
        out.push(l);
        i = i + 1;
    }
    assert(out@ =~= ascii_lowercase(s@));
    string_from_chars(out.as_slice())
}

/// Is an extension, as `Path::extension` gives it, one of the netCDF-like
/// ones, in any letter case? No extension is not.
pub fn extension_is_netcdf_like(ext: Option<String>) -> (r: bool)
    ensures
        r == match crate::zarr::opt_text(ext) {
            Some(e) => netcdf_like(ascii_lowercase(e)),
            None => false,
        },
{
    match ext {
        Some(e) => {
            let l = to_ascii_lower(e.as_str());
            let s = l.as_str();
            str_eq(s, "nc") || str_eq(s, "nc4") || str_eq(s, "cdf") || str_eq(s, "h5")
                || str_eq(s, "hdf5") || str_eq(s, "he5")
        },
        None => false,
    }
}

/// Does `name` (a file name or the last segment of a URL) carry one of the
/// netCDF-like extensions (`nc`, `nc4`, `cdf`, `h5`, `hdf5`, `he5`), in any
/// letter case?
pub fn has_netcdf_like_extension(name: &str) -> (r: bool)
    ensures
        r == spec_has_netcdf_like_extension(name@),
        crate::zarr::plain_component(name@) ==> r == match crate::zarr::name_extension(name@) {
            Some(e) => netcdf_like(ascii_lowercase(e)),
            None => false,
        },
{
    extension_is_netcdf_like(extension_of(name))
}

/// The HDF5 superblock signature.
pub open spec fn hdf5_magic() -> Seq<u8> {
    seq![0x89u8, 0x48u8, 0x44u8, 0x46u8, 0x0du8, 0x0au8, 0x1au8, 0x0au8]
}

/// Do eight bytes read at `offset` mark a file libnetcdf can open? At the
/// start of a file: `CDF` and a version byte (1 classic, 2 64-bit offset,
/// 5 CDF5), or the HDF5 signature; further in (past a user block), only
/// the HDF5 signature.
pub open spec fn spec_signature_matches(offset: u64, magic: Seq<u8>) -> bool {
    magic.len() == 8 && (magic == hdf5_magic() || (offset == 0 && magic[0] == 0x43u8 && magic[1]
        == 0x44u8 && magic[2] == 0x46u8 && (magic[3] == 1u8 || magic[3] == 2u8 || magic[3] == 5u8)))
}

/// Do eight bytes read at `offset` carry a netCDF or HDF5 signature?
pub fn signature_matches(offset: u64, magic: &[u8]) -> (r: bool)
    ensures
        r == spec_signature_matches(offset, magic@),
{
    if magic.len() != 8 {
        return false;
    }
    let hdf5 = magic[0] == 0x89 && magic[1] == 0x48 && magic[2] == 0x44 && magic[3] == 0x46
        && magic[4] == 0x0d && magic[5] == 0x0a && magic[6] == 0x1a && magic[7] == 0x0a;
    assert(hdf5 == (magic@ == hdf5_magic())) by {
        if hdf5 {
            assert(magic@ =~= hdf5_magic());
        }
    }
    hdf5 || (offset == 0 && magic[0] == 0x43 && magic[1] == 0x44 && magic[2] == 0x46 && (magic[3]
        == 1 || magic[3] == 2 || magic[3] == 5))
}

/// The offsets at which a signature is looked for: the start of the file,
/// then `512 * 2^n` for `n` in `0..7`, where libhdf5 looks for a
/// superblock after a user block.
pub open spec fn spec_signature_offsets() -> Seq<u64> {
    seq![0u64, 512u64, 1024u64, 2048u64, 4096u64, 8192u64, 16384u64, 32768u64]
}

/// The offsets at which to probe for a signature, in order.
pub fn signature_offsets() -> (r: Vec<u64>)
    ensures
        r@ == spec_signature_offsets(),
{
    let mut r: Vec<u64> = Vec::new();
    r.push(0);
    let mut offset: u64 = 512;
    let mut k: usize = 0;
    while k < 7
        invariant
            k <= 7,
            r@.len() == k + 1,
            offset == 512 * pow2_small(k as nat),
            forall|j: int| 0 <= j <= k ==> #[trigger] r@[j] == spec_signature_offsets()[j],
        decreases 7 - k,
    {
        proof {
            reveal_with_fuel(pow2_small, 8);
        }
        r.push(offset);
        offset = offset * 2;
        k = k + 1;
    }
    assert(r@ =~= spec_signature_offsets());
    r
}

/// `2^n` for small `n`.
pub open spec fn pow2_small(n: nat) -> nat
    decreases n,
{
    if n == 0 {
        1
    } else {
        2 * pow2_small((n - 1) as nat)
    }
}

/// How many documents mark the root of a Zarr store.
pub const ZARR_ROOT_MARKER_COUNT: usize = 4;

/// The documents that mark the root of a Zarr store: `zarr.json` (v3),
/// then `.zgroup`, `.zarray` and `.zmetadata` (v2).
pub open spec fn spec_zarr_root_marker(i: nat) -> Seq<char> {
    if i == 0 {
        "zarr.json"@
    } else if i == 1 {
        ".zgroup"@
    } else if i == 2 {
        ".zarray"@
    } else {
        ".zmetadata"@
    }
}

/// Zarr root marker `i` (below [`ZARR_ROOT_MARKER_COUNT`]).
pub fn zarr_root_marker(i: usize) -> (r: &'static str)
    requires
        i < ZARR_ROOT_MARKER_COUNT,
    ensures
        r@ == spec_zarr_root_marker(i as nat),
{
    if i == 0 {
        "zarr.json"
    } else if i == 1 {
        ".zgroup"
    } else if i == 2 {
        ".zarray"
    } else {
        ".zmetadata"
    }
}

/// What a look at a local path found, for deciding which reader it goes
/// to.
#[derive(Debug, Clone, PartialEq, Eq)]
pub struct PathFacts {
    /// The path exists.
    pub exists: bool,
    /// The path is a directory.
    pub is_dir: bool,
    /// A directory with a Zarr root marker (`zarr.json`, `.zgroup`,
    /// `.zarray` or `.zmetadata`) as a file.
    pub has_zarr_marker: bool,
    /// A directory's top-level layout.
    pub layout: RepoLayout,
    /// A file whose first bytes (or bytes after a user block) carry a
    /// netCDF or HDF5 signature.
    pub has_signature: bool,
    /// The path's file name (`Path::file_name`), when it has one.
    pub file_name: Option<String>,
}

/// Which reader a path goes to, if any.
pub open spec fn spec_detect_local_kind(f: PathFacts) -> Option<FormatHint> {
    if f.is_dir {
        if f.has_zarr_marker {
            Some(FormatHint::Zarr)
        } else if crate::icechunk::spec_is_icechunk_repo(f.layout) {
            Some(FormatHint::Icechunk)
        } else {
            None
        }
    } else {
        let known = match f.file_name {
            Some(n) => spec_has_netcdf_like_extension(n@),
            None => false,
        };
        if f.has_signature || known { Some(FormatHint::NetCdf) } else { None }
    }
}

/// Which reader a local path goes to. A directory goes by its contents: a
/// Zarr root marker first (definitive), then the Icechunk repository
/// layout (which a Zarr store could meet by coincidence); never by name.
/// A file goes to the NetCDF/HDF5 reader when it carries a signature or a
/// netCDF-like extension (even a file that does not exist, so that opening
/// it gives the reader's own error).
pub fn detect_local_kind(facts: &PathFacts) -> (r: Option<FormatHint>)
    ensures
        r == spec_detect_local_kind(*facts),
{
    if facts.is_dir {
        if facts.has_zarr_marker {
            return Some(FormatHint::Zarr);
        }
        if is_icechunk_repo(facts.layout) {
            return Some(FormatHint::Icechunk);
        }
        return None;
    }
    let known = match &facts.file_name {
        Some(n) => has_netcdf_like_extension(n.as_str()),
        None => false,
    };
    if facts.has_signature || known {
        Some(FormatHint::NetCdf)
    } else {
        None
    }
}

/// Why an existing file with this extension is unsupported.
pub open spec fn spec_extension_reason(ext: Option<Seq<char>>) -> Seq<char> {
    match ext {
        Some(e) => "unsupported file type \"."@ + e + "\""@,
        None => "not a netCDF or HDF5 file, and no recognizable file extension"@,
    }
}

/// Why a path is unsupported, phrased for an end user.
pub open spec fn spec_unsupported_reason(f: PathFacts) -> Seq<char> {
    if f.is_dir {
        "not a Zarr store or an Icechunk repository"@
    } else if !f.exists {
        "no such file or directory"@
    } else {
        match f.file_name {
            Some(n) => spec_extension_reason(path_extension(n@)),
            None => spec_extension_reason(None),
        }
    }
}

/// Why [`detect_local_kind`] found no reader for a path, phrased for an
/// end user.
pub fn unsupported_reason(facts: &PathFacts) -> (r: String)
    ensures
        r@ == spec_unsupported_reason(*facts),
{
    if facts.is_dir {
        return owned("not a Zarr store or an Icechunk repository");
    }
    if !facts.exists {
        return owned("no such file or directory");
    }
    let ext = match &facts.file_name {
        Some(n) => extension_of(n.as_str()),
        None => None,
    };
    extension_reason(ext)
}

/// Which reader a local path goes to: the caller's hint when there is one,
/// else what [`detect_local_kind`] finds; when neither names a reader, the
/// user-facing reason the path is unsupported.
pub fn route_local_path(hint: Option<FormatHint>, facts: &PathFacts) -> (r: Result<FormatHint, String>)
    ensures
        match hint {
            Some(h) => r == Ok::<FormatHint, String>(h),
            None => match spec_detect_local_kind(*facts) {
                Some(k) => r == Ok::<FormatHint, String>(k),
                None => r matches Err(m) && m@ == spec_unsupported_reason(*facts),
            },
        },
{
    match hint {
        Some(h) => Ok(h),
        None => match detect_local_kind(facts) {
            Some(k) => Ok(k),
            None => Err(unsupported_reason(facts)),
        },
    }
}

/// Why an existing file whose extension (as `Path::extension` gives it)
/// is `ext` is unsupported.
pub fn extension_reason(ext: Option<String>) -> (r: String)
    ensures
        r@ == spec_extension_reason(crate::zarr::opt_text(ext)),
{
    match ext {
        Some(e) => {
            let mut s = owned("unsupported file type \".");
            push_str(&mut s, e.as_str());
            push_str(&mut s, "\"");
            s
        },
        None => owned("not a netCDF or HDF5 file, and no recognizable file extension"),
    }
}

/// A character allowed in a URL scheme.
pub open spec fn scheme_char(c: char) -> bool {
    ('a' <= c && c <= 'z') || ('A' <= c && c <= 'Z') || ('0' <= c && c <= '9') || c == '+' || c
        == '-' || c == '.'
}

/// Does `://` start at index `i` of `s`?
pub open spec fn sep_at(s: Seq<char>, i: int) -> bool {
    0 <= i && i + 3 <= s.len() && s[i] == ':' && s[i + 1] == '/' && s[i + 2] == '/'
}

/// Does a command-line source spec look like a URL: a nonempty scheme of
/// letters, digits, `+`, `-`, `.` before its first `://`?
pub open spec fn spec_looks_like_url(s: Seq<char>) -> bool {
    exists|i: int|
        0 < i && #[trigger] sep_at(s, i) && (forall|j: int| 0 <= j < i ==> !#[trigger] sep_at(s, j))
            && (forall|j: int| 0 <= j < i ==> scheme_char(#[trigger] s[j]))
}

/// Does a command-line source spec look like a URL? Anything with a
/// `scheme://` prefix does (the scheme nonempty, of ASCII letters, digits,
/// `+`, `-` and `.`); everything else is a filesystem path.
pub fn looks_like_url(spec: &str) -> (r: bool)
    ensures
        r == spec_looks_like_url(spec@),
{
    let cs = chars_of(spec);
    let n = cs.len();
    let mut i: usize = 0;
    while i < n && n - i >= 3
        invariant
            cs@ == spec@,
            n == cs.len(),
            forall|j: int| 0 <= j < i ==> !#[trigger] sep_at(spec@, j),
        decreases n - i,
    {
        if cs[i] == ':' && cs[i + 1] == '/' && cs[i + 2] == '/' {
            assert(sep_at(spec@, i as int));
            if i == 0 {
                return false;
            }
            let mut k: usize = 0;
            while k < i
                invariant
                    k <= i,
                    i + 3 <= n,
                    sep_at(spec@, i as int),
                    forall|j: int| 0 <= j < i ==> !#[trigger] sep_at(spec@, j),
                    cs@ == spec@,
                    n == cs.len(),
                    forall|j: int| 0 <= j < k ==> scheme_char(#[trigger] spec@[j]),
                decreases i - k,
            {
                let c = cs[k];
                if !(('a' <= c && c <= 'z') || ('A' <= c && c <= 'Z') || ('0' <= c && c <= '9')
                    || c == '+' || c == '-' || c == '.') {
                    assert(!spec_looks_like_url(spec@)) by {
                        if spec_looks_like_url(spec@) {
                            let w = choose|w: int|
                                0 < w && #[trigger] sep_at(spec@, w) && (forall|j: int| 0 <= j < w ==> !#[trigger] sep_at(spec@, j))
                                    && (forall|j: int| 0 <= j < w ==> scheme_char(#[trigger] spec@[j]));
                            if w < i {
                                assert(sep_at(spec@, w));
                            } else if w > i {
                                assert(sep_at(spec@, i as int));
                            } else {
                                assert(scheme_char(spec@[k as int]));
                            }
                        }
                    }
                    return false;
                }
                k = k + 1;
            }
            return true;
        }
        assert(!sep_at(spec@, i as int));
        i = i + 1;
    }
    assert(!spec_looks_like_url(spec@)) by {
        if spec_looks_like_url(spec@) {
            let w = choose|w: int|
                0 < w && #[trigger] sep_at(spec@, w) && (forall|j: int| 0 <= j < w ==> !#[trigger] sep_at(spec@, j))
                    && (forall|j: int| 0 <= j < w ==> scheme_char(#[trigger] spec@[j]));
            assert(!sep_at(spec@, w));
        }
    }
    false
}

/// The dataset name `ncdump` would print after `netcdf`, from a source's
/// last path segment: its file stem, unless that is empty, `.` or `..`, in
/// which case `dataset`.
pub open spec fn spec_dataset_name(stem: Option<Seq<char>>) -> Seq<char> {
    match stem {
        Some(s) => if s.len() > 0 && s != seq!['.'] && s != seq!['.', '.'] { s } else { "dataset"@ },
        None => "dataset"@,
    }
}

/// The dataset name for a source whose last path segment is `last`: the
/// segment with its extension removed (`simple.nc` → `simple`), or
/// `dataset` when nothing usable is left.
pub fn dataset_name(last: &str) -> (r: String)
    ensures
        r@ == spec_dataset_name(crate::zarr::path_file_stem(last@)),
{
    let stem = crate::zarr::file_stem_text(last);
    let name = crate::zarr::proper_stem_or(stem, "dataset");
    assert(crate::zarr::opt_text(stem) == crate::zarr::path_file_stem(last@));
    name
}

/// Directory stores are dispatched on their contents, not their name: two
/// directories that hold the same things go to the same reader, whatever
/// they are called.
pub proof fn lemma_directories_dispatch_on_contents(a: PathFacts, b: PathFacts)
    requires
        a.is_dir,
        b.is_dir,
        a.has_zarr_marker == b.has_zarr_marker,
        a.layout == b.layout,
    ensures
        spec_detect_local_kind(a) == spec_detect_local_kind(b),
{
}

/// A Zarr root marker is definitive: a directory that holds one goes to
/// the Zarr reader whatever else it holds.
pub proof fn lemma_zarr_marker_wins(f: PathFacts)
    requires
        f.is_dir,
        f.has_zarr_marker,
    ensures
        spec_detect_local_kind(f) == Some(FormatHint::Zarr),
{
}

} // verus!
