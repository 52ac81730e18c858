//! Remote sources: how to reach an object store, the S3 region to ask
//! for, and the order in which a remote location is probed to tell which
//! reader it needs.
//!
//! The probing is a small state machine: the caller asks the store what
//! [`RemoteDetect`] wants to know, answers, and gets the next question or
//! the decision.

use vstd::prelude::*;
use crate::dispatch::{spec_zarr_root_marker, zarr_root_marker, FormatHint, ZARR_ROOT_MARKER_COUNT};
use crate::text::owned;

verus! {

/// How to reach remote object stores.
#[derive(Debug, Clone, Default, PartialEq, Eq)]
pub struct RemoteOptions {
    /// Send unsigned requests (public buckets) instead of using the
    /// provider's default credential chain.
    pub anonymous: bool,
    /// S3 region override.
    pub region: Option<String>,
    /// S3-compatible endpoint override (MinIO, Ceph, R2, ...).
    pub endpoint: Option<String>,
    /// Allow plain-HTTP endpoints for S3/Azure (`--endpoint http://...`).
    pub allow_http: bool,
}

/// The region S3 requests go to when nothing says otherwise. S3 answers a
/// request sent to the wrong region with an error that names the bucket's
/// real one.
pub open spec fn spec_default_s3_region() -> Seq<char> {
    "us-east-1"@
}

/// The region to set on an S3 client: the `--region` override when given;
/// else, when the environment names no region (`AWS_REGION`,
/// `AWS_DEFAULT_REGION`), the default one; else none, leaving the
/// environment's.
pub fn s3_region(opts: &RemoteOptions, env_names_region: bool) -> (r: Option<String>)
    ensures
        match opts.region {
            Some(g) => r == Some(g),
            None => if env_names_region {
                r is None
            } else {
                r matches Some(d) && d@ == spec_default_s3_region()
            },
        },
{
    match &opts.region {
        Some(g) => Some(g.clone()),
        None => if env_names_region {
            None
        } else {
            Some(owned("us-east-1"))
        },
    }
}

/// The keys probed, in order, to tell what a remote location holds: the
/// Zarr root documents, then an Icechunk repository's `repo` file.
pub open spec fn spec_probe_key(i: nat) -> Seq<char> {
    if i < ZARR_ROOT_MARKER_COUNT {
        spec_zarr_root_marker(i)
    } else {
        "repo"@
    }
}

/// The key of probe `i` (below [`PROBE_COUNT`]).
pub fn probe_key(i: usize) -> (r: &'static str)
    requires
        i < PROBE_COUNT,
    ensures
        r@ == spec_probe_key(i as nat),
{
    if i < ZARR_ROOT_MARKER_COUNT {
        zarr_root_marker(i)
    } else {
        "repo"
    }
}

/// How many keys are probed.
pub const PROBE_COUNT: usize = ZARR_ROOT_MARKER_COUNT + 1;

/// What the detection of a remote location's kind needs next, or what it
/// decided.
#[derive(Debug, Clone, Copy, PartialEq, Eq, Structural)]
pub enum RemoteDetect {
    /// Does the object at probe key `i` exist?
    Probe(usize),
    /// Does the top-level listing show an Icechunk repository (`None`
    /// when the store cannot list)?
    List,
    /// The reader the location needs, or none found.
    Decided(Option<FormatHint>),
}

/// The detection's first step: a location whose last segment has a
/// netCDF-like extension goes to the netCDF reader without a probe.
pub fn detect_start(netcdf_name: bool) -> (r: RemoteDetect)
    ensures
        r == (if netcdf_name {
            RemoteDetect::Decided(Some(FormatHint::NetCdf))
        } else {
            RemoteDetect::Probe(0)
        }),
{
    if netcdf_name {
        RemoteDetect::Decided(Some(FormatHint::NetCdf))
    } else {
        RemoteDetect::Probe(0)
    }
}

/// The step after probe `i` answered `exists`.
pub open spec fn spec_after_probe(i: nat, exists: bool) -> RemoteDetect {
    if exists {
        if i < ZARR_ROOT_MARKER_COUNT {
            RemoteDetect::Decided(Some(FormatHint::Zarr))
        } else {
            RemoteDetect::Decided(Some(FormatHint::Icechunk))
        }
    } else if i + 1 < PROBE_COUNT {
        RemoteDetect::Probe((i + 1) as usize)
    } else {
        RemoteDetect::List
    }
}

/// The step after probe `i` answered `exists`: a Zarr root document makes
/// the location a Zarr store, a `repo` file an Icechunk repository;
/// otherwise the next probe, and after the last the listing.
pub fn after_probe(i: usize, exists: bool) -> (r: RemoteDetect)
    requires
        i < PROBE_COUNT,
    ensures
        r == spec_after_probe(i as nat, exists),
{
    if exists {
        if i < ZARR_ROOT_MARKER_COUNT {
            RemoteDetect::Decided(Some(FormatHint::Zarr))
        } else {
            RemoteDetect::Decided(Some(FormatHint::Icechunk))
        }
    } else if i + 1 < PROBE_COUNT {
        RemoteDetect::Probe(i + 1)
    } else {
        RemoteDetect::List
    }
}

/// The decision once the listing answered.
pub open spec fn spec_after_listing(shows_icechunk: Option<bool>) -> RemoteDetect {
    if shows_icechunk == Some(true) {
        RemoteDetect::Decided(Some(FormatHint::Icechunk))
    } else {
        RemoteDetect::Decided(None)
    }
}

/// The decision once the listing answered: an Icechunk layout, or nothing
/// found (also when the store cannot list).
pub fn after_listing(shows_icechunk: Option<bool>) -> (r: RemoteDetect)
    ensures
        r == spec_after_listing(shows_icechunk),
{
    match shows_icechunk {
        Some(true) => RemoteDetect::Decided(Some(FormatHint::Icechunk)),
        _ => RemoteDetect::Decided(None),
    }
}

/// What the probes find at a location, answered in full: which probe
/// keys exist, and what the listing shows.
pub open spec fn spec_remote_kind(netcdf_name: bool, exists: Seq<bool>, listing: Option<bool>) -> Option<FormatHint> {
    if netcdf_name {
        Some(FormatHint::NetCdf)
    } else if exists[0] || exists[1] || exists[2] || exists[3] {
        Some(FormatHint::Zarr)
    } else if exists[4] || listing == Some(true) {
        Some(FormatHint::Icechunk)
    } else {
        None
    }
}

/// The machine from probe `i` on, each probe answered from `exists` and
/// the listing from `listing`.
pub open spec fn probe_from(i: nat, exists: Seq<bool>, listing: Option<bool>) -> RemoteDetect
    decreases PROBE_COUNT - i,
{
    if i >= PROBE_COUNT {
        spec_after_listing(listing)
    } else {
        match spec_after_probe(i, exists[i as int]) {
            RemoteDetect::Probe(_) => probe_from(i + 1, exists, listing),
            RemoteDetect::List => spec_after_listing(listing),
            d => d,
        }
    }
}

/// The machine run from its start to its decision on the given answers.
pub open spec fn run_detection(netcdf_name: bool, exists: Seq<bool>, listing: Option<bool>) -> RemoteDetect {
    if netcdf_name {
        RemoteDetect::Decided(Some(FormatHint::NetCdf))
    } else {
        probe_from(0, exists, listing)
    }
}

/// Whatever the answers, the machine decides what they say the location
/// is: a netCDF-like name wins, then any Zarr root document, then an
/// Icechunk `repo` file or layout; with none of these nothing is found.
pub proof fn lemma_detection_follows_the_probes(netcdf_name: bool, exists: Seq<bool>, listing: Option<bool>)
    requires
        exists.len() == PROBE_COUNT,
    ensures
        run_detection(netcdf_name, exists, listing) == RemoteDetect::Decided(spec_remote_kind(netcdf_name, exists, listing)),
{
    reveal_with_fuel(probe_from, 6);
}

} // verus!
