use gridlook::cli::{
    header_note, needs_storage_details, unimplemented_message, DumpArgs, FormatArg, EXIT_FAILURE, EXIT_USAGE,
};
use gridlook::dispatch::{
    dataset_name, detect_local_kind, has_netcdf_like_extension, looks_like_url, signature_matches,
    signature_offsets, unsupported_reason, FormatHint, PathFacts,
};
use gridlook::icechunk::{is_icechunk_repo, RepoLayout};

fn no_layout() -> RepoLayout {
    RepoLayout { snapshots_dir: false, refs_dir: false, repo_file: false }
}

fn file(name: &str, exists: bool, has_signature: bool) -> PathFacts {
    PathFacts {
        exists,
        is_dir: false,
        has_zarr_marker: false,
        layout: no_layout(),
        has_signature,
        file_name: Some(name.to_string()),
    }
}

fn dir(name: &str, has_zarr_marker: bool, layout: RepoLayout) -> PathFacts {
    PathFacts {
        exists: true,
        is_dir: true,
        has_zarr_marker,
        layout,
        has_signature: false,
        file_name: Some(name.to_string()),
    }
}

fn icechunk_layout() -> RepoLayout {
    RepoLayout { snapshots_dir: true, refs_dir: true, repo_file: false }
}

#[test]
fn extensions_are_case_insensitive() {
    assert!(has_netcdf_like_extension("a.NC"));
    assert!(has_netcdf_like_extension("b.hdf5"));
    assert!(!has_netcdf_like_extension("c.zarr"));
    assert!(!has_netcdf_like_extension("noext"));
}

/// The fixtures of the original test, described by what a look at each
/// path finds.
#[test]
fn detects_fixture_kinds() {
    assert_eq!(detect_local_kind(&file("simple.nc", true, true)), Some(FormatHint::NetCdf));
    assert_eq!(detect_local_kind(&dir("simple_v2.zarr", true, no_layout())), Some(FormatHint::Zarr));
    assert_eq!(detect_local_kind(&dir("tree.zarr", true, no_layout())), Some(FormatHint::Zarr));
    assert_eq!(
        detect_local_kind(&dir("icechunk_repo.icechunk", false, icechunk_layout())),
        Some(FormatHint::Icechunk)
    );
    assert_eq!(detect_local_kind(&dir("..", false, no_layout())), None);
    assert_eq!(detect_local_kind(&file("generate.py", true, false)), None);
    // Missing files are still classified by extension.
    assert_eq!(detect_local_kind(&file("does-not-exist.nc", false, false)), Some(FormatHint::NetCdf));
}

#[test]
fn zarr_markers_win_over_icechunk_like_children() {
    let layout = RepoLayout { snapshots_dir: true, refs_dir: true, repo_file: false };
    assert_eq!(detect_local_kind(&dir("dispatch.zarr", true, layout)), Some(FormatHint::Zarr));
    assert_eq!(detect_local_kind(&dir("repo", false, layout)), Some(FormatHint::Icechunk));
    // Snapshots beside a transaction log but no ref store is no repo.
    let no_refs = RepoLayout { snapshots_dir: true, refs_dir: false, repo_file: false };
    assert_eq!(detect_local_kind(&dir("repo", false, no_refs)), None);
}

#[test]
fn signatures_are_recognized_whatever_the_name() {
    assert_eq!(detect_local_kind(&file("renamed.dat", true, true)), Some(FormatHint::NetCdf));
    assert!(signature_matches(0, b"CDF\x01\0\0\0\0"));
    assert!(signature_matches(0, b"CDF\x05\0\0\0\0"));
    assert!(!signature_matches(512, b"CDF\x01\0\0\0\0"));
    assert!(signature_matches(512, b"\x89HDF\r\n\x1a\n"));
    assert!(!signature_matches(0, b"\x89HDF\r\n\x1a"));
    assert_eq!(signature_offsets(), vec![0, 512, 1024, 2048, 4096, 8192, 16384, 32768]);
}

#[test]
fn unsupported_paths_explain_themselves() {
    let plain = file("notes.txt", true, false);
    assert_eq!(detect_local_kind(&plain), None);
    assert_eq!(unsupported_reason(&plain), "unsupported file type \".txt\"");
    assert!(unsupported_reason(&file("README", true, false)).contains("not a netCDF or HDF5 file"));
    assert_eq!(unsupported_reason(&file("gone.xyz", false, false)), "no such file or directory");
    assert_eq!(
        unsupported_reason(&dir("empty", false, no_layout())),
        "not a Zarr store or an Icechunk repository"
    );
}

#[test]
fn icechunk_snapshots_icechunk_repo_is_detected_by_layout() {
    assert!(is_icechunk_repo(icechunk_layout()));
}

#[test]
fn icechunk_snapshots_plain_zarr_stores_are_not_icechunk_repos() {
    assert!(!is_icechunk_repo(no_layout()));
    let zarr_like = RepoLayout { snapshots_dir: false, refs_dir: false, repo_file: false };
    assert!(!is_icechunk_repo(zarr_like));
    let snapshots_only = RepoLayout { snapshots_dir: true, refs_dir: false, repo_file: false };
    assert!(!is_icechunk_repo(snapshots_only));
}

#[test]
fn urls_need_a_scheme() {
    assert!(looks_like_url("s3://bucket/key.zarr"));
    assert!(looks_like_url("https://example.com/a.nc"));
    assert!(looks_like_url("file:///tmp/a.nc"));
    assert!(!looks_like_url("/tmp/a.nc"));
    assert!(!looks_like_url("://nothing"));
    assert!(!looks_like_url("c:\\data\\a.nc"));
    assert!(!looks_like_url("we ird://x"));
}

#[test]
fn dataset_names_drop_the_extension() {
    assert_eq!(dataset_name("simple.nc"), "simple");
    assert_eq!(dataset_name("store.zarr"), "store");
    assert_eq!(dataset_name(".."), "dataset");
    assert_eq!(dataset_name(""), "dataset");
}

fn args() -> DumpArgs {
    DumpArgs {
        header: true,
        specials: false,
        kind: false,
        name: None,
        groups: None,
        source_format: None,
        anonymous: false,
        region: None,
        endpoint: None,
        allow_http: false,
        coords: false,
        variables: None,
        xml: false,
        time_strings: false,
        iso_time: false,
        no_wrap: false,
        line_length: None,
        precision: None,
        brief: None,
        full: None,
        source: "a.nc".to_string(),
    }
}

#[test]
fn data_section_flags_are_reported_in_ncdump_order() {
    assert_eq!(args().unimplemented_flag(), None);
    let mut a = args();
    a.precision = Some("3".to_string());
    a.xml = true;
    assert_eq!(a.unimplemented_flag(), Some(("-x", "NcML/XML output")));
    let mut b = args();
    b.full = Some("c".to_string());
    assert_eq!(b.unimplemented_flag(), Some(("-f", "full data annotations")));
    assert_eq!(
        unimplemented_message("-x", "NcML/XML output"),
        "gridlook dump: -x (NcML/XML output) is not implemented yet; only the header (-h) is available"
    );
    assert_eq!(EXIT_USAGE, 2);
    assert_eq!(EXIT_FAILURE, 1);
}

#[test]
fn format_args_name_readers() {
    assert_eq!(FormatHint::from(FormatArg::Netcdf), FormatHint::NetCdf);
    assert_eq!(FormatHint::from(FormatArg::Zarr), FormatHint::Zarr);
    assert_eq!(FormatHint::from(FormatArg::Icechunk), FormatHint::Icechunk);
}

#[test]
fn kind_and_specials_need_the_detailed_read() {
    let mut a = args();
    assert!(!needs_storage_details(&a));
    a.kind = true;
    assert!(needs_storage_details(&a));
    assert_eq!(header_note(&args()), None);
    let mut b = args();
    b.header = false;
    assert!(header_note(&b).expect("a note").contains("header only"));
}

/// The detection half of the original scenario: a renamed netCDF-4 file
/// and a classic file without an extension are both found by signature.
#[test]
fn netcdf_files_are_recognized_by_signature_whatever_their_name() {
    assert_eq!(detect_local_kind(&file("renamed.dat", true, true)), Some(FormatHint::NetCdf));
    assert_eq!(detect_local_kind(&file("no_extension", true, true)), Some(FormatHint::NetCdf));
    assert!(signature_matches(0, b"\x89HDF\r\n\x1a\n"));
    assert!(signature_matches(0, b"CDF\x01\0\0\0\0"));
}

/// A known extension still reaches the netCDF reader even without a
/// signature; neither signature nor extension is unsupported, with a reason.
#[test]
fn known_extension_without_a_signature_still_reaches_the_reader() {
    assert_eq!(detect_local_kind(&file("not_really.nc", true, false)), Some(FormatHint::NetCdf));
    let plain = file("notes", true, false);
    assert_eq!(detect_local_kind(&plain), None);
    assert!(unsupported_reason(&plain).contains("not a netCDF or HDF5 file"));
}

#[test]
fn unsupported_paths_report_why() {
    let parent = dir("..", false, no_layout());
    assert_eq!(detect_local_kind(&parent), None);
    assert!(unsupported_reason(&parent).contains("not a Zarr store or an Icechunk repository"));
    let script = file("generate.py", true, false);
    assert_eq!(detect_local_kind(&script), None);
    assert!(unsupported_reason(&script).contains("unsupported file type \".py\""));
}

#[test]
fn directories_go_by_contents_not_name() {
    for name in ["store.zarr", "repo.icechunk", "plain", "x.nc"] {
        assert_eq!(detect_local_kind(&dir(name, true, no_layout())), Some(FormatHint::Zarr));
        assert_eq!(detect_local_kind(&dir(name, false, icechunk_layout())), Some(FormatHint::Icechunk));
        assert_eq!(detect_local_kind(&dir(name, false, no_layout())), None);
    }
}

use gridlook::dispatch::{zarr_root_marker, ZARR_ROOT_MARKER_COUNT};
use gridlook::remote::{
    after_listing, after_probe, detect_start, probe_key, s3_region, RemoteDetect, RemoteOptions, PROBE_COUNT,
};

/// Runs the remote detection against a store that holds `keys` and whose
/// listing answers `listing`.
fn detect_remote(netcdf_name: bool, keys: &[&str], listing: Option<bool>) -> (Option<FormatHint>, Vec<String>) {
    let mut asked = Vec::new();
    let mut step = detect_start(netcdf_name);
    loop {
        step = match step {
            RemoteDetect::Probe(i) => {
                let key = probe_key(i);
                asked.push(key.to_string());
                after_probe(i, keys.contains(&key))
            }
            RemoteDetect::List => {
                asked.push("<list>".to_string());
                after_listing(listing)
            }
            RemoteDetect::Decided(kind) => return (kind, asked),
        };
    }
}

#[test]
fn remote_locations_are_probed_in_order() {
    let markers: Vec<&str> = (0..ZARR_ROOT_MARKER_COUNT).map(zarr_root_marker).collect();
    assert_eq!(markers, vec!["zarr.json", ".zgroup", ".zarray", ".zmetadata"]);
    assert_eq!(PROBE_COUNT, 5);
    assert_eq!(detect_remote(true, &["zarr.json"], None), (Some(FormatHint::NetCdf), vec![]));
    assert_eq!(detect_remote(false, &["zarr.json", "repo"], None), (Some(FormatHint::Zarr), vec!["zarr.json".to_string()]));
    let (kind, asked) = detect_remote(false, &[".zmetadata"], None);
    assert_eq!(kind, Some(FormatHint::Zarr));
    assert_eq!(asked, vec!["zarr.json", ".zgroup", ".zarray", ".zmetadata"]);
    let (kind, asked) = detect_remote(false, &["repo"], Some(false));
    assert_eq!(kind, Some(FormatHint::Icechunk));
    assert_eq!(asked.last().map(String::as_str), Some("repo"));
    assert_eq!(detect_remote(false, &[], Some(true)).0, Some(FormatHint::Icechunk));
    let (kind, asked) = detect_remote(false, &[], None);
    assert_eq!(kind, None);
    assert_eq!(asked.len(), 6);
    assert_eq!(detect_remote(false, &[], Some(false)).0, None);
}

#[test]
fn s3_regions_fall_back_to_the_default_only_when_unset() {
    let mut opts = RemoteOptions::default();
    assert_eq!(s3_region(&opts, false).as_deref(), Some("us-east-1"));
    assert_eq!(s3_region(&opts, true), None);
    opts.region = Some("eu-west-1".to_string());
    assert_eq!(s3_region(&opts, true).as_deref(), Some("eu-west-1"));
    assert_eq!(s3_region(&opts, false).as_deref(), Some("eu-west-1"));
}

use gridlook::dispatch::{extension_is_netcdf_like, extension_reason, route_local_path};

#[test]
fn a_hint_overrides_detection_and_no_reader_gives_the_reason() {
    let nc = file("simple.nc", true, true);
    assert_eq!(route_local_path(Some(FormatHint::Zarr), &nc), Ok(FormatHint::Zarr));
    assert_eq!(route_local_path(None, &nc), Ok(FormatHint::NetCdf));
    let plain = dir("..", false, no_layout());
    assert_eq!(route_local_path(None, &plain), Err("not a Zarr store or an Icechunk repository".to_string()));
    assert_eq!(route_local_path(Some(FormatHint::Icechunk), &plain), Ok(FormatHint::Icechunk));
}

#[test]
fn extensions_are_judged_after_they_are_read() {
    assert!(extension_is_netcdf_like(Some("NC4".to_string())));
    assert!(extension_is_netcdf_like(Some("he5".to_string())));
    assert!(!extension_is_netcdf_like(Some("zarr".to_string())));
    assert!(!extension_is_netcdf_like(None));
    assert_eq!(extension_reason(Some("py".to_string())), "unsupported file type \".py\"");
    assert_eq!(extension_reason(None), "not a netCDF or HDF5 file, and no recognizable file extension");
}
