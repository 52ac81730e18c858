use gridlook::icechunk::{
    IcechunkRef, RepoLayout, is_icechunk_repo, normalize_path, parse_ref,
};

/// Whatever a ref prints as must parse back into the same ref, for every
/// variant.
#[test]
fn every_ref_round_trips_through_its_string_form() {
    for reference in [
        IcechunkRef::Branch("main".to_owned()),
        IcechunkRef::Tag("v1".to_owned()),
        IcechunkRef::Snapshot("ABC123".to_owned()),
    ] {
        let text = reference.to_string();
        assert!(
            text.starts_with(&format!("{}:", reference.kind())),
            "the printed form should lead with kind(), got {text}"
        );
        assert_eq!(text.parse::<IcechunkRef>(), Ok(reference));
    }
}

/// A value containing a colon (legal in a branch name) belongs to the
/// value, not to a second split.
#[test]
fn only_the_first_colon_separates_kind_from_value() {
    assert_eq!(
        "branch:feature:2".parse::<IcechunkRef>(),
        Ok(IcechunkRef::Branch("feature:2".to_owned()))
    );
}

#[test]
fn malformed_refs_explain_themselves() {
    let no_separator = "bogus".parse::<IcechunkRef>().expect_err("no colon");
    assert_eq!(
        no_separator.to_string(),
        "invalid Icechunk ref \"bogus\": expected \"kind:value\" \
         (kind one of branch, tag, snapshot)"
    );

    let empty = "tag:".parse::<IcechunkRef>().expect_err("no value");
    assert_eq!(empty.to_string(), "invalid Icechunk ref \"tag:\": value must not be empty");

    let unknown = "commit:abc".parse::<IcechunkRef>().expect_err("bad kind");
    assert_eq!(
        unknown.to_string(),
        "invalid Icechunk ref \"commit:abc\": unknown kind \"commit\" \
         (expected branch, tag, or snapshot)"
    );
}

#[test]
fn a_ref_with_an_empty_name_does_not_read_back() {
    let text = IcechunkRef::Branch(String::new()).to_string();
    assert_eq!(text, "branch:");
    assert!(parse_ref(&text).is_err());
}

#[test]
fn display_names_are_the_spelled_value() {
    assert_eq!(IcechunkRef::Snapshot("abc".into()).display_name(), "abc");
    assert_eq!(IcechunkRef::Tag("v1".into()).kind(), "tag");
}

#[test]
fn repo_layouts_need_snapshots_and_a_ref_store() {
    let base = RepoLayout { snapshots_dir: true, refs_dir: false, repo_file: false };
    assert!(!is_icechunk_repo(base));
    assert!(is_icechunk_repo(RepoLayout { refs_dir: true, ..base }));
    assert!(is_icechunk_repo(RepoLayout { repo_file: true, ..base }));
    assert!(!is_icechunk_repo(RepoLayout { snapshots_dir: false, refs_dir: true, repo_file: true }));
}

#[test]
fn node_paths_lose_their_leading_slashes() {
    assert_eq!(normalize_path("/"), "");
    assert_eq!(normalize_path("/group_a/nested"), "group_a/nested");
    assert_eq!(normalize_path("//x/"), "x/");
    assert_eq!(normalize_path("y"), "y");
}

use gridlook::icechunk::listing_is_icechunk;

#[test]
fn remote_listings_show_a_repository_by_its_directories() {
    let dirs = |names: &[&str]| names.iter().map(|s| s.to_string()).collect::<Vec<String>>();
    assert!(listing_is_icechunk(&dirs(&["refs", "snapshots"])));
    assert!(listing_is_icechunk(&dirs(&["snapshots", "transactions", "manifests"])));
    assert!(!listing_is_icechunk(&dirs(&["snapshots"])));
    assert!(!listing_is_icechunk(&dirs(&["refs", "transactions"])));
    assert!(!listing_is_icechunk(&dirs(&[])));
}

use gridlook::icechunk::AncestryWalk;

fn history() -> Vec<(&'static str, &'static str, Option<&'static str>)> {
    vec![("C", "third", Some("B")), ("B", "", Some("A")), ("A", "Repository initialized", None)]
}

fn walk(limit: usize) -> AncestryWalk {
    let mut w = AncestryWalk::new("C".to_string(), limit);
    let chain = history();
    while let Some(id) = w.next_lookup() {
        let (_, message, parent) = chain.iter().find(|(i, _, _)| *i == id).copied().unwrap();
        w.record(id, message.to_string(), "2024-01-01T00:00:00+00:00".to_string(), parent.map(str::to_string));
    }
    w
}

#[test]
fn ancestry_walks_stop_at_the_first_snapshot_or_the_limit() {
    let whole = walk(10);
    assert!(!whole.truncated);
    let ids: Vec<&str> = whole.entries.iter().map(|e| e.id.as_str()).collect();
    assert_eq!(ids, vec!["C", "B", "A"]);
    assert_eq!(whole.entries[0].message.as_deref(), Some("third"));
    assert_eq!(whole.entries[1].message, None);
    assert_eq!(whole.entries[2].wrote_at.as_deref(), Some("2024-01-01T00:00:00+00:00"));

    let capped = walk(2);
    assert!(capped.truncated);
    assert_eq!(capped.entries.len(), 2);
    assert_eq!(capped.next.as_deref(), Some("A"));

    let exact = walk(3);
    assert!(!exact.truncated);
    assert_eq!(exact.entries.len(), 3);
}

#[test]
fn an_unknown_kind_is_reported_before_an_empty_value() {
    let err = "commit:".parse::<IcechunkRef>().expect_err("bad kind");
    assert_eq!(
        err.to_string(),
        "invalid Icechunk ref \"commit:\": unknown kind \"commit\" (expected branch, tag, or snapshot)"
    );
}
