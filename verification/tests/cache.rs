//! The substituter: which URL to ask, and what the answers mean.

use npb::cache::{
    in_cache_many, lines, lines_of, narinfo_url, probe_workers, store_hash, substitutable, CACHE,
    PROBE_CONCURRENCY,
};

#[test]
fn store_hash_of_output() {
    assert_eq!(
        store_hash("/nix/store/qpp9968dpkv1c755nk13mrkrzpsvah18-hello-2.12.3"),
        Some("qpp9968dpkv1c755nk13mrkrzpsvah18")
    );
}

#[test]
fn a_path_without_a_hash_has_none() {
    assert_eq!(store_hash("/nix/store/nohash"), Some("nohash"));
    assert_eq!(store_hash("hash-name"), Some("hash"));
    assert_eq!(store_hash(""), Some(""));
}

#[test]
fn narinfos_are_asked_by_hash() {
    assert_eq!(
        narinfo_url("/nix/store/abc123-hello"),
        Some(format!("{CACHE}/abc123.narinfo"))
    );
}

#[test]
fn lines_of_bytes_are_trimmed_and_not_empty() {
    assert_eq!(lines(b"/a\n/b\n\n"), vec!["/a", "/b"]);
    assert_eq!(lines(b""), Vec::<String>::new());
    // Bytes that are not UTF-8 come out as replacement characters.
    assert_eq!(lines(b"\xff\n"), vec!["\u{fffd}"]);
    assert_eq!(lines_of("x\r\ny"), vec!["x", "y"]);
}

#[test]
fn a_derivation_is_substitutable_if_all_its_outputs_are() {
    assert!(substitutable(Some(&vec![true])));
    assert!(substitutable(Some(&vec![true, true])));
    assert!(!substitutable(Some(&vec![true, false])));
    assert!(!substitutable(Some(&vec![false, true])));
    assert!(!substitutable(Some(&vec![false, false])));
    assert!(!substitutable(Some(&vec![])));
    assert!(!substitutable(None));
}

#[test]
fn many_derivations_are_answered_by_name() {
    let drvs: Vec<String> = ["/a", "/b", "/c", "/a"].iter().map(|d| d.to_string()).collect();
    let probes = vec![
        Some(vec![true, false]),
        None,
        Some(vec![true, true]),
        Some(vec![true]),
    ];
    let found = in_cache_many(&drvs, &probes);
    assert_eq!(found.len(), 3);
    assert_eq!(found.get("/a"), Some(&true));
    assert_eq!(found.get("/b"), Some(&false));
    assert_eq!(found.get("/c"), Some(&true));
    assert_eq!(found.get("/d"), None);
    assert!(in_cache_many(&[], &[]).is_empty());
}

#[test]
fn probes_run_on_a_bounded_pool() {
    assert_eq!(probe_workers(3), 3);
    assert_eq!(probe_workers(1000), PROBE_CONCURRENCY);
    assert_eq!(probe_workers(0), 0);
}
