//! Candidate ordering, deduplication and signer affinities of the registry.

use lanyard_ssh_agent::backend::{Backend, Registry, Source, MAXIMUM_CANDIDATES};
use lanyard_ssh_agent::backend::SharedRegistry;

fn paths(candidates: &[Backend]) -> Vec<Vec<u8>> {
    candidates.iter().map(|backend| backend.path().to_vec()).collect()
}

fn sources(candidates: &[Backend]) -> Vec<Source> {
    candidates.iter().map(Backend::source).collect()
}

#[test]
fn registry_prefers_recent_registrations_and_reserves_the_fallback() {
    let mut registry = Registry::new(b"/fallback".to_vec());
    let registration_count: usize = 40;
    for index in 0..registration_count {
        registry.register(format!("/registered/{index}").into_bytes());
    }

    let candidates = registry.candidates(Vec::new());

    assert_eq!(candidates.len(), 32);
    assert_eq!(
        candidates.first().map(Backend::path),
        Some(&b"/registered/39"[..])
    );
    assert_eq!(
        candidates.last().map(Backend::source),
        Some(Source::Fallback)
    );
    assert_eq!(candidates.last().map(Backend::path), Some(&b"/fallback"[..]));
}

#[test]
fn signer_promotion_changes_only_signing_order() {
    let fallback = b"/fallback".to_vec();
    let first = b"/registered/first".to_vec();
    let second = b"/registered/second".to_vec();
    let mut registry = Registry::new(fallback.clone());
    registry.register(first.clone());
    registry.register(second.clone());

    registry.promote_signer(b"key-a".to_vec(), fallback.clone());

    assert_eq!(
        paths(&registry.candidates(Vec::new())),
        vec![second.clone(), first.clone(), fallback.clone()]
    );
    assert_eq!(
        paths(&registry.signing_candidates(Vec::new(), b"key-a")),
        vec![fallback.clone(), second.clone(), first.clone()]
    );
    assert_eq!(
        paths(&registry.signing_candidates(Vec::new(), b"key-b")),
        vec![second, first, fallback]
    );
}

#[test]
fn refreshing_an_affinity_does_not_consume_another_cache_slot() {
    let fallback = b"/fallback".to_vec();
    let registered = b"/registered".to_vec();
    let mut registry = Registry::new(fallback.clone());
    registry.register(registered.clone());
    registry.promote_signer(b"oldest".to_vec(), fallback.clone());
    for key in [
        "00", "01", "02", "03", "04", "05", "06", "07", "08", "09", "10", "11", "12", "13", "14",
        "15", "16", "17", "18", "19", "20", "21", "22", "23", "24", "25", "26", "27", "28", "29",
        "30",
    ] {
        registry.promote_signer(key.as_bytes().to_vec(), registered.clone());
    }

    registry.promote_signer(b"00".to_vec(), registered.clone());

    assert_eq!(
        registry
            .signing_candidates(Vec::new(), b"oldest")
            .first()
            .map(Backend::path),
        Some(fallback.as_slice())
    );

    registry.promote_signer(b"31".to_vec(), registered.clone());

    assert_eq!(
        registry
            .signing_candidates(Vec::new(), b"oldest")
            .first()
            .map(Backend::path),
        Some(registered.as_slice())
    );
}

#[test]
fn candidates_are_registered_then_discovered_then_fallback_without_duplicates() {
    let mut registry = Registry::new(b"/fallback".to_vec());
    registry.register(b"/a".to_vec());
    registry.register(b"/b".to_vec());

    let candidates = registry.candidates(vec![
        b"/c".to_vec(),
        b"/a".to_vec(),
        b"/fallback".to_vec(),
        b"/c".to_vec(),
        b"/d".to_vec(),
    ]);

    assert_eq!(
        paths(&candidates),
        vec![
            b"/b".to_vec(),
            b"/a".to_vec(),
            b"/c".to_vec(),
            b"/d".to_vec(),
            b"/fallback".to_vec()
        ]
    );
    assert_eq!(
        sources(&candidates),
        vec![
            Source::Registered,
            Source::Registered,
            Source::Discovered,
            Source::Discovered,
            Source::Fallback
        ]
    );
}

#[test]
fn an_empty_registry_offers_only_the_fallback() {
    let registry = Registry::new(b"/fallback".to_vec());
    let candidates = registry.candidates(Vec::new());
    assert_eq!(paths(&candidates), vec![b"/fallback".to_vec()]);
    assert_eq!(sources(&candidates), vec![Source::Fallback]);
}

#[test]
fn registering_the_fallback_never_duplicates_it() {
    let mut registry = Registry::new(b"/fallback".to_vec());
    registry.register(b"/fallback".to_vec());
    let candidates = registry.candidates(vec![b"/fallback".to_vec()]);
    assert_eq!(paths(&candidates), vec![b"/fallback".to_vec()]);
    assert_eq!(sources(&candidates), vec![Source::Fallback]);
}

#[test]
fn discovered_agents_fill_the_remaining_slots() {
    let mut registry = Registry::new(b"/fallback".to_vec());
    for index in 0..30 {
        registry.register(format!("/registered/{index}").into_bytes());
    }
    let discovered: Vec<Vec<u8>> = (0..5).map(|index| format!("/discovered/{index}").into_bytes()).collect();

    let candidates = registry.candidates(discovered);

    assert_eq!(candidates.len(), MAXIMUM_CANDIDATES);
    assert_eq!(candidates[30].path(), b"/discovered/0");
    assert_eq!(candidates[30].source(), Source::Discovered);
    assert_eq!(candidates[31].path(), b"/fallback");
}

#[test]
fn reregistering_moves_a_path_to_the_front_once() {
    let mut registry = Registry::new(b"/fallback".to_vec());
    registry.register(b"/a".to_vec());
    registry.register(b"/b".to_vec());
    registry.register(b"/a".to_vec());
    registry.register(b"/a".to_vec());
    assert_eq!(
        paths(&registry.candidates(Vec::new())),
        vec![b"/a".to_vec(), b"/b".to_vec(), b"/fallback".to_vec()]
    );
}

#[test]
fn unregistering_reports_whether_anything_changed() {
    let mut registry = Registry::new(b"/fallback".to_vec());
    registry.register(b"/a".to_vec());
    registry.register(b"/b".to_vec());

    assert!(registry.unregister(b"/a"));
    assert!(!registry.unregister(b"/a"));
    assert!(!registry.unregister(b"/fallback"));
    assert_eq!(
        paths(&registry.candidates(vec![b"/a".to_vec()])),
        vec![b"/b".to_vec(), b"/a".to_vec(), b"/fallback".to_vec()]
    );
    assert_eq!(
        sources(&registry.candidates(vec![b"/a".to_vec()])),
        vec![Source::Registered, Source::Discovered, Source::Fallback]
    );
}

#[test]
fn unregistering_undoes_a_fresh_registration() {
    let mut registry = Registry::new(b"/fallback".to_vec());
    registry.register(b"/a".to_vec());
    let before = paths(&registry.candidates(Vec::new()));
    registry.register(b"/fresh".to_vec());
    assert_eq!(registry.candidates(Vec::new())[0].path(), b"/fresh");
    assert!(registry.unregister(b"/fresh"));
    assert_eq!(paths(&registry.candidates(Vec::new())), before);
}

#[test]
fn a_promoted_signer_that_left_the_candidates_is_ignored() {
    let mut registry = Registry::new(b"/fallback".to_vec());
    registry.register(b"/a".to_vec());
    registry.register(b"/b".to_vec());
    registry.promote_signer(b"key".to_vec(), b"/a".to_vec());
    assert_eq!(
        paths(&registry.signing_candidates(Vec::new(), b"key")),
        vec![b"/a".to_vec(), b"/b".to_vec(), b"/fallback".to_vec()]
    );

    assert!(registry.unregister(b"/a"));
    assert_eq!(
        paths(&registry.signing_candidates(Vec::new(), b"key")),
        vec![b"/b".to_vec(), b"/fallback".to_vec()]
    );
    registry.promote_signer(b"key".to_vec(), b"/fallback".to_vec());
    assert_eq!(
        paths(&registry.signing_candidates(Vec::new(), b"key")),
        vec![b"/fallback".to_vec(), b"/b".to_vec()]
    );
}

#[test]
fn shared_handles_see_each_others_registrations() {
    let shared = SharedRegistry::new(Registry::new(b"/fallback".to_vec()));
    let other = shared.clone();
    other.register(b"/forwarded".to_vec());

    let candidates = shared.candidates(Vec::new());
    assert_eq!(paths(&candidates), vec![b"/forwarded".to_vec(), b"/fallback".to_vec()]);
    assert_eq!(sources(&candidates), vec![Source::Registered, Source::Fallback]);

    assert!(shared.unregister(b"/forwarded"));
    assert!(!other.unregister(b"/forwarded"));
    assert_eq!(paths(&other.candidates(Vec::new())), vec![b"/fallback".to_vec()]);
}

#[test]
fn paths_naming_the_same_components_are_the_same_path() {
    let mut registry = Registry::new(b"/run/fallback.sock/".to_vec());
    registry.register(b"/tmp//a".to_vec());
    registry.register(b"/tmp/a/".to_vec());
    assert_eq!(
        paths(&registry.candidates(vec![b"/tmp/./a".to_vec(), b"/run//fallback.sock".to_vec()])),
        vec![b"/tmp/a/".to_vec(), b"/run/fallback.sock/".to_vec()]
    );
    assert!(registry.unregister(b"/tmp/a/."));
    assert!(!registry.unregister(b"/tmp/a"));
    assert_eq!(paths(&registry.candidates(Vec::new())), vec![b"/run/fallback.sock/".to_vec()]);
}

#[test]
fn paths_are_reported_as_they_were_given() {
    let mut registry = Registry::new(b"/run//fallback.sock".to_vec());
    registry.register(b"/tmp/./registered/".to_vec());
    let candidates = registry.candidates(vec![b"/d//x".to_vec(), b"/d/x/".to_vec(), b"/tmp/registered".to_vec()]);
    assert_eq!(
        paths(&candidates),
        vec![b"/tmp/./registered/".to_vec(), b"/d//x".to_vec(), b"/run//fallback.sock".to_vec()]
    );
    assert_eq!(sources(&candidates), vec![Source::Registered, Source::Discovered, Source::Fallback]);
    registry.promote_signer(b"key".to_vec(), b"/d/x".to_vec());
    assert_eq!(
        paths(&registry.signing_candidates(vec![b"/d//x".to_vec()], b"key")),
        vec![b"/d//x".to_vec(), b"/tmp/./registered/".to_vec(), b"/run//fallback.sock".to_vec()]
    );
}
