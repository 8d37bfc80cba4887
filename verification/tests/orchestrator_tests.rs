use ingress_intel_rs::entities::{IntelEntities, IntelEntity, IntelError, IntelResult};
use ingress_intel_rs::orchestrator::{BatchOrchestrator, FetchConfig, OrchestratorError, TileState};
use ingress_intel_rs::tile_key::TileKey;

fn payload_for(key_text: &str) -> IntelEntities {
    IntelEntities {
        entities: vec![IntelEntity { id: key_text.to_owned(), timestamp: 7, faction: None }],
    }
}

fn success_item(k: TileKey) -> (String, IntelResult) {
    let text = k.encode();
    let payload = payload_for(&text);
    (text, IntelResult::Entities(payload))
}

fn error_item(k: TileKey) -> (String, IntelResult) {
    (k.encode(), IntelResult::Error(IntelError { error: "TIMEOUT".to_owned() }))
}

fn state_of(o: &BatchOrchestrator, k: TileKey) -> &TileState {
    &o.tiles.iter().find(|r| r.key == k).unwrap().state
}

#[test]
fn config_validation() {
    let good = FetchConfig { batch_size: 25, max_requests: 40, per_millis: 60_000, retry_budget: 3 };
    assert!(good.validate().is_ok());
    let bad = FetchConfig { batch_size: 0, max_requests: 40, per_millis: 60_000, retry_budget: 3 };
    assert!(matches!(bad.validate(), Err(OrchestratorError::RateLimitMisconfigured)));
    let bad_rate = FetchConfig { batch_size: 1, max_requests: 0, per_millis: 60_000, retry_budget: 3 };
    assert!(bad_rate.validate().is_err());
}

#[test]
fn new_set_is_all_free_and_deduplicated() {
    let k = TileKey::from_coords(1, 1, None, None, None, None);
    let keys = vec![k, k, TileKey::from_coords(1, 2, None, None, None, None)];
    let o = BatchOrchestrator::new(&keys, 3);
    assert_eq!(o.tiles.len(), 2);
    let (free, busy, done) = o.counts();
    assert_eq!((free, busy, done), (2, 0, 0));
    assert!(o.should_continue());
}

/// A 2 by 2 rectangle with batch ceiling 1 and a mock that always
/// succeeds takes exactly four batch calls and returns four payloads.
#[test]
fn four_tiles_batch_ceiling_one() {
    let keys = TileKey::range((0, 0), (1, 1), None, None, None, None);
    assert_eq!(keys.len(), 4);
    let mut o = BatchOrchestrator::new(&keys, 3);
    let mut calls = 0;
    while o.should_continue() {
        let (id, batch) = o.select_batch(1).expect("work left implies an eligible tile");
        assert_eq!(batch.len(), 1);
        calls += 1;
        let items: Vec<_> = batch.iter().map(|k| success_item(*k)).collect();
        assert!(o.resolve_batch(id, items));
    }
    assert_eq!(calls, 4);
    let out = o.finish().expect("all tiles succeeded");
    assert_eq!(out.len(), 4);
}

/// When every tile eventually succeeds the run terminates with exactly
/// one payload per tile, each matching what the mock returned for it.
#[test]
fn termination_under_success() {
    let keys = TileKey::range((5, 5), (7, 6), None, None, None, None);
    assert_eq!(keys.len(), 6);
    let mut o = BatchOrchestrator::new(&keys, 2);
    while o.should_continue() {
        let (id, batch) = o.select_batch(4).unwrap();
        assert!(batch.len() <= 4 && !batch.is_empty());
        let items: Vec<_> = batch.iter().map(|k| success_item(*k)).collect();
        assert!(o.resolve_batch(id, items));
    }
    let out = o.finish().expect("all tiles succeeded");
    assert_eq!(out.len(), 6);
    let mut ids: Vec<String> = out.iter().map(|e| e.entities[0].id.clone()).collect();
    ids.sort();
    let mut expected: Vec<String> = keys.iter().map(|k| k.encode()).collect();
    expected.sort();
    assert_eq!(ids, expected);
}

/// A tile that fails exactly twice before succeeding cycles
/// free -> busy -> free twice, then free -> busy -> done, and its
/// payload still reaches the final output.
#[test]
fn retry_on_failure() {
    let flaky = TileKey::from_coords(9, 9, None, None, None, None);
    let steady = TileKey::from_coords(9, 10, None, None, None, None);
    let keys = vec![flaky, steady];
    let mut o = BatchOrchestrator::new(&keys, 5);
    let mut flaky_failures = 0;
    let mut flaky_cycles = Vec::new();
    while o.should_continue() {
        let (id, batch) = o.select_batch(10).unwrap();
        for k in &batch {
            assert!(matches!(state_of(&o, *k), TileState::Busy));
        }
        let items: Vec<_> = batch
            .iter()
            .map(|k| {
                if *k == flaky && flaky_failures < 2 {
                    flaky_failures += 1;
                    error_item(*k)
                } else {
                    success_item(*k)
                }
            })
            .collect();
        assert!(o.resolve_batch(id, items));
        if batch.contains(&flaky) {
            let settled = match state_of(&o, flaky) {
                TileState::Free => "free",
                TileState::Busy => "busy",
                TileState::Done(_) => "done",
            };
            flaky_cycles.push(settled);
        }
    }
    assert_eq!(flaky_failures, 2);
    assert_eq!(flaky_cycles, vec!["free", "free", "done"]);
    let out = o.finish().expect("every tile eventually succeeded");
    assert_eq!(out.len(), 2);
    let ids: Vec<&str> = out.iter().map(|e| e.entities[0].id.as_str()).collect();
    assert!(ids.contains(&flaky.encode().as_str()));
}

/// A transport-level failure frees the whole batch for re-selection.
#[test]
fn transport_failure_requeues_batch() {
    let keys = TileKey::range((0, 0), (1, 0), None, None, None, None);
    let mut o = BatchOrchestrator::new(&keys, 2);
    let (id, batch) = o.select_batch(10).unwrap();
    assert_eq!(batch.len(), 2);
    assert_eq!(o.counts(), (0, 2, 0));
    assert!(o.resolve_transport_failure(id, "connection reset".to_owned()));
    assert_eq!(o.counts(), (2, 0, 0));
    assert!(o.should_continue());
}

/// A key absent from the response map is an implicit error: the tile
/// returns to free.
#[test]
fn absent_key_is_implicit_error() {
    let a = TileKey::from_coords(3, 3, None, None, None, None);
    let b = TileKey::from_coords(3, 4, None, None, None, None);
    let mut o = BatchOrchestrator::new(&vec![a, b], 2);
    let (id, batch) = o.select_batch(10).unwrap();
    assert_eq!(batch.len(), 2);
    assert!(o.resolve_batch(id, vec![success_item(a)]));
    assert!(matches!(state_of(&o, a), TileState::Done(_)));
    assert!(matches!(state_of(&o, b), TileState::Free));
}

/// Malformed and foreign keys in a response are ignored.
#[test]
fn stray_response_keys_are_ignored() {
    let a = TileKey::from_coords(4, 4, None, None, None, None);
    let foreign = TileKey::from_coords(40, 40, None, None, None, None);
    let mut o = BatchOrchestrator::new(&vec![a], 2);
    let (id, batch) = o.select_batch(10).unwrap();
    assert_eq!(batch.len(), 1);
    let items = vec![
        ("not a key".to_owned(), IntelResult::Error(IntelError { error: "x".to_owned() })),
        success_item(foreign),
        success_item(a),
    ];
    assert!(o.resolve_batch(id, items));
    assert!(matches!(state_of(&o, a), TileState::Done(_)));
    assert_eq!(o.tiles.len(), 1);
}

/// An unknown batch handle resolves nothing.
#[test]
fn unknown_batch_handle() {
    let a = TileKey::from_coords(5, 5, None, None, None, None);
    let mut o = BatchOrchestrator::new(&vec![a], 2);
    let (id, _batch) = o.select_batch(1).unwrap();
    assert!(!o.resolve_batch(id + 1, vec![success_item(a)]));
    assert!(matches!(state_of(&o, a), TileState::Busy));
    assert!(!o.resolve_transport_failure(id + 1, "nope".to_owned()));
    assert!(o.resolve_batch(id, vec![success_item(a)]));
}

/// A tile that never succeeds is retried until its budget is spent,
/// then surfaced with its last observed error.
#[test]
fn retry_budget_exhaustion() {
    let a = TileKey::from_coords(6, 6, None, None, None, None);
    let mut o = BatchOrchestrator::new(&vec![a], 2);
    let mut calls = 0;
    while o.should_continue() {
        let (id, batch) = o.select_batch(1).unwrap();
        assert_eq!(batch, vec![a]);
        calls += 1;
        assert!(o.resolve_batch(id, vec![error_item(a)]));
    }
    assert_eq!(calls, 2);
    match o.finish() {
        Err(OrchestratorError::Unresolved(report)) => {
            assert_eq!(report.len(), 1);
            assert_eq!(report[0].key, a);
            assert_eq!(report[0].last_error.as_deref(), Some("TIMEOUT"));
        },
        _ => panic!("expected an unresolved-tiles report"),
    }
}

/// Done is terminal: a later error for an already done tile is
/// ignored.
#[test]
fn done_is_terminal() {
    let a = TileKey::from_coords(8, 8, None, None, None, None);
    let b = TileKey::from_coords(8, 9, None, None, None, None);
    let mut o = BatchOrchestrator::new(&vec![a, b], 5);
    let (id1, batch1) = o.select_batch(1).unwrap();
    let k1 = batch1[0];
    let k2 = if k1 == a { b } else { a };
    assert!(o.resolve_batch(id1, vec![success_item(k1)]));
    assert!(matches!(state_of(&o, k1), TileState::Done(_)));
    let (id2, batch2) = o.select_batch(1).unwrap();
    assert_eq!(batch2, vec![k2]);
    assert!(o.resolve_batch(id2, vec![error_item(k1), success_item(k2)]));
    assert!(matches!(state_of(&o, k1), TileState::Done(_)));
    assert!(matches!(state_of(&o, k2), TileState::Done(_)));
}

/// select_batch never selects a tile twice into concurrent batches.
#[test]
fn concurrent_batches_are_disjoint() {
    let keys = TileKey::range((0, 0), (2, 1), None, None, None, None);
    let mut o = BatchOrchestrator::new(&keys, 1);
    let (id1, batch1) = o.select_batch(2).unwrap();
    let (id2, batch2) = o.select_batch(2).unwrap();
    let (id3, batch3) = o.select_batch(2).unwrap();
    assert_ne!(id1, id2);
    assert_ne!(id2, id3);
    for k in &batch1 {
        assert!(!batch2.contains(k) && !batch3.contains(k));
    }
    for k in &batch2 {
        assert!(!batch3.contains(k));
    }
    assert!(o.select_batch(2).is_none());
    assert_eq!(batch1.len() + batch2.len() + batch3.len(), 6);
}
