//! The admission pipeline end to end, with real signing keys: hash
//! verification, signature verification, missing-ancestor recovery,
//! key rotation, and integration into timeline and state.

use roomcore::admission::{AdmissionOutcome, Engine, IncomingPdu, Rejection};
use roomcore::config::EngineConfig;
use roomcore::event::Content;
use roomcore::keys::{ServerKeys, VerifyKey};
use roomcore::store::NewEvent;

use ruma::signatures::Ed25519KeyPair;
use ruma::CanonicalJsonValue;

fn sb(s: &str) -> Vec<u8> {
    s.as_bytes().to_vec()
}

fn engine_config() -> EngineConfig {
    EngineConfig {
        server_name: sb("hs"),
        max_fetch_prev_events: 4,
        allow_unstable_room_versions: false,
        default_room_version: 10,
        trusted_servers: vec![],
        query_trusted_key_servers_first: false,
        ip_range_denylist: vec![],
        auth_chain_cache_capacity: 16,
    }
}

/// Builds, hashes and signs an event object, returning the canonical
/// bytes and the event id.
fn signed_event(keypair: &Ed25519KeyPair, key_version: &str, json: &str) -> (Vec<u8>, Vec<u8>) {
    let rules = ruma::room_version_rules::RoomVersionRules::V11;
    let mut object: ruma::CanonicalJsonObject = serde_json::from_str(json).unwrap();
    ruma::signatures::hash_and_sign_event("hs", keypair, &mut object, &rules.redaction).unwrap();
    let hash = ruma::signatures::reference_hash(&object, &rules).unwrap();
    let event_id = format!("${hash}").into_bytes();
    match object.get("signatures") {
        Some(CanonicalJsonValue::Object(servers)) => match servers.get("hs") {
            Some(CanonicalJsonValue::Object(keys)) => {
                assert!(keys.contains_key(&format!("ed25519:{key_version}")));
            },
            _ => panic!("missing server entry"),
        },
        _ => panic!("missing signatures"),
    }
    let canonical = serde_json::to_vec(&object).unwrap();
    (canonical, event_id)
}

fn create_json() -> String {
    String::from(
        r#"{"type":"m.room.create","state_key":"","sender":"@alice:hs","room_id":"!r:hs","content":{"creator":"@alice:hs"},"prev_events":[],"auth_events":[],"depth":1,"origin_server_ts":1}"#,
    )
}

fn message_json(auth: &str, depth: u64) -> String {
    format!(
        r#"{{"type":"m.room.message","sender":"@alice:hs","room_id":"!r:hs","content":{{"body":"hello"}},"prev_events":[],"auth_events":[{auth}],"depth":{depth},"origin_server_ts":{depth}}}"#,
    )
}

fn incoming(canonical: Vec<u8>, event_id: Vec<u8>, key_version: &str, ev: NewEvent) -> IncomingPdu {
    IncomingPdu {
        canonical,
        claimed_id: event_id,
        origin: sb("hs"),
        key_id: sb(&format!("ed25519:{key_version}")),
        ev,
    }
}

fn create_new_event(event_id: &[u8]) -> NewEvent {
    NewEvent {
        event_id: event_id.to_vec(),
        room_id: sb("!r:hs"),
        sender: sb("@alice:hs"),
        etype: sb("m.room.create"),
        state_key: Some(vec![]),
        content: Content::Create { creator: sb("@alice:hs"), federate: true },
        prev_ids: vec![],
        auth_ids: vec![],
        depth: 1,
        ts: 1,
    }
}

fn message_new_event(event_id: &[u8], auth: Vec<Vec<u8>>, depth: u64) -> NewEvent {
    NewEvent {
        event_id: event_id.to_vec(),
        room_id: sb("!r:hs"),
        sender: sb("@alice:hs"),
        etype: sb("m.room.message"),
        state_key: None,
        content: Content::Other,
        prev_ids: vec![],
        auth_ids: auth,
        depth,
        ts: depth,
    }
}

fn engine_with_key(pubkey: Vec<u8>, key_version: &str) -> Engine {
    let mut engine = Engine::new(engine_config());
    engine.keys.add_signing_key(
        &sb("hs"),
        ServerKeys {
            active: vec![VerifyKey { key_id: sb(&format!("ed25519:{key_version}")), key: pubkey }],
            old: vec![],
        },
    );
    engine
}

#[test]
fn create_event_is_integrated_with_state() {
    let doc = Ed25519KeyPair::generate();
    let keypair = Ed25519KeyPair::from_der(&doc, "1".to_string()).unwrap();
    let (canonical, event_id) = signed_event(&keypair, "1", &create_json());
    let mut engine = engine_with_key(keypair.public_key().to_vec(), "1");
    let room = engine.store.intern_room_id(&sb("!r:hs")).unwrap();
    assert!(engine.guard.try_acquire(room));
    let inc = incoming(canonical, event_id.clone(), "1", create_new_event(&event_id));
    match engine.admit_event(room, inc) {
        AdmissionOutcome::Integrated { sid, new_state_hash } => {
            let h = new_state_hash.unwrap();
            let state = engine.compressor.load_state(h);
            let create_key = engine.store.get(sid).unwrap().skey.unwrap();
            assert_eq!(state, vec![(create_key, sid)]);
            assert_eq!(engine.current_state(room), Some(h));
            assert_eq!(engine.timeline_of(room), vec![sid]);
        },
        _ => panic!("expected integration"),
    }
}

#[test]
fn tampered_id_is_rejected_on_every_submission() {
    let doc = Ed25519KeyPair::generate();
    let keypair = Ed25519KeyPair::from_der(&doc, "1".to_string()).unwrap();
    let (canonical, _event_id) = signed_event(&keypair, "1", &create_json());
    let mut engine = engine_with_key(keypair.public_key().to_vec(), "1");
    let room = engine.store.intern_room_id(&sb("!r:hs")).unwrap();
    assert!(engine.guard.try_acquire(room));
    let forged = sb("$forged_id_that_is_not_the_hash");
    let inc1 = incoming(canonical.clone(), forged.clone(), "1", create_new_event(&forged));
    match engine.admit_event(room, inc1) {
        AdmissionOutcome::Rejected { reason } => {
            assert!(matches!(reason, Rejection::MalformedEvent))
        },
        _ => panic!("expected rejection"),
    }
    // resubmission of the same bytes is rejected identically
    let inc2 = incoming(canonical, forged.clone(), "1", create_new_event(&forged));
    match engine.admit_event(room, inc2) {
        AdmissionOutcome::Rejected { reason } => {
            assert!(matches!(reason, Rejection::MalformedEvent))
        },
        _ => panic!("expected identical rejection"),
    }
}

#[test]
fn wrong_key_signature_is_malformed() {
    let doc = Ed25519KeyPair::generate();
    let keypair = Ed25519KeyPair::from_der(&doc, "1".to_string()).unwrap();
    let other_doc = Ed25519KeyPair::generate();
    let other = Ed25519KeyPair::from_der(&other_doc, "1".to_string()).unwrap();
    let (canonical, event_id) = signed_event(&keypair, "1", &create_json());
    // the store holds a different key under the same id
    let mut engine = engine_with_key(other.public_key().to_vec(), "1");
    let room = engine.store.intern_room_id(&sb("!r:hs")).unwrap();
    assert!(engine.guard.try_acquire(room));
    let inc = incoming(canonical, event_id.clone(), "1", create_new_event(&event_id));
    match engine.admit_event(room, inc) {
        AdmissionOutcome::Rejected { reason } => {
            assert!(matches!(reason, Rejection::MalformedEvent))
        },
        _ => panic!("expected rejection"),
    }
}

#[test]
fn missing_key_is_named_and_retry_succeeds() {
    let doc = Ed25519KeyPair::generate();
    let keypair = Ed25519KeyPair::from_der(&doc, "1".to_string()).unwrap();
    let (canonical, event_id) = signed_event(&keypair, "1", &create_json());
    // no key is known yet
    let mut engine = Engine::new(engine_config());
    let room = engine.store.intern_room_id(&sb("!r:hs")).unwrap();
    assert!(engine.guard.try_acquire(room));
    let inc = incoming(
        canonical.clone(),
        event_id.clone(),
        "1",
        create_new_event(&event_id),
    );
    match engine.admit_event(room, inc) {
        AdmissionOutcome::MissingKeys { server, key_id } => {
            assert_eq!(server, sb("hs"));
            assert_eq!(key_id, sb("ed25519:1"));
        },
        _ => panic!("expected a key demand"),
    }
    // the failure was not cached: once the key arrives, the same
    // event goes through
    engine.keys.add_signing_key(
        &sb("hs"),
        ServerKeys {
            active: vec![VerifyKey {
                key_id: sb("ed25519:1"),
                key: keypair.public_key().to_vec(),
            }],
            old: vec![],
        },
    );
    let inc2 = incoming(canonical, event_id.clone(), "1", create_new_event(&event_id));
    assert!(matches!(
        engine.admit_event(room, inc2),
        AdmissionOutcome::Integrated { .. }
    ));
}

#[test]
fn missing_ancestor_is_fetched_then_event_integrates() {
    let doc = Ed25519KeyPair::generate();
    let keypair = Ed25519KeyPair::from_der(&doc, "1".to_string()).unwrap();
    let mut engine = engine_with_key(keypair.public_key().to_vec(), "1");
    let room = engine.store.intern_room_id(&sb("!r:hs")).unwrap();
    assert!(engine.guard.try_acquire(room));

    // the room's creation event is integrated first
    let (c_canon, c_id) = signed_event(&keypair, "1", &create_json());
    let inc_c = incoming(c_canon, c_id.clone(), "1", create_new_event(&c_id));
    assert!(matches!(
        engine.admit_event(room, inc_c),
        AdmissionOutcome::Integrated { .. }
    ));

    // a message event citing the creation event and an ancestor the
    // store does not know yet
    let (a_canon, a_id) = signed_event(&keypair, "1", &message_json("\"$ancestor\"", 2));
    let a_id_str = String::from_utf8(a_id.clone()).unwrap();
    let c_id_str = String::from_utf8(c_id.clone()).unwrap();
    let auth_list = format!("\"{c_id_str}\",\"{a_id_str}\"");
    let (e_canon, e_id) = signed_event(&keypair, "1", &message_json(&auth_list, 3));
    let inc_e = incoming(
        e_canon.clone(),
        e_id.clone(),
        "1",
        message_new_event(&e_id, vec![c_id.clone(), a_id.clone()], 3),
    );
    // admission names the unknown ancestor
    match engine.admit_event(room, inc_e) {
        AdmissionOutcome::MissingEvents { ids } => {
            assert_eq!(ids, vec![a_id.clone()]);
        },
        AdmissionOutcome::Integrated { .. } => panic!("integrated without the ancestor"),
        AdmissionOutcome::StoredOutlier { .. } => panic!("stored instead of demanding"),
        AdmissionOutcome::Rejected { reason } => panic!("rejected: {reason:?}"),
        AdmissionOutcome::MissingKeys { .. } => panic!("demanded keys instead"),
    }
    // the fetched ancestor is validated and stored as an outlier
    let inc_a = incoming(
        a_canon,
        a_id.clone(),
        "1",
        message_new_event(&a_id, vec![sb("$ancestor")], 2),
    );
    match engine.admit_outlier(inc_a) {
        AdmissionOutcome::StoredOutlier { .. } => {},
        _ => panic!("expected outlier storage"),
    }
    // the original event now authorizes and integrates
    let inc_e2 = incoming(
        e_canon,
        e_id.clone(),
        "1",
        message_new_event(&e_id, vec![c_id, a_id], 3),
    );
    match engine.admit_event(room, inc_e2) {
        AdmissionOutcome::Integrated { sid, new_state_hash } => {
            assert!(new_state_hash.is_none());
            let tl = engine.timeline_of(room);
            assert_eq!(tl.len(), 2);
            assert_eq!(tl[1], sid);
            assert_eq!(engine.first_in_timeline(room), Some(tl[0]));
            assert_eq!(engine.latest_in_timeline(room), Some(sid));
        },
        _ => panic!("expected integration after the fetch"),
    }
}

#[test]
fn rotated_keys_keep_old_events_valid() {
    let doc1 = Ed25519KeyPair::generate();
    let key1 = Ed25519KeyPair::from_der(&doc1, "1".to_string()).unwrap();
    let doc2 = Ed25519KeyPair::generate();
    let key2 = Ed25519KeyPair::from_der(&doc2, "2".to_string()).unwrap();

    let mut engine = engine_with_key(key1.public_key().to_vec(), "1");
    let room = engine.store.intern_room_id(&sb("!r:hs")).unwrap();
    assert!(engine.guard.try_acquire(room));

    let (c_canon, c_id) = signed_event(&key1, "1", &create_json());
    let inc_c = incoming(c_canon, c_id.clone(), "1", create_new_event(&c_id));
    assert!(matches!(
        engine.admit_event(room, inc_c),
        AdmissionOutcome::Integrated { .. }
    ));

    // the server rotates: the new key becomes active, the old key is
    // kept in the deprecated list
    engine.keys.add_signing_key(
        &sb("hs"),
        ServerKeys {
            active: vec![VerifyKey {
                key_id: sb("ed25519:2"),
                key: key2.public_key().to_vec(),
            }],
            old: vec![VerifyKey {
                key_id: sb("ed25519:1"),
                key: key1.public_key().to_vec(),
            }],
        },
    );

    // an event still signed with the old key verifies under it
    let c_id_str = String::from_utf8(c_id.clone()).unwrap();
    let auth_c = format!("\"{c_id_str}\"");
    let (m1_canon, m1_id) = signed_event(&key1, "1", &message_json(&auth_c, 2));
    let inc_m1 = incoming(
        m1_canon,
        m1_id.clone(),
        "1",
        message_new_event(&m1_id, vec![c_id.clone()], 2),
    );
    match engine.admit_event(room, inc_m1) {
        AdmissionOutcome::Integrated { .. } => {},
        AdmissionOutcome::Rejected { reason } => panic!("rejected: {reason:?}"),
        AdmissionOutcome::MissingKeys { server, key_id } => panic!(
            "missing key {:?} {:?}",
            String::from_utf8_lossy(&server),
            String::from_utf8_lossy(&key_id)
        ),
        AdmissionOutcome::MissingEvents { ids } => panic!("missing {} events", ids.len()),
        AdmissionOutcome::StoredOutlier { .. } => panic!("stored outlier"),
    }

    // a new event uses the rotated-in key
    let (m2_canon, m2_id) = signed_event(&key2, "2", &message_json(&auth_c, 3));
    let inc_m2 = incoming(
        m2_canon,
        m2_id.clone(),
        "2",
        message_new_event(&m2_id, vec![c_id.clone()], 3),
    );
    assert!(matches!(
        engine.admit_event(room, inc_m2),
        AdmissionOutcome::Integrated { .. }
    ));

    // but the new key does not vouch for the old key id
    let (m3_canon, m3_id) = signed_event(&key1, "1", &message_json(&auth_c, 4));
    let mut inc_m3 = incoming(
        m3_canon,
        m3_id.clone(),
        "1",
        message_new_event(&m3_id, vec![c_id], 4),
    );
    inc_m3.key_id = sb("ed25519:2");
    match engine.admit_event(room, inc_m3) {
        AdmissionOutcome::Rejected { reason } => {
            assert!(matches!(reason, Rejection::MalformedEvent))
        },
        _ => panic!("expected rejection under the wrong key id"),
    }
}

#[test]
fn depth_must_rise_over_known_parents() {
    let doc = Ed25519KeyPair::generate();
    let keypair = Ed25519KeyPair::from_der(&doc, "1".to_string()).unwrap();
    let mut engine = engine_with_key(keypair.public_key().to_vec(), "1");
    let room = engine.store.intern_room_id(&sb("!r:hs")).unwrap();
    assert!(engine.guard.try_acquire(room));
    let (c_canon, c_id) = signed_event(&keypair, "1", &create_json());
    let inc_c = incoming(c_canon, c_id.clone(), "1", create_new_event(&c_id));
    assert!(matches!(
        engine.admit_event(room, inc_c),
        AdmissionOutcome::Integrated { .. }
    ));
    // a child at the same depth as its known parent is malformed
    let c_id_str = String::from_utf8(c_id.clone()).unwrap();
    let json = format!(
        r#"{{"type":"m.room.message","sender":"@alice:hs","room_id":"!r:hs","content":{{"body":"x"}},"prev_events":["{c_id_str}"],"auth_events":["{c_id_str}"],"depth":1,"origin_server_ts":2}}"#,
    );
    let (m_canon, m_id) = signed_event(&keypair, "1", &json);
    let mut ev = message_new_event(&m_id, vec![c_id.clone()], 1);
    ev.prev_ids = vec![c_id];
    let inc_m = incoming(m_canon, m_id, "1", ev);
    match engine.admit_event(room, inc_m) {
        AdmissionOutcome::Rejected { reason } => {
            assert!(matches!(reason, Rejection::MalformedEvent))
        },
        _ => panic!("expected a depth rejection"),
    }
}

#[test]
fn key_fetch_plan_names_only_missing_keys() {
    let doc = Ed25519KeyPair::generate();
    let keypair = Ed25519KeyPair::from_der(&doc, "1".to_string()).unwrap();
    let engine = engine_with_key(keypair.public_key().to_vec(), "1");
    let refs = vec![
        (sb("hs"), sb("ed25519:1")),
        (sb("hs"), sb("ed25519:9")),
        (sb("elsewhere"), sb("ed25519:1")),
    ];
    let plan = engine.keys.missing_key_requests(&refs);
    // the known key is not asked for again; the unknown ones are
    assert_eq!(
        plan,
        vec![(sb("hs"), sb("ed25519:9")), (sb("elsewhere"), sb("ed25519:1"))]
    );
}

#[test]
fn force_state_overwrites_the_room() {
    let mut engine = Engine::new(engine_config());
    let room = engine.store.intern_room_id(&sb("!r:hs")).unwrap();
    assert!(engine.guard.try_acquire(room));
    // the admitted outliers are assembled into a state set, resolved,
    // and forced in, as the administrative flow does
    let c = engine
        .store
        .insert(create_new_event(&sb("$c")))
        .unwrap();
    let m = engine
        .store
        .insert(message_new_event(&sb("$m"), vec![sb("$c")], 2))
        .unwrap();
    let assembled = roomcore::admission::assemble_state_pairs(&engine.store, &vec![c, m]);
    let create_key = engine.store.get(c).unwrap().skey.unwrap();
    // the non-state event contributes no slot
    assert_eq!(assembled, vec![(create_key, c)]);
    let resolved = roomcore::state_res::resolve_state(&engine.store, 10, &vec![assembled]);
    let h = engine.force_set_room_state(room, &resolved).unwrap();
    assert_eq!(engine.current_state(room), Some(h));
    assert_eq!(engine.compressor.load_state(h), resolved);
    assert_eq!(resolved, vec![(create_key, c)]);
}

#[test]
fn failed_fetches_back_off_and_clear() {
    let doc = Ed25519KeyPair::generate();
    let keypair = Ed25519KeyPair::from_der(&doc, "1".to_string()).unwrap();
    let (canonical, event_id) = signed_event(&keypair, "1", &create_json());
    // no key is known: the admission demands one
    let mut engine = Engine::new(engine_config());
    let room = engine.store.intern_room_id(&sb("!r:hs")).unwrap();
    assert!(engine.guard.try_acquire(room));
    let inc = incoming(
        canonical.clone(),
        event_id.clone(),
        "1",
        create_new_event(&event_id),
    );
    assert!(engine.retry_permitted(&inc, 1000));
    let outcome = engine.admit_event(room, inc);
    assert!(matches!(outcome, AdmissionOutcome::MissingKeys { .. }));
    let note = incoming(
        canonical.clone(),
        event_id.clone(),
        "1",
        create_new_event(&event_id),
    );
    engine.note_outcome(&note, &outcome, 1000);
    // inside the backoff window the retry is skipped, after it is due
    let probe = incoming(
        canonical.clone(),
        event_id.clone(),
        "1",
        create_new_event(&event_id),
    );
    assert!(!engine.retry_permitted(&probe, 1020));
    assert!(engine.retry_permitted(&probe, 1060));
    // a permanent rejection charges nothing further
    let forged = sb("$forged");
    let bad = incoming(canonical.clone(), forged.clone(), "1", create_new_event(&forged));
    let outcome2 = engine.admit_event(room, bad);
    assert!(matches!(
        outcome2,
        AdmissionOutcome::Rejected { reason: Rejection::MalformedEvent }
    ));
    let note2 = incoming(canonical, forged.clone(), "1", create_new_event(&forged));
    engine.note_outcome(&note2, &outcome2, 2000);
    let probe2 = incoming(Vec::new(), forged, "1", create_new_event(&sb("$forged")));
    assert!(engine.retry_permitted(&probe2, 2000));
}
