//! Core data-structure behavior: short keys, the state compressor,
//! the concurrency guard, the rate limiter and the configuration.

use roomcore::compress::StateCompressor;
use roomcore::config::{
    supported_room_versions, user_is_local, valid_cidr_range, version_supported,
    effective_default_version, EngineConfig, SequenceCounter,
};
use roomcore::event::JoinRule;
use roomcore::guard::{ResolvePermit, RoomGuard};
use roomcore::room_build::{
    initial_guest_access, initial_join_rule, invitees_share_creator_level,
    transferable_state_types, upgraded_room_lockdown_level, RoomPreset,
};
use roomcore::ratelimit::{backoff_secs, FailureMap};
use roomcore::shortid::{IdTable, ShortKeyTable};

fn bv(s: &str) -> Vec<u8> {
    s.as_bytes().to_vec()
}

fn test_config() -> EngineConfig {
    EngineConfig {
        server_name: bv("hs.example"),
        max_fetch_prev_events: 10,
        allow_unstable_room_versions: false,
        default_room_version: 10,
        trusted_servers: vec![bv("notary.example")],
        query_trusted_key_servers_first: false,
        ip_range_denylist: vec![(10, 20), (100, 100)],
        auth_chain_cache_capacity: 16,
    }
}

#[test]
fn short_keys_are_stable_and_never_reused() {
    let mut t = ShortKeyTable::new();
    let create = t.get_or_create(&bv("m.room.create"), &bv(""));
    let power = t.get_or_create(&bv("m.room.power_levels"), &bv(""));
    let member_a = t.get_or_create(&bv("m.room.member"), &bv("@a:hs"));
    assert_eq!(create, 0);
    assert_eq!(power, 1);
    assert_eq!(member_a, 2);
    // re-interning returns the same short key, not a new one
    assert_eq!(t.get_or_create(&bv("m.room.create"), &bv("")), create);
    // even after many new pairs, the old keys stand
    for i in 0..50u32 {
        let sk = format!("@user{i}:hs");
        t.get_or_create(&bv("m.room.member"), &bv(&sk));
    }
    assert_eq!(t.get_or_create(&bv("m.room.power_levels"), &bv("")), power);
    assert_eq!(t.get_or_create(&bv("m.room.member"), &bv("@a:hs")), member_a);
    let (et, sk) = t.pair_at(member_a);
    assert_eq!(et.as_slice(), b"m.room.member");
    assert_eq!(sk.as_slice(), b"@a:hs");
}

#[test]
fn id_table_interns_once() {
    let mut t = IdTable::new();
    let a = t.get_or_create(&bv("$one"));
    let b = t.get_or_create(&bv("$two"));
    assert_ne!(a, b);
    assert_eq!(t.get_or_create(&bv("$one")), a);
    assert_eq!(t.lookup(&bv("$two")), Some(b));
    assert_eq!(t.lookup(&bv("$three")), None);
    assert_eq!(t.id_at(a).as_slice(), b"$one");
}

#[test]
fn save_and_load_round_trip() {
    let mut c = StateCompressor::new();
    let full = vec![(0u64, 7u64), (1, 9), (5, 11)];
    let (h, added, removed) = c.save_state(&full, None).unwrap();
    assert_eq!(added, full);
    assert!(removed.is_empty());
    let loaded = c.load_state(h);
    assert_eq!(loaded, full);
}

#[test]
fn diffs_against_previous_state() {
    let mut c = StateCompressor::new();
    let s1 = vec![(0u64, 7u64), (1, 9), (5, 11)];
    let (h1, _, _) = c.save_state(&s1, None).unwrap();
    // slot 1 changes, slot 5 drops, slot 6 appears
    let s2 = vec![(0u64, 7u64), (1, 10), (6, 12)];
    let (h2, added, removed) = c.save_state(&s2, Some(h1)).unwrap();
    assert_eq!(added, vec![(1, 10), (6, 12)]);
    assert_eq!(removed, vec![(1, 9), (5, 11)]);
    // both states reconstruct exactly, on every load
    assert_eq!(c.load_state(h1), s1);
    assert_eq!(c.load_state(h2), s2);
    assert_eq!(c.load_state(h1), s1);
}

#[test]
fn content_identical_states_share_one_hash() {
    let mut c = StateCompressor::new();
    let s1 = vec![(0u64, 7u64), (1, 9)];
    let (h1, _, _) = c.save_state(&s1, None).unwrap();
    let s2 = vec![(0u64, 7u64), (1, 9)];
    let (h2, added, removed) = c.save_state(&s2, Some(h1)).unwrap();
    assert_eq!(h1, h2);
    assert!(added.is_empty());
    assert!(removed.is_empty());
    assert_eq!(c.num_states(), 1);
    // a different state gets a different hash
    let s3 = vec![(0u64, 8u64)];
    let (h3, _, _) = c.save_state(&s3, Some(h1)).unwrap();
    assert_ne!(h3, h1);
}

#[test]
fn long_chains_reconstruct() {
    let mut c = StateCompressor::new();
    let mut prev = None;
    let mut last = vec![];
    for i in 0..200u64 {
        let full = vec![(0u64, i + 1)];
        let (h, _, _) = c.save_state(&full, prev).unwrap();
        prev = Some(h);
        last = full;
    }
    assert_eq!(c.load_state(prev.unwrap()), last);
}

#[test]
fn same_room_excludes_other_rooms_proceed() {
    let mut g = RoomGuard::new();
    assert!(g.try_acquire(1));
    // the same room cannot be taken twice
    assert!(!g.try_acquire(1));
    // an unrelated room is not serialized against it
    assert!(g.try_acquire(2));
    assert!(g.is_held(1));
    assert!(g.is_held(2));
    g.release(1);
    assert!(!g.is_held(1));
    assert!(g.is_held(2));
    assert!(g.try_acquire(1));
}

#[test]
fn resolution_permit_is_bounded() {
    let mut p = ResolvePermit::new(2);
    assert!(p.try_acquire());
    assert!(p.try_acquire());
    // the bound caps concurrent resolutions
    assert!(!p.try_acquire());
    p.release();
    assert!(p.try_acquire());
}

#[test]
fn keypair_blob_splits_at_separator() {
    let mut blob = b"ed25519:1".to_vec();
    blob.push(0xff);
    blob.extend_from_slice(b"keymaterial");
    let (version, key) = roomcore::keys::parse_keypair_blob(&blob).unwrap();
    assert_eq!(version, b"ed25519:1".to_vec());
    assert_eq!(key, b"keymaterial".to_vec());
    // the first separator splits; later ones belong to the key
    let mut blob2 = b"v".to_vec();
    blob2.push(0xff);
    blob2.push(0xff);
    blob2.push(7);
    let (v2, k2) = roomcore::keys::parse_keypair_blob(&blob2).unwrap();
    assert_eq!(v2, b"v".to_vec());
    assert_eq!(k2, vec![0xff, 7]);
    // a blob without a separator is invalid
    assert!(roomcore::keys::parse_keypair_blob(&b"noseparator".to_vec()).is_none());
}

#[test]
fn backoff_doubles_then_saturates() {
    assert_eq!(backoff_secs(0), 30);
    assert_eq!(backoff_secs(1), 60);
    assert_eq!(backoff_secs(2), 120);
    assert_eq!(backoff_secs(20), 86400);
    assert_eq!(backoff_secs(40), 86400);
}

#[test]
fn failures_backoff_and_clear() {
    let mut m = FailureMap::new();
    let key = bv("$bad_event");
    assert!(m.retry_due(&key, 0));
    m.record_failure(&key, 1000);
    let rec = m.get(&key).unwrap();
    assert_eq!(rec.count, 1);
    assert_eq!(rec.last_failure, 1000);
    // one failure opens a doubled window: skipped inside, due after
    assert!(!m.retry_due(&key, 1059));
    assert!(m.retry_due(&key, 1060));
    m.record_failure(&key, 2000);
    assert_eq!(m.get(&key).unwrap().count, 2);
    assert!(!m.retry_due(&key, 2119));
    assert!(m.retry_due(&key, 2120));
    // an unrelated key is untouched
    assert!(m.retry_due(&bv("$other"), 0));
}

#[test]
fn room_version_support() {
    assert_eq!(supported_room_versions(false), vec![6, 7, 8, 9, 10, 11]);
    assert_eq!(
        supported_room_versions(true),
        vec![6, 7, 8, 9, 10, 11, 2, 3, 4, 5]
    );
    assert!(version_supported(false, 11));
    assert!(!version_supported(false, 3));
    assert!(version_supported(true, 3));
    let mut cfg = test_config();
    assert_eq!(effective_default_version(&cfg), 10);
    cfg.default_room_version = 3;
    // an unsupported configured default falls back
    assert_eq!(effective_default_version(&cfg), 10);
    cfg.allow_unstable_room_versions = true;
    assert_eq!(effective_default_version(&cfg), 3);
}

#[test]
fn denied_ranges_reject_addresses() {
    let cfg = test_config();
    assert!(valid_cidr_range(&cfg, 9));
    assert!(!valid_cidr_range(&cfg, 10));
    assert!(!valid_cidr_range(&cfg, 15));
    assert!(!valid_cidr_range(&cfg, 20));
    assert!(valid_cidr_range(&cfg, 21));
    assert!(!valid_cidr_range(&cfg, 100));
    assert!(valid_cidr_range(&cfg, 101));
}

#[test]
fn locality_checks() {
    let cfg = test_config();
    assert!(user_is_local(&cfg, &bv("@alice:hs.example")));
    assert!(!user_is_local(&cfg, &bv("@alice:other.example")));
    assert!(!user_is_local(&cfg, &bv("alice")));
    // the first colon splits localpart from server
    assert!(!user_is_local(&cfg, &bv("@a:b:hs.example")));
}

#[test]
fn presets_shape_the_initial_state() {
    assert_eq!(initial_join_rule(RoomPreset::PublicChat), JoinRule::Public);
    assert_eq!(initial_join_rule(RoomPreset::PrivateChat), JoinRule::Invite);
    assert_eq!(initial_join_rule(RoomPreset::TrustedPrivateChat), JoinRule::Invite);
    assert!(!initial_guest_access(RoomPreset::PublicChat));
    assert!(initial_guest_access(RoomPreset::PrivateChat));
    assert!(invitees_share_creator_level(RoomPreset::TrustedPrivateChat));
    assert!(!invitees_share_creator_level(RoomPreset::PrivateChat));
    // locking down a replaced room outbids the old default
    assert_eq!(upgraded_room_lockdown_level(0), 50);
    assert_eq!(upgraded_room_lockdown_level(49), 50);
    assert_eq!(upgraded_room_lockdown_level(50), 51);
    assert_eq!(upgraded_room_lockdown_level(100), 101);
    let kinds = transferable_state_types();
    assert_eq!(kinds.len(), 9);
    assert_eq!(kinds[0], b"m.room.server_acl".to_vec());
    assert_eq!(kinds[8], b"m.room.power_levels".to_vec());
}

#[test]
fn counter_is_monotonic() {
    let mut c = SequenceCounter::new();
    assert_eq!(c.current_count(), 0);
    assert_eq!(c.next_count(), 1);
    assert_eq!(c.next_count(), 2);
    assert_eq!(c.current_count(), 2);
}
