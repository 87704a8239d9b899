//! Auth-chain closure and state resolution: closure completeness,
//! determinism under delivery order, and the mainline tie-break.

use roomcore::auth_chain::{cached_event_ids_iter, event_ids_iter, AuthChainCache};
use roomcore::event::{Content, PowerContent};
use roomcore::state_res::resolve_state;
use roomcore::store::{EventStore, NewEvent};

fn rb(s: &str) -> Vec<u8> {
    s.as_bytes().to_vec()
}

fn create_event(id: &str, sender: &str) -> NewEvent {
    NewEvent {
        event_id: rb(id),
        room_id: rb("!r:hs"),
        sender: rb(sender),
        etype: rb("m.room.create"),
        state_key: Some(vec![]),
        content: Content::Create { creator: rb(sender), federate: true },
        prev_ids: vec![],
        auth_ids: vec![],
        depth: 1,
        ts: 1,
    }
}

fn power_event(id: &str, sender: &str, auth: &[&str], depth: u64) -> NewEvent {
    NewEvent {
        event_id: rb(id),
        room_id: rb("!r:hs"),
        sender: rb(sender),
        etype: rb("m.room.power_levels"),
        state_key: Some(vec![]),
        content: Content::Power(PowerContent {
            users: vec![(rb(sender), 100)],
            users_default: 0,
            events_default: 0,
            state_default: 50,
            ban: 50,
        }),
        prev_ids: vec![],
        auth_ids: auth.iter().map(|a| rb(a)).collect(),
        depth,
        ts: depth,
    }
}

fn message_event(id: &str, sender: &str, auth: &[&str], depth: u64) -> NewEvent {
    NewEvent {
        event_id: rb(id),
        room_id: rb("!r:hs"),
        sender: rb(sender),
        etype: rb("m.room.message"),
        state_key: None,
        content: Content::Other,
        prev_ids: vec![],
        auth_ids: auth.iter().map(|a| rb(a)).collect(),
        depth,
        ts: depth,
    }
}

#[test]
fn auth_chain_is_closed_and_deduplicated() {
    let mut store = EventStore::new();
    let c = store.insert(create_event("$c", "@alice:hs")).unwrap();
    // a cites c and a locally unknown ancestor $x
    let a = store
        .insert(power_event("$a", "@alice:hs", &["$c", "$x"], 2))
        .unwrap();
    let b = store
        .insert(message_event("$b", "@alice:hs", &["$c"], 2))
        .unwrap();
    let e = store
        .insert(message_event("$e", "@alice:hs", &["$a", "$b"], 3))
        .unwrap();
    let chain = event_ids_iter(&store, &vec![e]);
    // every ancestor appears: a, b, c, and the unknown leaf
    assert!(chain.contains(&a));
    assert!(chain.contains(&b));
    assert!(chain.contains(&c));
    let x = store.sid_of(&rb("$x")).unwrap();
    assert!(chain.contains(&x));
    // the seed itself is not its own ancestor here
    assert!(!chain.contains(&e));
    assert_eq!(chain.len(), 4);
    // closure: the auth events of every known member are in the chain
    for &sid in chain.iter() {
        if let Some(p) = store.get(sid) {
            for &aa in p.auth_events.iter() {
                assert!(chain.contains(&aa));
            }
        }
    }
    // no duplicates: the output is strictly ascending
    for w in chain.windows(2) {
        assert!(w[0] < w[1]);
    }
}

#[test]
fn cached_chains_match_computed_ones() {
    let mut store = EventStore::new();
    let c = store.insert(create_event("$c", "@alice:hs")).unwrap();
    let a = store
        .insert(power_event("$a", "@alice:hs", &["$c"], 2))
        .unwrap();
    let e = store
        .insert(message_event("$e", "@alice:hs", &["$a"], 3))
        .unwrap();
    let mut cache = AuthChainCache::new(2);
    let direct = event_ids_iter(&store, &vec![e]);
    // a miss computes and caches, a hit returns the same chain
    let first = cached_event_ids_iter(&mut cache, &store, &vec![e]);
    let second = cached_event_ids_iter(&mut cache, &store, &vec![e]);
    assert_eq!(first, direct);
    assert_eq!(second, direct);
    assert_eq!(cache.len(), 1);
    // seed order and repetition do not change the key
    let third = cached_event_ids_iter(&mut cache, &store, &vec![e, e]);
    assert_eq!(third, direct);
    assert_eq!(cache.len(), 1);
    // the capacity bounds the cache
    let _ = cached_event_ids_iter(&mut cache, &store, &vec![a]);
    let _ = cached_event_ids_iter(&mut cache, &store, &vec![c]);
    assert_eq!(cache.len(), 2);
    let _ = c;
}

#[test]
fn resolution_is_order_independent() {
    let mut store = EventStore::new();
    let c = store.insert(create_event("$c", "@alice:hs")).unwrap();
    let p1 = store
        .insert(power_event("$p1", "@alice:hs", &["$c"], 2))
        .unwrap();
    let p2 = store
        .insert(power_event("$p2", "@alice:hs", &["$c"], 2))
        .unwrap();
    let create_key = store.get(c).unwrap().skey.unwrap();
    let power_key = store.get(p1).unwrap().skey.unwrap();
    assert_eq!(power_key, store.get(p2).unwrap().skey.unwrap());

    let s1 = vec![(create_key, c), (power_key, p1)];
    let s2 = vec![(create_key, c), (power_key, p2)];

    let r_a = resolve_state(&store, 10, &vec![s1.clone(), s2.clone()]);
    let r_b = resolve_state(&store, 10, &vec![s2.clone(), s1.clone()]);
    // identical conflicting inputs, in any delivery order, one output
    assert_eq!(r_a, r_b);
    // the agreed creation entry is kept verbatim
    assert!(r_a.contains(&(create_key, c)));
    // exactly one power event survived
    let winners: Vec<&(u64, u64)> = r_a.iter().filter(|e| e.0 == power_key).collect();
    assert_eq!(winners.len(), 1);
}

#[test]
fn mainline_ordering_picks_one_power_event() {
    let mut store = EventStore::new();
    let c = store.insert(create_event("$c", "@alice:hs")).unwrap();
    // two servers appended conflicting power events over the same parent
    let p1 = store
        .insert(power_event("$p1", "@alice:hs", &["$c"], 2))
        .unwrap();
    let p2 = store
        .insert(power_event("$p2", "@alice:hs", &["$c"], 2))
        .unwrap();
    let create_key = store.get(c).unwrap().skey.unwrap();
    let power_key = store.get(p1).unwrap().skey.unwrap();
    let s1 = vec![(create_key, c), (power_key, p1)];
    let s2 = vec![(create_key, c), (power_key, p2)];
    let r = resolve_state(&store, 10, &vec![s1, s2]);
    // same mainline rank and depth: the event id breaks the tie, and
    // "$p2" ranks first, so it takes the slot and "$p1" is dropped
    assert!(r.contains(&(power_key, p2)));
    assert!(!r.contains(&(power_key, p1)));
}

#[test]
fn deeper_power_anchor_ranks_first() {
    let mut store = EventStore::new();
    let c = store.insert(create_event("$c", "@alice:hs")).unwrap();
    let p_old = store
        .insert(power_event("$pold", "@alice:hs", &["$c"], 2))
        .unwrap();
    let p_new = store
        .insert(power_event("$pnew", "@alice:hs", &["$c"], 3))
        .unwrap();
    // two conflicting room-name style events; q2 cites the newer
    // power event, so its mainline anchor is deeper and it wins
    let mut q1 = power_event("$q1", "@alice:hs", &["$pold"], 9);
    q1.etype = rb("m.room.join_rules");
    q1.content = Content::JoinRules { rule: roomcore::event::JoinRule::Public };
    let mut q2 = power_event("$q2", "@alice:hs", &["$pnew"], 4);
    q2.etype = rb("m.room.join_rules");
    q2.content = Content::JoinRules { rule: roomcore::event::JoinRule::Invite };
    let q1 = store.insert(q1).unwrap();
    let q2 = store.insert(q2).unwrap();

    let create_key = store.get(c).unwrap().skey.unwrap();
    let power_key = store.get(p_old).unwrap().skey.unwrap();
    let jr_key = store.get(q1).unwrap().skey.unwrap();
    let s1 = vec![(create_key, c), (power_key, p_new), (jr_key, q1)];
    let s2 = vec![(create_key, c), (power_key, p_new), (jr_key, q2)];
    let r = resolve_state(&store, 10, &vec![s1, s2]);
    // q1 has the greater depth, but q2's anchor is the deeper power
    // event: proximity to the power-level history sorts first
    assert!(r.contains(&(jr_key, q2)));
    assert!(!r.contains(&(jr_key, q1)));
}

#[test]
fn unauthorized_candidates_are_dropped() {
    let mut store = EventStore::new();
    let c = store.insert(create_event("$c", "@alice:hs")).unwrap();
    // mallory is not the creator and holds no power
    let pm = store
        .insert(power_event("$pm", "@mallory:hs", &["$c"], 2))
        .unwrap();
    let create_key = store.get(c).unwrap().skey.unwrap();
    let power_key = store.get(pm).unwrap().skey.unwrap();
    let s1 = vec![(create_key, c)];
    let s2 = vec![(create_key, c), (power_key, pm)];
    let r = resolve_state(&store, 10, &vec![s1, s2]);
    assert!(r.contains(&(create_key, c)));
    // mallory's power event fails authorization and is dropped
    assert!(!r.contains(&(power_key, pm)));
}

#[test]
fn resolving_no_views_yields_no_state() {
    let store = EventStore::new();
    let r = resolve_state(&store, 10, &vec![]);
    assert!(r.is_empty());
}
