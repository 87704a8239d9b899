//! The event admission pipeline: an incoming signed event passes hash
//! verification, signature verification, auth-chain resolution and
//! authorization, and ends integrated into its room's timeline, stored
//! as an outlier, or rejected.
//!
//! Remote work is the caller's: when keys or auth ancestors are
//! missing, admission names what to fetch and the caller retries after
//! fetching — failures are never cached, so a key that appears later
//! lets the same event through. A hash mismatch, by contrast, is a
//! pure function of the event's bytes: such an event is rejected
//! identically on every resubmission.

use vstd::prelude::*;

use crate::auth_chain::{cache_consistent, lemma_empty_cache_consistent, AuthChainCache};
use crate::compress::{diff_state, CompressError, StateCompressor, STATE_CAP};
use crate::config::{EngineConfig, SequenceCounter};
use crate::crypto::{compute_event_id, event_signature_ok, reference_hash_of,
    verify_event_signature};
use crate::event::{is_state_event, Pdu};
use crate::guard::RoomGuard;
use crate::keys::{spec_lookup, KeyStore};
use crate::ratelimit::{spec_recorded, spec_retry_due, FailureMap};
use crate::state_res::{spec_authorized, state_wf};
use crate::store::{content_shape_ok, pdu_matches, spec_event_stored,
    spec_insert_headroom, EventStore, NewEvent, StoreError};
use crate::util::{bytes_eq, pairs_map, pairs_sorted, state_get, state_set};

verus! {

#[derive(Clone, Copy, PartialEq, Eq, Structural, Debug)]
pub enum Rejection {
    /// Bad hash, signature or encoding: permanent, never retried.
    MalformedEvent,
    /// Fails the room's authorization rules: permanent.
    Unauthorized,
    /// Missing keys or ancestors, or out of resources: retryable.
    Unverifiable,
}

pub enum AdmissionOutcome {
    /// The event entered the room timeline; state events carry the
    /// room's new short state hash.
    Integrated { sid: u64, new_state_hash: Option<u64> },
    /// The event is cryptographically valid and stored, but not yet
    /// authorized into the timeline.
    StoredOutlier { sid: u64 },
    Rejected { reason: Rejection },
    /// The named server key must be fetched before a retry.
    MissingKeys { server: Vec<u8>, key_id: Vec<u8> },
    /// The named auth ancestors must be fetched before a retry.
    MissingEvents { ids: Vec<Vec<u8>> },
}

/// An incoming signed event: its canonical bytes, the crypto envelope,
/// and its parsed plain fields.
pub struct IncomingPdu {
    pub canonical: Vec<u8>,
    pub claimed_id: Vec<u8>,
    pub origin: Vec<u8>,
    pub key_id: Vec<u8>,
    pub ev: NewEvent,
}

/// The claimed event id is the reference hash of the canonical bytes,
/// and the parsed event carries that id. A pure function of the
/// event's own content: it cannot change between submissions.
pub open spec fn spec_id_ok(inc: IncomingPdu) -> bool {
    reference_hash_of(inc.canonical@) == Some(inc.claimed_id@) && inc.claimed_id@
        == inc.ev.event_id@
}

/// The origin's named key is known to the key store.
pub open spec fn spec_key_known(ks: KeyStore, inc: IncomingPdu) -> bool {
    spec_lookup(ks.spec_merged_keys(inc.origin@), inc.key_id@) is Some
}

/// The event's signature verifies under the origin's named key.
pub open spec fn spec_sig_ok(ks: KeyStore, inc: IncomingPdu) -> bool {
    match spec_lookup(ks.spec_merged_keys(inc.origin@), inc.key_id@) {
        Some(k) => event_signature_ok(inc.origin@, inc.key_id@, k, inc.canonical@),
        None => false,
    }
}

/// Nothing stands in the event's way: the id and signature check out,
/// the depth rule holds, every auth ancestor is known, the content
/// fits its type, the event is new, and the store and compressor have
/// room. Admission must then integrate the event or reject it as
/// unauthorized — nothing else.
pub open spec fn spec_admittable(e: Engine, inc: IncomingPdu) -> bool {
    &&& spec_id_ok(inc)
    &&& spec_sig_ok(e.keys, inc)
    &&& spec_depth_ok(e.store, inc.ev)
    &&& forall|i: int|
        0 <= i < inc.ev.auth_ids@.len() ==> spec_auth_known(
            e.store,
            (#[trigger] inc.ev.auth_ids@[i])@,
        )
    &&& content_shape_ok(inc.ev)
    &&& !spec_event_stored(e.store, inc.ev.event_id@)
    &&& spec_insert_headroom(e.store, inc.ev)
    &&& e.compressor@.len() < STATE_CAP
}

/// An outcome worth retrying after remote work or backoff: missing
/// keys, missing ancestors, or a resource shortfall. Permanent
/// rejections and successes are not retried.
pub open spec fn spec_retryable(r: AdmissionOutcome) -> bool {
    ||| r matches AdmissionOutcome::MissingKeys { .. }
    ||| r matches AdmissionOutcome::MissingEvents { .. }
    ||| (r matches AdmissionOutcome::Rejected { reason } && reason == Rejection::Unverifiable)
}

/// The canonical failure key for an event's signature set: the origin
/// and the key id, joined by a separator byte neither may contain.
pub open spec fn spec_signature_key(origin: Seq<u8>, key_id: Seq<u8>) -> Seq<u8> {
    origin + seq![0xffu8] + key_id
}

/// Rejection stability: whether an event passes the hash check depends
/// on its canonical bytes and claimed id alone, so an event rejected
/// for a hash mismatch is rejected identically on every resubmission.
pub proof fn lemma_malformed_is_permanent(inc1: IncomingPdu, inc2: IncomingPdu)
    requires
        inc1.canonical@ == inc2.canonical@,
        inc1.claimed_id@ == inc2.claimed_id@,
        inc1.ev.event_id@ == inc2.ev.event_id@,
    ensures
        spec_id_ok(inc1) == spec_id_ok(inc2),
{
}

/// A store extension keeps every state set valid: events are immutable
/// and only new ones appear.
pub proof fn lemma_state_wf_monotone(pre: Map<u64, Pdu>, post: Map<u64, Pdu>, m: Map<u64, u64>)
    requires
        state_wf(pre, m),
        forall|s: u64| #[trigger] pre.dom().contains(s) ==> post.dom().contains(s) && post[s]
            == pre[s],
    ensures
        state_wf(post, m),
{
}

/// The engine: the verified core the callers drive. Remote fetches,
/// storage and the async runtime stay outside; they hand plain values
/// in and take plain values back.
pub struct Engine {
    pub store: EventStore,
    pub keys: KeyStore,
    pub compressor: StateCompressor,
    pub guard: RoomGuard,
    pub bad_event_limiter: FailureMap,
    pub bad_signature_limiter: FailureMap,
    pub bad_query_limiter: FailureMap,
    pub counter: SequenceCounter,
    pub config: EngineConfig,
    pub auth_cache: AuthChainCache,
    pub timelines: Vec<(u64, Vec<u64>)>,
    pub room_state: Vec<(u64, u64)>,
}

/// No room appears twice in a timeline table.
pub open spec fn rooms_distinct(tls: Seq<(u64, Vec<u64>)>) -> bool {
    forall|i: int, j: int|
        0 <= i < j < tls.len() ==> (#[trigger] tls[i]).0 != (#[trigger] tls[j]).0
}

/// Every recorded room-state hash names a stored state that is valid
/// for the event store.
pub open spec fn room_states_ok(
    rs: Seq<(u64, u64)>,
    comp: Seq<crate::compress::StateDiff>,
    store: Map<u64, Pdu>,
) -> bool {
    forall|room: u64| #[trigger]
        pairs_map(rs).dom().contains(room) ==> pairs_map(rs)[room] < comp.len() && state_wf(
            store,
            diff_state(comp, pairs_map(rs)[room] as int),
        )
}

/// The rooms of a timeline table, in first-seen order.
pub open spec fn rooms_of(tls: Seq<(u64, Vec<u64>)>) -> Seq<u64> {
    Seq::new(tls.len(), |i: int| tls[i].0)
}

/// The ordered short event ids a timeline table holds for a room.
pub open spec fn tl_of(tls: Seq<(u64, Vec<u64>)>, room: u64) -> Seq<u64> {
    if exists|i: int| 0 <= i < rooms_of(tls).len() && #[trigger] rooms_of(tls)[i] == room {
        let i = choose|i: int| 0 <= i < rooms_of(tls).len() && #[trigger] rooms_of(tls)[i] == room;
        tls[i].1@
    } else {
        Seq::empty()
    }
}

impl Engine {
    /// The rooms with a timeline, in first-seen order.
    pub open spec fn timeline_rooms(&self) -> Seq<u64> {
        rooms_of(self.timelines@)
    }

    /// The timeline of the room at position `i`.
    pub open spec fn timeline_at(&self, i: int) -> Seq<u64> {
        self.timelines@[i].1@
    }

    /// The ordered short event ids of a room's timeline.
    pub open spec fn spec_timeline(&self, room: u64) -> Seq<u64> {
        tl_of(self.timelines@, room)
    }

    /// The room-to-current-short-state-hash table.
    pub open spec fn room_state_v(&self) -> Seq<(u64, u64)> {
        self.room_state@
    }

    /// The room's current short state hash, if any state was saved.
    pub open spec fn spec_current_state(&self, room: u64) -> Option<u64> {
        if pairs_map(self.room_state_v()).dom().contains(room) {
            Some(pairs_map(self.room_state_v())[room])
        } else {
            None
        }
    }

    pub open spec fn wf(&self) -> bool {
        &&& self.store.wf()
        &&& self.keys.wf()
        &&& self.compressor.wf()
        &&& self.guard.wf()
        &&& self.bad_event_limiter.wf()
        &&& self.bad_signature_limiter.wf()
        &&& self.bad_query_limiter.wf()
        &&& pairs_sorted(self.room_state_v())
        &&& rooms_distinct(self.timelines@)
        &&& room_states_ok(self.room_state@, self.compressor@, self.store@)
        &&& cache_consistent(self.auth_cache.entries_view(), self.store@)
    }

    pub fn new(config: EngineConfig) -> (e: Self)
        ensures
            e.wf(),
            e.store@ =~= Map::<u64, Pdu>::empty(),
            e.store.id_seq().len() == 0,
            e.keys.names().len() == 0,
            e.compressor@.len() == 0,
            e.guard@ =~= Set::<u64>::empty(),
            e.bad_event_limiter@ =~= Map::<Seq<u8>, crate::ratelimit::FailureRecord>::empty(),
            e.bad_signature_limiter@ =~= Map::<Seq<u8>, crate::ratelimit::FailureRecord>::empty(),
            e.bad_query_limiter@ =~= Map::<Seq<u8>, crate::ratelimit::FailureRecord>::empty(),
            e.auth_cache.entries_view().len() == 0,
            e.auth_cache.spec_cap() == config.auth_chain_cache_capacity,
            e.timeline_rooms().len() == 0,
            e.room_state_v().len() == 0,
            e.counter@ == 0,
            e.config == config,
    {
        let cache_cap = config.auth_chain_cache_capacity;
        let e = Engine {
            store: EventStore::new(),
            keys: KeyStore::new(),
            compressor: StateCompressor::new(),
            guard: RoomGuard::new(),
            bad_event_limiter: FailureMap::new(),
            bad_signature_limiter: FailureMap::new(),
            bad_query_limiter: FailureMap::new(),
            counter: SequenceCounter::new(),
            config,
            auth_cache: AuthChainCache::new(cache_cap),
            timelines: Vec::new(),
            room_state: Vec::new(),
        };
        proof {
            crate::util::lemma_pairs_map_domain(e.room_state@);
            lemma_empty_cache_consistent(e.auth_cache.entries_view(), e.store@);
        }
        e
    }

    /// The room's current short state hash.
    pub fn current_state(&self, room: u64) -> (r: Option<u64>)
        requires
            self.wf(),
        ensures
            r == self.spec_current_state(room),
    {
        state_get(&self.room_state, room)
    }

    /// Appends an event to a room's timeline.
    #[verifier::loop_isolation(false)]
    fn append_timeline(&mut self, room: u64, sid: u64)
        requires
            old(self).wf(),
        ensures
            final(self).wf(),
            final(self).spec_timeline(room) =~= old(self).spec_timeline(room).push(sid),
            forall|r2: u64|
                r2 != room ==> #[trigger] final(self).spec_timeline(r2) == old(self).spec_timeline(
                    r2,
                ),
            final(self).store == old(self).store,
            final(self).keys == old(self).keys,
            final(self).compressor == old(self).compressor,
            final(self).guard == old(self).guard,
            final(self).counter == old(self).counter,
            final(self).room_state_v() == old(self).room_state_v(),
            final(self).config == old(self).config,
    {
        let ghost pre_rooms = self.timeline_rooms();
        let mut i: usize = 0;
        while i < self.timelines.len()
            invariant
                i <= self.timelines@.len(),
                *self == *old(self),
                forall|j: int| 0 <= j < i ==> #[trigger] self.timeline_rooms()[j] != room,
            decreases self.timelines@.len() - i,
        {
            if self.timelines[i].0 == room {
                proof {
                    lemma_unique_room(self.timeline_rooms(), i as int, room);
                }
                let entry = &mut self.timelines[i];
                entry.1.push(sid);
                proof {
                    assert(self.timeline_rooms() =~= pre_rooms);
                    lemma_unique_room(self.timeline_rooms(), i as int, room);
                    assert(self.timeline_at(i as int) =~= old(self).timeline_at(i as int).push(
                        sid,
                    ));
                    assert forall|r2: u64| r2 != room implies #[trigger] self.spec_timeline(r2)
                        == old(self).spec_timeline(r2) by {
                        if exists|w: int|
                            0 <= w < pre_rooms.len() && #[trigger] pre_rooms[w] == r2 {
                            let w = choose|w: int|
                                0 <= w < pre_rooms.len() && #[trigger] pre_rooms[w] == r2;
                            assert(self.timeline_rooms()[w] == r2);
                            lemma_unique_room(self.timeline_rooms(), w, r2);
                            lemma_unique_room(pre_rooms, w, r2);
                            assert(w != i);
                            assert(self.timelines@[w] == old(self).timelines@[w]);
                        } else {
                            if exists|w: int|
                                0 <= w < self.timeline_rooms().len()
                                    && #[trigger] self.timeline_rooms()[w] == r2 {
                                let w = choose|w: int|
                                    0 <= w < self.timeline_rooms().len()
                                        && #[trigger] self.timeline_rooms()[w] == r2;
                                assert(pre_rooms[w] == r2);
                                assert(false);
                            }
                        }
                    }
                }
                return ;
            }
            i = i + 1;
        }
        let n = self.timelines.len();
        let mut tl: Vec<u64> = Vec::new();
        tl.push(sid);
        self.timelines.push((room, tl));
        proof {
            assert(self.timeline_rooms()[n as int] == room);
            assert forall|a: int, b: int|
                0 <= a < b < self.timeline_rooms().len() implies #[trigger] self.timeline_rooms()[a]
                != #[trigger] self.timeline_rooms()[b] by {
                if b == self.timeline_rooms().len() - 1 {
                    assert(self.timeline_rooms()[a] == pre_rooms[a]);
                    assert(pre_rooms[a] != room);
                } else {
                    assert(self.timeline_rooms()[a] == pre_rooms[a]);
                    assert(self.timeline_rooms()[b] == pre_rooms[b]);
                }
            }
            assert(rooms_distinct(self.timelines@)) by {
                assert forall|a: int, b: int|
                    0 <= a < b < self.timelines@.len() implies (#[trigger] self.timelines@[a]).0
                    != (#[trigger] self.timelines@[b]).0 by {
                    assert(self.timeline_rooms()[a] == self.timelines@[a].0);
                    assert(self.timeline_rooms()[b] == self.timelines@[b].0);
                }
            }
            lemma_unique_room(self.timeline_rooms(), n as int, room);
            if old(self).spec_timeline(room).len() > 0 || (exists|w: int|
                0 <= w < pre_rooms.len() && #[trigger] pre_rooms[w] == room) {
                let w = choose|w: int| 0 <= w < pre_rooms.len() && #[trigger] pre_rooms[w] == room;
                assert(pre_rooms[w] != room);
                assert(false);
            }
            assert(self.timeline_at(n as int) =~= Seq::<u64>::empty().push(sid));
            assert(self.spec_timeline(room) =~= old(self).spec_timeline(room).push(sid));
            assert forall|r2: u64| r2 != room implies #[trigger] self.spec_timeline(r2) == old(self).spec_timeline(r2) by {
                if exists|w: int| 0 <= w < pre_rooms.len() && #[trigger] pre_rooms[w] == r2 {
                    let w = choose|w: int|
                        0 <= w < pre_rooms.len() && #[trigger] pre_rooms[w] == r2;
                    assert(self.timeline_rooms()[w] == r2);
                    lemma_unique_room(self.timeline_rooms(), w, r2);
                    lemma_unique_room(pre_rooms, w, r2);
                    assert(self.timelines@[w] == old(self).timelines@[w]);
                } else {
                    if exists|w: int|
                        0 <= w < self.timeline_rooms().len() && #[trigger] self.timeline_rooms()[w]
                            == r2 {
                        let w = choose|w: int|
                            0 <= w < self.timeline_rooms().len()
                                && #[trigger] self.timeline_rooms()[w] == r2;
                        if w < pre_rooms.len() {
                            assert(pre_rooms[w] == r2);
                        } else {
                            assert(self.timeline_rooms()[w] == room);
                        }
                        assert(false);
                    }
                }
            }
        }
    }

    /// The oldest event of a room's timeline.
    pub fn first_in_timeline(&self, room: u64) -> (r: Option<u64>)
        requires
            self.wf(),
        ensures
            match r {
                Some(sid) => self.spec_timeline(room).len() > 0 && sid == self.spec_timeline(
                    room,
                )[0],
                None => self.spec_timeline(room).len() == 0,
            },
    {
        let tl = self.timeline_of(room);
        if tl.len() == 0 {
            None
        } else {
            Some(tl[0])
        }
    }

    /// The newest event of a room's timeline.
    pub fn latest_in_timeline(&self, room: u64) -> (r: Option<u64>)
        requires
            self.wf(),
        ensures
            match r {
                Some(sid) => self.spec_timeline(room).len() > 0 && sid == self.spec_timeline(
                    room,
                ).last(),
                None => self.spec_timeline(room).len() == 0,
            },
    {
        let tl = self.timeline_of(room);
        if tl.len() == 0 {
            None
        } else {
            Some(tl[tl.len() - 1])
        }
    }

    /// A copy of a room's timeline.
    #[verifier::loop_isolation(false)]
    pub fn timeline_of(&self, room: u64) -> (r: Vec<u64>)
        requires
            self.wf(),
        ensures
            r@ == self.spec_timeline(room),
    {
        let mut i: usize = 0;
        while i < self.timelines.len()
            invariant
                i <= self.timelines@.len(),
                forall|j: int| 0 <= j < i ==> #[trigger] self.timeline_rooms()[j] != room,
            decreases self.timelines@.len() - i,
        {
            if self.timelines[i].0 == room {
                let tl = &self.timelines[i].1;
                let mut out: Vec<u64> = Vec::new();
                let mut j: usize = 0;
                while j < tl.len()
                    invariant
                        j <= tl@.len(),
                        out@ =~= tl@.take(j as int),
                    decreases tl@.len() - j,
                {
                    out.push(tl[j]);
                    proof {
                        assert(out@ =~= tl@.take(j + 1));
                    }
                    j = j + 1;
                }
                proof {
                    assert(out@ =~= self.timeline_at(i as int));
                    assert(self.timeline_rooms()[i as int] == room);
                    lemma_unique_room(self.timeline_rooms(), i as int, room);
                }
                return out;
            }
            i = i + 1;
        }
        let out: Vec<u64> = Vec::new();
        proof {
            assert(!exists|w: int|
                0 <= w < rooms_of(self.timelines@).len() && #[trigger] rooms_of(
                    self.timelines@,
                )[w] == room) by {
                if exists|w: int|
                    0 <= w < rooms_of(self.timelines@).len() && #[trigger] rooms_of(
                        self.timelines@,
                    )[w] == room {
                    let w = choose|w: int|
                        0 <= w < rooms_of(self.timelines@).len() && #[trigger] rooms_of(
                            self.timelines@,
                        )[w] == room;
                    assert(self.timeline_rooms()[w] != room);
                    assert(false);
                }
            }
            assert(tl_of(self.timelines@, room) =~= Seq::<u64>::empty());
            assert(out@ =~= Seq::<u64>::empty());
        }
        out
    }
}

/// The state set a room is currently under: the stored state at its
/// current short state hash, or the empty state before any save.
pub open spec fn room_state_map(e: Engine, room: u64) -> Map<u64, u64> {
    match e.spec_current_state(room) {
        Some(h) => diff_state(e.compressor@, h as int),
        None => Map::empty(),
    }
}

/// The auth ancestor named by `id` is known locally.
pub open spec fn spec_auth_known(store: EventStore, id: Seq<u8>) -> bool {
    exists|sid: u64|
        sid < store.id_seq().len() && #[trigger] store.id_seq()[sid as int] == id
            && store@.dom().contains(sid)
}

/// The event's depth lies strictly above every locally known causal
/// parent's depth, as the depth rule of the event graph demands.
pub open spec fn spec_depth_ok(store: EventStore, ev: NewEvent) -> bool {
    forall|i: int, sid: u64|
        0 <= i < ev.prev_ids@.len() && sid < store.id_seq().len()
            && store.id_seq()[sid as int] == (#[trigger] ev.prev_ids@[i])@ && #[trigger] store@.dom().contains(sid)
            ==> store@[sid].depth < ev.depth
}

impl Engine {
    /// Records a room's new current state hash.
    fn set_room_state(&mut self, room: u64, h: u64)
        requires
            old(self).wf(),
            h < old(self).compressor@.len(),
            state_wf(old(self).store@, diff_state(old(self).compressor@, h as int)),
        ensures
            final(self).wf(),
            final(self).spec_current_state(room) == Some(h),
            forall|r2: u64|
                r2 != room ==> #[trigger] final(self).spec_current_state(r2) == old(self).spec_current_state(r2),
            final(self).store == old(self).store,
            final(self).keys == old(self).keys,
            final(self).compressor == old(self).compressor,
            final(self).guard == old(self).guard,
            final(self).counter == old(self).counter,
            final(self).timelines == old(self).timelines,
            final(self).config == old(self).config,
    {
        let next = state_set(&self.room_state, room, h);
        self.room_state = next;
        proof {
            assert(self.timelines@ == old(self).timelines@);
            assert(rooms_of(self.timelines@) == rooms_of(old(self).timelines@));
            let m = pairs_map(self.room_state_v());
            let m0 = pairs_map(old(self).room_state_v());
            assert(m == m0.insert(room, h));
            assert forall|r2: u64| #[trigger] m.dom().contains(r2) implies m[r2]
                < self.compressor@.len() && state_wf(
                self.store@,
                diff_state(self.compressor@, m[r2] as int),
            ) by {
                if r2 != room {
                    assert(m0.dom().contains(r2));
                    assert(m[r2] == m0[r2]);
                }
            }
        }
    }

    /// Stores an incoming event as an outlier: its hash and signature
    /// are verified, authorization into a timeline is deferred. Used
    /// for fetched auth ancestors and backfilled events.
    pub fn admit_outlier(&mut self, inc: IncomingPdu) -> (r: AdmissionOutcome)
        requires
            old(self).wf(),
        ensures
            final(self).wf(),
            final(self).keys == old(self).keys,
            final(self).compressor == old(self).compressor,
            final(self).guard == old(self).guard,
            final(self).counter == old(self).counter,
            final(self).timelines == old(self).timelines,
            final(self).room_state == old(self).room_state,
            !spec_id_ok(inc) ==> (r matches AdmissionOutcome::Rejected { reason }
                && reason == Rejection::MalformedEvent) && final(self).store@ == old(self).store@,
            spec_id_ok(inc) && !spec_key_known(old(self).keys, inc) ==> (r
                matches AdmissionOutcome::MissingKeys { server, key_id } && server@ == inc.origin@
                && key_id@ == inc.key_id@) && final(self).store@ == old(self).store@,
            spec_id_ok(inc) && spec_key_known(old(self).keys, inc) && !spec_sig_ok(
                old(self).keys,
                inc,
            ) ==> (r matches AdmissionOutcome::Rejected { reason } && reason
                == Rejection::MalformedEvent) && final(self).store@ == old(self).store@,
            spec_id_ok(inc) && spec_sig_ok(old(self).keys, inc) ==> match r {
                AdmissionOutcome::StoredOutlier { sid } => sid < final(self).store.id_seq().len()
                    && final(self).store.id_seq()[sid as int] == inc.ev.event_id@
                    && final(self).store@.dom().contains(sid),
                AdmissionOutcome::Rejected { reason } => (reason == Rejection::MalformedEvent
                    <==> !content_shape_ok(inc.ev)) && (reason == Rejection::MalformedEvent
                    || (reason == Rejection::Unverifiable && !spec_insert_headroom(
                    old(self).store,
                    inc.ev,
                ))),
                _ => false,
            },
            spec_id_ok(inc) && spec_sig_ok(old(self).keys, inc) && content_shape_ok(inc.ev)
                && spec_insert_headroom(old(self).store, inc.ev) ==> r
                matches AdmissionOutcome::StoredOutlier { sid },
    {
        match compute_event_id(&inc.canonical) {
            Some(cid) => {
                if !bytes_eq(&cid, &inc.claimed_id) {
                    return AdmissionOutcome::Rejected { reason: Rejection::MalformedEvent };
                }
            },
            None => {
                return AdmissionOutcome::Rejected { reason: Rejection::MalformedEvent };
            },
        }
        if !bytes_eq(&inc.claimed_id, &inc.ev.event_id) {
            return AdmissionOutcome::Rejected { reason: Rejection::MalformedEvent };
        }
        let key = match self.keys.key_for(&inc.origin, &inc.key_id) {
            Some(k) => k,
            None => {
                return AdmissionOutcome::MissingKeys {
                    server: crate::util::clone_bytes(&inc.origin),
                    key_id: crate::util::clone_bytes(&inc.key_id),
                };
            },
        };
        if !verify_event_signature(&inc.origin, &inc.key_id, &key, &inc.canonical) {
            return AdmissionOutcome::Rejected { reason: Rejection::MalformedEvent };
        }
        let eid = crate::util::clone_bytes(&inc.ev.event_id);
        match self.store.insert(inc.ev) {
            Ok(sid) => {
                // the store grew: cached auth chains may be stale
                self.auth_cache.clear();
                proof {
                    lemma_empty_cache_consistent(self.auth_cache.entries_view(), self.store@);
                }
                AdmissionOutcome::StoredOutlier { sid }
            },
            Err(StoreError::MalformedContent) => AdmissionOutcome::Rejected {
                reason: Rejection::MalformedEvent,
            },
            Err(StoreError::AlreadyKnown) => {
                // the stored event is found again under the same id
                match self.store.sid_of(&eid) {
                    Some(sid) => {
                        if self.store.contains(sid) {
                            AdmissionOutcome::StoredOutlier { sid }
                        } else {
                            proof {
                                let w = choose|w: u64|
                                    w < old(self).store.id_seq().len()
                                        && #[trigger] old(self).store.id_seq()[w as int] == eid@
                                        && old(self).store@.dom().contains(w);
                                assert(self.store.id_seq().take(
                                    old(self).store.id_seq().len() as int,
                                )[w as int] == self.store.id_seq()[w as int]);
                                if w < sid {
                                    self.store.lemma_id_seq_distinct(w as int, sid as int);
                                } else if sid < w {
                                    self.store.lemma_id_seq_distinct(sid as int, w as int);
                                }
                                assert(false);
                            }
                            AdmissionOutcome::Rejected { reason: Rejection::Unverifiable }
                        }
                    },
                    None => {
                        proof {
                            let w = choose|w: u64|
                                w < old(self).store.id_seq().len()
                                    && #[trigger] old(self).store.id_seq()[w as int] == eid@
                                    && old(self).store@.dom().contains(w);
                            assert(self.store.id_seq().take(
                                old(self).store.id_seq().len() as int,
                            )[w as int] == self.store.id_seq()[w as int]);
                            assert(self.store.id_seq()[w as int] !== eid@);
                            assert(false);
                        }
                        AdmissionOutcome::Rejected { reason: Rejection::Unverifiable }
                    },
                }
            },
            Err(StoreError::Full) => AdmissionOutcome::Rejected {
                reason: Rejection::Unverifiable,
            },
        }
    }

    /// Admits an incoming event into a room: recompute and check the
    /// event id, verify the signature, demand missing auth ancestors
    /// (bounded by the configured fetch cap), then authorize against
    /// the room's current state and integrate.
    ///
    /// The caller must hold the room's guard for the whole mutation.
    #[verifier::loop_isolation(false)]
    #[verifier::rlimit(100)]
    pub fn admit_event(&mut self, room: u64, inc: IncomingPdu) -> (r: AdmissionOutcome)
        requires
            old(self).wf(),
            old(self).guard@.contains(room),
            old(self).counter@ < u64::MAX,
        ensures
            final(self).wf(),
            final(self).keys == old(self).keys,
            final(self).guard == old(self).guard,
            !spec_id_ok(inc) ==> (r matches AdmissionOutcome::Rejected { reason }
                && reason == Rejection::MalformedEvent),
            spec_id_ok(inc) && !spec_key_known(old(self).keys, inc) ==> (r
                matches AdmissionOutcome::MissingKeys { server, key_id } && server@ == inc.origin@
                && key_id@ == inc.key_id@),
            spec_id_ok(inc) && spec_key_known(old(self).keys, inc) && !spec_sig_ok(
                old(self).keys,
                inc,
            ) ==> (r matches AdmissionOutcome::Rejected { reason } && reason
                == Rejection::MalformedEvent),
            spec_id_ok(inc) && spec_sig_ok(old(self).keys, inc) && !spec_depth_ok(
                old(self).store,
                inc.ev,
            ) ==> (r matches AdmissionOutcome::Rejected { reason } && reason
                == Rejection::MalformedEvent),
            r matches AdmissionOutcome::MissingEvents { ids } ==> ids@.len() >= 1 && forall|j: int|
                0 <= j < ids@.len() ==> !spec_auth_known(old(self).store, (#[trigger] ids@[j])@),
            forall|s: u64| #[trigger]
                old(self).store@.dom().contains(s) ==> final(self).store@.dom().contains(s)
                    && final(self).store@[s] == old(self).store@[s],
            spec_admittable(*old(self), inc) ==> ((r matches AdmissionOutcome::Integrated { .. })
                || (r matches AdmissionOutcome::Rejected { reason } && reason
                == Rejection::Unauthorized)),
            r matches AdmissionOutcome::Integrated { sid, new_state_hash } ==> {
                &&& final(self).store@.dom().contains(sid)
                &&& sid < final(self).store.id_seq().len()
                &&& final(self).store.id_seq()[sid as int] == inc.ev.event_id@
                &&& pdu_matches(final(self).store@[sid], inc.ev, final(self).store.id_seq(),
                    final(self).store.room_seq())
                &&& final(self).spec_timeline(room) =~= old(self).spec_timeline(room).push(sid)
                &&& spec_authorized(final(self).store@, sid, room_state_map(*old(self), room))
                &&& match new_state_hash {
                    Some(h) => h < final(self).compressor@.len() && final(self).spec_current_state(
                        room,
                    ) == Some(h) && is_state_event(final(self).store@[sid]) && diff_state(
                        final(self).compressor@,
                        h as int,
                    ) == room_state_map(*old(self), room).insert(
                        final(self).store@[sid].skey->Some_0,
                        sid,
                    ),
                    None => !is_state_event(final(self).store@[sid]) && final(self).spec_current_state(room) == old(self).spec_current_state(room),
                }
            },
            r matches AdmissionOutcome::Rejected { reason } && reason == Rejection::Unauthorized
                ==> exists|sid: u64|
                final(self).store@.dom().contains(sid) && #[trigger] final(self).store.id_seq()[sid as int] == inc.ev.event_id@ && pdu_matches(
                    final(self).store@[sid],
                    inc.ev,
                    final(self).store.id_seq(),
                    final(self).store.room_seq(),
                ) && !spec_authorized(
                    final(self).store@,
                    sid,
                    room_state_map(*old(self), room),
                ),
    {
        match compute_event_id(&inc.canonical) {
            Some(cid) => {
                if !bytes_eq(&cid, &inc.claimed_id) {
                    return AdmissionOutcome::Rejected { reason: Rejection::MalformedEvent };
                }
            },
            None => {
                return AdmissionOutcome::Rejected { reason: Rejection::MalformedEvent };
            },
        }
        if !bytes_eq(&inc.claimed_id, &inc.ev.event_id) {
            return AdmissionOutcome::Rejected { reason: Rejection::MalformedEvent };
        }
        let key = match self.keys.key_for(&inc.origin, &inc.key_id) {
            Some(k) => k,
            None => {
                return AdmissionOutcome::MissingKeys {
                    server: crate::util::clone_bytes(&inc.origin),
                    key_id: crate::util::clone_bytes(&inc.key_id),
                };
            },
        };
        if !verify_event_signature(&inc.origin, &inc.key_id, &key, &inc.canonical) {
            return AdmissionOutcome::Rejected { reason: Rejection::MalformedEvent };
        }
        // the depth must rise strictly over every known causal parent
        let mut pi: usize = 0;
        while pi < inc.ev.prev_ids.len()
            invariant
                pi <= inc.ev.prev_ids@.len(),
                forall|i: int, sid: u64|
                    0 <= i < pi && sid < self.store.id_seq().len() && self.store.id_seq()[
                    sid as int] == (#[trigger] inc.ev.prev_ids@[i])@ && #[trigger] self.store@.dom().contains(
                        sid,
                    ) ==> self.store@[sid].depth < inc.ev.depth,
            decreases inc.ev.prev_ids@.len() - pi,
        {
            let pid = &inc.ev.prev_ids[pi];
            match self.store.sid_of(pid) {
                Some(sid0) => {
                    match self.store.get(sid0) {
                        Some(p) => {
                            if p.depth >= inc.ev.depth {
                                proof {
                                    // sid0 under this parent id violates the rule
                                    assert(self.store.id_seq()[sid0 as int] == (
                                    inc.ev.prev_ids@[pi as int])@ && self.store@.dom().contains(
                                        sid0,
                                    ) && self.store@[sid0].depth >= inc.ev.depth);
                                    assert(!spec_depth_ok(self.store, inc.ev));
                                }
                                return AdmissionOutcome::Rejected {
                                    reason: Rejection::MalformedEvent,
                                };
                            }
                            proof {
                                assert forall|sid: u64|
                                    sid < self.store.id_seq().len() && self.store.id_seq()[
                                sid as int] == pid@ && #[trigger] self.store@.dom().contains(sid)
                                    implies self.store@[sid].depth < inc.ev.depth by {
                                    if sid < sid0 {
                                        self.store.lemma_id_seq_distinct(sid as int, sid0 as int);
                                    } else if sid0 < sid {
                                        self.store.lemma_id_seq_distinct(sid0 as int, sid as int);
                                    }
                                }
                            }
                        },
                        None => {
                            proof {
                                assert forall|sid: u64|
                                    sid < self.store.id_seq().len() && self.store.id_seq()[
                                sid as int] == pid@ && #[trigger] self.store@.dom().contains(sid)
                                    implies self.store@[sid].depth < inc.ev.depth by {
                                    if sid < sid0 {
                                        self.store.lemma_id_seq_distinct(sid as int, sid0 as int);
                                    } else if sid0 < sid {
                                        self.store.lemma_id_seq_distinct(sid0 as int, sid as int);
                                    }
                                    assert(false);
                                }
                            }
                        },
                    }
                },
                None => {
                    proof {
                        assert forall|sid: u64|
                            sid < self.store.id_seq().len() && self.store.id_seq()[sid as int]
                                == pid@ && #[trigger] self.store@.dom().contains(sid)
                            implies self.store@[sid].depth < inc.ev.depth by {
                            assert(self.store.id_seq()[sid as int] !== pid@);
                        }
                    }
                },
            }
            pi = pi + 1;
        }
        // every auth ancestor must be known before authorization
        let mut unknown: Vec<Vec<u8>> = Vec::new();
        let mut i: usize = 0;
        while i < inc.ev.auth_ids.len()
            invariant
                i <= inc.ev.auth_ids@.len(),
                forall|j: int|
                    0 <= j < unknown@.len() ==> !spec_auth_known(
                        self.store,
                        (#[trigger] unknown@[j])@,
                    ),
                forall|j: int|
                    0 <= j < unknown@.len() ==> exists|w: int|
                        0 <= w < inc.ev.auth_ids@.len() && (#[trigger] unknown@[j])@ == (
                        inc.ev.auth_ids@[w])@,
            decreases inc.ev.auth_ids@.len() - i,
        {
            let aid = &inc.ev.auth_ids[i];
            let mut known: bool = false;
            match self.store.sid_of(aid) {
                Some(sid0) => {
                    if self.store.contains(sid0) {
                        known = true;
                    } else {
                        proof {
                            // ids are interned once, so sid0 is the only
                            // sid this id could be known under
                            if spec_auth_known(self.store, aid@) {
                                let w = choose|w: u64|
                                    w < self.store.id_seq().len()
                                        && #[trigger] self.store.id_seq()[w as int] == aid@
                                        && self.store@.dom().contains(w);
                                if w < sid0 {
                                    self.store.lemma_id_seq_distinct(w as int, sid0 as int);
                                } else if sid0 < w {
                                    self.store.lemma_id_seq_distinct(sid0 as int, w as int);
                                }
                                assert(false);
                            }
                        }
                    }
                },
                None => {
                    proof {
                        if spec_auth_known(self.store, aid@) {
                            let w = choose|w: u64|
                                w < self.store.id_seq().len()
                                    && #[trigger] self.store.id_seq()[w as int] == aid@
                                    && self.store@.dom().contains(w);
                            assert(self.store.id_seq()[w as int] !== aid@);
                            assert(false);
                        }
                    }
                },
            }
            if !known {
                let ghost u0 = unknown@;
                unknown.push(crate::util::clone_bytes(aid));
                proof {
                    assert forall|j: int| 0 <= j < unknown@.len() implies exists|w: int|
                        0 <= w < inc.ev.auth_ids@.len() && (#[trigger] unknown@[j])@ == (
                        inc.ev.auth_ids@[w])@ by {
                        if j < u0.len() {
                            assert(unknown@[j] == u0[j]);
                        } else {
                            assert(unknown@[j]@ == (inc.ev.auth_ids@[i as int])@);
                        }
                    }
                }
            }
            i = i + 1;
        }
        if unknown.len() > 0 {
            proof {
                // some auth ancestor really is unknown, so the event is
                // not admittable yet
                if spec_admittable(*old(self), inc) {
                    let w = choose|w: int|
                        0 <= w < inc.ev.auth_ids@.len() && (unknown@[0])@ == (
                        inc.ev.auth_ids@[w])@;
                    assert(spec_auth_known(old(self).store, (inc.ev.auth_ids@[w])@));
                    assert(!spec_auth_known(self.store, unknown@[0]@));
                    assert(false);
                }
            }
            if unknown.len() > self.config.max_fetch_prev_events as usize {
                return AdmissionOutcome::Rejected { reason: Rejection::Unverifiable };
            }
            return AdmissionOutcome::MissingEvents { ids: unknown };
        }
        // store the event
        let eid = crate::util::clone_bytes(&inc.ev.event_id);
        let ghost store0 = self.store;
        let sid = match self.store.insert(inc.ev) {
            Ok(sid) => sid,
            Err(StoreError::MalformedContent) => {
                return AdmissionOutcome::Rejected { reason: Rejection::MalformedEvent };
            },
            Err(StoreError::AlreadyKnown) => {
                match self.store.sid_of(&eid) {
                    Some(sid) => {
                        if self.store.contains(sid) {
                            return AdmissionOutcome::StoredOutlier { sid };
                        }
                        return AdmissionOutcome::Rejected { reason: Rejection::Unverifiable };
                    },
                    None => {
                        return AdmissionOutcome::Rejected { reason: Rejection::Unverifiable };
                    },
                }
            },
            Err(StoreError::Full) => {
                return AdmissionOutcome::Rejected { reason: Rejection::Unverifiable };
            },
        };
        // the store grew: cached auth chains may be stale
        self.auth_cache.clear();
        proof {
            lemma_empty_cache_consistent(self.auth_cache.entries_view(), self.store@);
            self.lemma_wf_after_store_growth(*old(self));
            assert forall|s: u64| #[trigger]
                old(self).store@.dom().contains(s) implies self.store@.dom().contains(s)
                && self.store@[s] == old(self).store@[s] by {}
        }
        // authorize against the room's current state
        let current = self.current_state(room);
        let loaded: Vec<(u64, u64)> = match current {
            Some(h) => self.compressor.load_state(h),
            None => Vec::new(),
        };
        proof {
            if current is None {
                assert(pairs_map(loaded@) =~= Map::<u64, u64>::empty());
            }
            assert(pairs_map(loaded@) == room_state_map(*old(self), room));
            lemma_state_wf_monotone(old(self).store@, self.store@, pairs_map(loaded@));
        }
        if !crate::state_res::authorized_exec(&self.store, sid, &loaded) {
            return AdmissionOutcome::Rejected { reason: Rejection::Unauthorized };
        }
        // integrate: state events produce a new short state hash first
        let p_skey: Option<u64> = match self.store.get(sid) {
            Some(p) => p.skey,
            None => {
                proof {
                    assert(false);
                }
                None
            },
        };
        let new_state_hash: Option<u64> = match p_skey {
            Some(k) => {
                let new_full = state_set(&loaded, k, sid);
                proof {
                    assert(state_wf(self.store@, pairs_map(new_full@))) by {
                        assert(self.store@[sid].skey == Some(k));
                    }
                }
                let ghost mid = *self;
                match self.compressor.save_state(&new_full, current) {
                    Ok((h, _added, _removed)) => {
                        proof {
                            self.lemma_wf_after_compressor_growth(mid);
                            assert(diff_state(self.compressor@, h as int) == pairs_map(
                                new_full@,
                            ));
                        }
                        self.set_room_state(room, h);
                        Some(h)
                    },
                    Err(_) => {
                        return AdmissionOutcome::Rejected { reason: Rejection::Unverifiable };
                    },
                }
            },
            None => None,
        };
        self.counter.next_count();
        self.append_timeline(room, sid);
        AdmissionOutcome::Integrated { sid, new_state_hash }
    }

    /// Overwrites a room's current state with a resolved state set, as
    /// the administrative force-state operation does after fetching
    /// and resolving a remote room state. The caller must hold the
    /// room's guard.
    pub fn force_set_room_state(&mut self, room: u64, new_state: &Vec<(u64, u64)>) -> (r: Result<
        u64,
        CompressError,
    >)
        requires
            old(self).wf(),
            old(self).guard@.contains(room),
            pairs_sorted(new_state@),
            state_wf(old(self).store@, pairs_map(new_state@)),
        ensures
            final(self).wf(),
            final(self).store == old(self).store,
            final(self).keys == old(self).keys,
            final(self).guard == old(self).guard,
            final(self).timelines == old(self).timelines,
            match r {
                Ok(h) => h < final(self).compressor@.len() && final(self).spec_current_state(room)
                    == Some(h) && diff_state(final(self).compressor@, h as int) == pairs_map(
                    new_state@,
                ),
                Err(e) => final(self).room_state == old(self).room_state && e
                    == CompressError::Full && old(self).compressor@.len() >= STATE_CAP,
            },
            old(self).compressor@.len() < STATE_CAP ==> r is Ok,
    {
        let current = self.current_state(room);
        let ghost mid = *self;
        match self.compressor.save_state(new_state, current) {
            Ok((h, _added, _removed)) => {
                proof {
                    self.lemma_wf_after_compressor_growth(mid);
                }
                self.set_room_state(room, h);
                Ok(h)
            },
            Err(e) => {
                proof {
                    // the room's current hash is valid, so only the
                    // capacity bound can fail a save
                    assert(e != CompressError::UnknownHash);
                    assert(e == CompressError::Full);
                }
                Err(e)
            },
        }
    }

    /// Builds the signature-set failure key for an incoming event.
    fn signature_key(inc: &IncomingPdu) -> (r: Vec<u8>)
        ensures
            r@ == spec_signature_key(inc.origin@, inc.key_id@),
    {
        let mut out = crate::util::clone_bytes(&inc.origin);
        out.push(0xff);
        let ghost mid = out@;
        let mut i: usize = 0;
        while i < inc.key_id.len()
            invariant
                i <= inc.key_id@.len(),
                out@ =~= mid + inc.key_id@.take(i as int),
            decreases inc.key_id@.len() - i,
        {
            out.push(inc.key_id[i]);
            proof {
                assert(out@ =~= mid + inc.key_id@.take(i + 1));
            }
            i = i + 1;
        }
        proof {
            assert(out@ =~= spec_signature_key(inc.origin@, inc.key_id@));
        }
        out
    }

    /// Feeds an admission outcome to the rate limiter: a retryable
    /// outcome charges the event id, the signature-set key and the
    /// origin server; anything else leaves all three maps alone, so
    /// fetch failures are never held against later retries beyond
    /// their backoff window.
    pub fn note_outcome(&mut self, inc: &IncomingPdu, outcome: &AdmissionOutcome, now: u64)
        requires
            old(self).wf(),
        ensures
            final(self).wf(),
            final(self).store == old(self).store,
            final(self).keys == old(self).keys,
            final(self).compressor == old(self).compressor,
            final(self).guard == old(self).guard,
            final(self).counter == old(self).counter,
            final(self).timelines == old(self).timelines,
            final(self).room_state == old(self).room_state,
            final(self).auth_cache == old(self).auth_cache,
            !spec_retryable(*outcome) ==> final(self).bad_event_limiter == old(
                self,
            ).bad_event_limiter && final(self).bad_signature_limiter == old(
                self,
            ).bad_signature_limiter && final(self).bad_query_limiter == old(
                self,
            ).bad_query_limiter,
            spec_retryable(*outcome) ==> spec_recorded(
                old(self).bad_event_limiter@,
                final(self).bad_event_limiter@,
                inc.claimed_id@,
                now,
            ) && spec_recorded(
                old(self).bad_signature_limiter@,
                final(self).bad_signature_limiter@,
                spec_signature_key(inc.origin@, inc.key_id@),
                now,
            ) && spec_recorded(
                old(self).bad_query_limiter@,
                final(self).bad_query_limiter@,
                inc.origin@,
                now,
            ),
    {
        let retryable: bool = match outcome {
            AdmissionOutcome::MissingKeys { .. } => true,
            AdmissionOutcome::MissingEvents { .. } => true,
            AdmissionOutcome::Rejected { reason } => matches!(reason, Rejection::Unverifiable),
            _ => false,
        };
        if retryable {
            self.bad_event_limiter.record_failure(&inc.claimed_id, now);
            let sig_key = Self::signature_key(inc);
            self.bad_signature_limiter.record_failure(&sig_key, now);
            self.bad_query_limiter.record_failure(&inc.origin, now);
        }
    }

    /// Whether a resubmission of this event is due: the backoff
    /// windows of its event id, its signature set and its origin
    /// server have all passed.
    pub fn retry_permitted(&self, inc: &IncomingPdu, now: u64) -> (r: bool)
        requires
            self.wf(),
        ensures
            r == (spec_retry_due(self.bad_event_limiter@, inc.claimed_id@, now) && spec_retry_due(
                self.bad_signature_limiter@,
                spec_signature_key(inc.origin@, inc.key_id@),
                now,
            ) && spec_retry_due(self.bad_query_limiter@, inc.origin@, now)),
    {
        if !self.bad_event_limiter.retry_due(&inc.claimed_id, now) {
            return false;
        }
        let sig_key = Self::signature_key(inc);
        if !self.bad_signature_limiter.retry_due(&sig_key, now) {
            return false;
        }
        self.bad_query_limiter.retry_due(&inc.origin, now)
    }

    /// After the store grows by insertion, the engine stays
    /// well-formed: stored state sets mention only old events, which
    /// insertion preserves.
    proof fn lemma_wf_after_store_growth(&self, pre: Engine)
        requires
            pre.wf(),
            self.keys == pre.keys,
            self.compressor == pre.compressor,
            self.guard == pre.guard,
            self.bad_event_limiter == pre.bad_event_limiter,
            self.bad_signature_limiter == pre.bad_signature_limiter,
            self.bad_query_limiter == pre.bad_query_limiter,
            self.timelines == pre.timelines,
            self.room_state == pre.room_state,
            self.store.wf(),
            cache_consistent(self.auth_cache.entries_view(), self.store@),
            forall|s: u64| #[trigger]
                pre.store@.dom().contains(s) ==> self.store@.dom().contains(s) && self.store@[s]
                    == pre.store@[s],
        ensures
            self.wf(),
    {
        assert forall|room: u64| #[trigger]
            pairs_map(self.room_state_v()).dom().contains(room) implies pairs_map(
            self.room_state_v(),
        )[room] < self.compressor@.len() && state_wf(
            self.store@,
            diff_state(self.compressor@, pairs_map(self.room_state_v())[room] as int),
        ) by {
            lemma_state_wf_monotone(
                pre.store@,
                self.store@,
                diff_state(self.compressor@, pairs_map(self.room_state_v())[room] as int),
            );
        }
    }

    /// After the compressor grows by a save, the engine stays
    /// well-formed: old hashes reconstruct as before.
    proof fn lemma_wf_after_compressor_growth(&self, mid: Engine)
        requires
            mid.wf(),
            self.store == mid.store,
            self.auth_cache == mid.auth_cache,
            self.keys == mid.keys,
            self.guard == mid.guard,
            self.bad_event_limiter == mid.bad_event_limiter,
            self.bad_signature_limiter == mid.bad_signature_limiter,
            self.bad_query_limiter == mid.bad_query_limiter,
            self.timelines == mid.timelines,
            self.room_state == mid.room_state,
            self.compressor.wf(),
            mid.compressor@.len() <= self.compressor@.len(),
            self.compressor@.take(mid.compressor@.len() as int) =~= mid.compressor@,
        ensures
            self.wf(),
    {
        assert forall|room: u64| #[trigger]
            pairs_map(self.room_state_v()).dom().contains(room) implies pairs_map(
            self.room_state_v(),
        )[room] < self.compressor@.len() && state_wf(
            self.store@,
            diff_state(self.compressor@, pairs_map(self.room_state_v())[room] as int),
        ) by {
            crate::compress::lemma_diff_state_prefix(
                mid.compressor@,
                self.compressor@,
                pairs_map(self.room_state_v())[room] as int,
            );
        }
    }
}

/// One assembly step: a known state-bearing event takes its slot.
pub open spec fn spec_assemble_step(store: Map<u64, Pdu>, m: Map<u64, u64>, sid: u64) -> Map<
    u64,
    u64,
> {
    if store.dom().contains(sid) && store[sid].skey is Some {
        m.insert(store[sid].skey->Some_0, sid)
    } else {
        m
    }
}

/// The state set assembled from a list of events, later entries
/// winning their slot.
pub open spec fn spec_assemble(store: Map<u64, Pdu>, sids: Seq<u64>) -> Map<u64, u64>
    decreases sids.len(),
{
    if sids.len() == 0 {
        Map::empty()
    } else {
        spec_assemble_step(store, spec_assemble(store, sids.drop_last()), sids.last())
    }
}

/// Collects the (short state key, event) slots of the known
/// state-bearing events among `sids`: the assembly step of the
/// force-state flow, which turns freshly admitted outliers into the
/// state set handed to resolution. A later event wins its slot.
pub fn assemble_state_pairs(store: &EventStore, sids: &Vec<u64>) -> (r: Vec<(u64, u64)>)
    requires
        store.wf(),
    ensures
        pairs_sorted(r@),
        pairs_map(r@) == spec_assemble(store@, sids@),
        state_wf(store@, pairs_map(r@)),
{
    let mut acc: Vec<(u64, u64)> = Vec::new();
    let mut i: usize = 0;
    proof {
        assert(sids@.take(0) =~= Seq::<u64>::empty());
        assert(pairs_map(acc@) =~= Map::<u64, u64>::empty());
    }
    while i < sids.len()
        invariant
            i <= sids@.len(),
            store.wf(),
            pairs_sorted(acc@),
            pairs_map(acc@) == spec_assemble(store@, sids@.take(i as int)),
            state_wf(store@, pairs_map(acc@)),
        decreases sids@.len() - i,
    {
        proof {
            assert(sids@.take(i + 1).drop_last() =~= sids@.take(i as int));
            assert(sids@.take(i + 1).last() == sids@[i as int]);
        }
        let sid = sids[i];
        match store.get(sid) {
            Some(p) => {
                match p.skey {
                    Some(k) => {
                        let next = state_set(&acc, k, sid);
                        proof {
                            assert(state_wf(store@, pairs_map(next@))) by {
                                assert(store@[sid].skey == Some(k));
                            }
                        }
                        acc = next;
                    },
                    None => {},
                }
            },
            None => {},
        }
        i = i + 1;
    }
    proof {
        assert(sids@.take(sids@.len() as int) =~= sids@);
    }
    acc
}

/// With unique rooms, the chosen index for a room is the given one.
proof fn lemma_unique_room(rooms: Seq<u64>, w: int, room: u64)
    requires
        0 <= w < rooms.len(),
        rooms[w] == room,
        forall|i: int, j: int|
            0 <= i < j < rooms.len() ==> #[trigger] rooms[i] != #[trigger] rooms[j],
    ensures
        (choose|i: int| 0 <= i < rooms.len() && #[trigger] rooms[i] == room) == w,
{
    let i = choose|i: int| 0 <= i < rooms.len() && #[trigger] rooms[i] == room;
    if i != w {
        if i < w {
            assert(rooms[i] != rooms[w]);
        } else {
            assert(rooms[w] != rooms[i]);
        }
    }
}

} // verus!
