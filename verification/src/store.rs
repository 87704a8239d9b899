//! The event store: known events keyed by interned short ids, plus the
//! interning tables for event ids, room ids and state keys.

use vstd::prelude::*;
use vstd::string::StringSliceAdditionalSpecFns;
use std::collections::HashMap;

use crate::event::{Content, Pdu, PowerContent, is_create, is_power, is_join_rules, is_member, power_users_unique};
use crate::shortid::{IdTable, ShortKeyTable};
use crate::util::bytes_eq;

verus! {

broadcast use vstd::std_specs::hash::group_hash_axioms;

/// Hard cap on every interning table, so that short ids stay well below
/// the integer limit whatever the platform's pointer width.
pub const TABLE_CAP: u64 = 0xFFFF_FFFF;

#[derive(Clone, Copy, PartialEq, Eq, Structural, Debug)]
pub enum StoreError {
    /// An interning table reached its capacity.
    Full,
    /// The event is already stored under this id.
    AlreadyKnown,
    /// The content does not fit the event type or the state key.
    MalformedContent,
}

/// A not-yet-interned event, as validation hands it over: every
/// reference still under its full id.
pub struct NewEvent {
    pub event_id: Vec<u8>,
    pub room_id: Vec<u8>,
    pub sender: Vec<u8>,
    pub etype: Vec<u8>,
    pub state_key: Option<Vec<u8>>,
    pub content: Content,
    pub prev_ids: Vec<Vec<u8>>,
    pub auth_ids: Vec<Vec<u8>>,
    pub depth: u64,
    pub ts: u64,
}

pub open spec fn create_type_bytes() -> Seq<u8> {
    "m.room.create".spec_bytes()
}

pub open spec fn power_type_bytes() -> Seq<u8> {
    "m.room.power_levels".spec_bytes()
}

pub open spec fn join_rules_type_bytes() -> Seq<u8> {
    "m.room.join_rules".spec_bytes()
}

pub open spec fn member_type_bytes() -> Seq<u8> {
    "m.room.member".spec_bytes()
}

pub fn make_create_type() -> (v: Vec<u8>)
    ensures
        v@ == create_type_bytes(),
{
    vstd::slice::slice_to_vec("m.room.create".as_bytes())
}

pub fn make_power_type() -> (v: Vec<u8>)
    ensures
        v@ == power_type_bytes(),
{
    vstd::slice::slice_to_vec("m.room.power_levels".as_bytes())
}

pub fn make_join_rules_type() -> (v: Vec<u8>)
    ensures
        v@ == join_rules_type_bytes(),
{
    vstd::slice::slice_to_vec("m.room.join_rules".as_bytes())
}

pub fn make_member_type() -> (v: Vec<u8>)
    ensures
        v@ == member_type_bytes(),
{
    vstd::slice::slice_to_vec("m.room.member".as_bytes())
}

/// The event carries the empty state key.
pub open spec fn empty_state_key(p: Pdu) -> bool {
    p.state_key is Some && p.state_key->Some_0@ =~= Seq::<u8>::empty()
}

/// The store has room to intern this event's room, state key, its own
/// id and every reference it carries.
pub open spec fn spec_insert_headroom(s: EventStore, ev: NewEvent) -> bool {
    &&& s.id_seq().len() + ev.auth_ids@.len() + ev.prev_ids@.len() + 1 <= TABLE_CAP
    &&& s.room_seq().len() < TABLE_CAP
    &&& s.key_seq().len() < TABLE_CAP
}

/// The event named by `id` is interned and stored.
pub open spec fn spec_event_stored(s: EventStore, id: Seq<u8>) -> bool {
    exists|sid: u64|
        sid < s.id_seq().len() && #[trigger] s.id_seq()[sid as int] == id && s@.dom().contains(sid)
}

/// Both events are of the same state-slot-pinned kind: room creation,
/// power levels, or join rules.
pub open spec fn same_special_kind(a: Pdu, b: Pdu) -> bool {
    ||| (is_create(a) && is_create(b))
    ||| (is_power(a) && is_power(b))
    ||| (is_join_rules(a) && is_join_rules(b))
}

pub struct EventStore {
    ids: IdTable,
    rooms: IdTable,
    keys: ShortKeyTable,
    events: HashMap<u64, Pdu>,
}

impl EventStore {
    /// The known events, by short event id.
    pub closed spec fn view(&self) -> Map<u64, Pdu> {
        self.events@
    }

    /// Every event id interned so far, by short event id.
    pub closed spec fn id_seq(&self) -> Seq<Seq<u8>> {
        self.ids@
    }

    /// Every room id interned so far, by short room id.
    pub closed spec fn room_seq(&self) -> Seq<Seq<u8>> {
        self.rooms@
    }

    /// Every (event type, state key) pair interned so far, by short
    /// state key.
    pub closed spec fn key_seq(&self) -> Seq<(Seq<u8>, Seq<u8>)> {
        self.keys@
    }

    pub open spec fn wf(&self) -> bool {
        &&& forall|s: u64| #[trigger]
            self@.dom().contains(s) ==> self@[s].sid == s && s < self.id_seq().len()
                && self@[s].event_id@ == self.id_seq()[s as int] && self@[s].room
                < self.room_seq().len()
        &&& forall|s: u64| #[trigger]
            self@.dom().contains(s) ==> match self@[s].skey {
                Some(k) => k < self.key_seq().len() && self@[s].state_key is Some
                    && self.key_seq()[k as int] == (
                    self@[s].etype@,
                    self@[s].state_key->Some_0@,
                ),
                None => self@[s].state_key is None,
            }
        &&& forall|s: u64| #[trigger]
            self@.dom().contains(s) ==> (is_create(self@[s]) ==> self@[s].etype@
                == create_type_bytes() && empty_state_key(self@[s])) && (is_power(self@[s])
                ==> self@[s].etype@ == power_type_bytes() && empty_state_key(self@[s])) && (
            is_join_rules(self@[s]) ==> self@[s].etype@ == join_rules_type_bytes()
                && empty_state_key(self@[s])) && (is_member(self@[s]) ==> self@[s].etype@
                == member_type_bytes() && self@[s].state_key is Some)
        &&& forall|s: u64| #[trigger]
            self@.dom().contains(s) ==> match self@[s].content {
                Content::Power(pc) => power_users_unique(pc),
                _ => true,
            }
        &&& forall|s: u64| #[trigger]
            self@.dom().contains(s) ==> (forall|i: int|
                0 <= i < self@[s].auth_events@.len() ==> #[trigger] self@[s].auth_events@[i]
                    < self.id_seq().len()) && (forall|i: int|
                0 <= i < self@[s].prev_events@.len() ==> #[trigger] self@[s].prev_events@[i]
                    < self.id_seq().len())
        &&& self.tables_wf()
    }

    /// The interning tables never hold an entry twice.
    pub closed spec fn tables_wf(&self) -> bool {
        self.ids.wf() && self.rooms.wf() && self.keys.wf()
    }

    /// Two known events of the same pinned kind (creation, power levels,
    /// join rules) occupy the same state slot: their short state keys
    /// agree.
    pub proof fn lemma_special_kind_skey(&self, a: u64, b: u64)
        requires
            self.wf(),
            self@.dom().contains(a),
            self@.dom().contains(b),
            same_special_kind(self@[a], self@[b]),
        ensures
            self@[a].skey is Some,
            self@[a].skey == self@[b].skey,
    {
        let pa = self@[a];
        let pb = self@[b];
        assert(pa.state_key is Some);
        assert(pb.state_key is Some);
        assert(pa.skey is Some);
        assert(pb.skey is Some);
        let ka = pa.skey->Some_0;
        let kb = pb.skey->Some_0;
        assert(self.key_seq()[ka as int] == (pa.etype@, pa.state_key->Some_0@));
        assert(self.key_seq()[kb as int] == (pb.etype@, pb.state_key->Some_0@));
        assert(pa.etype@ == pb.etype@);
        assert(pa.state_key->Some_0@ =~= Seq::<u8>::empty());
        assert(pb.state_key->Some_0@ =~= Seq::<u8>::empty());
        assert(self.key_seq()[ka as int] =~= self.key_seq()[kb as int]);
        if ka != kb {
            if ka < kb {
                assert(self.key_seq()[ka as int] !== self.key_seq()[kb as int]);
            } else {
                assert(self.key_seq()[kb as int] !== self.key_seq()[ka as int]);
            }
            assert(false);
        }
    }

    /// Distinct known events carry distinct event ids.
    pub proof fn lemma_event_ids_injective(&self)
        requires
            self.wf(),
        ensures
            forall|a: u64, b: u64|
                #![trigger self@[a].event_id, self@[b].event_id]
                self@.dom().contains(a) && self@.dom().contains(b) && a != b ==> self@[a].event_id@
                    !== self@[b].event_id@,
    {
        assert forall|a: u64, b: u64|
            self@.dom().contains(a) && self@.dom().contains(b) && a != b implies #[trigger] self@[
        a].event_id@ !== #[trigger] self@[b].event_id@ by {
            if a < b {
                self.lemma_id_seq_distinct(a as int, b as int);
            } else {
                self.lemma_id_seq_distinct(b as int, a as int);
            }
        }
    }

    /// Only finitely many events are known.
    pub proof fn lemma_dom_finite(&self)
        ensures
            self@.dom().finite(),
    {
    }

    /// Distinct short event ids stand for distinct event ids.
    pub proof fn lemma_id_seq_distinct(&self, i: int, j: int)
        requires
            self.wf(),
            0 <= i < j < self.id_seq().len(),
        ensures
            self.id_seq()[i] !== self.id_seq()[j],
    {
    }

    pub fn new() -> (s: Self)
        ensures
            s.wf(),
            s@ =~= Map::<u64, Pdu>::empty(),
            s.id_seq().len() == 0,
            s.room_seq().len() == 0,
            s.key_seq().len() == 0,
    {
        EventStore {
            ids: IdTable::new(),
            rooms: IdTable::new(),
            keys: ShortKeyTable::new(),
            events: HashMap::new(),
        }
    }

    /// The stored event under a short id, if the event is known.
    pub fn get(&self, sid: u64) -> (r: Option<&Pdu>)
        ensures
            match r {
                Some(p) => self@.dom().contains(sid) && *p == self@[sid],
                None => !self@.dom().contains(sid),
            },
    {
        self.events.get(&sid)
    }

    pub fn contains(&self, sid: u64) -> (r: bool)
        ensures
            r == self@.dom().contains(sid),
    {
        self.events.contains_key(&sid)
    }

    pub fn event_count(&self) -> (n: usize)
        ensures
            n == self@.len(),
    {
        self.events.len()
    }

    /// The short id already interned for an event id, if any.
    pub fn sid_of(&self, event_id: &Vec<u8>) -> (r: Option<u64>)
        requires
            self.wf(),
        ensures
            match r {
                Some(id) => id < self.id_seq().len() && self.id_seq()[id as int] == event_id@,
                None => forall|i: int|
                    0 <= i < self.id_seq().len() ==> self.id_seq()[i] !== event_id@,
            },
    {
        self.ids.lookup(event_id)
    }

    /// The full event id a short id stands for.
    pub fn event_id_at(&self, sid: u64) -> (r: &Vec<u8>)
        requires
            sid < self.id_seq().len(),
        ensures
            r@ == self.id_seq()[sid as int],
    {
        self.ids.id_at(sid)
    }

    /// Interns an event id, growing the table if the id is new.
    pub fn intern_event_id(&mut self, event_id: &Vec<u8>) -> (r: Result<u64, StoreError>)
        requires
            old(self).wf(),
        ensures
            final(self).wf(),
            final(self)@ == old(self)@,
            final(self).room_seq() == old(self).room_seq(),
            final(self).key_seq() == old(self).key_seq(),
            old(self).id_seq().len() <= final(self).id_seq().len(),
            final(self).id_seq().len() <= old(self).id_seq().len() + 1,
            final(self).id_seq().take(old(self).id_seq().len() as int) =~= old(self).id_seq(),
            old(self).id_seq().len() < TABLE_CAP ==> r is Ok,
            match r {
                Ok(id) => id < final(self).id_seq().len() && final(self).id_seq()[id as int]
                    == event_id@,
                Err(e) => e == StoreError::Full && final(self).id_seq() == old(self).id_seq()
                    && old(self).id_seq().len() >= TABLE_CAP,
            },
    {
        if self.ids.len() as u64 >= TABLE_CAP {
            proof {
                assert(self.id_seq().take(old(self).id_seq().len() as int) =~= old(self).id_seq());
            }
            return Err(StoreError::Full);
        }
        Ok(self.ids.get_or_create(event_id))
    }

    /// Interns a room id, growing the table if the id is new.
    pub fn intern_room_id(&mut self, room_id: &Vec<u8>) -> (r: Result<u64, StoreError>)
        requires
            old(self).wf(),
        ensures
            final(self).wf(),
            final(self)@ == old(self)@,
            final(self).id_seq() == old(self).id_seq(),
            final(self).key_seq() == old(self).key_seq(),
            old(self).room_seq().len() <= final(self).room_seq().len(),
            final(self).room_seq().take(old(self).room_seq().len() as int) =~= old(self).room_seq(),
            old(self).room_seq().len() < TABLE_CAP ==> r is Ok,
            match r {
                Ok(id) => id < final(self).room_seq().len() && final(self).room_seq()[id as int]
                    == room_id@,
                Err(e) => e == StoreError::Full && final(self).room_seq() == old(self).room_seq()
                    && old(self).room_seq().len() >= TABLE_CAP,
            },
    {
        if self.rooms.len() as u64 >= TABLE_CAP {
            proof {
                assert(self.room_seq().take(old(self).room_seq().len() as int) =~= old(self).room_seq());
            }
            return Err(StoreError::Full);
        }
        Ok(self.rooms.get_or_create(room_id))
    }

    /// Stores a new event, interning its ids, its room and its state
    /// key. Fails on an event already known, on content that does not
    /// fit its event type, and on a full table; the set of known events
    /// is unchanged on failure.
    /// Interns a list of event ids.
    #[verifier::loop_isolation(false)]
    fn intern_id_list(&mut self, ids_in: &Vec<Vec<u8>>) -> (r: Result<Vec<u64>, StoreError>)
        requires
            old(self).wf(),
        ensures
            final(self).wf(),
            final(self)@ == old(self)@,
            final(self).room_seq() == old(self).room_seq(),
            final(self).key_seq() == old(self).key_seq(),
            old(self).id_seq().len() <= final(self).id_seq().len(),
            final(self).id_seq().len() <= old(self).id_seq().len() + ids_in@.len(),
            final(self).id_seq().take(old(self).id_seq().len() as int) =~= old(self).id_seq(),
            match r {
                Ok(v) => v@.len() == ids_in@.len() && forall|j: int|
                    0 <= j < v@.len() ==> #[trigger] v@[j] < final(self).id_seq().len()
                        && final(self).id_seq()[v@[j] as int] == ids_in@[j]@,
                Err(e) => e == StoreError::Full && old(self).id_seq().len() + ids_in@.len()
                    > TABLE_CAP,
            },
    {
        let mut out: Vec<u64> = Vec::new();
        let mut i: usize = 0;
        proof {
            lemma_take_full(self.id_seq());
        }
        while i < ids_in.len()
            invariant
                self.wf(),
                i <= ids_in@.len(),
                out@.len() == i,
                self@ == old(self)@,
                self.room_seq() == old(self).room_seq(),
                self.key_seq() == old(self).key_seq(),
                old(self).id_seq().len() <= self.id_seq().len(),
                self.id_seq().len() <= old(self).id_seq().len() + i,
                self.id_seq().take(old(self).id_seq().len() as int) =~= old(self).id_seq(),
                forall|j: int|
                    0 <= j < i ==> #[trigger] out@[j] < self.id_seq().len()
                        && self.id_seq()[out@[j] as int] == ids_in@[j]@,
            decreases ids_in@.len() - i,
        {
            let ghost pre = *self;
            let a = match self.intern_event_id(&ids_in[i]) {
                Ok(r) => r,
                Err(e) => {
                    return Err(e);
                },
            };
            proof {
                lemma_prefix_chain(old(self).id_seq(), pre.id_seq(), self.id_seq());
                assert forall|j: int| 0 <= j < i implies #[trigger] out@[j] < self.id_seq().len()
                    && self.id_seq()[out@[j] as int] == ids_in@[j]@ by {
                    assert(out@[j] < pre.id_seq().len());
                    assert(self.id_seq().take(pre.id_seq().len() as int)[out@[j] as int]
                        == self.id_seq()[out@[j] as int]);
                }
            }
            out.push(a);
            i = i + 1;
        }
        Ok(out)
    }

    /// Stores a new event, interning its ids, its room and its state
    /// key. Fails on an event already known, on content that does not
    /// fit its event type, and on a full table; the set of known events
    /// is unchanged on failure.
    #[verifier::loop_isolation(false)]
    pub fn insert(&mut self, ev: NewEvent) -> (r: Result<u64, StoreError>)
        requires
            old(self).wf(),
        ensures
            final(self).wf(),
            old(self).id_seq().len() <= final(self).id_seq().len(),
            final(self).id_seq().take(old(self).id_seq().len() as int) =~= old(self).id_seq(),
            old(self).room_seq().len() <= final(self).room_seq().len(),
            final(self).room_seq().take(old(self).room_seq().len() as int) =~= old(self).room_seq(),
            old(self).key_seq().len() <= final(self).key_seq().len(),
            final(self).key_seq().take(old(self).key_seq().len() as int) =~= old(self).key_seq(),
            match r {
                Ok(sid) => {
                    &&& !old(self)@.dom().contains(sid)
                    &&& final(self)@.dom() =~= old(self)@.dom().insert(sid)
                    &&& forall|s: u64|
                        s != sid && old(self)@.dom().contains(s) ==> final(self)@[s]
                            == old(self)@[s]
                    &&& sid < final(self).id_seq().len()
                    &&& final(self).id_seq()[sid as int] == ev.event_id@
                    &&& final(self)@[sid].sid == sid
                    &&& pdu_matches(final(self)@[sid], ev, final(self).id_seq(),
                        final(self).room_seq())
                },
                Err(e) => {
                    &&& final(self)@ == old(self)@
                    &&& (e == StoreError::MalformedContent <==> !content_shape_ok(ev))
                    &&& (e == StoreError::AlreadyKnown ==> spec_event_stored(
                        *old(self),
                        ev.event_id@,
                    ))
                    &&& (e == StoreError::Full ==> old(self).id_seq().len() + ev.auth_ids@.len()
                        + ev.prev_ids@.len() + 1 > TABLE_CAP || old(self).room_seq().len()
                        >= TABLE_CAP || old(self).key_seq().len() >= TABLE_CAP)
                },
            },
            content_shape_ok(ev) && !spec_event_stored(*old(self), ev.event_id@)
                && spec_insert_headroom(*old(self), ev) ==> r is Ok,
    {
        proof {
            lemma_take_full(self.id_seq());
            lemma_take_full(self.room_seq());
            lemma_take_full(self.key_seq());
        }
        if !content_shape_check(&ev) {
            return Err(StoreError::MalformedContent);
        }
        let room = match self.intern_room_id(&ev.room_id) {
            Ok(r) => r,
            Err(e) => {
                return Err(e);
            },
        };
        let ghost st1 = *self;
        let sid = match self.intern_event_id(&ev.event_id) {
            Ok(r) => r,
            Err(e) => {
                return Err(e);
            },
        };
        if self.events.contains_key(&sid) {
            proof {
                // the stored event under this sid carried this id before
                assert(self.id_seq().take(old(self).id_seq().len() as int)[sid as int]
                    == self.id_seq()[sid as int]);
                assert(old(self).id_seq()[sid as int] == ev.event_id@);
                assert(spec_event_stored(*old(self), ev.event_id@));
            }
            return Err(StoreError::AlreadyKnown);
        }
        let skey: Option<u64> = match &ev.state_key {
            Some(sk) => {
                if self.keys.len() as u64 >= TABLE_CAP {
                    return Err(StoreError::Full);
                }
                Some(self.keys.get_or_create(&ev.etype, sk))
            },
            None => None,
        };
        let ghost st2 = *self;
        let auth_events = match self.intern_id_list(&ev.auth_ids) {
            Ok(v) => v,
            Err(e) => {
                proof {
                    lemma_prefix_chain(old(self).id_seq(), st2.id_seq(), self.id_seq());
                }
                return Err(e);
            },
        };
        let ghost st3 = *self;
        let prev_events = match self.intern_id_list(&ev.prev_ids) {
            Ok(v) => v,
            Err(e) => {
                proof {
                    lemma_prefix_chain(old(self).id_seq(), st3.id_seq(), self.id_seq());
                    lemma_prefix_chain(old(self).id_seq(), st2.id_seq(), st3.id_seq());
                }
                return Err(e);
            },
        };
        proof {
            lemma_prefix_chain(st2.id_seq(), st3.id_seq(), self.id_seq());
            lemma_prefix_chain(old(self).id_seq(), st2.id_seq(), self.id_seq());
            // the short event id interned for this event still maps to it
            assert(sid < st2.id_seq().len());
            assert(self.id_seq().take(st2.id_seq().len() as int)[sid as int] == self.id_seq()[
                sid as int]);
            // the auth facts survive the prev interning
            assert forall|j: int| 0 <= j < auth_events@.len() implies #[trigger] auth_events@[j]
                < self.id_seq().len() && self.id_seq()[auth_events@[j] as int]
                == ev.auth_ids@[j]@ by {
                assert(auth_events@[j] < st3.id_seq().len());
                assert(self.id_seq().take(st3.id_seq().len() as int)[auth_events@[j] as int]
                    == self.id_seq()[auth_events@[j] as int]);
            }
        }
        let pdu = Pdu {
            sid,
            event_id: ev.event_id,
            room,
            sender: ev.sender,
            etype: ev.etype,
            state_key: ev.state_key,
            skey,
            content: ev.content,
            prev_events,
            auth_events,
            depth: ev.depth,
            ts: ev.ts,
        };
        self.events.insert(sid, pdu);
        proof {
            assert forall|s: u64| #[trigger] self@.dom().contains(s) && s != sid implies self@[s]
                == old(self)@[s] && old(self)@.dom().contains(s) by {}
            assert forall|s: u64| #[trigger]
                self@.dom().contains(s) && s != sid implies s < self.id_seq().len() && self@[
                s].event_id@ == self.id_seq()[s as int] by {
                assert(self.id_seq().take(old(self).id_seq().len() as int)[s as int]
                    == self.id_seq()[s as int]);
            }
            assert(self@.dom() =~= old(self)@.dom().insert(sid));
        }
        Ok(sid)
    }
}

/// Chained prefix stability: if `b` extends `a` and `c` extends `b`,
/// then `c` extends `a`.
pub proof fn lemma_prefix_chain<T>(a: Seq<T>, b: Seq<T>, c: Seq<T>)
    requires
        a.len() <= b.len() <= c.len(),
        b.take(a.len() as int) =~= a,
        c.take(b.len() as int) =~= b,
    ensures
        c.take(a.len() as int) =~= a,
{
    assert forall|i: int| 0 <= i < a.len() implies c.take(a.len() as int)[i] == a[i] by {
        assert(c.take(b.len() as int)[i] == c[i]);
        assert(b.take(a.len() as int)[i] == b[i]);
    }
}

/// Taking a sequence whole changes nothing.
pub proof fn lemma_take_full<T>(s: Seq<T>)
    ensures
        s.take(s.len() as int) =~= s,
{
}

/// The stored event carries exactly the fields of the incoming one, with
/// every reference interned.
pub open spec fn pdu_matches(p: Pdu, ev: NewEvent, ids: Seq<Seq<u8>>, rooms: Seq<Seq<u8>>) -> bool {
    &&& p.event_id@ == ev.event_id@
    &&& p.sender@ == ev.sender@
    &&& p.etype@ == ev.etype@
    &&& match (p.state_key, ev.state_key) {
        (Some(a), Some(b)) => a@ == b@,
        (None, None) => true,
        _ => false,
    }
    &&& p.content == ev.content
    &&& p.depth == ev.depth
    &&& p.ts == ev.ts
    &&& p.room < rooms.len() && rooms[p.room as int] == ev.room_id@
    &&& p.auth_events@.len() == ev.auth_ids@.len()
    &&& forall|i: int|
        0 <= i < p.auth_events@.len() ==> #[trigger] p.auth_events@[i] < ids.len() && ids[
        p.auth_events@[i] as int] == ev.auth_ids@[i]@
    &&& p.prev_events@.len() == ev.prev_ids@.len()
    &&& forall|i: int|
        0 <= i < p.prev_events@.len() ==> #[trigger] p.prev_events@[i] < ids.len() && ids[
        p.prev_events@[i] as int] == ev.prev_ids@[i]@
}

/// The content fits the event type and the state key: the kinds the
/// authorization rules read are pinned to their canonical type string
/// and state key, and a power table names each user once.
pub open spec fn content_shape_ok(ev: NewEvent) -> bool {
    match ev.content {
        Content::Create { .. } => ev.etype@ == create_type_bytes() && ev.state_key is Some
            && ev.state_key->Some_0@ =~= Seq::<u8>::empty(),
        Content::Power(pc) => ev.etype@ == power_type_bytes() && ev.state_key is Some
            && ev.state_key->Some_0@ =~= Seq::<u8>::empty() && power_users_unique(pc),
        Content::JoinRules { .. } => ev.etype@ == join_rules_type_bytes() && ev.state_key is Some
            && ev.state_key->Some_0@ =~= Seq::<u8>::empty(),
        Content::Member { .. } => ev.etype@ == member_type_bytes() && ev.state_key is Some,
        Content::Other => true,
    }
}

/// Decides `content_shape_ok`.
pub fn content_shape_check(ev: &NewEvent) -> (r: bool)
    ensures
        r == content_shape_ok(*ev),
{
    match &ev.content {
        Content::Create { .. } => bytes_eq(&ev.etype, &make_create_type()) && state_key_empty(
            &ev.state_key,
        ),
        Content::Power(pc) => bytes_eq(&ev.etype, &make_power_type()) && state_key_empty(
            &ev.state_key,
        ) && power_users_distinct(pc),
        Content::JoinRules { .. } => bytes_eq(&ev.etype, &make_join_rules_type())
            && state_key_empty(&ev.state_key),
        Content::Member { .. } => bytes_eq(&ev.etype, &make_member_type())
            && ev.state_key.is_some(),
        Content::Other => true,
    }
}

fn state_key_empty(sk: &Option<Vec<u8>>) -> (r: bool)
    ensures
        r == (sk is Some && sk->Some_0@ =~= Seq::<u8>::empty()),
{
    match sk {
        Some(v) => v.len() == 0,
        None => false,
    }
}

/// Decides `power_users_unique`.
pub fn power_users_distinct(pc: &PowerContent) -> (r: bool)
    ensures
        r == power_users_unique(*pc),
{
    let mut i: usize = 0;
    while i < pc.users.len()
        invariant
            i <= pc.users@.len(),
            forall|a: int, b: int|
                0 <= a < b < pc.users@.len() && a < i ==> (#[trigger] pc.users@[a]).0@ !== (
                #[trigger] pc.users@[b]).0@,
        decreases pc.users@.len() - i,
    {
        let mut j: usize = i + 1;
        while j < pc.users.len()
            invariant
                i < j ==> i < pc.users@.len(),
                i + 1 <= j <= pc.users@.len(),
                forall|b: int|
                    i < b < j ==> (#[trigger] pc.users@[b]).0@ !== pc.users@[i as int].0@,
            decreases pc.users@.len() - j,
        {
            if bytes_eq(&pc.users[i].0, &pc.users[j].0) {
                return false;
            }
            j = j + 1;
        }
        i = i + 1;
    }
    true
}

} // verus!
