//! The rate limiter: per-key failure records with exponential backoff.
//!
//! Keys are byte strings — an event id, a server name, or the
//! canonical encoding of a signature-id set. A validation failure
//! records the time and bumps the count; a retry is admitted only once
//! the backoff window computed from the count has passed. The state is
//! in-memory only; losing it costs at most one early retry burst.

use vstd::prelude::*;

use crate::util::bytes_eq;

verus! {

/// Shortest backoff window, in seconds.
pub const BACKOFF_BASE_SECS: u64 = 30;

/// Longest backoff window, in seconds.
pub const BACKOFF_MAX_SECS: u64 = 86400;

/// The backoff window after `count` failures: it doubles with every
/// failure until it saturates at the maximum.
pub open spec fn spec_backoff(count: nat) -> u64
    decreases count,
{
    if count == 0 {
        BACKOFF_BASE_SECS
    } else {
        let p = spec_backoff((count - 1) as nat);
        if 2 * p >= BACKOFF_MAX_SECS {
            BACKOFF_MAX_SECS
        } else {
            (2 * p) as u64
        }
    }
}

proof fn lemma_backoff_bounded(count: nat)
    ensures
        spec_backoff(count) <= BACKOFF_MAX_SECS,
    decreases count,
{
    if count > 0 {
        lemma_backoff_bounded((count - 1) as nat);
    }
}

/// Computes the backoff window after `count` failures.
pub fn backoff_secs(count: u32) -> (r: u64)
    ensures
        r == spec_backoff(count as nat),
{
    let mut w: u64 = BACKOFF_BASE_SECS;
    let mut i: u32 = 0;
    while i < count
        invariant
            i <= count,
            w == spec_backoff(i as nat),
        decreases count - i,
    {
        proof {
            lemma_backoff_bounded(i as nat);
        }
        if w >= BACKOFF_MAX_SECS / 2 {
            w = BACKOFF_MAX_SECS;
        } else {
            w = 2 * w;
        }
        proof {
            if 2 * spec_backoff(i as nat) >= BACKOFF_MAX_SECS {
                assert(w == BACKOFF_MAX_SECS);
            }
        }
        i = i + 1;
    }
    w
}

/// One failure record: when the key last failed, and how often so far.
#[derive(Clone, Copy, PartialEq, Eq, Structural, Debug)]
pub struct FailureRecord {
    pub last_failure: u64,
    pub count: u32,
}

/// A failure map for one class of keys.
pub struct FailureMap {
    entries: Vec<(Vec<u8>, FailureRecord)>,
}

impl FailureMap {
    /// The recorded failures, keyed by the byte-string key.
    pub closed spec fn view(&self) -> Map<Seq<u8>, FailureRecord> {
        Map::new(
            |k: Seq<u8>| exists|i: int| 0 <= i < self.entries@.len() && (#[trigger] self.entries@[i]).0@ == k,
            |k: Seq<u8>| {
                let i = choose|i: int|
                    0 <= i < self.entries@.len() && (#[trigger] self.entries@[i]).0@ == k;
                self.entries@[i].1
            },
        )
    }

    /// Keys are recorded at most once.
    pub closed spec fn wf(&self) -> bool {
        forall|i: int, j: int|
            0 <= i < j < self.entries@.len() ==> (#[trigger] self.entries@[i]).0@ !== (
            #[trigger] self.entries@[j]).0@
    }

    pub fn new() -> (m: Self)
        ensures
            m.wf(),
            m@ =~= Map::<Seq<u8>, FailureRecord>::empty(),
    {
        let m = FailureMap { entries: Vec::new() };
        proof {
            assert forall|k: Seq<u8>| !(#[trigger] m@.dom().contains(k)) by {}
        }
        m
    }

    /// The failure record for a key, if one exists.
    pub fn get(&self, key: &Vec<u8>) -> (r: Option<FailureRecord>)
        requires
            self.wf(),
        ensures
            match r {
                Some(rec) => self@.dom().contains(key@) && self@[key@] == rec,
                None => !self@.dom().contains(key@),
            },
    {
        let mut i: usize = 0;
        while i < self.entries.len()
            invariant
                i <= self.entries@.len(),
                self.wf(),
                forall|j: int| 0 <= j < i ==> (#[trigger] self.entries@[j]).0@ !== key@,
            decreases self.entries@.len() - i,
        {
            if bytes_eq(&self.entries[i].0, key) {
                proof {
                    let w = choose|w: int|
                        0 <= w < self.entries@.len() && (#[trigger] self.entries@[w]).0@ == key@;
                    if w != i {
                        assert(self.entries@[w].0@ !== self.entries@[i as int].0@);
                    }
                }
                return Some(self.entries[i].1);
            }
            i = i + 1;
        }
        proof {
            if self@.dom().contains(key@) {
                let w = choose|w: int|
                    0 <= w < self.entries@.len() && (#[trigger] self.entries@[w]).0@ == key@;
                assert(self.entries@[w].0@ !== key@);
            }
        }
        None
    }

    /// Records a failure at time `now`: the count rises by one
    /// (saturating) and the timestamp is replaced.
    pub fn record_failure(&mut self, key: &Vec<u8>, now: u64)
        requires
            old(self).wf(),
        ensures
            final(self).wf(),
            spec_recorded(old(self)@, final(self)@, key@, now),
    {
        let mut i: usize = 0;
        while i < self.entries.len()
            invariant
                i <= self.entries@.len(),
                self.wf(),
                *self == *old(self),
                forall|j: int| 0 <= j < i ==> (#[trigger] self.entries@[j]).0@ !== key@,
            decreases self.entries@.len() - i,
        {
            if bytes_eq(&self.entries[i].0, key) {
                let old_rec = self.entries[i].1;
                let new_count: u32 = if old_rec.count == u32::MAX {
                    u32::MAX
                } else {
                    old_rec.count + 1
                };
                let pair = (self.entries[i].0.clone(), FailureRecord {
                    last_failure: now,
                    count: new_count,
                });
                proof {
                    let w = choose|w: int|
                        0 <= w < self.entries@.len() && (#[trigger] self.entries@[w]).0@ == key@;
                    if w != i {
                        assert(self.entries@[w].0@ !== self.entries@[i as int].0@);
                    }
                }
                self.entries[i] = pair;
                proof {
                    lemma_entry_views(old(self).entries@, self.entries@, i as int, key@);
                    assert(old(self)@.dom().contains(key@)) by {
                        assert(old(self).entries@[i as int].0@ == key@);
                    }
                    assert forall|k: Seq<u8>| #[trigger] self@.dom().contains(k) <==> old(
                        self,
                    )@.dom().contains(k) by {
                        assert(has_key(old(self).entries@, k) <==> has_key(self.entries@, k));
                        assert(self@.dom().contains(k) == has_key(self.entries@, k));
                        assert(old(self)@.dom().contains(k) == has_key(old(self).entries@, k));
                    }
                    assert(self@.dom() =~= old(self)@.dom().insert(key@));
                    lemma_lookup_value(self.entries@, i as int, key@);
                    assert(self@[key@] == self.entries@[i as int].1);
                    assert forall|k: Seq<u8>|
                        #![trigger self@[k]]
                        old(self)@.dom().contains(k) && k !== key@ implies self@[k] == old(
                        self,
                    )@[k] by {
                        let w = choose|w: int|
                            0 <= w < old(self).entries@.len() && (#[trigger] old(
                                self,
                            ).entries@[w]).0@ == k;
                        assert(w != i);
                        assert(self.entries@[w] == old(self).entries@[w]);
                        lemma_lookup_value(self.entries@, w, k);
                        lemma_lookup_value(old(self).entries@, w, k);
                    }
                }
                return ;
            }
            i = i + 1;
        }
        let ghost e0 = self.entries@;
        self.entries.push((key.clone(), FailureRecord { last_failure: now, count: 1 }));
        proof {
            assert forall|a: int, b: int| 0 <= a < b < self.entries@.len() implies (
            #[trigger] self.entries@[a]).0@ !== (#[trigger] self.entries@[b]).0@ by {
                if b == self.entries@.len() - 1 {
                    assert(self.entries@[a] == e0[a]);
                    assert(e0[a].0@ !== key@);
                } else {
                    assert(self.entries@[a] == e0[a]);
                    assert(self.entries@[b] == e0[b]);
                }
            }
            assert(self.entries@[self.entries@.len() - 1].0@ == key@);
            assert forall|k: Seq<u8>| #[trigger] self@.dom().contains(k) implies old(
                self,
            )@.dom().insert(key@).contains(k) by {
                let w = choose|w: int|
                    0 <= w < self.entries@.len() && (#[trigger] self.entries@[w]).0@ == k;
                if w < e0.len() {
                    assert(e0[w].0@ == k);
                }
            }
            assert forall|k: Seq<u8>| #[trigger]
                old(self)@.dom().insert(key@).contains(k) implies self@.dom().contains(k) by {
                if k == key@ {
                    assert(self.entries@[self.entries@.len() - 1].0@ == k);
                } else {
                    let w = choose|w: int| 0 <= w < e0.len() && (#[trigger] e0[w]).0@ == k;
                    assert(self.entries@[w].0@ == k);
                }
            }
            assert(self@.dom() =~= old(self)@.dom().insert(key@));
            lemma_lookup_value(self.entries@, self.entries@.len() - 1, key@);
            assert forall|k: Seq<u8>|
                #![trigger self@[k]]
                old(self)@.dom().contains(k) && k !== key@ implies self@[k] == old(self)@[k] by {
                let w = choose|w: int| 0 <= w < e0.len() && (#[trigger] e0[w]).0@ == k;
                lemma_lookup_value(self.entries@, w, k);
                lemma_lookup_value(e0, w, k);
            }
        }
    }

    /// Whether a retry is due: there is no failure record, or the
    /// backoff window from the record has fully passed.
    pub fn retry_due(&self, key: &Vec<u8>, now: u64) -> (r: bool)
        requires
            self.wf(),
        ensures
            r == spec_retry_due(self@, key@, now),
    {
        match self.get(key) {
            None => true,
            Some(rec) => {
                proof {
                    lemma_backoff_bounded(rec.count as nat);
                }
                let window = backoff_secs(rec.count);
                if rec.last_failure > u64::MAX - window {
                    proof {
                        assert(rec.last_failure + window > u64::MAX >= now);
                    }
                    false
                } else {
                    now >= rec.last_failure + window
                }
            },
        }
    }
}

/// One failure was recorded at `key` and time `now` on top of `pre`:
/// what `record_failure` ensures, as a relation usable by callers
/// that record under several keys at once.
pub open spec fn spec_recorded(
    pre: Map<Seq<u8>, FailureRecord>,
    post: Map<Seq<u8>, FailureRecord>,
    key: Seq<u8>,
    now: u64,
) -> bool {
    &&& post.dom() =~= pre.dom().insert(key)
    &&& post[key].last_failure == now
    &&& post[key].count == if pre.dom().contains(key) {
        if pre[key].count == u32::MAX {
            u32::MAX
        } else {
            (pre[key].count + 1) as u32
        }
    } else {
        1u32
    }
    &&& forall|k: Seq<u8>| #![trigger post[k]] pre.dom().contains(k) && k !== key ==> post[k]
        == pre[k]
}

/// The backoff window at `key` has passed (or none is recorded).
pub open spec fn spec_retry_due(m: Map<Seq<u8>, FailureRecord>, key: Seq<u8>, now: u64) -> bool {
    !m.dom().contains(key) || now >= m[key].last_failure + spec_backoff(m[key].count as nat)
}

/// Some entry carries the key `k`.
spec fn has_key(entries: Seq<(Vec<u8>, FailureRecord)>, k: Seq<u8>) -> bool {
    exists|w: int| 0 <= w < entries.len() && (#[trigger] entries[w]).0@ == k
}

/// In a duplicate-free entry list, the entry at `w` gives the map's
/// value at its key.
proof fn lemma_lookup_value(entries: Seq<(Vec<u8>, FailureRecord)>, w: int, k: Seq<u8>)
    requires
        0 <= w < entries.len(),
        entries[w].0@ == k,
        forall|i: int, j: int|
            0 <= i < j < entries.len() ==> (#[trigger] entries[i]).0@ !== (#[trigger] entries[j]).0@,
    ensures
        ({
            let i = choose|i: int| 0 <= i < entries.len() && (#[trigger] entries[i]).0@ == k;
            entries[i].1 == entries[w].1
        }),
{
    let i = choose|i: int| 0 <= i < entries.len() && (#[trigger] entries[i]).0@ == k;
    if i != w {
        if i < w {
            assert(entries[i].0@ !== entries[w].0@);
        } else {
            assert(entries[w].0@ !== entries[i].0@);
        }
    }
}

/// After updating entry `i` in place, lookups elsewhere are unchanged.
proof fn lemma_entry_views(
    pre: Seq<(Vec<u8>, FailureRecord)>,
    post: Seq<(Vec<u8>, FailureRecord)>,
    i: int,
    key: Seq<u8>,
)
    requires
        pre.len() == post.len(),
        0 <= i < pre.len(),
        pre[i].0@ == key,
        post[i].0@ == key,
        forall|j: int| 0 <= j < pre.len() && j != i ==> post[j] == pre[j],
        forall|a: int, b: int|
            0 <= a < b < pre.len() ==> (#[trigger] pre[a]).0@ !== (#[trigger] pre[b]).0@,
        forall|a: int, b: int|
            0 <= a < b < post.len() ==> (#[trigger] post[a]).0@ !== (#[trigger] post[b]).0@,
    ensures
        forall|k: Seq<u8>| #[trigger] has_key(pre, k) <==> has_key(post, k),
{
    assert forall|k: Seq<u8>| has_key(pre, k) implies has_key(post, k) by {
        let w = choose|w: int| 0 <= w < pre.len() && (#[trigger] pre[w]).0@ == k;
        if w == i {
            assert(post[i].0@ == k);
        } else {
            assert(post[w].0@ == k);
        }
    }
    assert forall|k: Seq<u8>| has_key(post, k) implies has_key(pre, k) by {
        let w = choose|w: int| 0 <= w < post.len() && (#[trigger] post[w]).0@ == k;
        if w == i {
            assert(pre[i].0@ == k);
        } else {
            assert(pre[w].0@ == k);
        }
    }
}

} // verus!
