//! Short state keys: append-only interning of (event type, state key)
//! pairs as small integers.
//!
//! A short key, once handed out, stands for its pair forever: the table
//! only grows, entries are never rewritten, so a key is never reused even
//! after its pair has dropped out of every current state set.

use vstd::prelude::*;

use crate::util::bytes_eq;

verus! {

/// Append-only table interning (event type, state key) pairs.
pub struct ShortKeyTable {
    pairs: Vec<(Vec<u8>, Vec<u8>)>,
}

impl ShortKeyTable {
    /// The pairs interned so far, in order of their short keys.
    pub closed spec fn view(&self) -> Seq<(Seq<u8>, Seq<u8>)> {
        Seq::new(self.pairs@.len(), |i: int| (self.pairs@[i].0@, self.pairs@[i].1@))
    }

    /// No pair is interned twice.
    pub open spec fn wf(&self) -> bool {
        forall|i: int, j: int|
            0 <= i < j < self@.len() ==> #[trigger] self@[i] !== #[trigger] self@[j]
    }

    pub fn new() -> (t: Self)
        ensures
            t@.len() == 0,
            t.wf(),
    {
        ShortKeyTable { pairs: Vec::new() }
    }

    pub fn len(&self) -> (n: usize)
        ensures
            n == self@.len(),
    {
        self.pairs.len()
    }

    /// The short key already interned for the pair, if any.
    pub fn lookup(&self, etype: &Vec<u8>, skey: &Vec<u8>) -> (r: Option<u64>)
        ensures
            match r {
                Some(id) => id < self@.len() && self@[id as int] == (etype@, skey@),
                None => forall|i: int| 0 <= i < self@.len() ==> self@[i] !== (etype@, skey@),
            },
    {
        let mut i: usize = 0;
        while i < self.pairs.len()
            invariant
                i <= self@.len(),
                forall|j: int| 0 <= j < i ==> self@[j] !== (etype@, skey@),
            decreases self@.len() - i,
        {
            if bytes_eq(&self.pairs[i].0, etype) && bytes_eq(&self.pairs[i].1, skey) {
                proof {
                    assert(self@[i as int] =~= (etype@, skey@));
                }
                return Some(i as u64);
            }
            proof {
                if self@[i as int] == (etype@, skey@) {
                    assert(self@[i as int].0 =~= etype@);
                    assert(self@[i as int].1 =~= skey@);
                }
            }
            i = i + 1;
        }
        None
    }

    /// The short key for the pair, interning it first if it is new.
    ///
    /// Existing entries are untouched: whatever short key any pair had
    /// before the call, it has after the call.
    pub fn get_or_create(&mut self, etype: &Vec<u8>, skey: &Vec<u8>) -> (id: u64)
        requires
            old(self).wf(),
            old(self)@.len() < u64::MAX,
        ensures
            final(self).wf(),
            id < final(self)@.len(),
            final(self)@[id as int] == (etype@, skey@),
            final(self)@.take(old(self)@.len() as int) =~= old(self)@,
            final(self)@.len() == if old(self)@.contains((etype@, skey@)) {
                old(self)@.len()
            } else {
                old(self)@.len() + 1
            },
    {
        match self.lookup(etype, skey) {
            Some(id) => {
                proof {
                    assert(old(self)@.contains((etype@, skey@)));
                    assert(self@.take(old(self)@.len() as int) =~= old(self)@);
                }
                id
            },
            None => {
                let id = self.pairs.len() as u64;
                self.pairs.push((etype.clone(), skey.clone()));
                proof {
                    assert(self@[id as int] =~= (etype@, skey@));
                    assert(self@.take(old(self)@.len() as int) =~= old(self)@);
                    if old(self)@.contains((etype@, skey@)) {
                        let i = choose|i: int|
                            0 <= i < old(self)@.len() && old(self)@[i] == (etype@, skey@);
                        assert(old(self)@[i] !== (etype@, skey@));
                        assert(false);
                    }
                    assert forall|i: int, j: int| 0 <= i < j < self@.len()
                        implies #[trigger] self@[i] !== #[trigger] self@[j] by {
                        if j == self@.len() - 1 {
                            assert(self@[i] == old(self)@[i]);
                            assert(old(self)@[i] !== (etype@, skey@));
                        } else {
                            assert(self@[i] == old(self)@[i]);
                            assert(self@[j] == old(self)@[j]);
                        }
                    }
                }
                id
            },
        }
    }

    /// The pair a short key stands for.
    pub fn pair_at(&self, id: u64) -> (r: (&Vec<u8>, &Vec<u8>))
        requires
            id < self@.len(),
        ensures
            (r.0@, r.1@) == self@[id as int],
    {
        let n = self.pairs.len();
        proof {
            assert(id < n);
        }
        let p = &self.pairs[id as usize];
        proof {
            assert((p.0@, p.1@) =~= self@[id as int]);
        }
        (&p.0, &p.1)
    }
}

/// Append-only table interning single identifiers (event ids, room ids)
/// as small integers, in first-seen order.
pub struct IdTable {
    ids: Vec<Vec<u8>>,
}

impl IdTable {
    /// The identifiers interned so far, in order of their short ids.
    pub closed spec fn view(&self) -> Seq<Seq<u8>> {
        Seq::new(self.ids@.len(), |i: int| self.ids@[i]@)
    }

    /// No identifier is interned twice.
    pub open spec fn wf(&self) -> bool {
        forall|i: int, j: int|
            0 <= i < j < self@.len() ==> #[trigger] self@[i] !== #[trigger] self@[j]
    }

    pub fn new() -> (t: Self)
        ensures
            t@.len() == 0,
            t.wf(),
    {
        IdTable { ids: Vec::new() }
    }

    pub fn len(&self) -> (n: usize)
        ensures
            n == self@.len(),
    {
        self.ids.len()
    }

    /// The short id already interned for the identifier, if any.
    pub fn lookup(&self, id_bytes: &Vec<u8>) -> (r: Option<u64>)
        ensures
            match r {
                Some(id) => id < self@.len() && self@[id as int] == id_bytes@,
                None => forall|i: int| 0 <= i < self@.len() ==> self@[i] !== id_bytes@,
            },
    {
        let mut i: usize = 0;
        while i < self.ids.len()
            invariant
                i <= self@.len(),
                forall|j: int| 0 <= j < i ==> self@[j] !== id_bytes@,
            decreases self@.len() - i,
        {
            if bytes_eq(&self.ids[i], id_bytes) {
                return Some(i as u64);
            }
            i = i + 1;
        }
        None
    }

    /// The short id for the identifier, interning it first if it is new.
    pub fn get_or_create(&mut self, id_bytes: &Vec<u8>) -> (id: u64)
        requires
            old(self).wf(),
            old(self)@.len() < u64::MAX,
        ensures
            final(self).wf(),
            id < final(self)@.len(),
            final(self)@[id as int] == id_bytes@,
            final(self)@.take(old(self)@.len() as int) =~= old(self)@,
            final(self)@.len() == if old(self)@.contains(id_bytes@) {
                old(self)@.len()
            } else {
                old(self)@.len() + 1
            },
    {
        match self.lookup(id_bytes) {
            Some(id) => {
                proof {
                    assert(old(self)@.contains(id_bytes@));
                    assert(self@.take(old(self)@.len() as int) =~= old(self)@);
                }
                id
            },
            None => {
                let id = self.ids.len() as u64;
                self.ids.push(id_bytes.clone());
                proof {
                    assert(self@[id as int] =~= id_bytes@);
                    assert(self@.take(old(self)@.len() as int) =~= old(self)@);
                    if old(self)@.contains(id_bytes@) {
                        let i = choose|i: int|
                            0 <= i < old(self)@.len() && old(self)@[i] == id_bytes@;
                        assert(old(self)@[i] !== id_bytes@);
                        assert(false);
                    }
                    assert forall|i: int, j: int| 0 <= i < j < self@.len()
                        implies #[trigger] self@[i] !== #[trigger] self@[j] by {
                        if j == self@.len() - 1 {
                            assert(self@[i] == old(self)@[i]);
                            assert(old(self)@[i] !== id_bytes@);
                        } else {
                            assert(self@[i] == old(self)@[i]);
                            assert(self@[j] == old(self)@[j]);
                        }
                    }
                }
                id
            },
        }
    }

    /// The identifier a short id stands for.
    pub fn id_at(&self, id: u64) -> (r: &Vec<u8>)
        requires
            id < self@.len(),
        ensures
            r@ == self@[id as int],
    {
        let n = self.ids.len();
        proof {
            assert(id < n);
        }
        &self.ids[id as usize]
    }
}

/// Short key monotonicity: growing the table (as every mutation does)
/// keeps every short key bound to the pair it was first interned for,
/// so a short key is never reused for a different pair.
pub proof fn lemma_short_keys_never_reused(pre: ShortKeyTable, post: ShortKeyTable, id: u64)
    requires
        pre@.len() <= post@.len(),
        post@.take(pre@.len() as int) == pre@,
        id < pre@.len(),
    ensures
        id < post@.len(),
        post@[id as int] == pre@[id as int],
{
    assert(post@.take(pre@.len() as int)[id as int] == post@[id as int]);
}

} // verus!
