//! The signing-key service's store: per-server verify keys, active and
//! deprecated. Rotation demotes a key to the deprecated list rather
//! than dropping it, so events accepted under an old key keep
//! verifying, while new events are held to the keys now active.

use vstd::prelude::*;

use crate::util::{bytes_eq, clone_bytes};

verus! {

/// One verify key: its key id and its raw public key bytes.
#[derive(Debug)]
pub struct VerifyKey {
    pub key_id: Vec<u8>,
    pub key: Vec<u8>,
}

/// A server's keys: the active set and the rotated-out set.
#[derive(Debug)]
pub struct ServerKeys {
    pub active: Vec<VerifyKey>,
    pub old: Vec<VerifyKey>,
}

/// A key list as (key id, key) byte pairs.
pub open spec fn keys_view(s: Seq<VerifyKey>) -> Seq<(Seq<u8>, Seq<u8>)> {
    Seq::new(s.len(), |i: int| (s[i].key_id@, s[i].key@))
}

/// The key bound to `id` by the latest entry carrying `id`, if any: a
/// key id re-announced later wins.
pub open spec fn spec_lookup(entries: Seq<(Seq<u8>, Seq<u8>)>, id: Seq<u8>) -> Option<Seq<u8>>
    decreases entries.len(),
{
    if entries.len() == 0 {
        None
    } else if entries.last().0 == id {
        Some(entries.last().1)
    } else {
        spec_lookup(entries.drop_last(), id)
    }
}

pub struct KeyStore {
    servers: Vec<(Vec<u8>, ServerKeys)>,
}

impl KeyStore {
    /// The recorded server names, in first-seen order.
    pub closed spec fn names(&self) -> Seq<Seq<u8>> {
        Seq::new(self.servers@.len(), |i: int| self.servers@[i].0@)
    }

    /// The recorded key lists of the server at position `i`: active
    /// keys, then deprecated keys.
    pub closed spec fn keys_at(&self, i: int) -> (Seq<(Seq<u8>, Seq<u8>)>, Seq<(Seq<u8>, Seq<u8>)>) {
        (keys_view(self.servers@[i].1.active@), keys_view(self.servers@[i].1.old@))
    }

    /// Servers are recorded at most once.
    pub open spec fn wf(&self) -> bool {
        forall|i: int, j: int|
            0 <= i < j < self.names().len() ==> #[trigger] self.names()[i] !== #[trigger] self.names()[j]
    }

    /// The recorded (active, deprecated) key lists of a server, if any.
    pub open spec fn spec_server_keys(&self, origin: Seq<u8>) -> Option<
        (Seq<(Seq<u8>, Seq<u8>)>, Seq<(Seq<u8>, Seq<u8>)>),
    > {
        if exists|i: int| 0 <= i < self.names().len() && #[trigger] self.names()[i] == origin {
            let i = choose|i: int|
                0 <= i < self.names().len() && #[trigger] self.names()[i] == origin;
            Some(self.keys_at(i))
        } else {
            None
        }
    }

    /// The merged key list of a server — deprecated keys first, active
    /// keys last, so an active key shadows a deprecated one of equal
    /// id — or nothing when the server is unknown.
    pub open spec fn spec_merged_keys(&self, origin: Seq<u8>) -> Seq<(Seq<u8>, Seq<u8>)> {
        match self.spec_server_keys(origin) {
            Some((active, old)) => old + active,
            None => Seq::empty(),
        }
    }

    pub fn new() -> (s: Self)
        ensures
            s.wf(),
            s.names().len() == 0,
    {
        KeyStore { servers: Vec::new() }
    }

    /// Merges freshly fetched keys into a server's record: new active
    /// and deprecated keys are appended, nothing is dropped.
    #[verifier::loop_isolation(false)]
    pub fn add_signing_key(&mut self, origin: &Vec<u8>, new_keys: ServerKeys)
        requires
            old(self).wf(),
        ensures
            final(self).wf(),
            match old(self).spec_server_keys(origin@) {
                Some((pre_active, pre_old)) => final(self).spec_server_keys(origin@)
                    matches Some((post_active, post_old)) && post_active =~= pre_active
                    + keys_view(new_keys.active@) && post_old =~= pre_old + keys_view(
                    new_keys.old@,
                ),
                None => final(self).spec_server_keys(origin@) matches Some((post_active, post_old))
                    && post_active =~= keys_view(new_keys.active@) && post_old =~= keys_view(
                    new_keys.old@,
                ),
            },
            forall|o: Seq<u8>|
                o !== origin@ ==> #[trigger] final(self).spec_server_keys(o) == old(
                    self,
                ).spec_server_keys(o),
    {
        let ghost pre_names = self.names();
        let mut i: usize = 0;
        while i < self.servers.len()
            invariant
                i <= self.servers@.len(),
                self.wf(),
                *self == *old(self),
                forall|j: int| 0 <= j < i ==> #[trigger] self.names()[j] !== origin@,
            decreases self.servers@.len() - i,
        {
            if bytes_eq(&self.servers[i].0, origin) {
                let origin_copy = clone_bytes(&self.servers[i].0);
                let merged = ServerKeys {
                    active: append_keys(&self.servers[i].1.active, &new_keys.active),
                    old: append_keys(&self.servers[i].1.old, &new_keys.old),
                };
                proof {
                    lemma_unique_at(self.names(), i as int, origin@);
                }
                self.servers[i] = (origin_copy, merged);
                proof {
                    assert(self.servers@.len() == old(self).servers@.len());
                    assert(pre_names.len() == self.servers@.len());
                    assert(self.servers@[i as int].0@ == origin@);
                    assert forall|j: int| 0 <= j < pre_names.len() implies self.names()[j]
                        == pre_names[j] by {
                        if j != i {
                            assert(self.servers@[j] == old(self).servers@[j]);
                        } else {
                            assert(pre_names[j] == origin@);
                        }
                    }
                    assert(self.names() =~= pre_names);
                    lemma_unique_at(self.names(), i as int, origin@);
                    assert(self.spec_server_keys(origin@) == Some(self.keys_at(i as int)));
                    assert(self.keys_at(i as int).0 =~= old(self).keys_at(i as int).0 + keys_view(
                        new_keys.active@,
                    ));
                    assert(self.keys_at(i as int).1 =~= old(self).keys_at(i as int).1 + keys_view(
                        new_keys.old@,
                    ));
                    assert forall|o: Seq<u8>| o !== origin@ implies #[trigger] self.spec_server_keys(
                        o,
                    ) == old(self).spec_server_keys(o) by {
                        if exists|w: int|
                            0 <= w < pre_names.len() && #[trigger] pre_names[w] == o {
                            let w = choose|w: int|
                                0 <= w < pre_names.len() && #[trigger] pre_names[w] == o;
                            assert(self.names()[w] == o);
                            lemma_unique_at(self.names(), w, o);
                            lemma_unique_at(pre_names, w, o);
                            assert(w != i);
                            assert(self.keys_at(w) == old(self).keys_at(w));
                        } else {
                            if exists|w: int|
                                0 <= w < self.names().len() && #[trigger] self.names()[w] == o {
                                let w = choose|w: int|
                                    0 <= w < self.names().len() && #[trigger] self.names()[w] == o;
                                assert(pre_names[w] == o);
                                assert(false);
                            }
                        }
                    }
                }
                return ;
            }
            i = i + 1;
        }
        let ghost pre_names = self.names();
        let n = self.servers.len();
        self.servers.push((clone_bytes(origin), new_keys));
        proof {
            assert(self.names()[n as int] == origin@);
            assert forall|a: int, b: int| 0 <= a < b < self.names().len() implies #[trigger] self.names()[a]
                !== #[trigger] self.names()[b] by {
                if b == self.names().len() - 1 {
                    assert(self.names()[a] == pre_names[a]);
                    assert(pre_names[a] !== origin@);
                } else {
                    assert(self.names()[a] == pre_names[a]);
                    assert(self.names()[b] == pre_names[b]);
                }
            }
            lemma_unique_at(self.names(), n as int, origin@);
            if old(self).spec_server_keys(origin@) is Some {
                let w = choose|w: int| 0 <= w < pre_names.len() && #[trigger] pre_names[w] == origin@;
                assert(pre_names[w] !== origin@);
                assert(false);
            }
            assert forall|o: Seq<u8>| o !== origin@ implies #[trigger] self.spec_server_keys(o)
                == old(self).spec_server_keys(o) by {
                if exists|w: int| 0 <= w < pre_names.len() && #[trigger] pre_names[w] == o {
                    let w = choose|w: int| 0 <= w < pre_names.len() && #[trigger] pre_names[w] == o;
                    assert(self.names()[w] == o);
                    lemma_unique_at(self.names(), w, o);
                    lemma_unique_at(pre_names, w, o);
                    assert(self.keys_at(w) == old(self).keys_at(w));
                } else {
                    if exists|w: int|
                        0 <= w < self.names().len() && #[trigger] self.names()[w] == o {
                        let w = choose|w: int|
                            0 <= w < self.names().len() && #[trigger] self.names()[w] == o;
                        if w < pre_names.len() {
                            assert(pre_names[w] == o);
                        } else {
                            assert(self.names()[w] == origin@);
                        }
                        assert(false);
                    }
                }
            }
        }
    }

    /// The merged key list for a server — deprecated and active keys
    /// alike, as signature checking consults them both. Empty when the
    /// server is unknown.
    pub fn signing_keys_for(&self, origin: &Vec<u8>) -> (r: Vec<VerifyKey>)
        requires
            self.wf(),
        ensures
            keys_view(r@) =~= self.spec_merged_keys(origin@),
    {
        let mut i: usize = 0;
        while i < self.servers.len()
            invariant
                i <= self.servers@.len(),
                self.wf(),
                forall|j: int| 0 <= j < i ==> #[trigger] self.names()[j] !== origin@,
            decreases self.servers@.len() - i,
        {
            if bytes_eq(&self.servers[i].0, origin) {
                proof {
                    lemma_unique_at(self.names(), i as int, origin@);
                    assert(self.names()[i as int] == origin@);
                }
                let sk = &self.servers[i].1;
                let out = append_keys(&sk.old, &sk.active);
                proof {
                    assert(self.spec_server_keys(origin@) == Some(self.keys_at(i as int)));
                }
                return out;
            }
            i = i + 1;
        }
        proof {
            if self.spec_server_keys(origin@) is Some {
                let w = choose|w: int|
                    0 <= w < self.names().len() && #[trigger] self.names()[w] == origin@;
                assert(self.names()[w] !== origin@);
            }
        }
        let out: Vec<VerifyKey> = Vec::new();
        proof {
            assert(keys_view(out@) =~= Seq::<(Seq<u8>, Seq<u8>)>::empty());
        }
        out
    }

    /// The key a server currently holds under a key id, if any: the
    /// latest announcement of that id, active keys shadowing
    /// deprecated ones.
    pub fn key_for(&self, origin: &Vec<u8>, key_id: &Vec<u8>) -> (r: Option<Vec<u8>>)
        requires
            self.wf(),
        ensures
            match r {
                Some(k) => spec_lookup(self.spec_merged_keys(origin@), key_id@) == Some(k@),
                None => spec_lookup(self.spec_merged_keys(origin@), key_id@) is None,
            },
    {
        let merged = self.signing_keys_for(origin);
        let ghost mv = keys_view(merged@);
        let mut i: usize = merged.len();
        proof {
            assert(mv.take(mv.len() as int) =~= mv);
        }
        while i > 0
            invariant
                i <= mv.len(),
                mv =~= keys_view(merged@),
                mv =~= self.spec_merged_keys(origin@),
                spec_lookup(self.spec_merged_keys(origin@), key_id@) == spec_lookup(
                    mv.take(i as int),
                    key_id@,
                ),
            decreases i,
        {
            i = i - 1;
            proof {
                assert(mv.take(i as int + 1).drop_last() =~= mv.take(i as int));
                assert(mv.take(i as int + 1).last() == mv[i as int]);
            }
            if bytes_eq(&merged[i].key_id, key_id) {
                proof {
                    assert(mv[i as int].0 == key_id@);
                    assert(spec_lookup(mv.take(i as int + 1), key_id@) == Some(mv[i as int].1));
                }
                return Some(clone_bytes(&merged[i].key));
            }
        }
        proof {
            assert(mv.take(0) =~= Seq::<(Seq<u8>, Seq<u8>)>::empty());
        }
        None
    }
}

/// `keys_view` distributes over push.
proof fn lemma_keys_view_push(s: Seq<VerifyKey>, v: VerifyKey)
    ensures
        keys_view(s.push(v)) =~= keys_view(s).push((v.key_id@, v.key@)),
{
    assert forall|j: int| 0 <= j < s.len() + 1 implies keys_view(s.push(v))[j] == keys_view(
        s,
    ).push((v.key_id@, v.key@))[j] by {
        if j < s.len() {
            assert(s.push(v)[j] == s[j]);
        } else {
            assert(s.push(v)[j] == v);
        }
    }
}

/// No key is recorded for `key_id` of `server`.
pub open spec fn key_missing(ks: KeyStore, server: Seq<u8>, key_id: Seq<u8>) -> bool {
    spec_lookup(ks.spec_merged_keys(server), key_id) is None
}

impl KeyStore {
    /// The key-fetch plan for a batch of events: of the (server,
    /// key id) pairs their signatures reference, exactly those this
    /// store cannot resolve. The caller fetches them — from the
    /// origin servers or from its notaries first, as configured —
    /// and merges the answers back in; a failed fetch leaves no
    /// record here, so the key is simply asked for again next time.
    pub fn missing_key_requests(&self, refs: &Vec<(Vec<u8>, Vec<u8>)>) -> (r: Vec<
        (Vec<u8>, Vec<u8>),
    >)
        requires
            self.wf(),
        ensures
            forall|j: int|
                0 <= j < r@.len() ==> key_missing(*self, (#[trigger] r@[j]).0@, r@[j].1@),
            forall|i: int|
                0 <= i < refs@.len() && key_missing(*self, (#[trigger] refs@[i]).0@, refs@[i].1@)
                    ==> request_in(r@, refs@[i].0@, refs@[i].1@),
            forall|j: int|
                0 <= j < r@.len() ==> request_in(refs@, (#[trigger] r@[j]).0@, r@[j].1@),
    {
        let mut out: Vec<(Vec<u8>, Vec<u8>)> = Vec::new();
        let mut i: usize = 0;
        while i < refs.len()
            invariant
                i <= refs@.len(),
                self.wf(),
                forall|j: int|
                    0 <= j < out@.len() ==> key_missing(*self, (#[trigger] out@[j]).0@, out@[j].1@),
                forall|ii: int|
                    0 <= ii < i && key_missing(*self, (#[trigger] refs@[ii]).0@, refs@[ii].1@)
                        ==> request_in(out@, refs@[ii].0@, refs@[ii].1@),
                forall|j: int|
                    0 <= j < out@.len() ==> request_in(refs@, (#[trigger] out@[j]).0@, out@[j].1@),
            decreases refs@.len() - i,
        {
            let ghost o0 = out@;
            if self.key_for(&refs[i].0, &refs[i].1).is_none() {
                out.push((clone_bytes(&refs[i].0), clone_bytes(&refs[i].1)));
                proof {
                    assert(out@[out@.len() - 1].0@ == refs@[i as int].0@);
                    assert(out@[out@.len() - 1].1@ == refs@[i as int].1@);
                    assert forall|j: int| 0 <= j < out@.len() implies key_missing(
                        *self,
                        (#[trigger] out@[j]).0@,
                        out@[j].1@,
                    ) by {
                        if j < o0.len() {
                            assert(out@[j] == o0[j]);
                        }
                    }
                    assert forall|ii: int|
                        0 <= ii < i + 1 && key_missing(
                            *self,
                            (#[trigger] refs@[ii]).0@,
                            refs@[ii].1@,
                        ) implies request_in(out@, refs@[ii].0@, refs@[ii].1@) by {
                        if ii < i {
                            let k = choose|k: int|
                                0 <= k < o0.len() && (#[trigger] o0[k]).0@ == refs@[ii].0@
                                    && o0[k].1@ == refs@[ii].1@;
                            assert(out@[k] == o0[k]);
                            assert((out@[k]).0@ == refs@[ii].0@ && out@[k].1@ == refs@[ii].1@);
                        } else {
                            let k = out@.len() - 1;
                            assert((out@[k]).0@ == refs@[ii].0@ && out@[k].1@ == refs@[ii].1@);
                        }
                    }
                    assert forall|j: int| 0 <= j < out@.len() implies request_in(
                        refs@,
                        (#[trigger] out@[j]).0@,
                        out@[j].1@,
                    ) by {
                        if j < o0.len() {
                            assert(out@[j] == o0[j]);
                        } else {
                            assert((refs@[i as int]).0@ == out@[j].0@ && refs@[i as int].1@
                                == out@[j].1@);
                        }
                    }
                }
            }
            i = i + 1;
        }
        out
    }
}

/// The position of the first separator byte in a stored keypair blob.
pub open spec fn spec_sep_idx(s: Seq<u8>) -> int
    decreases s.len(),
{
    if s.len() == 0 {
        -1
    } else if s[0] == 0xff {
        0
    } else {
        let r = spec_sep_idx(s.drop_first());
        if r < 0 {
            -1
        } else {
            r + 1
        }
    }
}

/// Splits a stored keypair blob into its key version and its key
/// material: the version runs up to the first separator byte, the
/// material is everything after it. A blob without a separator is
/// invalid.
pub fn parse_keypair_blob(blob: &Vec<u8>) -> (r: Option<(Vec<u8>, Vec<u8>)>)
    ensures
        match r {
            Some((version, key)) => spec_sep_idx(blob@) >= 0 && version@ == blob@.take(
                spec_sep_idx(blob@),
            ) && key@ == blob@.skip(spec_sep_idx(blob@) + 1),
            None => spec_sep_idx(blob@) < 0,
        },
{
    let mut i: usize = 0;
    proof {
        assert(blob@.skip(0) =~= blob@);
        if !(exists|j: int| 0 <= j < blob@.len() && blob@[j] == 0xff) {
            lemma_sep_idx_missing(blob@);
        }
    }
    while i < blob.len()
        invariant
            i <= blob@.len(),
            forall|j: int| 0 <= j < i ==> blob@[j] != 0xff,
            spec_sep_idx(blob@) == if exists|j: int| i <= j < blob@.len() && blob@[j] == 0xff {
                spec_sep_idx(blob@.skip(i as int)) + i
            } else {
                -1
            },
        decreases blob@.len() - i,
    {
        if blob[i] == 0xff {
            proof {
                assert(blob@.skip(i as int)[0] == 0xff);
                assert(blob@[i as int] == 0xff);
                assert(spec_sep_idx(blob@) == i);
            }
            let mut version: Vec<u8> = Vec::new();
            let mut j: usize = 0;
            while j < i
                invariant
                    j <= i <= blob@.len(),
                    version@ =~= blob@.take(i as int).take(j as int),
                decreases i - j,
            {
                version.push(blob[j]);
                proof {
                    assert(version@ =~= blob@.take(i as int).take(j + 1));
                }
                j = j + 1;
            }
            let mut key: Vec<u8> = Vec::new();
            let mut j: usize = i + 1;
            while j < blob.len()
                invariant
                    i + 1 <= j <= blob@.len(),
                    key@ =~= blob@.subrange(i as int + 1, j as int),
                decreases blob@.len() - j,
            {
                key.push(blob[j]);
                proof {
                    assert(key@ =~= blob@.subrange(i as int + 1, j + 1));
                }
                j = j + 1;
            }
            proof {
                assert(version@ =~= blob@.take(i as int));
                assert(key@ =~= blob@.skip(i as int + 1));
            }
            return Some((version, key));
        }
        proof {
            assert(blob@.skip(i as int)[0] != 0xff);
            assert(blob@.skip(i as int).drop_first() =~= blob@.skip(i + 1));
            if exists|j: int| i + 1 <= j < blob@.len() && blob@[j] == 0xff {
                let j = choose|j: int| i + 1 <= j < blob@.len() && blob@[j] == 0xff;
                assert(blob@.skip(i + 1)[j - (i as int + 1)] == 0xff);
                lemma_sep_idx_found(blob@.skip(i + 1), j - (i as int + 1));
            } else {
                lemma_sep_idx_missing(blob@.skip(i + 1));
            }
        }
        i = i + 1;
    }
    proof {
        if exists|j: int| 0 <= j < blob@.len() && blob@[j] == 0xff {
            let j = choose|j: int| 0 <= j < blob@.len() && blob@[j] == 0xff;
            assert(blob@[j] != 0xff);
        }
    }
    None
}

/// A blob holding a separator has a nonnegative separator index.
proof fn lemma_sep_idx_found(s: Seq<u8>, j: int)
    requires
        0 <= j < s.len(),
        s[j] == 0xff,
    ensures
        spec_sep_idx(s) >= 0,
    decreases s.len(),
{
    if s[0] != 0xff {
        assert(s.drop_first()[j - 1] == 0xff);
        lemma_sep_idx_found(s.drop_first(), j - 1);
    }
}

/// A blob without a separator has separator index -1.
proof fn lemma_sep_idx_missing(s: Seq<u8>)
    requires
        forall|j: int| 0 <= j < s.len() ==> s[j] != 0xff,
    ensures
        spec_sep_idx(s) == -1,
    decreases s.len(),
{
    if s.len() > 0 {
        assert forall|j: int| 0 <= j < s.drop_first().len() implies s.drop_first()[j] != 0xff by {
            assert(s[j + 1] != 0xff);
        }
        lemma_sep_idx_missing(s.drop_first());
    }
}

/// Some entry of `s` names exactly this (server, key id) request.
pub open spec fn request_in(s: Seq<(Vec<u8>, Vec<u8>)>, server: Seq<u8>, key_id: Seq<u8>) -> bool {
    exists|k: int| 0 <= k < s.len() && (#[trigger] s[k]).0@ == server && s[k].1@ == key_id
}

/// Concatenates two key lists into a fresh one.
pub fn append_keys(a: &Vec<VerifyKey>, b: &Vec<VerifyKey>) -> (r: Vec<VerifyKey>)
    ensures
        keys_view(r@) =~= keys_view(a@) + keys_view(b@),
{
    let mut out: Vec<VerifyKey> = Vec::new();
    let mut i: usize = 0;
    while i < a.len()
        invariant
            i <= a@.len(),
            keys_view(out@) =~= keys_view(a@).take(i as int),
        decreases a@.len() - i,
    {
        let ghost o0 = out@;
        let vk = VerifyKey { key_id: clone_bytes(&a[i].key_id), key: clone_bytes(&a[i].key) };
        proof {
            assert((vk.key_id@, vk.key@) == keys_view(a@)[i as int]);
        }
        out.push(vk);
        proof {
            lemma_keys_view_push(o0, vk);
            assert(keys_view(a@).take(i + 1) =~= keys_view(a@).take(i as int).push(
                keys_view(a@)[i as int],
            ));
            assert(keys_view(out@) =~= keys_view(a@).take(i + 1));
        }
        i = i + 1;
    }
    let mut i: usize = 0;
    while i < b.len()
        invariant
            i <= b@.len(),
            keys_view(out@) =~= keys_view(a@) + keys_view(b@).take(i as int),
        decreases b@.len() - i,
    {
        let ghost o0 = out@;
        let vk = VerifyKey { key_id: clone_bytes(&b[i].key_id), key: clone_bytes(&b[i].key) };
        proof {
            assert((vk.key_id@, vk.key@) == keys_view(b@)[i as int]);
        }
        out.push(vk);
        proof {
            lemma_keys_view_push(o0, vk);
            assert(keys_view(a@) + keys_view(b@).take(i + 1) =~= (keys_view(a@) + keys_view(
                b@,
            ).take(i as int)).push(keys_view(b@)[i as int]));
            assert(keys_view(out@) =~= keys_view(a@) + keys_view(b@).take(i + 1));
        }
        i = i + 1;
    }
    proof {
        assert(keys_view(a@).take(a@.len() as int) =~= keys_view(a@));
        assert(keys_view(b@).take(b@.len() as int) =~= keys_view(b@));
    }
    out
}

/// With unique names, the chosen index for a name is the given one.
proof fn lemma_unique_at(names: Seq<Seq<u8>>, w: int, origin: Seq<u8>)
    requires
        0 <= w < names.len(),
        names[w] == origin,
        forall|i: int, j: int|
            0 <= i < j < names.len() ==> #[trigger] names[i] !== #[trigger] names[j],
    ensures
        (choose|i: int| 0 <= i < names.len() && #[trigger] names[i] == origin) == w,
{
    let i = choose|i: int| 0 <= i < names.len() && #[trigger] names[i] == origin;
    if i != w {
        if i < w {
            assert(names[i] !== names[w]);
        } else {
            assert(names[w] !== names[i]);
        }
    }
}

/// Rotation keeps old keys valid: a key id resolvable before new keys
/// were appended stays resolvable to the same key afterward, as long
/// as the appended entries do not re-announce that id. Old events thus
/// keep verifying under `old_verify_keys` after a rotation, while new
/// events are checked against the rotated-in keys.
pub proof fn lemma_rotation_keeps_old_keys(
    pre: Seq<(Seq<u8>, Seq<u8>)>,
    fresh: Seq<(Seq<u8>, Seq<u8>)>,
    id: Seq<u8>,
)
    requires
        spec_lookup(pre, id) is Some,
        forall|i: int| 0 <= i < fresh.len() ==> (#[trigger] fresh[i]).0 !== id,
    ensures
        spec_lookup(pre + fresh, id) == spec_lookup(pre, id),
    decreases fresh.len(),
{
    if fresh.len() == 0 {
        assert(pre + fresh =~= pre);
    } else {
        let shorter = fresh.drop_last();
        assert forall|i: int| 0 <= i < shorter.len() implies (#[trigger] shorter[i]).0 !== id by {
            assert(fresh[i].0 !== id);
        }
        lemma_rotation_keeps_old_keys(pre, shorter, id);
        assert((pre + fresh).last() == fresh.last());
        assert((pre + fresh).drop_last() =~= pre + shorter);
    }
}

} // verus!
