//! The auth chain resolver: the set of all auth-event ancestors
//! reachable from a seed set, computed by an iterative work list with an
//! explicit visited set, so that graph size never translates into stack
//! depth. Ancestors that are not known locally are leaves: they appear
//! in the closure, but contribute no further edges.

use vstd::prelude::*;
use std::collections::HashSet;

use crate::event::Pdu;
use crate::store::EventStore;
use crate::util::{clone_ids, ids_eq, ids_sorted, sort_dedup};

verus! {

broadcast use vstd::std_specs::hash::group_hash_axioms;

/// Every auth event of `e` lies in `r`.
pub open spec fn auths_in(store: Map<u64, Pdu>, e: u64, r: Set<u64>) -> bool {
    forall|j: int|
        0 <= j < store[e].auth_events@.len() ==> r.contains(#[trigger] store[e].auth_events@[j])
}

/// `r` holds the auth events of every known seed, and the auth events
/// of every known member of `r`.
pub open spec fn auth_closed(store: Map<u64, Pdu>, seeds: Seq<u64>, r: Set<u64>) -> bool {
    &&& forall|i: int|
        0 <= i < seeds.len() && store.dom().contains(#[trigger] seeds[i]) ==> auths_in(
            store,
            seeds[i],
            r,
        )
    &&& forall|e: u64| #[trigger]
        r.contains(e) && store.dom().contains(e) ==> auths_in(store, e, r)
}

/// The auth chain of the seed set: the least set that holds the auth
/// events of the known seeds and is closed under known auth edges.
pub open spec fn auth_closure(store: Map<u64, Pdu>, seeds: Seq<u64>) -> Set<u64> {
    Set::new(
        |e: u64| forall|rr: Set<u64>| auth_closed(store, seeds, rr) ==> #[trigger] rr.contains(e),
    )
}

/// `auth_closed`, seeded by a set instead of a sequence.
pub open spec fn auth_closed_from(store: Map<u64, Pdu>, seeds: Set<u64>, r: Set<u64>) -> bool {
    &&& forall|s: u64| #[trigger]
        seeds.contains(s) && store.dom().contains(s) ==> auths_in(store, s, r)
    &&& forall|e: u64| #[trigger]
        r.contains(e) && store.dom().contains(e) ==> auths_in(store, e, r)
}

/// `auth_closure`, seeded by a set instead of a sequence.
pub open spec fn auth_closure_from(store: Map<u64, Pdu>, seeds: Set<u64>) -> Set<u64> {
    Set::new(
        |e: u64| forall|rr: Set<u64>|
            auth_closed_from(store, seeds, rr) ==> #[trigger] rr.contains(e),
    )
}

/// Seeding by a sequence or by its set of elements closes over the
/// same chains.
pub proof fn lemma_closure_seq_set(store: Map<u64, Pdu>, seeds: Seq<u64>)
    ensures
        auth_closure(store, seeds) == auth_closure_from(store, seeds.to_set()),
{
    assert forall|rr: Set<u64>|
        auth_closed(store, seeds, rr) == auth_closed_from(store, seeds.to_set(), rr) by {
        if auth_closed(store, seeds, rr) {
            assert forall|s: u64| #[trigger]
                seeds.to_set().contains(s) && store.dom().contains(s) implies auths_in(
                store,
                s,
                rr,
            ) by {
                let i = choose|i: int| 0 <= i < seeds.len() && seeds[i] == s;
                assert(store.dom().contains(seeds[i]));
            }
        }
        if auth_closed_from(store, seeds.to_set(), rr) {
            assert forall|i: int|
                0 <= i < seeds.len() && store.dom().contains(#[trigger] seeds[i]) implies auths_in(
                store,
                seeds[i],
                rr,
            ) by {
                assert(seeds.to_set().contains(seeds[i]));
            }
        }
    }
    assert(auth_closure(store, seeds) =~= auth_closure_from(store, seeds.to_set()));
}

/// The set-seeded closure is contained in every closed set.
pub proof fn lemma_closure_least_from(store: Map<u64, Pdu>, seeds: Set<u64>, r: Set<u64>)
    requires
        auth_closed_from(store, seeds, r),
    ensures
        auth_closure_from(store, seeds).subset_of(r),
{
}

/// A known seed's auth events lie in the closure.
pub proof fn lemma_closure_seed(store: Map<u64, Pdu>, seeds: Seq<u64>, i: int, j: int)
    requires
        0 <= i < seeds.len(),
        store.dom().contains(seeds[i]),
        0 <= j < store[seeds[i]].auth_events@.len(),
    ensures
        auth_closure(store, seeds).contains(store[seeds[i]].auth_events@[j]),
{
    let a = store[seeds[i]].auth_events@[j];
    assert forall|rr: Set<u64>| auth_closed(store, seeds, rr) implies #[trigger] rr.contains(
        a,
    ) by {}
}

/// A known member's auth events lie in the closure.
pub proof fn lemma_closure_step(store: Map<u64, Pdu>, seeds: Seq<u64>, e: u64, j: int)
    requires
        auth_closure(store, seeds).contains(e),
        store.dom().contains(e),
        0 <= j < store[e].auth_events@.len(),
    ensures
        auth_closure(store, seeds).contains(store[e].auth_events@[j]),
{
    let a = store[e].auth_events@[j];
    assert forall|rr: Set<u64>| auth_closed(store, seeds, rr) implies #[trigger] rr.contains(
        a,
    ) by {
        assert(rr.contains(e));
    }
}

/// The closure is contained in every closed set.
pub proof fn lemma_closure_least(store: Map<u64, Pdu>, seeds: Seq<u64>, r: Set<u64>)
    requires
        auth_closed(store, seeds, r),
    ensures
        auth_closure(store, seeds).subset_of(r),
{
}

/// Auth-chain closure: the closure is itself closed, so every auth
/// event of every member of the auth chain is again in the auth chain,
/// and the auth events of every known seed are in it.
pub proof fn lemma_auth_chain_closure(store: Map<u64, Pdu>, seeds: Seq<u64>)
    ensures
        auth_closed(store, seeds, auth_closure(store, seeds)),
{
    let c = auth_closure(store, seeds);
    assert forall|i: int|
        0 <= i < seeds.len() && store.dom().contains(#[trigger] seeds[i]) implies auths_in(
        store,
        seeds[i],
        c,
    ) by {
        assert forall|j: int| 0 <= j < store[seeds[i]].auth_events@.len() implies c.contains(
            #[trigger] store[seeds[i]].auth_events@[j],
        ) by {
            lemma_closure_seed(store, seeds, i, j);
        }
    }
    assert forall|e: u64| #[trigger] c.contains(e) && store.dom().contains(e) implies auths_in(
        store,
        e,
        c,
    ) by {
        assert forall|j: int| 0 <= j < store[e].auth_events@.len() implies c.contains(
            #[trigger] store[e].auth_events@[j],
        ) by {
            lemma_closure_step(store, seeds, e, j);
        }
    }
}

/// Computes the auth chain of the seed set over the locally known
/// events, in canonical ascending order without duplicates.
#[verifier::loop_isolation(false)]
#[verifier::rlimit(100)]
pub fn event_ids_iter(store: &EventStore, seeds: &Vec<u64>) -> (r: Vec<u64>)
    ensures
        ids_sorted(r@),
        r@.to_set() == auth_closure(store@, seeds@),
{
    let ghost cl = auth_closure(store@, seeds@);
    let mut seen: HashSet<u64> = HashSet::new();
    let mut work: Vec<u64> = Vec::new();
    let mut found: Vec<u64> = Vec::new();
    // the auth events of the known seeds enter the work list
    let mut i: usize = 0;
    while i < seeds.len()
        invariant
            i <= seeds@.len(),
            forall|x: int| 0 <= x < work@.len() ==> cl.contains(#[trigger] work@[x]),
            forall|s: int|
                0 <= s < i && store@.dom().contains(#[trigger] seeds@[s]) ==> auths_in(
                    store@,
                    seeds@[s],
                    work@.to_set(),
                ),
        decreases seeds@.len() - i,
    {
        match store.get(seeds[i]) {
            Some(p) => {
                let ghost w0 = work@;
                let mut j: usize = 0;
                while j < p.auth_events.len()
                    invariant
                        j <= p.auth_events@.len(),
                        *p == store@[seeds@[i as int]],
                        store@.dom().contains(seeds@[i as int]),
                        forall|x: int| 0 <= x < work@.len() ==> cl.contains(#[trigger] work@[x]),
                        w0.to_set().subset_of(work@.to_set()),
                        forall|jj: int|
                            0 <= jj < j ==> work@.to_set().contains(
                                #[trigger] store@[seeds@[i as int]].auth_events@[jj],
                            ),
                    decreases p.auth_events@.len() - j,
                {
                    let a = p.auth_events[j];
                    proof {
                        lemma_closure_seed(store@, seeds@, i as int, j as int);
                        assert(work@.push(a)[work@.len() as int] == a);
                    }
                    let ghost w1 = work@;
                    work.push(a);
                    proof {
                        assert(work@.drop_last() =~= w1);
                        assert forall|x: u64| w1.to_set().contains(x) implies work@.to_set()
                            .contains(x) by {
                            let k = choose|k: int| 0 <= k < w1.len() && w1[k] == x;
                            assert(work@[k] == x);
                        }
                        assert(work@[work@.len() - 1] == a);
                    }
                    j = j + 1;
                }
            },
            None => {},
        }
        proof {
            assert forall|s: int|
                0 <= s < i + 1 && store@.dom().contains(#[trigger] seeds@[s]) implies auths_in(
                store@,
                seeds@[s],
                work@.to_set(),
            ) by {}
        }
        i = i + 1;
    }
    proof {
        store.lemma_dom_finite();
    }
    // work-list traversal with an explicit visited set
    while work.len() > 0
        invariant
            forall|x: u64| #[trigger] seen@.contains(x) ==> cl.contains(x),
            forall|x: int| 0 <= x < work@.len() ==> cl.contains(#[trigger] work@[x]),
            forall|e: u64| #[trigger]
                seen@.contains(e) && store@.dom().contains(e) ==> auths_in(
                    store@,
                    e,
                    seen@.union(work@.to_set()),
                ),
            forall|s: int|
                0 <= s < seeds@.len() && store@.dom().contains(#[trigger] seeds@[s]) ==> auths_in(
                    store@,
                    seeds@[s],
                    seen@.union(work@.to_set()),
                ),
            found@.to_set() =~= seen@,
            store@.dom().finite(),
        decreases store@.dom().difference(seen@).len(), work@.len(),
    {
        let ghost workpre = work@;
        let e: u64 = match work.pop() {
            Some(x) => x,
            None => {
                proof {
                    assert(false);
                }
                0
            },
        };
        let ghost seen0 = seen@;
        let ghost work0 = work@;
        proof {
            assert(workpre[workpre.len() - 1] == e);
            assert(cl.contains(e));
        }
        if !seen.contains(&e) {
            seen.insert(e);
            let ghost f0 = found@;
            found.push(e);
            proof {
                assert forall|x: u64| #[trigger] found@.to_set().contains(x) implies seen@.contains(
                    x,
                ) by {
                    let k = choose|k: int| 0 <= k < found@.len() && found@[k] == x;
                    if k < f0.len() {
                        assert(f0[k] == x);
                    }
                }
                assert forall|x: u64| #[trigger] seen@.contains(x) implies found@.to_set().contains(
                    x,
                ) by {
                    if x == e {
                        assert(found@[found@.len() - 1] == e);
                    } else {
                        let k = choose|k: int| 0 <= k < f0.len() && f0[k] == x;
                        assert(found@[k] == x);
                    }
                }
                assert(found@.to_set() =~= seen@);
            }
            match store.get(e) {
                Some(p) => {
                    let mut j: usize = 0;
                    while j < p.auth_events.len()
                        invariant
                            j <= p.auth_events@.len(),
                            *p == store@[e],
                            store@.dom().contains(e),
                            cl.contains(e),
                            seen@ == seen0.insert(e),
                            forall|x: int|
                                0 <= x < work@.len() ==> cl.contains(#[trigger] work@[x]),
                            work0.to_set().subset_of(work@.to_set()),
                            forall|jj: int|
                                0 <= jj < j ==> work@.to_set().contains(
                                    #[trigger] store@[e].auth_events@[jj],
                                ),
                        decreases p.auth_events@.len() - j,
                    {
                        let a = p.auth_events[j];
                        proof {
                            lemma_closure_step(store@, seeds@, e, j as int);
                        }
                        let ghost w1 = work@;
                        work.push(a);
                        proof {
                            assert forall|x: u64| w1.to_set().contains(x) implies work@.to_set()
                                .contains(x) by {
                                let k = choose|k: int| 0 <= k < w1.len() && w1[k] == x;
                                assert(work@[k] == x);
                            }
                            assert(work@[work@.len() - 1] == a);
                        }
                        j = j + 1;
                    }
                },
                None => {},
            }
        }
        proof {
            // whatever the old cover held, the new one holds: the popped
            // element moved into the visited set, everything else stays
            let old_union = seen0.union(workpre.to_set());
            let new_union = seen@.union(work@.to_set());
            assert(seen@.contains(e));
            assert forall|x: u64| #[trigger] old_union.contains(x) implies new_union.contains(
                x,
            ) by {
                if seen0.contains(x) {
                } else if x == e {
                } else {
                    let k = choose|k: int| 0 <= k < workpre.len() && workpre[k] == x;
                    assert(k < workpre.len() - 1);
                    assert(work0[k] == x);
                    assert(work0.to_set().contains(x));
                }
            }
            assert forall|e2: u64| #[trigger]
                seen@.contains(e2) && store@.dom().contains(e2) implies auths_in(
                store@,
                e2,
                new_union,
            ) by {
                if seen0.contains(e2) {
                    assert(auths_in(store@, e2, old_union));
                    assert forall|j: int| 0 <= j < store@[e2].auth_events@.len() implies new_union
                        .contains(#[trigger] store@[e2].auth_events@[j]) by {
                        assert(old_union.contains(store@[e2].auth_events@[j]));
                    }
                } else {
                    assert(e2 == e);
                    assert forall|j: int| 0 <= j < store@[e].auth_events@.len() implies new_union
                        .contains(#[trigger] store@[e].auth_events@[j]) by {
                        assert(work@.to_set().contains(store@[e].auth_events@[j]));
                    }
                }
            }
            assert forall|s: int|
                0 <= s < seeds@.len() && store@.dom().contains(#[trigger] seeds@[s])
                implies auths_in(store@, seeds@[s], new_union) by {
                assert(auths_in(store@, seeds@[s], old_union));
                assert forall|j: int|
                    0 <= j < store@[seeds@[s]].auth_events@.len() implies new_union.contains(
                    #[trigger] store@[seeds@[s]].auth_events@[j],
                ) by {
                    assert(old_union.contains(store@[seeds@[s]].auth_events@[j]));
                }
            }
            // the visited set only grows toward the known-event bound
            if !seen0.contains(e) && store@.dom().contains(e) {
                assert(store@.dom().difference(seen@) =~= store@.dom().difference(seen0).remove(
                    e,
                ));
            } else if !seen0.contains(e) {
                assert(store@.dom().difference(seen@) =~= store@.dom().difference(seen0));
            }
        }
    }
    proof {
        // an empty work list means the visited set is closed
        assert forall|e: u64| #[trigger]
            seen@.contains(e) && store@.dom().contains(e) implies auths_in(store@, e, seen@) by {
            assert(seen@.union(work@.to_set()) =~= seen@);
        }
        assert forall|s: int|
            0 <= s < seeds@.len() && store@.dom().contains(#[trigger] seeds@[s]) implies auths_in(
            store@,
            seeds@[s],
            seen@,
        ) by {
            assert(seen@.union(work@.to_set()) =~= seen@);
        }
        lemma_closure_least(store@, seeds@, seen@);
        assert(cl =~= seen@);
    }
    let out = sort_dedup(&found);
    out
}


/// Every cached entry holds, for its canonical seed key, exactly the
/// auth chain over `store`, in canonical order.
pub open spec fn cache_consistent(
    entries: Seq<(Seq<u64>, Seq<u64>)>,
    store: Map<u64, Pdu>,
) -> bool {
    forall|i: int|
        0 <= i < entries.len() ==> ids_sorted((#[trigger] entries[i]).1) && entries[i].1.to_set()
            == auth_closure_from(store, entries[i].0.to_set())
}

/// A bounded cache of computed auth chains, keyed by the canonical
/// (sorted, deduplicated) seed set and evicting the least recently
/// used entry when full.
///
/// A cached chain is only as good as the store it was computed over:
/// a formerly missing ancestor that becomes known extends chains, so
/// the store's owner empties the cache whenever a new event is
/// stored.
pub struct AuthChainCache {
    entries: Vec<(Vec<u64>, Vec<u64>)>,
    cap: usize,
}

impl AuthChainCache {
    /// The cached (seed key, chain) pairs, least recently used first.
    pub closed spec fn entries_view(&self) -> Seq<(Seq<u64>, Seq<u64>)> {
        Seq::new(self.entries@.len(), |i: int| (self.entries@[i].0@, self.entries@[i].1@))
    }

    /// The configured capacity.
    pub closed spec fn spec_cap(&self) -> nat {
        self.cap as nat
    }

    pub fn new(capacity: usize) -> (c: Self)
        ensures
            c.entries_view().len() == 0,
            c.spec_cap() == capacity,
    {
        AuthChainCache { entries: Vec::new(), cap: capacity }
    }

    /// Forgets every cached chain; done whenever the store grows.
    pub fn clear(&mut self)
        ensures
            final(self).entries_view().len() == 0,
            final(self).spec_cap() == old(self).spec_cap(),
    {
        self.entries.clear();
    }

    pub fn len(&self) -> (n: usize)
        ensures
            n == self.entries_view().len(),
    {
        self.entries.len()
    }
}

/// An empty cache is consistent with any store.
pub proof fn lemma_empty_cache_consistent(
    entries: Seq<(Seq<u64>, Seq<u64>)>,
    store: Map<u64, Pdu>,
)
    requires
        entries.len() == 0,
    ensures
        cache_consistent(entries, store),
{
}

/// `event_ids_iter` behind the bounded cache: a hit returns the
/// cached chain and marks it most recently used, a miss computes the
/// chain, caches it, and evicts the least recently used entry when
/// the cache is full.
#[verifier::loop_isolation(false)]
#[verifier::rlimit(100)]
pub fn cached_event_ids_iter(
    cache: &mut AuthChainCache,
    store: &EventStore,
    seeds: &Vec<u64>,
) -> (r: Vec<u64>)
    requires
        cache_consistent(old(cache).entries_view(), store@),
    ensures
        cache_consistent(final(cache).entries_view(), store@),
        final(cache).spec_cap() == old(cache).spec_cap(),
        ids_sorted(r@),
        r@.to_set() == auth_closure(store@, seeds@),
{
    let key = sort_dedup(seeds);
    proof {
        lemma_closure_seq_set(store@, seeds@);
        lemma_closure_seq_set(store@, key@);
        assert(auth_closure(store@, seeds@) == auth_closure_from(store@, key@.to_set()));
    }
    // look for the canonical key among the cached entries
    let mut k: usize = 0;
    while k < cache.entries.len()
        invariant
            k <= cache.entries@.len(),
            cache_consistent(cache.entries_view(), store@),
            *cache == *old(cache),
        decreases cache.entries@.len() - k,
    {
        if ids_eq(&cache.entries[k].0, &key) {
            // hit: hand the chain out and mark the entry as fresh
            let entry = cache.entries.remove(k);
            let ghost after_rm = cache.entries@;
            let result = clone_ids(&entry.1);
            proof {
                assert(entry.0@ == key@);
                assert(old(cache).entries_view()[k as int] == (entry.0@, entry.1@));
                assert(result@.to_set() == auth_closure_from(store@, key@.to_set()));
            }
            cache.entries.push(entry);
            proof {
                assert(cache.entries@.drop_last() =~= after_rm);
                lemma_cache_view_remove(old(cache).entries@, after_rm, k as int);
                assert forall|i: int| 0 <= i < cache.entries_view().len() implies ids_sorted(
                    (#[trigger] cache.entries_view()[i]).1,
                ) && cache.entries_view()[i].1.to_set() == auth_closure_from(
                    store@,
                    cache.entries_view()[i].0.to_set(),
                ) by {
                    if i < cache.entries_view().len() - 1 {
                        assert(cache.entries@[i] == after_rm[i]);
                        if i < k {
                            assert(after_rm[i] == old(cache).entries@[i]);
                            assert(cache.entries_view()[i] == old(cache).entries_view()[i]);
                        } else {
                            assert(after_rm[i] == old(cache).entries@[i + 1]);
                            assert(cache.entries_view()[i] == old(cache).entries_view()[i + 1]);
                        }
                    } else {
                        assert(cache.entries_view()[i] == (entry.0@, entry.1@));
                        assert(cache.entries_view()[i] == old(cache).entries_view()[k as int]);
                    }
                }
            }
            return result;
        }
        k = k + 1;
    }
    // miss: compute, then cache under the canonical key
    let result = event_ids_iter(store, &key);
    proof {
        assert(result@.to_set() == auth_closure_from(store@, key@.to_set()));
    }
    if cache.cap > 0 {
        while cache.entries.len() >= cache.cap
            invariant
                cache_consistent(cache.entries_view(), store@),
                cache.cap == old(cache).cap,
            decreases cache.entries@.len(),
        {
            let ghost pre = cache.entries@;
            let ghost pv = cache.entries_view();
            let _evicted = cache.entries.remove(0);
            proof {
                assert forall|i: int| 0 <= i < cache.entries_view().len() implies ids_sorted(
                    (#[trigger] cache.entries_view()[i]).1,
                ) && cache.entries_view()[i].1.to_set() == auth_closure_from(
                    store@,
                    cache.entries_view()[i].0.to_set(),
                ) by {
                    assert(cache.entries@[i] == pre.remove(0)[i]);
                    assert(pre.remove(0)[i] == pre[i + 1]);
                    assert(cache.entries_view()[i] == pv[i + 1]);
                    assert(ids_sorted((pv[i + 1]).1) && pv[i + 1].1.to_set() == auth_closure_from(
                        store@,
                        pv[i + 1].0.to_set(),
                    ));
                }
            }
        }
        let ghost pre = cache.entries@;
        let ghost pv = cache.entries_view();
        cache.entries.push((clone_ids(&key), clone_ids(&result)));
        proof {
            assert forall|i: int| 0 <= i < cache.entries_view().len() implies ids_sorted(
                (#[trigger] cache.entries_view()[i]).1,
            ) && cache.entries_view()[i].1.to_set() == auth_closure_from(
                store@,
                cache.entries_view()[i].0.to_set(),
            ) by {
                if i < cache.entries_view().len() - 1 {
                    assert(cache.entries@[i] == pre[i]);
                    assert(cache.entries_view()[i] == pv[i]);
                    assert(ids_sorted((pv[i]).1) && pv[i].1.to_set() == auth_closure_from(
                        store@,
                        pv[i].0.to_set(),
                    ));
                } else {
                    assert(cache.entries_view()[i].0 == key@);
                    assert(cache.entries_view()[i].1 == result@);
                }
            }
        }
    }
    result
}

/// Removing one entry shifts the later ones down.
proof fn lemma_cache_view_remove(
    pre: Seq<(Vec<u64>, Vec<u64>)>,
    post: Seq<(Vec<u64>, Vec<u64>)>,
    k: int,
)
    requires
        0 <= k < pre.len(),
        post == pre.remove(k),
    ensures
        post.len() == pre.len() - 1,
        forall|i: int| 0 <= i < k ==> post[i] == pre[i],
        forall|i: int| k <= i < post.len() ==> post[i] == pre[i + 1],
{
}

} // verus!
