//! The state compressor: every state set is stored as an added/removed
//! diff against an earlier short state hash, with periodic full
//! checkpoints bounding the length of any diff chain.
//!
//! Reconstruction is a pure function of the stored diffs, and storage is
//! content-addressed: saving a state set that is already stored returns
//! the hash it already has.

use vstd::prelude::*;

use crate::util::{
    lemma_pairs_map_unique, pairs_map, pairs_sorted, state_get, state_remove, state_set,
};

verus! {

/// Longest diff chain tolerated before a full checkpoint is stored.
pub const CHECKPOINT_DEPTH: u64 = 64;

/// Hard cap on the number of stored state hashes.
pub const STATE_CAP: u64 = 0xFFFF_FFFF;

#[derive(Clone, Copy, PartialEq, Eq, Structural, Debug)]
pub enum CompressError {
    /// The diff store reached its capacity.
    Full,
    /// A parent hash does not name a stored state.
    UnknownHash,
}

/// One stored state: a diff against a parent hash, or a checkpoint when
/// `parent` is `None`.
pub struct StateDiff {
    pub parent: Option<u64>,
    pub added: Vec<(u64, u64)>,
    pub removed: Vec<(u64, u64)>,
}

/// Removes the keys of every pair of `s` from `m`, left to right.
pub open spec fn remove_all(m: Map<u64, u64>, s: Seq<(u64, u64)>) -> Map<u64, u64>
    decreases s.len(),
{
    if s.len() == 0 {
        m
    } else {
        remove_all(m, s.drop_last()).remove(s.last().0)
    }
}

/// Binds every pair of `s` in `m`, left to right.
pub open spec fn add_all(m: Map<u64, u64>, s: Seq<(u64, u64)>) -> Map<u64, u64>
    decreases s.len(),
{
    if s.len() == 0 {
        m
    } else {
        add_all(m, s.drop_last()).insert(s.last().0, s.last().1)
    }
}

pub proof fn lemma_remove_all_spec(m: Map<u64, u64>, s: Seq<(u64, u64)>, x: u64)
    ensures
        remove_all(m, s).dom().contains(x) <==> (m.dom().contains(x) && !crate::util::key_in(
            s,
            x,
        )),
        remove_all(m, s).dom().contains(x) ==> remove_all(m, s)[x] == m[x],
    decreases s.len(),
{
    if s.len() > 0 {
        lemma_remove_all_spec(m, s.drop_last(), x);
        if crate::util::key_in(s, x) && x != s.last().0 {
            let i = choose|i: int| 0 <= i < s.len() && (#[trigger] s[i]).0 == x;
            assert(s.drop_last()[i] == s[i]);
            assert(crate::util::key_in(s.drop_last(), x));
        }
        if crate::util::key_in(s.drop_last(), x) {
            let i = choose|i: int|
                0 <= i < s.drop_last().len() && (#[trigger] s.drop_last()[i]).0 == x;
            assert(s[i] == s.drop_last()[i]);
            assert(crate::util::key_in(s, x));
        }
    }
}

/// When the pairs of `s` carry pairwise distinct keys, `add_all` binds
/// exactly those pairs on top of `m`.
pub proof fn lemma_add_all_spec(m: Map<u64, u64>, s: Seq<(u64, u64)>, x: u64)
    requires
        forall|i: int, j: int| 0 <= i < j < s.len() ==> (#[trigger] s[i]).0 != (#[trigger] s[j]).0,
    ensures
        add_all(m, s).dom().contains(x) <==> (m.dom().contains(x) || crate::util::key_in(s, x)),
        crate::util::key_in(s, x) ==> forall|i: int|
            0 <= i < s.len() && (#[trigger] s[i]).0 == x ==> add_all(m, s)[x] == s[i].1,
        !crate::util::key_in(s, x) && m.dom().contains(x) ==> add_all(m, s)[x] == m[x],
    decreases s.len(),
{
    if s.len() > 0 {
        lemma_add_all_spec(m, s.drop_last(), x);
        if crate::util::key_in(s, x) && x != s.last().0 {
            let i = choose|i: int| 0 <= i < s.len() && (#[trigger] s[i]).0 == x;
            assert(s.drop_last()[i] == s[i]);
            assert(crate::util::key_in(s.drop_last(), x));
        }
        if crate::util::key_in(s.drop_last(), x) {
            let i = choose|i: int|
                0 <= i < s.drop_last().len() && (#[trigger] s.drop_last()[i]).0 == x;
            assert(s[i] == s.drop_last()[i]);
        }
        assert forall|i: int|
            0 <= i < s.len() && (#[trigger] s[i]).0 == x implies add_all(m, s)[x] == s[i].1 by {
            if i < s.len() - 1 {
                assert(s.drop_last()[i] == s[i]);
                assert(s[i].0 != s.last().0);
            }
        }
    }
}

/// The state a diff stands for: its parent's state with the removed
/// pairs taken out and the added pairs put in.
pub open spec fn spec_apply(m: Map<u64, u64>, added: Seq<(u64, u64)>, removed: Seq<(u64, u64)>)
    -> Map<u64, u64> {
    add_all(remove_all(m, removed), added)
}

/// The full state set stored under hash `h`: the diff chain below `h`,
/// applied from its checkpoint upward.
pub open spec fn diff_state(diffs: Seq<StateDiff>, h: int) -> Map<u64, u64>
    decreases h,
{
    if 0 <= h < diffs.len() {
        match diffs[h].parent {
            None => pairs_map(diffs[h].added@),
            Some(p) => if p < h {
                spec_apply(diff_state(diffs, p as int), diffs[h].added@, diffs[h].removed@)
            } else {
                Map::empty()
            },
        }
    } else {
        Map::empty()
    }
}

/// A stored state is read off the prefix of the diff log below it, so
/// later saves never change it.
pub proof fn lemma_diff_state_prefix(a: Seq<StateDiff>, b: Seq<StateDiff>, h: int)
    requires
        a.len() <= b.len(),
        b.take(a.len() as int) =~= a,
        0 <= h < a.len(),
    ensures
        diff_state(b, h) == diff_state(a, h),
    decreases h,
{
    assert(b.take(a.len() as int)[h] == b[h]);
    assert(b[h] == a[h]);
    match a[h].parent {
        None => {},
        Some(p) => {
            if p < h {
                lemma_diff_state_prefix(a, b, p as int);
            }
        },
    }
}

/// How many diffs must be applied to reconstruct the state under `h`:
/// the length of its parent chain down to a checkpoint.
pub open spec fn spec_chain_len(diffs: Seq<StateDiff>, h: int) -> nat
    decreases h,
{
    if 0 <= h < diffs.len() {
        match diffs[h].parent {
            None => 1,
            Some(p) => if p < h {
                1 + spec_chain_len(diffs, p as int)
            } else {
                1
            },
        }
    } else {
        0
    }
}

/// Chain lengths, like states, are read off the prefix below a hash.
pub proof fn lemma_chain_len_prefix(a: Seq<StateDiff>, b: Seq<StateDiff>, h: int)
    requires
        a.len() <= b.len(),
        b.take(a.len() as int) =~= a,
        0 <= h < a.len(),
    ensures
        spec_chain_len(b, h) == spec_chain_len(a, h),
    decreases h,
{
    assert(b.take(a.len() as int)[h] == b[h]);
    assert(b[h] == a[h]);
    match a[h].parent {
        None => {},
        Some(p) => {
            if p < h {
                lemma_chain_len_prefix(a, b, p as int);
            }
        },
    }
}

pub struct StateCompressor {
    diffs: Vec<StateDiff>,
}

impl StateCompressor {
    /// The stored diff log; the short state hash of a state is its
    /// position in this log.
    pub closed spec fn view(&self) -> Seq<StateDiff> {
        self.diffs@
    }

    pub open spec fn wf(&self) -> bool {
        &&& forall|h: int|
            0 <= h < self@.len() ==> match (#[trigger] self@[h]).parent {
                Some(p) => p < h,
                None => true,
            }
        &&& forall|h1: int, h2: int|
            0 <= h1 < h2 < self@.len() ==> diff_state(self@, h1) !== diff_state(self@, h2)
        &&& forall|h: int|
            0 <= h < self@.len() ==> #[trigger] spec_chain_len(self@, h) <= CHECKPOINT_DEPTH + 1
    }

    pub fn new() -> (c: Self)
        ensures
            c.wf(),
            c@.len() == 0,
    {
        StateCompressor { diffs: Vec::new() }
    }

    /// How many state hashes are stored.
    pub fn num_states(&self) -> (n: usize)
        ensures
            n == self@.len(),
    {
        self.diffs.len()
    }

    /// Reconstructs the full state set stored under `h` by walking its
    /// diff chain down to a checkpoint and applying the diffs upward.
    #[verifier::rlimit(60)]
    pub fn load_state(&self, h: u64) -> (r: Vec<(u64, u64)>)
        requires
            self.wf(),
            h < self@.len(),
        ensures
            pairs_sorted(r@),
            pairs_map(r@) == diff_state(self@, h as int),
    {
        // collect the chain from h down to its checkpoint
        let mut chain: Vec<u64> = Vec::new();
        let mut cur: u64 = h;
        chain.push(cur);
        loop
            invariant
                self.wf(),
                h < self@.len(),
                cur < self@.len(),
                chain@.len() >= 1,
                chain@[0] == h,
                chain@.last() == cur,
                forall|i: int|
                    0 < i < chain@.len() ==> #[trigger] chain@[i] < chain@[i - 1]
                        && self@[chain@[i - 1] as int].parent == Some(chain@[i]),
            ensures
                chain@.len() >= 1,
                chain@[0] == h,
                forall|i: int|
                    0 < i < chain@.len() ==> #[trigger] chain@[i] < chain@[i - 1]
                        && self@[chain@[i - 1] as int].parent == Some(chain@[i]),
                forall|i: int| 0 <= i < chain@.len() ==> #[trigger] chain@[i] < self@.len(),
                self@[chain@.last() as int].parent is None,
            decreases cur,
        {
            let n = self.diffs.len();
            proof {
                assert(cur < n);
            }
            let d = &self.diffs[cur as usize];
            proof {
                assert(*d == self@[cur as int]);
            }
            match d.parent {
                Some(p) => {
                    proof {
                        assert(self@[cur as int].parent == Some(p));
                        assert(p < cur);
                        let ghost c0 = chain@;
                        assert(c0.push(p)[c0.len() as int] == p);
                    }
                    let ghost c0 = chain@;
                    chain.push(p);
                    proof {
                        assert(chain@.last() == p);
                        assert forall|i: int| 0 < i < chain@.len() implies #[trigger] chain@[i]
                            < chain@[i - 1] && self@[chain@[i - 1] as int].parent == Some(
                            chain@[i],
                        ) by {
                            if i < c0.len() {
                                assert(chain@[i] == c0[i]);
                                assert(chain@[i - 1] == c0[i - 1]);
                            } else {
                                assert(chain@[i] == p);
                                assert(chain@[i - 1] == cur);
                            }
                        }
                    }
                    cur = p;
                },
                None => {
                    proof {
                        assert(self@[cur as int].parent is None);
                        assert forall|i: int| 0 <= i < chain@.len() implies #[trigger] chain@[i]
                            < self@.len() by {
                            lemma_chain_bounded(chain@, self@.len() as int, i);
                        }
                    }
                    break;
                },
            }
        }
        // cur's diff is a checkpoint; apply diffs from it upward
        let mut state: Vec<(u64, u64)> = Vec::new();
        let mut i: usize = chain.len();
        while i > 0
            invariant
                self.wf(),
                i <= chain@.len(),
                chain@.len() >= 1,
                chain@[0] == h,
                forall|j: int|
                    0 < j < chain@.len() ==> #[trigger] chain@[j] < chain@[j - 1]
                        && self@[chain@[j - 1] as int].parent == Some(chain@[j]),
                forall|j: int| 0 <= j < chain@.len() ==> #[trigger] chain@[j] < self@.len(),
                self@[chain@.last() as int].parent is None,
                i < chain@.len() ==> pairs_sorted(state@) && pairs_map(state@) == diff_state(
                    self@,
                    chain@[i as int] as int,
                ),
                i == chain@.len() ==> state@.len() == 0,
            decreases i,
        {
            i = i - 1;
            let idx = chain[i];
            let n = self.diffs.len();
            proof {
                assert(idx < n);
            }
            let d = &self.diffs[idx as usize];
            proof {
                assert(*d == self@[idx as int]);
            }
            match d.parent {
                None => {
                    proof {
                        assert(self@[idx as int].parent is None);
                        if i < chain@.len() - 1 {
                            assert(self@[chain@[i as int] as int].parent == Some(
                                chain@[i as int + 1],
                            ));
                            assert(false);
                        }
                    }
                    state = sorted_copy(&d.added);
                    proof {
                        lemma_add_all_from_empty(d.added@);
                    }
                },
                Some(p) => {
                    proof {
                        assert(self@[idx as int].parent == Some(p));
                        if i == chain@.len() - 1 {
                            assert(self@[chain@.last() as int].parent is None);
                            assert(false);
                        }
                        assert(self@[chain@[i as int] as int].parent == Some(chain@[i as int + 1]));
                        assert(chain@[i as int + 1] == p);
                        assert(p < idx);
                    }
                    state = apply_diff(state, &d.added, &d.removed);
                },
            }
        }
        proof {
            assert(chain@[0] == h);
        }
        state
    }
}

/// The pairs of `a` that `b` does not also hold: a key of `a` survives
/// into the delta unless `b` binds it to the same value.
pub open spec fn delta_map(am: Map<u64, u64>, bm: Map<u64, u64>) -> Map<u64, u64> {
    Map::new(
        |k: u64| am.dom().contains(k) && !(bm.dom().contains(k) && bm[k] == am[k]),
        |k: u64| am[k],
    )
}

/// Computes the pair-level delta of two canonical state sets.
pub fn pairs_diff(a: &Vec<(u64, u64)>, b: &Vec<(u64, u64)>) -> (r: Vec<(u64, u64)>)
    requires
        pairs_sorted(a@),
        pairs_sorted(b@),
    ensures
        pairs_sorted(r@),
        pairs_map(r@) == delta_map(pairs_map(a@), pairs_map(b@)),
{
    let ghost am = pairs_map(a@);
    let ghost bm = pairs_map(b@);
    let mut out: Vec<(u64, u64)> = Vec::new();
    let mut i: usize = 0;
    while i < a.len()
        invariant
            i <= a@.len(),
            pairs_sorted(a@),
            pairs_sorted(b@),
            am == pairs_map(a@),
            bm == pairs_map(b@),
            pairs_sorted(out@),
            forall|j: int|
                0 <= j < out@.len() ==> crate::util::key_in(a@.take(i as int), (
                #[trigger] out@[j]).0),
            forall|j: int|
                0 <= j < out@.len() ==> delta_map(am, bm).dom().contains((#[trigger] out@[j]).0)
                    && delta_map(am, bm)[out@[j].0] == out@[j].1,
            forall|idx: int|
                0 <= idx < i && delta_map(am, bm).dom().contains((#[trigger] a@[idx]).0)
                    ==> crate::util::key_in(out@, a@[idx].0),
        decreases a@.len() - i,
    {
        let (k, v) = a[i];
        proof {
            crate::util::lemma_pairs_map_index(a@, i as int);
        }
        let keep: bool = match state_get(b, k) {
            Some(bv) => bv != v,
            None => true,
        };
        let ghost out0 = out@;
        if keep {
            proof {
                assert forall|j: int| 0 <= j < out0.len() implies (#[trigger] out0[j]).0 < k by {
                    let w = choose|w: int|
                        0 <= w < i && (#[trigger] a@.take(i as int)[w]).0 == out0[j].0;
                    assert(a@[w].0 == out0[j].0);
                }
            }
            out.push((k, v));
        }
        proof {
            assert forall|j: int| 0 <= j < out@.len() implies crate::util::key_in(
                a@.take(i + 1),
                (#[trigger] out@[j]).0,
            ) by {
                if j < out0.len() {
                    let w = choose|w: int|
                        0 <= w < i && (#[trigger] a@.take(i as int)[w]).0 == out0[j].0;
                    assert(a@.take(i + 1)[w].0 == out@[j].0);
                } else {
                    assert(a@.take(i + 1)[i as int].0 == k);
                }
            }
            assert forall|idx: int|
                0 <= idx < i + 1 && delta_map(am, bm).dom().contains((#[trigger] a@[idx]).0)
                    implies crate::util::key_in(out@, a@[idx].0) by {
                if idx < i {
                    let w = choose|w: int|
                        0 <= w < out0.len() && (#[trigger] out0[w]).0 == a@[idx].0;
                    assert(out@[w].0 == a@[idx].0);
                } else {
                    assert(out@[out@.len() - 1].0 == k);
                }
            }
        }
        i = i + 1;
    }
    proof {
        crate::util::lemma_pairs_map_domain(a@);
        assert(a@.take(a@.len() as int) =~= a@);
        assert forall|x: u64| crate::util::key_in(out@, x) implies #[trigger] delta_map(am, bm)
            .dom().contains(x) by {
            let j = choose|j: int| 0 <= j < out@.len() && (#[trigger] out@[j]).0 == x;
        }
        assert forall|x: u64| #[trigger]
            delta_map(am, bm).dom().contains(x) implies crate::util::key_in(out@, x) by {
            let idx = choose|idx: int| 0 <= idx < a@.len() && (#[trigger] a@[idx]).0 == x;
        }
        crate::util::lemma_pairs_map_eq(out@, delta_map(am, bm));
    }
    out
}

/// Applying the deltas of `fm` against `pm` to `pm` lands exactly on
/// `fm`.
pub proof fn lemma_apply_delta_exact(
    pm: Map<u64, u64>,
    fm: Map<u64, u64>,
    added: Seq<(u64, u64)>,
    removed: Seq<(u64, u64)>,
)
    requires
        pairs_sorted(added),
        pairs_sorted(removed),
        pairs_map(added) == delta_map(fm, pm),
        pairs_map(removed) == delta_map(pm, fm),
    ensures
        spec_apply(pm, added, removed) =~= fm,
{
    crate::util::lemma_pairs_map_domain(added);
    crate::util::lemma_pairs_map_domain(removed);
    let mid = remove_all(pm, removed);
    let res = spec_apply(pm, added, removed);
    assert forall|x: u64| #[trigger] res.dom().contains(x) implies fm.dom().contains(x) && res[x]
        == fm[x] by {
        lemma_delta_pointwise(pm, fm, added, removed, x);
    }
    assert forall|x: u64| #[trigger] fm.dom().contains(x) implies res.dom().contains(x) by {
        lemma_delta_pointwise(pm, fm, added, removed, x);
    }
    assert(res =~= fm);
}

proof fn lemma_delta_pointwise(
    pm: Map<u64, u64>,
    fm: Map<u64, u64>,
    added: Seq<(u64, u64)>,
    removed: Seq<(u64, u64)>,
    x: u64,
)
    requires
        pairs_sorted(added),
        pairs_sorted(removed),
        pairs_map(added) == delta_map(fm, pm),
        pairs_map(removed) == delta_map(pm, fm),
    ensures
        spec_apply(pm, added, removed).dom().contains(x) == fm.dom().contains(x),
        fm.dom().contains(x) ==> spec_apply(pm, added, removed)[x] == fm[x],
{
    crate::util::lemma_pairs_map_domain(added);
    crate::util::lemma_pairs_map_domain(removed);
    let mid = remove_all(pm, removed);
    lemma_remove_all_spec(pm, removed, x);
    lemma_add_all_spec(mid, added, x);
    if crate::util::key_in(added, x) {
        let i = choose|i: int| 0 <= i < added.len() && (#[trigger] added[i]).0 == x;
        crate::util::lemma_pairs_map_index(added, i);
        assert(pairs_map(added)[x] == added[i].1);
        assert(delta_map(fm, pm).dom().contains(x));
        assert(added[i].1 == fm[x]);
        assert(spec_apply(pm, added, removed)[x] == fm[x]);
    } else {
        if fm.dom().contains(x) {
            // x is not an added key, so the parent already binds it right
            assert(!delta_map(fm, pm).dom().contains(x));
            assert(pm.dom().contains(x) && pm[x] == fm[x]);
            assert(!delta_map(pm, fm).dom().contains(x));
            assert(!crate::util::key_in(removed, x));
            assert(mid.dom().contains(x) && mid[x] == pm[x]);
        } else {
            if pm.dom().contains(x) {
                assert(delta_map(pm, fm).dom().contains(x));
                assert(crate::util::key_in(removed, x));
                assert(!mid.dom().contains(x));
            }
        }
    }
}

/// Every entry of a strictly descending chain starting under `bound`
/// stays under `bound`.
proof fn lemma_chain_bounded(c: Seq<u64>, bound: int, i: int)
    requires
        c.len() >= 1,
        c[0] < bound,
        forall|j: int| 0 < j < c.len() ==> #[trigger] c[j] < c[j - 1],
        0 <= i < c.len(),
    ensures
        c[i] < bound,
    decreases i,
{
    if i > 0 {
        lemma_chain_bounded(c, bound, i - 1);
    }
}

/// The state the parent hash stands for: the stored state under it, or
/// the empty state when there is no parent.
pub open spec fn prev_state(diffs: Seq<StateDiff>, prev: Option<u64>) -> Map<u64, u64> {
    match prev {
        Some(p) => diff_state(diffs, p as int),
        None => Map::empty(),
    }
}

impl StateCompressor {
    /// How many diffs lie between `h` and its checkpoint, counted up to
    /// the checkpoint threshold.
    fn chain_depth(&self, h: u64) -> (d: u64)
        requires
            self.wf(),
            h < self@.len(),
        ensures
            d <= CHECKPOINT_DEPTH,
            d < CHECKPOINT_DEPTH ==> spec_chain_len(self@, h as int) == d + 1,
    {
        let mut d: u64 = 0;
        let mut cur: u64 = h;
        loop
            invariant
                self.wf(),
                h < self@.len(),
                cur < self@.len(),
                d <= CHECKPOINT_DEPTH,
                spec_chain_len(self@, h as int) == d + spec_chain_len(self@, cur as int),
            ensures
                d <= CHECKPOINT_DEPTH,
                d < CHECKPOINT_DEPTH ==> spec_chain_len(self@, h as int) == d + 1,
            decreases CHECKPOINT_DEPTH - d, cur,
        {
            if d >= CHECKPOINT_DEPTH {
                return d;
            }
            let n = self.diffs.len();
            proof {
                assert(cur < n);
            }
            match self.diffs[cur as usize].parent {
                Some(p) => {
                    proof {
                        assert(self@[cur as int].parent == Some(p));
                        assert(spec_chain_len(self@, cur as int) == 1 + spec_chain_len(
                            self@,
                            p as int,
                        ));
                    }
                    d = d + 1;
                    cur = p;
                },
                None => {
                    proof {
                        assert(spec_chain_len(self@, cur as int) == 1);
                    }
                    return d;
                },
            }
        }
    }

    /// Saves a full state set, returning its short state hash and the
    /// delta against `prev` for the caller to persist.
    ///
    /// Storage is content-addressed: a state set stored before keeps the
    /// hash it had, the store does not change, and the delta is empty.
    /// A fresh state set is stored as a diff against `prev`, or as a
    /// full checkpoint when the chain above `prev` has grown too long.
    #[verifier::rlimit(100)]
    pub fn save_state(&mut self, full: &Vec<(u64, u64)>, prev: Option<u64>) -> (r: Result<
        (u64, Vec<(u64, u64)>, Vec<(u64, u64)>),
        CompressError,
    >)
        requires
            old(self).wf(),
            pairs_sorted(full@),
        ensures
            final(self).wf(),
            old(self)@.len() <= final(self)@.len(),
            final(self)@.take(old(self)@.len() as int) =~= old(self)@,
            match r {
                Ok((h, added, removed)) => {
                    &&& h < final(self)@.len()
                    &&& diff_state(final(self)@, h as int) == pairs_map(full@)
                    &&& ((exists|h0: int|
                        0 <= h0 < old(self)@.len() && diff_state(old(self)@, h0) == pairs_map(
                            full@,
                        )) ==> final(self)@ == old(self)@ && h < old(self)@.len()
                        && added@.len() == 0 && removed@.len() == 0)
                    &&& (!(exists|h0: int|
                        0 <= h0 < old(self)@.len() && diff_state(old(self)@, h0) == pairs_map(
                            full@,
                        )) ==> h == old(self)@.len() && final(self)@.len() == old(self)@.len() + 1
                        && pairs_sorted(added@) && pairs_sorted(removed@) && pairs_map(added@)
                        == delta_map(pairs_map(full@), prev_state(old(self)@, prev))
                        && pairs_map(removed@) == delta_map(
                        prev_state(old(self)@, prev),
                        pairs_map(full@),
                    ))
                },
                Err(e) => {
                    &&& final(self)@ == old(self)@
                    &&& (e == CompressError::UnknownHash <==> (prev is Some && prev->Some_0
                        >= old(self)@.len()))
                    &&& (e == CompressError::Full ==> old(self)@.len() >= STATE_CAP && !(exists|
                        h0: int,
                    |
                        0 <= h0 < old(self)@.len() && diff_state(old(self)@, h0) == pairs_map(
                            full@,
                        )))
                },
            },
    {
        proof {
            assert(self@.take(self@.len() as int) =~= self@);
        }
        let n = self.diffs.len();
        // reject an unknown parent hash
        match prev {
            Some(p) => {
                if p >= n as u64 {
                    return Err(CompressError::UnknownHash);
                }
            },
            None => {},
        }
        // content addressing: look for this state among the stored ones
        let mut h0: usize = 0;
        while h0 < n
            invariant
                self.wf(),
                n == self@.len(),
                pairs_sorted(full@),
                h0 <= n,
                forall|j: int| 0 <= j < h0 ==> diff_state(self@, j) !== pairs_map(full@),
            decreases n - h0,
        {
            let cand = self.load_state(h0 as u64);
            if pairs_eq(&cand, full) {
                proof {
                    assert(diff_state(self@, h0 as int) == pairs_map(full@));
                    assert(self@.take(self@.len() as int) =~= self@);
                }
                return Ok(((h0 as u64), Vec::new(), Vec::new()));
            }
            proof {
                if diff_state(self@, h0 as int) == pairs_map(full@) {
                    lemma_pairs_map_unique(cand@, full@);
                    assert(false);
                }
            }
            h0 = h0 + 1;
        }
        if n as u64 >= STATE_CAP {
            proof {
                // the scan found no stored state equal to this one
                if exists|h0: int|
                    0 <= h0 < self@.len() && diff_state(self@, h0) == pairs_map(full@) {
                    let h0 = choose|h0: int|
                        0 <= h0 < self@.len() && diff_state(self@, h0) == pairs_map(full@);
                    assert(diff_state(self@, h0) !== pairs_map(full@));
                    assert(false);
                }
            }
            return Err(CompressError::Full);
        }
        // fresh content: compute the delta against the parent state
        let parent_vec: Vec<(u64, u64)> = match prev {
            Some(p) => self.load_state(p),
            None => Vec::new(),
        };
        proof {
            if prev is None {
                assert(pairs_map(parent_vec@) =~= prev_state(self@, prev));
            }
        }
        let added = pairs_diff(full, &parent_vec);
        let removed = pairs_diff(&parent_vec, full);
        // store a checkpoint when the chain above the parent is long
        let prev_chain: u64 = match prev {
            Some(p) => self.chain_depth(p),
            None => 0,
        };
        let checkpoint: bool = match prev {
            Some(_) => prev_chain >= CHECKPOINT_DEPTH,
            None => true,
        };
        let ghost pre = *self;
        let h = n as u64;
        if checkpoint {
            let entry = StateDiff { parent: None, added: sorted_copy(full), removed: Vec::new() };
            let ghost entry_state = pairs_map(entry.added@);
            self.diffs.push(entry);
            proof {
                assert(self@.take(pre@.len() as int) =~= pre@);
                assert(self@[h as int].parent is None);
                assert(diff_state(self@, h as int) == pairs_map(full@));
                assert(spec_chain_len(self@, h as int) == 1);
                lemma_save_wf(pre@, self@, pairs_map(full@));
            }
        } else {
            let p = match prev {
                Some(p) => p,
                None => 0,
            };
            let entry = StateDiff {
                parent: Some(p),
                added: clone_pairs(&added),
                removed: clone_pairs(&removed),
            };
            self.diffs.push(entry);
            proof {
                assert(self@.take(pre@.len() as int) =~= pre@);
                assert(self@[h as int].parent == Some(p));
                assert(p < h);
                lemma_diff_state_prefix(pre@, self@, p as int);
                lemma_apply_delta_exact(
                    prev_state(pre@, prev),
                    pairs_map(full@),
                    added@,
                    removed@,
                );
                assert(diff_state(self@, h as int) == spec_apply(
                    diff_state(self@, p as int),
                    added@,
                    removed@,
                ));
                assert(diff_state(self@, h as int) =~= pairs_map(full@));
                // this diff extends a chain still under the threshold
                assert(prev_chain < CHECKPOINT_DEPTH);
                assert(spec_chain_len(pre@, p as int) == prev_chain + 1);
                lemma_chain_len_prefix(pre@, self@, p as int);
                assert(spec_chain_len(self@, h as int) == 1 + spec_chain_len(self@, p as int));
                assert(spec_chain_len(self@, h as int) <= CHECKPOINT_DEPTH + 1);
                lemma_save_wf(pre@, self@, pairs_map(full@));
            }
        }
        Ok((h, added, removed))
    }
}

/// Pushing one fresh state onto a well-formed diff log keeps it
/// well-formed.
proof fn lemma_save_wf(pre: Seq<StateDiff>, post: Seq<StateDiff>, fresh: Map<u64, u64>)
    requires
        post.len() == pre.len() + 1,
        post.take(pre.len() as int) =~= pre,
        forall|h: int|
            0 <= h < pre.len() ==> match (#[trigger] pre[h]).parent {
                Some(p) => p < h,
                None => true,
            },
        forall|h1: int, h2: int|
            0 <= h1 < h2 < pre.len() ==> diff_state(pre, h1) !== diff_state(pre, h2),
        forall|j: int| 0 <= j < pre.len() ==> diff_state(pre, j) !== fresh,
        forall|h: int|
            0 <= h < pre.len() ==> #[trigger] spec_chain_len(pre, h) <= CHECKPOINT_DEPTH + 1,
        spec_chain_len(post, post.len() - 1) <= CHECKPOINT_DEPTH + 1,
        diff_state(post, post.len() - 1) == fresh,
        match post[post.len() - 1].parent {
            Some(p) => p < post.len() - 1,
            None => true,
        },
    ensures
        forall|h: int|
            0 <= h < post.len() ==> match (#[trigger] post[h]).parent {
                Some(p) => p < h,
                None => true,
            },
        forall|h1: int, h2: int|
            0 <= h1 < h2 < post.len() ==> diff_state(post, h1) !== diff_state(post, h2),
        forall|h: int|
            0 <= h < post.len() ==> #[trigger] spec_chain_len(post, h) <= CHECKPOINT_DEPTH + 1,
{
    assert forall|h: int| 0 <= h < post.len() implies match (#[trigger] post[h]).parent {
        Some(p) => p < h,
        None => true,
    } by {
        if h < pre.len() {
            assert(post.take(pre.len() as int)[h] == post[h]);
        }
    }
    assert forall|h1: int, h2: int| 0 <= h1 < h2 < post.len() implies diff_state(post, h1)
        !== diff_state(post, h2) by {
        if h2 < pre.len() {
            lemma_diff_state_prefix(pre, post, h1);
            lemma_diff_state_prefix(pre, post, h2);
        } else {
            lemma_diff_state_prefix(pre, post, h1);
        }
    }
    assert forall|h: int|
        0 <= h < post.len() implies #[trigger] spec_chain_len(post, h) <= CHECKPOINT_DEPTH
        + 1 by {
        if h < pre.len() {
            lemma_chain_len_prefix(pre, post, h);
        }
    }
}

/// Checkpoints bound reconstruction cost: no stored state's diff
/// chain is longer than the checkpoint threshold plus its own link,
/// so `load_state` applies a bounded number of diffs whatever the
/// store's history.
pub proof fn lemma_reconstruction_bounded(c: StateCompressor, h: u64)
    requires
        c.wf(),
        h < c@.len(),
    ensures
        spec_chain_len(c@, h as int) <= CHECKPOINT_DEPTH + 1,
{
}

/// Diff round-trip: loading the hash under which a state set was saved
/// reproduces that state set exactly. The two hypotheses are what
/// `save_state` and `load_state` ensure; canonical form makes the
/// reproduction literal, entry for entry.
pub proof fn lemma_diff_round_trip(
    c: StateCompressor,
    h: u64,
    full: Seq<(u64, u64)>,
    loaded: Seq<(u64, u64)>,
)
    requires
        pairs_sorted(full),
        pairs_sorted(loaded),
        diff_state(c@, h as int) == pairs_map(full),
        pairs_map(loaded) == diff_state(c@, h as int),
    ensures
        loaded =~= full,
{
    lemma_pairs_map_unique(loaded, full);
}

/// Content addressing: no two stored hashes hold the same state set,
/// so saving content-identical state sets returns one and the same
/// short state hash, never a duplicate.
pub proof fn lemma_content_addressed(c: StateCompressor, h1: u64, h2: u64)
    requires
        c.wf(),
        h1 < c@.len(),
        h2 < c@.len(),
        diff_state(c@, h1 as int) == diff_state(c@, h2 as int),
    ensures
        h1 == h2,
{
    if h1 < h2 {
        assert(diff_state(c@, h1 as int) !== diff_state(c@, h2 as int));
    }
    if h2 < h1 {
        assert(diff_state(c@, h2 as int) !== diff_state(c@, h1 as int));
    }
}

/// Compares two pair lists entry by entry.
pub fn pairs_eq(a: &Vec<(u64, u64)>, b: &Vec<(u64, u64)>) -> (r: bool)
    ensures
        r == (a@ =~= b@),
{
    if a.len() != b.len() {
        return false;
    }
    let mut i: usize = 0;
    while i < a.len()
        invariant
            i <= a@.len(),
            a@.len() == b@.len(),
            forall|j: int| 0 <= j < i ==> a@[j] == b@[j],
        decreases a@.len() - i,
    {
        if a[i].0 != b[i].0 || a[i].1 != b[i].1 {
            proof {
                assert(a@[i as int] != b@[i as int]);
            }
            return false;
        }
        i = i + 1;
    }
    proof {
        assert(a@ =~= b@);
    }
    true
}

/// Copies a pair list.
pub fn clone_pairs(v: &Vec<(u64, u64)>) -> (r: Vec<(u64, u64)>)
    ensures
        r@ =~= v@,
{
    let mut out: Vec<(u64, u64)> = Vec::new();
    let mut i: usize = 0;
    while i < v.len()
        invariant
            i <= v@.len(),
            out@ =~= v@.take(i as int),
        decreases v@.len() - i,
    {
        out.push(v[i]);
        proof {
            assert(out@ =~= v@.take(i + 1));
        }
        i = i + 1;
    }
    proof {
        assert(out@ =~= v@);
    }
    out
}

/// `add_all` from nothing binds exactly the added pairs.
proof fn lemma_add_all_from_empty(s: Seq<(u64, u64)>)
    ensures
        add_all(Map::<u64, u64>::empty(), s) == pairs_map(s),
    decreases s.len(),
{
    if s.len() > 0 {
        lemma_add_all_from_empty(s.drop_last());
    }
}

/// Copies a pair list into canonical sorted form.
pub fn sorted_copy(pairs: &Vec<(u64, u64)>) -> (r: Vec<(u64, u64)>)
    ensures
        pairs_sorted(r@),
        pairs_map(r@) == pairs_map(pairs@),
{
    let mut out: Vec<(u64, u64)> = Vec::new();
    let mut i: usize = 0;
    while i < pairs.len()
        invariant
            i <= pairs@.len(),
            pairs_sorted(out@),
            pairs_map(out@) == pairs_map(pairs@.take(i as int)),
        decreases pairs@.len() - i,
    {
        let (k, v) = pairs[i];
        let next = state_set(&out, k, v);
        proof {
            assert(pairs@.take(i + 1).drop_last() =~= pairs@.take(i as int));
            assert(pairs@.take(i + 1).last() == pairs@[i as int]);
        }
        out = next;
        i = i + 1;
    }
    proof {
        assert(pairs@.take(pairs@.len() as int) =~= pairs@);
    }
    out
}

/// Applies one stored diff to a reconstructed parent state.
pub fn apply_diff(parent: Vec<(u64, u64)>, added: &Vec<(u64, u64)>, removed: &Vec<(u64, u64)>) -> (r:
    Vec<(u64, u64)>)
    requires
        pairs_sorted(parent@),
    ensures
        pairs_sorted(r@),
        pairs_map(r@) == spec_apply(pairs_map(parent@), added@, removed@),
{
    let mut state = parent;
    let mut i: usize = 0;
    while i < removed.len()
        invariant
            i <= removed@.len(),
            pairs_sorted(state@),
            pairs_map(state@) == remove_all(pairs_map(parent@), removed@.take(i as int)),
        decreases removed@.len() - i,
    {
        let next = state_remove(&state, removed[i].0);
        proof {
            assert(removed@.take(i + 1).drop_last() =~= removed@.take(i as int));
            assert(removed@.take(i + 1).last() == removed@[i as int]);
        }
        state = next;
        i = i + 1;
    }
    proof {
        assert(removed@.take(removed@.len() as int) =~= removed@);
    }
    let ghost after_remove = pairs_map(state@);
    let mut i: usize = 0;
    while i < added.len()
        invariant
            i <= added@.len(),
            pairs_sorted(state@),
            pairs_map(state@) == add_all(after_remove, added@.take(i as int)),
        decreases added@.len() - i,
    {
        let next = state_set(&state, added[i].0, added[i].1);
        proof {
            assert(added@.take(i + 1).drop_last() =~= added@.take(i as int));
            assert(added@.take(i + 1).last() == added@[i as int]);
        }
        state = next;
        i = i + 1;
    }
    proof {
        assert(added@.take(added@.len() as int) =~= added@);
    }
    state
}

} // verus!
