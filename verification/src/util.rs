//! Orders and sorting helpers shared by the state machinery.
//!
//! Event ids are byte strings; candidate events are ranked by a strict
//! total order, and sorted sequences over such orders are unique, which
//! is what makes state resolution a function of its input set.

use vstd::prelude::*;

verus! {

/// Strict lexicographic order on byte strings.
pub open spec fn bytes_lt(a: Seq<u8>, b: Seq<u8>) -> bool
    decreases a.len(),
{
    if b.len() == 0 {
        false
    } else if a.len() == 0 {
        true
    } else if a[0] < b[0] {
        true
    } else if a[0] > b[0] {
        false
    } else {
        bytes_lt(a.drop_first(), b.drop_first())
    }
}

pub proof fn lemma_bytes_lt_connected(a: Seq<u8>, b: Seq<u8>)
    ensures
        a =~= b || bytes_lt(a, b) || bytes_lt(b, a),
    decreases a.len(),
{
    if b.len() == 0 || a.len() == 0 {
    } else if a[0] == b[0] {
        lemma_bytes_lt_connected(a.drop_first(), b.drop_first());
        if a.drop_first() =~= b.drop_first() {
            assert forall|i: int| 0 <= i < a.len() implies a[i] == b[i] by {
                if i > 0 {
                    assert(a.drop_first()[i - 1] == b.drop_first()[i - 1]);
                }
            }
            assert(a =~= b);
        }
    }
}

pub proof fn lemma_bytes_lt_asymmetric(a: Seq<u8>, b: Seq<u8>)
    ensures
        !(bytes_lt(a, b) && bytes_lt(b, a)),
    decreases a.len(),
{
    if a.len() != 0 && b.len() != 0 && a[0] == b[0] {
        lemma_bytes_lt_asymmetric(a.drop_first(), b.drop_first());
    }
}

pub proof fn lemma_bytes_lt_transitive(a: Seq<u8>, b: Seq<u8>, c: Seq<u8>)
    requires
        bytes_lt(a, b),
        bytes_lt(b, c),
    ensures
        bytes_lt(a, c),
    decreases a.len(),
{
    if a.len() != 0 {
        if a[0] == b[0] && b[0] == c[0] {
            lemma_bytes_lt_transitive(a.drop_first(), b.drop_first(), c.drop_first());
        }
    }
}

/// Compares two byte vectors under `bytes_lt`.
pub fn bytes_less(a: &Vec<u8>, b: &Vec<u8>) -> (r: bool)
    ensures
        r == bytes_lt(a@, b@),
{
    let mut i: usize = 0;
    proof {
        assert(a@.skip(0) =~= a@);
        assert(b@.skip(0) =~= b@);
    }
    loop
        invariant
            i <= a.len(),
            i <= b.len(),
            a@.subrange(0, i as int) =~= b@.subrange(0, i as int),
            bytes_lt(a@, b@) == bytes_lt(a@.skip(i as int), b@.skip(i as int)),
        decreases a.len() - i,
    {
        if i == b.len() {
            return false;
        }
        if i == a.len() {
            return true;
        }
        let x = a[i];
        let y = b[i];
        if x < y {
            return true;
        }
        if x > y {
            return false;
        }
        proof {
            assert(a@.skip(i as int).drop_first() =~= a@.skip(i + 1));
            assert(b@.skip(i as int).drop_first() =~= b@.skip(i + 1));
            assert(a@.subrange(0, i + 1) =~= b@.subrange(0, i + 1));
        }
        i = i + 1;
    }
}

/// Copies a byte vector.
pub fn clone_bytes(v: &Vec<u8>) -> (r: Vec<u8>)
    ensures
        r@ == v@,
{
    let mut out: Vec<u8> = Vec::new();
    let mut i: usize = 0;
    while i < v.len()
        invariant
            i <= v@.len(),
            out@ =~= v@.take(i as int),
        decreases v@.len() - i,
    {
        out.push(v[i]);
        proof {
            assert(out@ =~= v@.take(i + 1));
        }
        i = i + 1;
    }
    proof {
        assert(out@ =~= v@);
    }
    out
}

/// Equality of two id vectors, decided entry by entry.
pub fn ids_eq(a: &Vec<u64>, b: &Vec<u64>) -> (r: bool)
    ensures
        r == (a@ == b@),
{
    if a.len() != b.len() {
        proof {
            assert(a@.len() != b@.len());
        }
        return false;
    }
    let mut i: usize = 0;
    while i < a.len()
        invariant
            i <= a.len(),
            a.len() == b.len(),
            a@.subrange(0, i as int) =~= b@.subrange(0, i as int),
        decreases a.len() - i,
    {
        if a[i] != b[i] {
            proof {
                assert(a@[i as int] != b@[i as int]);
                assert(a@ != b@);
            }
            return false;
        }
        proof {
            assert(a@.subrange(0, i + 1) =~= b@.subrange(0, i + 1));
        }
        i = i + 1;
    }
    proof {
        assert(a@.subrange(0, a.len() as int) =~= a@);
        assert(b@.subrange(0, b.len() as int) =~= b@);
        assert(a@ =~= b@);
    }
    true
}

/// Copies an id vector.
pub fn clone_ids(v: &Vec<u64>) -> (r: Vec<u64>)
    ensures
        r@ == v@,
{
    let mut out: Vec<u64> = Vec::new();
    let mut i: usize = 0;
    while i < v.len()
        invariant
            i <= v@.len(),
            out@ =~= v@.take(i as int),
        decreases v@.len() - i,
    {
        out.push(v[i]);
        proof {
            assert(out@ =~= v@.take(i + 1));
        }
        i = i + 1;
    }
    proof {
        assert(out@ =~= v@);
    }
    out
}

/// Equality of two byte vectors, decided byte by byte.
pub fn bytes_eq(a: &Vec<u8>, b: &Vec<u8>) -> (r: bool)
    ensures
        r == (a@ == b@),
{
    if a.len() != b.len() {
        proof {
            assert(a@.len() != b@.len());
        }
        return false;
    }
    let mut i: usize = 0;
    while i < a.len()
        invariant
            i <= a.len(),
            a.len() == b.len(),
            a@.subrange(0, i as int) =~= b@.subrange(0, i as int),
        decreases a.len() - i,
    {
        if a[i] != b[i] {
            proof {
                assert(a@[i as int] != b@[i as int]);
                assert(a@ != b@);
            }
            return false;
        }
        proof {
            assert(a@.subrange(0, i + 1) =~= b@.subrange(0, i + 1));
        }
        i = i + 1;
    }
    proof {
        assert(a@.subrange(0, a.len() as int) =~= a@);
        assert(b@.subrange(0, b.len() as int) =~= b@);
        assert(a@ =~= b@);
    }
    true
}

/// A strictly ascending sequence of ids; such a sequence represents a
/// finite set canonically.
pub open spec fn ids_sorted(s: Seq<u64>) -> bool {
    forall|i: int, j: int| 0 <= i < j < s.len() ==> s[i] < s[j]
}

/// A copy of the strictly ascending `v` with `x` put in.
pub fn sorted_insert(v: &Vec<u64>, x: u64) -> (r: Vec<u64>)
    requires
        ids_sorted(v@),
    ensures
        ids_sorted(r@),
        r@.to_set() =~= v@.to_set().insert(x),
{
    let mut out: Vec<u64> = Vec::new();
    let mut i: usize = 0;
    while i < v.len() && v[i] < x
        invariant
            i <= v@.len(),
            ids_sorted(v@),
            out@ =~= v@.take(i as int),
            forall|j: int| 0 <= j < i ==> v@[j] < x,
        decreases v@.len() - i,
    {
        out.push(v[i]);
        proof {
            assert(out@ =~= v@.take(i + 1));
        }
        i = i + 1;
    }
    let ghost i0 = i as int;
    out.push(x);
    if i < v.len() && v[i] == x {
        i = i + 1;
    }
    let ghost j0 = i as int;
    while i < v.len()
        invariant
            j0 <= i <= v@.len(),
            ids_sorted(v@),
            0 <= i0 <= j0 <= i0 + 1,
            i0 <= v@.len(),
            j0 > i0 ==> i0 < v@.len() && v@[i0] == x,
            j0 == i0 ==> (i0 == v@.len() || v@[i0] > x),
            forall|j: int| 0 <= j < i0 ==> v@[j] < x,
            out@ =~= v@.take(i0).push(x) + v@.subrange(j0, i as int),
        decreases v@.len() - i,
    {
        out.push(v[i]);
        proof {
            assert(out@ =~= v@.take(i0).push(x) + v@.subrange(j0, i + 1));
        }
        i = i + 1;
    }
    proof {
        let s = v@;
        let o = out@;
        assert(o =~= s.take(i0).push(x) + s.subrange(j0, s.len() as int));
        assert forall|a: int, b: int| 0 <= a < b < o.len() implies o[a] < o[b] by {
            if a > i0 {
                assert(o[a] == s[a - (i0 + 1) + j0]);
            }
            if b > i0 {
                assert(o[b] == s[b - (i0 + 1) + j0]);
                assert(s[b - (i0 + 1) + j0] > x) by {
                    if j0 == i0 + 1 {
                        assert(s[i0] == x);
                    }
                }
            }
        }
        assert forall|y: u64| #[trigger] o.to_set().contains(y) implies s.to_set().insert(
            x,
        ).contains(y) by {
            let i = choose|i: int| 0 <= i < o.len() && o[i] == y;
            if i < i0 {
                assert(o[i] == s[i]);
                assert(s.to_set().contains(y));
            } else if i > i0 {
                assert(o[i] == s[i - (i0 + 1) + j0]);
                assert(s.to_set().contains(y));
            }
        }
        assert forall|y: u64| #[trigger] s.to_set().insert(x).contains(y) implies o.to_set()
            .contains(y) by {
            if y == x {
                assert(o[i0] == x);
            } else {
                let i = choose|i: int| 0 <= i < s.len() && s[i] == y;
                if i < i0 {
                    assert(o[i] == s[i]);
                } else {
                    assert(i >= j0) by {
                        if j0 == i0 + 1 && i == i0 {
                            assert(s[i] == x);
                        } else if j0 == i0 && i == i0 {
                            assert(s[i0] > x || s[i0] < x);
                        }
                    }
                    assert(o[i - j0 + i0 + 1] == s[i]);
                }
            }
        }
    }
    out
}

/// The strictly ascending sequence holding exactly the elements of `v`.
pub fn sort_dedup(v: &Vec<u64>) -> (r: Vec<u64>)
    ensures
        ids_sorted(r@),
        r@.to_set() =~= v@.to_set(),
{
    let mut out: Vec<u64> = Vec::new();
    let mut i: usize = 0;
    while i < v.len()
        invariant
            i <= v@.len(),
            ids_sorted(out@),
            out@.to_set() =~= v@.take(i as int).to_set(),
        decreases v@.len() - i,
    {
        let next = sorted_insert(&out, v[i]);
        proof {
            assert(v@.take(i + 1).drop_last() =~= v@.take(i as int));
            assert(v@.take(i + 1).last() == v@[i as int]);
            assert(v@.take(i + 1).to_set() =~= v@.take(i as int).to_set().insert(v@[i as int]));
        }
        out = next;
        i = i + 1;
    }
    proof {
        assert(v@.take(v@.len() as int) =~= v@);
    }
    out
}

/// A sequence of key/value pairs strictly sorted by key; such a sequence
/// represents a finite map canonically.
pub open spec fn pairs_sorted(s: Seq<(u64, u64)>) -> bool {
    forall|i: int, j: int| 0 <= i < j < s.len() ==> #[trigger] s[i].0 < #[trigger] s[j].0
}

/// The map a pair sequence stands for.
pub open spec fn pairs_map(s: Seq<(u64, u64)>) -> Map<u64, u64>
    decreases s.len(),
{
    if s.len() == 0 {
        Map::empty()
    } else {
        pairs_map(s.drop_last()).insert(s.last().0, s.last().1)
    }
}

/// Whether some entry of `s` carries the key `k`.
pub open spec fn key_in(s: Seq<(u64, u64)>, k: u64) -> bool {
    exists|i: int| 0 <= i < s.len() && (#[trigger] s[i]).0 == k
}

pub proof fn lemma_pairs_map_domain(s: Seq<(u64, u64)>)
    ensures
        forall|k: u64| #[trigger] pairs_map(s).dom().contains(k) <==> key_in(s, k),
    decreases s.len(),
{
    if s.len() > 0 {
        lemma_pairs_map_domain(s.drop_last());
        assert forall|k: u64| #[trigger] pairs_map(s).dom().contains(k) implies key_in(s, k) by {
            if k == s.last().0 {
                assert(s[s.len() - 1].0 == k);
            } else {
                assert(pairs_map(s.drop_last()).dom().contains(k));
                let i = choose|i: int|
                    0 <= i < s.drop_last().len() && (#[trigger] s.drop_last()[i]).0 == k;
                assert(s[i] == s.drop_last()[i]);
                assert(s[i].0 == k);
            }
        }
        assert forall|k: u64| key_in(s, k) implies #[trigger] pairs_map(s).dom().contains(k) by {
            let i = choose|i: int| 0 <= i < s.len() && (#[trigger] s[i]).0 == k;
            if i < s.len() - 1 {
                assert(s.drop_last()[i] == s[i]);
                assert(key_in(s.drop_last(), k));
                assert(pairs_map(s.drop_last()).dom().contains(k));
            }
        }
    }
}

/// In a sorted pair sequence, each entry is the map's value at its key.
pub proof fn lemma_pairs_map_index(s: Seq<(u64, u64)>, i: int)
    requires
        pairs_sorted(s),
        0 <= i < s.len(),
    ensures
        pairs_map(s).dom().contains(s[i].0),
        pairs_map(s)[s[i].0] == s[i].1,
    decreases s.len(),
{
    if i < s.len() - 1 {
        lemma_pairs_map_index(s.drop_last(), i);
        assert(s.drop_last()[i] == s[i]);
        assert(s[i].0 < s.last().0);
    }
}

/// Two sorted pair sequences standing for the same map are equal.
pub proof fn lemma_pairs_map_unique(a: Seq<(u64, u64)>, b: Seq<(u64, u64)>)
    requires
        pairs_sorted(a),
        pairs_sorted(b),
        pairs_map(a) == pairs_map(b),
    ensures
        a =~= b,
    decreases a.len(),
{
    lemma_pairs_map_domain(a);
    lemma_pairs_map_domain(b);
    if a.len() == 0 {
        if b.len() > 0 {
            lemma_pairs_map_index(b, b.len() - 1);
            assert(pairs_map(a).dom().contains(b.last().0));
            assert(false);
        }
    } else if b.len() == 0 {
        lemma_pairs_map_index(a, a.len() - 1);
        assert(false);
    } else {
        // both end in their greatest key, and the greatest keys agree
        lemma_pairs_map_index(a, a.len() - 1);
        lemma_pairs_map_index(b, b.len() - 1);
        let ka = a.last().0;
        let kb = b.last().0;
        if ka < kb {
            assert(key_in(a, kb));
            let i = choose|i: int| 0 <= i < a.len() && (#[trigger] a[i]).0 == kb;
            if i < a.len() - 1 {
                assert(a[i].0 < a[a.len() - 1].0);
            }
            assert(false);
        }
        if kb < ka {
            assert(key_in(b, ka));
            let i = choose|i: int| 0 <= i < b.len() && (#[trigger] b[i]).0 == ka;
            if i < b.len() - 1 {
                assert(b[i].0 < b[b.len() - 1].0);
            }
            assert(false);
        }
        assert(pairs_map(a)[ka] == a.last().1);
        assert(pairs_map(b)[kb] == b.last().1);
        assert(a.last() == b.last());
        assert(pairs_map(a.drop_last()).dom() =~= pairs_map(b.drop_last()).dom()) by {
            assert forall|k: u64| #[trigger] pairs_map(a.drop_last()).dom().contains(k)
                implies pairs_map(b.drop_last()).dom().contains(k) by {
                lemma_pairs_drop_last_view(a, k);
                lemma_pairs_drop_last_view(b, k);
            }
            assert forall|k: u64| #[trigger] pairs_map(b.drop_last()).dom().contains(k)
                implies pairs_map(a.drop_last()).dom().contains(k) by {
                lemma_pairs_drop_last_view(a, k);
                lemma_pairs_drop_last_view(b, k);
            }
        }
        assert(pairs_map(a.drop_last()) =~= pairs_map(b.drop_last())) by {
            assert forall|k: u64| #[trigger] pairs_map(a.drop_last()).dom().contains(k)
                implies pairs_map(a.drop_last())[k] == pairs_map(b.drop_last())[k] by {
                lemma_pairs_drop_last_view(a, k);
                lemma_pairs_drop_last_view(b, k);
            }
        }
        lemma_pairs_map_unique(a.drop_last(), b.drop_last());
        assert(a =~= a.drop_last().push(a.last()));
        assert(b =~= b.drop_last().push(b.last()));
    }
}

/// A sorted pair sequence whose keys and values match a map stands for
/// that map.
pub proof fn lemma_pairs_map_eq(s: Seq<(u64, u64)>, m: Map<u64, u64>)
    requires
        pairs_sorted(s),
        forall|k: u64| key_in(s, k) <==> #[trigger] m.dom().contains(k),
        forall|i: int| 0 <= i < s.len() ==> m[(#[trigger] s[i]).0] == s[i].1,
    ensures
        pairs_map(s) =~= m,
{
    lemma_pairs_map_domain(s);
    assert forall|k: u64| #[trigger] pairs_map(s).dom().contains(k) implies m.dom().contains(k)
        && pairs_map(s)[k] == m[k] by {
        let i = choose|i: int| 0 <= i < s.len() && (#[trigger] s[i]).0 == k;
        lemma_pairs_map_index(s, i);
    }
    assert forall|k: u64| #[trigger] m.dom().contains(k) implies pairs_map(s).dom().contains(
        k,
    ) by {}
}

/// The value stored under key `k`, if any.
pub fn state_get(state: &Vec<(u64, u64)>, k: u64) -> (r: Option<u64>)
    requires
        pairs_sorted(state@),
    ensures
        match r {
            Some(v) => pairs_map(state@).dom().contains(k) && pairs_map(state@)[k] == v,
            None => !pairs_map(state@).dom().contains(k),
        },
{
    proof {
        lemma_pairs_map_domain(state@);
    }
    let mut i: usize = 0;
    while i < state.len()
        invariant
            i <= state@.len(),
            pairs_sorted(state@),
            forall|j: int| 0 <= j < i ==> (#[trigger] state@[j]).0 != k,
        decreases state@.len() - i,
    {
        if state[i].0 == k {
            proof {
                lemma_pairs_map_index(state@, i as int);
            }
            return Some(state[i].1);
        }
        i = i + 1;
    }
    proof {
        if key_in(state@, k) {
            let j = choose|j: int| 0 <= j < state@.len() && (#[trigger] state@[j]).0 == k;
            assert(state@[j].0 != k);
        }
    }
    None
}

/// A copy of `state` with `k` bound to `v`.
pub fn state_set(state: &Vec<(u64, u64)>, k: u64, v: u64) -> (r: Vec<(u64, u64)>)
    requires
        pairs_sorted(state@),
    ensures
        pairs_sorted(r@),
        pairs_map(r@) =~= pairs_map(state@).insert(k, v),
{
    let mut out: Vec<(u64, u64)> = Vec::new();
    let mut i: usize = 0;
    while i < state.len() && state[i].0 < k
        invariant
            i <= state@.len(),
            pairs_sorted(state@),
            out@ =~= state@.take(i as int),
            forall|j: int| 0 <= j < i ==> (#[trigger] state@[j]).0 < k,
        decreases state@.len() - i,
    {
        out.push(state[i]);
        proof {
            assert(out@ =~= state@.take(i + 1));
        }
        i = i + 1;
    }
    let ghost i0 = i as int;
    out.push((k, v));
    if i < state.len() && state[i].0 == k {
        i = i + 1;
    }
    let ghost j0 = i as int;
    while i < state.len()
        invariant
            j0 <= i <= state@.len(),
            pairs_sorted(state@),
            0 <= i0 <= j0 <= i0 + 1,
            i0 <= state@.len(),
            j0 > i0 ==> i0 < state@.len() && state@[i0].0 == k,
            j0 == i0 ==> (i0 == state@.len() || state@[i0].0 > k),
            forall|j: int| 0 <= j < i0 ==> (#[trigger] state@[j]).0 < k,
            out@ =~= state@.take(i0).push((k, v)) + state@.subrange(j0, i as int),
        decreases state@.len() - i,
    {
        out.push(state[i]);
        proof {
            assert(out@ =~= state@.take(i0).push((k, v)) + state@.subrange(j0, i + 1));
        }
        i = i + 1;
    }
    proof {
        let s = state@;
        let o = out@;
        assert(o =~= s.take(i0).push((k, v)) + s.subrange(j0, s.len() as int));
        assert forall|a: int, b: int| 0 <= a < b < o.len() implies (#[trigger] o[a]).0 < (
        #[trigger] o[b]).0 by {
            if b > i0 {
                assert(o[b] == s[b - (i0 + 1) + j0]);
                assert(s[b - (i0 + 1) + j0].0 > k) by {
                    if j0 == i0 + 1 {
                        assert(s[i0].0 == k);
                    }
                }
            }
            if a > i0 {
                assert(o[a] == s[a - (i0 + 1) + j0]);
            }
        }
        lemma_pairs_map_domain(s);
        assert forall|x: u64| key_in(o, x) implies #[trigger] pairs_map(s).insert(k, v)
            .dom().contains(x) by {
            let i = choose|i: int| 0 <= i < o.len() && (#[trigger] o[i]).0 == x;
            if i < i0 {
                assert(o[i] == s[i]);
            } else if i > i0 {
                assert(o[i] == s[i - (i0 + 1) + j0]);
            }
        }
        assert forall|x: u64| #[trigger]
            pairs_map(s).insert(k, v).dom().contains(x) implies key_in(o, x) by {
            if x != k {
                let i = choose|i: int| 0 <= i < s.len() && (#[trigger] s[i]).0 == x;
                if i < i0 {
                    assert(o[i] == s[i]);
                    assert(o[i].0 == x);
                } else {
                    assert(i >= j0);
                    assert(o[i - j0 + i0 + 1] == s[i]);
                    assert(o[i - j0 + i0 + 1].0 == x);
                }
            } else {
                assert(o[i0] == (k, v));
                assert(o[i0].0 == k);
            }
        }
        assert forall|i: int| 0 <= i < o.len() implies pairs_map(s).insert(k, v)[(
        #[trigger] o[i]).0] == o[i].1 by {
            if i < i0 {
                assert(o[i] == s[i]);
                lemma_pairs_map_index(s, i);
            } else if i > i0 {
                assert(o[i] == s[i - (i0 + 1) + j0]);
                lemma_pairs_map_index(s, i - (i0 + 1) + j0);
                assert(s[i - (i0 + 1) + j0].0 > k);
            }
        }
        lemma_pairs_map_eq(o, pairs_map(s).insert(k, v));
    }
    out
}

/// A copy of `state` with `k` unbound.
pub fn state_remove(state: &Vec<(u64, u64)>, k: u64) -> (r: Vec<(u64, u64)>)
    requires
        pairs_sorted(state@),
    ensures
        pairs_sorted(r@),
        pairs_map(r@) =~= pairs_map(state@).remove(k),
{
    let mut out: Vec<(u64, u64)> = Vec::new();
    let mut i: usize = 0;
    while i < state.len() && state[i].0 < k
        invariant
            i <= state@.len(),
            pairs_sorted(state@),
            out@ =~= state@.take(i as int),
            forall|j: int| 0 <= j < i ==> (#[trigger] state@[j]).0 < k,
        decreases state@.len() - i,
    {
        out.push(state[i]);
        proof {
            assert(out@ =~= state@.take(i + 1));
        }
        i = i + 1;
    }
    let ghost i0 = i as int;
    if i < state.len() && state[i].0 == k {
        i = i + 1;
    }
    let ghost j0 = i as int;
    while i < state.len()
        invariant
            j0 <= i <= state@.len(),
            pairs_sorted(state@),
            0 <= i0 <= j0 <= i0 + 1,
            i0 <= state@.len(),
            j0 > i0 ==> i0 < state@.len() && state@[i0].0 == k,
            j0 == i0 ==> (i0 == state@.len() || state@[i0].0 > k),
            forall|j: int| 0 <= j < i0 ==> (#[trigger] state@[j]).0 < k,
            out@ =~= state@.take(i0) + state@.subrange(j0, i as int),
        decreases state@.len() - i,
    {
        out.push(state[i]);
        proof {
            assert(out@ =~= state@.take(i0) + state@.subrange(j0, i + 1));
        }
        i = i + 1;
    }
    proof {
        let s = state@;
        let o = out@;
        assert(o =~= s.take(i0) + s.subrange(j0, s.len() as int));
        assert forall|a: int, b: int| 0 <= a < b < o.len() implies (#[trigger] o[a]).0 < (
        #[trigger] o[b]).0 by {
            if a >= i0 {
                assert(o[a] == s[a - i0 + j0]);
            }
            if b >= i0 {
                assert(o[b] == s[b - i0 + j0]);
            }
        }
        lemma_pairs_map_domain(s);
        assert forall|x: u64| key_in(o, x) implies #[trigger] pairs_map(s).remove(k)
            .dom().contains(x) by {
            let i = choose|i: int| 0 <= i < o.len() && (#[trigger] o[i]).0 == x;
            if i < i0 {
                assert(o[i] == s[i]);
            } else {
                assert(o[i] == s[i - i0 + j0]);
                assert(s[i - i0 + j0].0 > k) by {
                    if j0 == i0 + 1 {
                        assert(s[i0].0 == k);
                    }
                }
            }
        }
        assert forall|x: u64| #[trigger]
            pairs_map(s).remove(k).dom().contains(x) implies key_in(o, x) by {
            let i = choose|i: int| 0 <= i < s.len() && (#[trigger] s[i]).0 == x;
            if i < i0 {
                assert(o[i] == s[i]);
                assert(o[i].0 == x);
            } else {
                assert(i >= j0) by {
                    if j0 == i0 + 1 && i == i0 {
                        assert(s[i].0 == k);
                    }
                }
                assert(o[i - j0 + i0] == s[i]);
                assert(o[i - j0 + i0].0 == x);
            }
        }
        assert forall|i: int| 0 <= i < o.len() implies pairs_map(s).remove(k)[(
        #[trigger] o[i]).0] == o[i].1 by {
            if i < i0 {
                assert(o[i] == s[i]);
                lemma_pairs_map_index(s, i);
            } else {
                assert(o[i] == s[i - i0 + j0]);
                lemma_pairs_map_index(s, i - i0 + j0);
                assert(s[i - i0 + j0].0 > k) by {
                    if j0 == i0 + 1 {
                        assert(s[i0].0 == k);
                    }
                }
            }
        }
        lemma_pairs_map_eq(o, pairs_map(s).remove(k));
    }
    out
}

/// Dropping the last (greatest-key) entry removes exactly that key.
proof fn lemma_pairs_drop_last_view(s: Seq<(u64, u64)>, k: u64)
    requires
        pairs_sorted(s),
        s.len() > 0,
    ensures
        pairs_map(s.drop_last()).dom().contains(k) <==> (pairs_map(s).dom().contains(k) && k
            != s.last().0),
        pairs_map(s.drop_last()).dom().contains(k) ==> pairs_map(s.drop_last())[k] == pairs_map(
            s,
        )[k],
{
    lemma_pairs_map_domain(s);
    lemma_pairs_map_domain(s.drop_last());
    if pairs_map(s.drop_last()).dom().contains(k) {
        let i = choose|i: int| 0 <= i < s.drop_last().len() && (#[trigger] s.drop_last()[i]).0 == k;
        assert(s[i].0 == k);
        assert(s[i].0 < s.last().0);
    }
    if pairs_map(s).dom().contains(k) && k != s.last().0 {
        let i = choose|i: int| 0 <= i < s.len() && (#[trigger] s[i]).0 == k;
        assert(i < s.len() - 1);
        assert(s.drop_last()[i].0 == k);
    }
}

} // verus!
