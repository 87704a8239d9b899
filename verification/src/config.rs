//! Engine configuration over plain values, and the small global
//! services read from it: supported room versions, the federation
//! address denylist, locality checks, and the global sequence counter.

use vstd::prelude::*;

use crate::util::bytes_eq;

verus! {

/// Room version the engine falls back to when the configured default
/// is unsupported.
pub const FALLBACK_ROOM_VERSION: u64 = 10;

/// The engine's configuration, as plain values.
pub struct EngineConfig {
    /// This server's name.
    pub server_name: Vec<u8>,
    /// How many missing ancestors one admission may fetch.
    pub max_fetch_prev_events: u16,
    /// Whether experimental room versions are admitted.
    pub allow_unstable_room_versions: bool,
    /// Room version for locally created rooms.
    pub default_room_version: u64,
    /// Notary servers trusted for key lookups.
    pub trusted_servers: Vec<Vec<u8>>,
    /// Whether notaries are asked before the origin server.
    pub query_trusted_key_servers_first: bool,
    /// Denied address ranges, inclusive on both ends, over the
    /// full 128-bit address space.
    pub ip_range_denylist: Vec<(u128, u128)>,
    /// How many auth chains the resolver's cache may hold.
    pub auth_chain_cache_capacity: usize,
}

/// The room versions the engine accepts: the stable ones, and the
/// experimental ones when the configuration admits them.
pub open spec fn spec_supported_versions(allow_unstable: bool) -> Seq<u64> {
    if allow_unstable {
        seq![6u64, 7u64, 8u64, 9u64, 10u64, 11u64, 2u64, 3u64, 4u64, 5u64]
    } else {
        seq![6u64, 7u64, 8u64, 9u64, 10u64, 11u64]
    }
}

/// Lists the supported room versions, stable ones first.
pub fn supported_room_versions(allow_unstable: bool) -> (r: Vec<u64>)
    ensures
        r@ =~= spec_supported_versions(allow_unstable),
{
    let mut r: Vec<u64> = Vec::new();
    r.push(6);
    r.push(7);
    r.push(8);
    r.push(9);
    r.push(10);
    r.push(11);
    if allow_unstable {
        r.push(2);
        r.push(3);
        r.push(4);
        r.push(5);
    }
    r
}

/// Whether a room version is supported under the configuration.
pub fn version_supported(allow_unstable: bool, version: u64) -> (r: bool)
    ensures
        r == spec_supported_versions(allow_unstable).contains(version),
{
    let versions = supported_room_versions(allow_unstable);
    let mut i: usize = 0;
    while i < versions.len()
        invariant
            i <= versions@.len(),
            versions@ =~= spec_supported_versions(allow_unstable),
            forall|j: int| 0 <= j < i ==> versions@[j] != version,
        decreases versions@.len() - i,
    {
        if versions[i] == version {
            return true;
        }
        i = i + 1;
    }
    proof {
        if spec_supported_versions(allow_unstable).contains(version) {
            let j = choose|j: int|
                0 <= j < versions@.len() && versions@[j] == version;
            assert(versions@[j] != version);
        }
    }
    false
}

/// The room version used for new rooms: the configured default when it
/// is supported, the fallback otherwise.
pub fn effective_default_version(cfg: &EngineConfig) -> (r: u64)
    ensures
        r == if spec_supported_versions(cfg.allow_unstable_room_versions).contains(
            cfg.default_room_version,
        ) {
            cfg.default_room_version
        } else {
            FALLBACK_ROOM_VERSION
        },
{
    if version_supported(cfg.allow_unstable_room_versions, cfg.default_room_version) {
        cfg.default_room_version
    } else {
        FALLBACK_ROOM_VERSION
    }
}

/// Whether an address may be contacted: it lies in none of the denied
/// ranges.
pub fn valid_cidr_range(cfg: &EngineConfig, addr: u128) -> (r: bool)
    ensures
        r == !(exists|i: int|
            0 <= i < cfg.ip_range_denylist@.len() && (#[trigger] cfg.ip_range_denylist@[i]).0
                <= addr <= cfg.ip_range_denylist@[i].1),
{
    let mut i: usize = 0;
    while i < cfg.ip_range_denylist.len()
        invariant
            i <= cfg.ip_range_denylist@.len(),
            forall|j: int|
                0 <= j < i ==> !((#[trigger] cfg.ip_range_denylist@[j]).0 <= addr
                    <= cfg.ip_range_denylist@[j].1),
        decreases cfg.ip_range_denylist@.len() - i,
    {
        let (lo, hi) = cfg.ip_range_denylist[i];
        if lo <= addr && addr <= hi {
            return false;
        }
        i = i + 1;
    }
    true
}

/// Whether a server name is this server's.
pub fn server_is_ours(cfg: &EngineConfig, server_name: &Vec<u8>) -> (r: bool)
    ensures
        r == (server_name@ =~= cfg.server_name@),
{
    bytes_eq(server_name, &cfg.server_name)
}

/// The position of the first colon in a user id, if any; what follows
/// it is the user's server name.
pub open spec fn spec_colon_idx(s: Seq<u8>) -> int
    decreases s.len(),
{
    if s.len() == 0 {
        -1
    } else if s[0] == 58 {
        0
    } else {
        let r = spec_colon_idx(s.drop_first());
        if r < 0 {
            -1
        } else {
            r + 1
        }
    }
}

/// Whether a user id names a user of this server: the part after the
/// first colon is this server's name.
pub open spec fn spec_user_is_local(cfg: EngineConfig, user_id: Seq<u8>) -> bool {
    let i = spec_colon_idx(user_id);
    i >= 0 && user_id.skip(i + 1) =~= cfg.server_name@
}

/// Decides `spec_user_is_local`.
pub fn user_is_local(cfg: &EngineConfig, user_id: &Vec<u8>) -> (r: bool)
    ensures
        r == spec_user_is_local(*cfg, user_id@),
{
    let mut i: usize = 0;
    proof {
        assert(user_id@.skip(0) =~= user_id@);
        if !(exists|j: int| 0 <= j < user_id@.len() && user_id@[j] == 58) {
            lemma_colon_idx_missing(user_id@);
        }
    }
    while i < user_id.len()
        invariant
            i <= user_id@.len(),
            forall|j: int| 0 <= j < i ==> user_id@[j] != 58,
            spec_colon_idx(user_id@) == if exists|j: int|
                i <= j < user_id@.len() && user_id@[j] == 58 {
                spec_colon_idx(user_id@.skip(i as int)) + i
            } else {
                -1
            },
        decreases user_id@.len() - i,
    {
        if user_id[i] == 58 {
            proof {
                assert(user_id@.skip(i as int)[0] == 58);
                assert(spec_colon_idx(user_id@.skip(i as int)) == 0);
                assert(user_id@[i as int] == 58);
                assert(spec_colon_idx(user_id@) == i);
            }
            // compare the suffix after the colon with our name
            let mut j: usize = i + 1;
            let suffix_len = user_id.len() - (i + 1);
            if suffix_len != cfg.server_name.len() {
                proof {
                    assert(user_id@.skip(i + 1).len() != cfg.server_name@.len());
                }
                return false;
            }
            while j < user_id.len()
                invariant
                    i + 1 <= j <= user_id@.len(),
                    user_id@.len() - (i + 1) == cfg.server_name@.len(),
                    i < user_id@.len(),
                    spec_colon_idx(user_id@) == i,
                    forall|w: int|
                        i + 1 <= w < j ==> user_id@[w] == cfg.server_name@[w - (i as int + 1)],
                decreases user_id@.len() - j,
            {
                if user_id[j] != cfg.server_name[j - (i + 1)] {
                    proof {
                        assert(user_id@.skip(i as int + 1)[j - (i as int + 1)] != cfg.server_name@[
                        j - (i as int + 1)]);
                    }
                    return false;
                }
                j = j + 1;
            }
            proof {
                assert(user_id@.skip(i as int + 1) =~= cfg.server_name@);
            }
            return true;
        }
        proof {
            assert(user_id@.skip(i as int)[0] != 58);
            assert(user_id@.skip(i as int).drop_first() =~= user_id@.skip(i + 1));
            if exists|j: int| i + 1 <= j < user_id@.len() && user_id@[j] == 58 {
                let j = choose|j: int| i + 1 <= j < user_id@.len() && user_id@[j] == 58;
                assert(user_id@.skip(i + 1)[j - (i as int + 1)] == 58);
                lemma_colon_idx_found(user_id@.skip(i + 1), j - (i as int + 1));
            } else {
                lemma_colon_idx_missing(user_id@.skip(i + 1));
            }
        }
        i = i + 1;
    }
    proof {
        if exists|j: int| 0 <= j < user_id@.len() && user_id@[j] == 58 {
            let j = choose|j: int| 0 <= j < user_id@.len() && user_id@[j] == 58;
            assert(user_id@[j] != 58);
        }
    }
    false
}

/// A sequence holding a colon has a nonnegative colon index.
proof fn lemma_colon_idx_found(s: Seq<u8>, j: int)
    requires
        0 <= j < s.len(),
        s[j] == 58,
    ensures
        spec_colon_idx(s) >= 0,
    decreases s.len(),
{
    if s[0] != 58 {
        assert(s.drop_first()[j - 1] == 58);
        lemma_colon_idx_found(s.drop_first(), j - 1);
    }
}

/// A sequence without a colon has colon index -1.
proof fn lemma_colon_idx_missing(s: Seq<u8>)
    requires
        forall|j: int| 0 <= j < s.len() ==> s[j] != 58,
    ensures
        spec_colon_idx(s) == -1,
    decreases s.len(),
{
    if s.len() > 0 {
        assert forall|j: int| 0 <= j < s.drop_first().len() implies s.drop_first()[j] != 58 by {
            assert(s[j + 1] != 58);
        }
        lemma_colon_idx_missing(s.drop_first());
    }
}

/// The global monotonic sequence counter: every admitted event takes
/// the next count, so counts never repeat and never go backward.
pub struct SequenceCounter {
    value: u64,
}

impl SequenceCounter {
    pub closed spec fn view(&self) -> u64 {
        self.value
    }

    pub fn new() -> (c: Self)
        ensures
            c@ == 0,
    {
        SequenceCounter { value: 0 }
    }

    /// The count most recently handed out.
    pub fn current_count(&self) -> (r: u64)
        ensures
            r == self@,
    {
        self.value
    }

    /// Hands out the next count, strictly above every earlier one.
    pub fn next_count(&mut self) -> (r: u64)
        requires
            old(self)@ < u64::MAX,
        ensures
            final(self)@ == old(self)@ + 1,
            r == final(self)@,
    {
        self.value = self.value + 1;
        self.value
    }
}

} // verus!
