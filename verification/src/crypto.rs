//! The trusted boundary to canonical-JSON and signature routines.
//!
//! Each wrapper makes one outside call chain on plain byte strings and
//! is summarized by an uninterpreted name: the results are functions
//! of the bytes alone, which is what admission's determinism rests on.
//! Everything downstream of these names is verified.

use vstd::prelude::*;

verus! {

/// The event id derived from an event's canonical JSON bytes: the
/// reference hash of the encoded object, as `$`-prefixed text, or
/// nothing when the bytes do not encode a canonical JSON object the
/// hash is defined on.
pub uninterp spec fn reference_hash_of(bytes: Seq<u8>) -> Option<Seq<u8>>;

/// Whether the event encoded by the canonical bytes carries a valid
/// signature by `origin` under the named Ed25519 key. Signatures
/// cover the event in redacted form, as the verification routine
/// prescribes; the verdict is a function of these four values alone.
pub uninterp spec fn event_signature_ok(
    origin: Seq<u8>,
    key_id: Seq<u8>,
    key: Seq<u8>,
    bytes: Seq<u8>,
) -> bool;

/// Relies on serde_json::from_slice and ruma::signatures::reference_hash:
/// parses the canonical bytes and hashes the parsed object. The engine
/// pins one set of hashing rules — the current room version's — for
/// every event it admits, so the result depends on the bytes alone.
#[verifier::external_body]
pub(crate) fn compute_event_id(canonical: &Vec<u8>) -> (r: Option<Vec<u8>>)
    ensures
        match r {
            Some(id) => reference_hash_of(canonical@) == Some(id@),
            None => reference_hash_of(canonical@) is None,
        },
{
    let object: ruma::CanonicalJsonObject = match serde_json::from_slice(canonical.as_slice()) {
        Ok(o) => o,
        Err(_) => return None,
    };
    let rules = ruma::room_version_rules::RoomVersionRules::V11;
    match ruma::signatures::reference_hash(&object, &rules) {
        Ok(h) => Some(format!("${h}").into_bytes()),
        Err(_) => None,
    }
}

/// Relies on serde_json::from_slice and ruma::signatures::verify_event:
/// parses the canonical bytes and verifies the origin's signature over
/// the parsed event under the given key. The engine pins one set of
/// signature rules — the current room version's — for every event it
/// admits, so the verdict depends on the four byte strings alone.
#[verifier::external_body]
pub(crate) fn verify_event_signature(
    origin: &Vec<u8>,
    key_id: &Vec<u8>,
    key: &Vec<u8>,
    canonical: &Vec<u8>,
) -> (r: bool)
    ensures
        r == event_signature_ok(origin@, key_id@, key@, canonical@),
{
    let parsed = serde_json::from_slice::<ruma::CanonicalJsonObject>(canonical.as_slice());
    let object = match parsed { Ok(o) => o, Err(_) => return false };
    let origin_s = match String::from_utf8(origin.clone()) { Ok(o) => o, Err(_) => return false };
    let key_id_s = match String::from_utf8(key_id.clone()) { Ok(k) => k, Err(_) => return false };
    let mut server_keys = std::collections::BTreeMap::new();
    server_keys.insert(key_id_s, ruma::serde::Base64::new(key.clone()));
    let mut key_map = std::collections::BTreeMap::new();
    key_map.insert(origin_s, server_keys);
    let rules = ruma::room_version_rules::RoomVersionRules::V11;
    ruma::signatures::verify_event(&key_map, &object, &rules).is_ok()
}

} // verus!
