//! A federated room-event engine: admission of signed events,
//! auth-chain closure, deterministic state resolution, and compact
//! diff-chained state storage, with the guarantees stated as
//! contracts and checked by the verifier.
//!
//! The engine works on plain values — byte strings and interned short
//! ids — and leaves remote fetching, storage and the async runtime to
//! its caller: where it needs them, it says what to fetch and the
//! caller hands the result back.

pub mod admission;
pub mod auth_chain;
pub mod compress;
pub mod config;
pub mod crypto;
pub mod event;
pub mod guard;
pub mod keys;
pub mod ratelimit;
pub mod room_build;
pub mod shortid;
pub mod state_res;
pub mod store;
pub mod util;
