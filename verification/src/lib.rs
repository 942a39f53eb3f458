//! NEXA messenger core: wire formats, key schedules, ratchets and the relay
//! gateway's bookkeeping, each with a machine-checked contract.

pub mod wire;
pub mod protocol;
pub mod primitives;
pub mod crypto;
pub mod wallet;
pub mod identity;
pub mod prekey_store;
pub mod ratchet;
pub mod receive;
pub mod dh_ratchet;
pub mod session;
pub mod envelope;
pub mod transport;
pub mod auth;
pub mod prekey_registry;
pub mod storage;
pub mod relay;
pub mod gateway;
