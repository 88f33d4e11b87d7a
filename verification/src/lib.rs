//! Device and key synchronization registry for an encrypted notes service.
//!
//! A single logical identity operates from several devices. Each device is
//! bound to the identity by a human-readable alias and a public key, and one
//! encrypted symmetric key is tracked per public key so that devices without
//! it can discover that they are unsynchronized. The registry enforces the
//! bookkeeping invariants of this bootstrap process: no orphaned keys, no
//! silent overwrite on the bootstrap path, no access without registration.

pub mod assoc;
pub mod devices;
pub mod identity;
pub mod notes;

pub use identity::Identity;
