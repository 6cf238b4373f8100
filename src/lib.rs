//! The core of an onion-routing system in which clients encrypt to short random identities
//! instead of to relays: the binary tree of identities, the weighted allocation of that tree
//! among relays, cached hierarchical identity-based key generation, and the layered onion format
//! whose per-hop nonces are Shamir-shared among the authorities.
pub mod allocation;
pub mod apitypes;
pub mod consensus;
pub mod crypto;
pub mod format;
pub mod hibe;
pub mod nodename;
pub mod registry;
pub mod shared;
