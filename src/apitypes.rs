//! Values exchanged between relays, clients and authorities.
use crate::format::Identity;
use crate::hibe::BbgPrivateKey;
use crate::nodename::NodeName;
use vstd::prelude::*;

verus! {

/// The key under which a relay registers with the authorities.
pub type RelayKey = [u8; 16];

/// A relay asks an authority for a share of the identity space.
#[derive(Clone, Debug, PartialEq, Eq)]
pub struct RegisterRelay {
    pub key: RelayKey,
    pub address: String,
    pub port: u16,
    pub weight: u32,
}

/// A relay asks an authority for the private keys of its allocation.
#[derive(Clone, Copy, Debug, PartialEq, Eq)]
pub struct GetHibeKeys {
    pub key: RelayKey,
}

/// A client or relay asks which relay serves an identity.
#[derive(Clone, Copy, Debug, PartialEq, Eq)]
pub struct GetRelayAddress {
    pub identity: Identity,
}

/// A node of an allocation with its private key.
#[derive(Debug)]
pub struct KeyPair {
    pub node: NodeName,
    pub key: BbgPrivateKey,
}

} // verus!
