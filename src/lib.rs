//! Capability-addressed keys for a ledger's global store, the access-rights
//! lattice that gates them, and their canonical byte encoding.

pub mod access_rights;
pub mod key;
pub mod pointers;
pub mod named_keys;
pub mod bytesrepr;
pub mod account;
