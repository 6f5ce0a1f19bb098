//! A whole store instance: configuration for the engine plus the address
//! its request surface binds to.

use vstd::prelude::*;

use crate::config::{MemtableConfig, WalConfig};

verus! {

/// A handle to a running store instance.
pub struct ChipmunkHandle {}

/// Configuration of a store instance: the engine's settings and the address
/// the request surface listens on.
pub struct ChipmunkConfig {
    pub addr: String,
    pub wal: WalConfig,
    pub memtable: MemtableConfig,
}

} // verus!
