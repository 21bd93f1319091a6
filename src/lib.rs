//! Per-frame synchronisation of GPU uniform resources with a changing set of
//! entities: a shared per-asset resource cache, a packed per-entity dynamic
//! uniform buffer aggregator and a texture/sampler resolver. The provider
//! never talks to a graphics device itself: it emits backend commands that
//! refer to resource handles it mints, and the caller replays them.
use vstd::prelude::*;

pub mod binding;
pub mod command;
pub mod lookup;
pub mod dynamic;
pub mod provider;
pub mod frame;
pub mod laws;

verus! {

/// Byte granularity at which a sub-range of a buffer may be bound.
pub const BIND_BUFFER_ALIGNMENT: u64 = 256;

/// Largest number of entities of one kind (asset-backed or direct) in a frame.
/// It keeps a packed buffer, `256 * 2 * n` bytes, within `u32`, so that
/// the staging bytes can be held in memory on 32-bit targets as well.
pub const MAX_ENTITIES: u64 = 4194304;

/// Largest number of bindings that one data type may declare.
pub const MAX_BINDINGS: u64 = 1024;

/// Resource handles are minted below this bound; a frame mints far fewer
/// handles than the distance between it and `u64::MAX`.
pub const RESOURCE_ID_LIMIT: u64 = 9223372036854775808;

} // verus!
