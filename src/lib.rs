//! Fixed-capacity handle pools.
//!
//! [`Pool`] keeps the bookkeeping of a fixed set of slots: which are checked
//! out and by which handle. [`EntityPool`] puts that bookkeeping on top of a
//! batch of entities reserved in a bevy `World`, and clears an entity's
//! components whenever its slot is given back.
pub mod slot_pool;
pub mod entity_pool;

pub use slot_pool::{HandleState, Pool, PoolError, PoolExhausted, PoolHandle};
pub use entity_pool::{EntityHandle, EntityPool};

