//! A pool of entities reserved in a bevy `World`.
//!
//! Entities are named by the bits of their id (`Entity::to_bits`), which is
//! how the pool stores and hands them out.
use bevy::ecs::entity::Entity;
use bevy::ecs::storage::SparseSetIndex;
use bevy::ecs::world::World;
use vstd::prelude::*;
use vstd::relations::injective_on;
use vstd::set_lib::{lemma_len_subset, lemma_map_size};

use crate::slot_pool::{
    all_free, count_in_use, has_free_slot, is_active_in, is_foreign_in, is_lowest_free,
    lemma_capacity_invariant, owners_after_release, HandleState, Pool, PoolError, PoolHandle,
};

verus! {

#[verifier::external_type_specification]
#[verifier::external_body]
pub struct ExWorld(World);

/// Number of entity indices a world can hand out: bevy indexes entities by `u32`.
pub const ENTITY_INDEX_SPACE: u64 = 0x1_0000_0000;

/// Relies on `Entities::total_count`: the number of entity indices the world
/// has handed out so far, free or not.
#[verifier::external_body]
fn entity_index_count(world: &World) -> (r: usize) {
    world.entities().total_count()
}

/// Relies on `World::id` and `SparseSetIndex::sparse_set_index` on
/// `WorldId`: the number that tells this world from every other.
#[verifier::external_body]
fn world_id(world: &World) -> (r: usize) {
    world.id().sparse_set_index()
}

/// Relies on `World::spawn_batch`: spawns one entity without components per
/// item of the batch, in one go, and yields the id of each (given here as
/// `Entity::to_bits`). Each comes from its own `Entities::alloc`, which never
/// hands out a live entity twice. bevy panics once the `u32` index space is
/// used up, which the caller rules out beforehand with `entity_index_count`.
#[verifier::external_body]
fn spawn_empty_entities(world: &mut World, n: usize) -> (r: Vec<u64>)
    ensures
        r@.len() == n,
        r@.no_duplicates(),
{
    world.spawn_batch(std::iter::repeat(()).take(n)).map(|e| e.to_bits()).collect()
}

/// Relies on `World::get_entity_mut` and `EntityWorldMut::clear`: removes
/// every component of the entity with these bits, if it still exists, and
/// tells whether it did.
#[verifier::external_body]
fn clear_entity(world: &mut World, bits: u64) -> (r: bool) {
    match Entity::try_from_bits(bits) {
        Ok(entity) => match world.get_entity_mut(entity) {
            Some(mut e) => {
                e.clear();
                true
            },
            None => false,
        },
        Err(_) => false,
    }
}

/// Exclusive use of one entity of an [`EntityPool`], until given back.
#[derive(Debug, PartialEq, Eq, Structural)]
pub struct EntityHandle {
    handle: PoolHandle,
    entity: u64,
}

impl EntityHandle {
    pub closed spec fn spec_handle(&self) -> PoolHandle {
        self.handle
    }

    pub closed spec fn spec_entity(&self) -> u64 {
        self.entity
    }

    /// Index of the slot this handle was issued for.
    pub fn slot_index(&self) -> (r: usize)
        ensures
            r == self.spec_handle().spec_slot(),
    {
        self.handle.slot_index()
    }

    /// Bits of the entity this handle was issued for.
    pub fn entity_bits(&self) -> (r: u64)
        ensures
            r == self.spec_entity(),
    {
        self.entity
    }

    /// Gives the handle back to `pool`; see [`EntityPool::release`].
    pub fn drop(&self, pool: &mut EntityPool, world: &mut World) -> (r: Result<bool, PoolError>)
        requires
            old(pool).wf(),
        ensures
            final(pool).wf(),
            final(pool).slots() == old(pool).slots(),
            final(pool).next_ticket() == old(pool).next_ticket(),
            final(pool).world_id() == old(pool).world_id(),
            r == Err::<bool, PoolError>(PoolError::ForeignWorld) ==> final(pool).owners() == old(pool).owners(),
            r != Err::<bool, PoolError>(PoolError::ForeignWorld) ==> {
                &&& r == old(pool).release_result(self)
                &&& final(pool).owners() == old(pool).owners_after(self)
            },
            r != Ok::<bool, PoolError>(true) ==> *final(world) == *old(world),
    {
        pool.release(self, world)
    }
}

/// Whether `capacity` more entity indices fit in a world that has handed out
/// `used` of them.
pub fn index_space_fits(used: usize, capacity: usize) -> (r: bool)
    ensures
        r == (used + capacity <= ENTITY_INDEX_SPACE),
{
    let used = used as u64;
    used <= ENTITY_INDEX_SPACE && capacity as u64 <= ENTITY_INDEX_SPACE - used
}

/// A fixed number of entities, reserved in one world at construction and
/// handed out one at a time; each is cleared when it is given back.
pub struct EntityPool {
    world: usize,
    pool: Pool<u64>,
}

impl EntityPool {
    /// Bits of the entity of each slot.
    pub closed spec fn slots(&self) -> Seq<u64> {
        self.pool.items()
    }

    /// Ticket of the handle holding each slot, `None` for a free slot.
    pub closed spec fn owners(&self) -> Seq<Option<u64>> {
        self.pool.owners()
    }

    pub closed spec fn next_ticket(&self) -> u64 {
        self.pool.next_ticket()
    }

    /// Identity of the world the entities were reserved in.
    pub closed spec fn world_id(&self) -> usize {
        self.world
    }

    /// Identity carried by the handles of this pool.
    pub closed spec fn pool_id(&self) -> u64 {
        self.pool.id()
    }

    pub closed spec fn wf(&self) -> bool {
        &&& self.pool.wf()
        &&& self.pool.items().no_duplicates()
    }

    pub open spec fn capacity_spec(&self) -> nat {
        self.owners().len()
    }

    pub open spec fn is_active(&self, h: &EntityHandle) -> bool {
        h.spec_handle().spec_pool() == self.pool_id() && is_active_in(self.owners(), h.spec_handle())
    }

    /// Whether `h` cannot have come from this pool: it carries another
    /// pool's identity, its slot or ticket is out of range, or its entity is
    /// not the one of its slot.
    pub open spec fn is_foreign(&self, h: &EntityHandle) -> bool {
        is_foreign_in(self.owners(), self.next_ticket(), self.pool_id(), h.spec_handle())
            || self.slots()[h.spec_handle().spec_slot() as int] != h.spec_entity()
    }

    pub open spec fn release_result(&self, h: &EntityHandle) -> Result<bool, PoolError> {
        if self.is_foreign(h) {
            Err(PoolError::ForeignHandle)
        } else {
            Ok(self.is_active(h))
        }
    }

    /// The bookkeeping after `h` is given back.
    pub open spec fn owners_after(&self, h: &EntityHandle) -> Seq<Option<u64>> {
        if self.is_foreign(h) {
            self.owners()
        } else {
            owners_after_release(self.owners(), h.spec_handle())
        }
    }

    pub open spec fn entity_result(&self, h: &EntityHandle) -> Result<u64, PoolError> {
        if self.is_foreign(h) {
            Err(PoolError::ForeignHandle)
        } else if !self.is_active(h) {
            Err(PoolError::UseAfterRelease)
        } else {
            Ok(h.spec_entity())
        }
    }

    /// Reserves `capacity` fresh entities in `world`, all free.
    ///
    /// Fails with `ReservationFailed`, leaving the world as it was, when the
    /// world has too few entity indices left (see [`index_space_fits`]).
    pub fn new(capacity: usize, world: &mut World) -> (r: Result<EntityPool, PoolError>)
        requires
            capacity > 0,
        ensures
            r matches Ok(p) ==> {
                &&& p.wf()
                &&& p.capacity_spec() == capacity
                &&& p.slots().len() == capacity
                &&& p.slots().no_duplicates()
                &&& all_free(p.owners())
                &&& p.next_ticket() == 0
            },
            r is Err ==> r == Err::<EntityPool, PoolError>(PoolError::ReservationFailed),
            r is Err ==> *final(world) == *old(world),
    {
        let used = entity_index_count(world);
        Self::reserve_with_room(capacity, used, world)
    }

    /// Reserves `capacity` entities in a world that has handed out `used`
    /// entity indices; fails exactly when they do not fit.
    fn reserve_with_room(capacity: usize, used: usize, world: &mut World) -> (r: Result<EntityPool, PoolError>)
        requires
            capacity > 0,
        ensures
            r is Ok <==> used + capacity <= ENTITY_INDEX_SPACE,
            r matches Ok(p) ==> {
                &&& p.wf()
                &&& p.capacity_spec() == capacity
                &&& p.slots().len() == capacity
                &&& p.slots().no_duplicates()
                &&& all_free(p.owners())
                &&& p.next_ticket() == 0
            },
            r is Err ==> r == Err::<EntityPool, PoolError>(PoolError::ReservationFailed),
            r is Err ==> *final(world) == *old(world),
    {
        if !index_space_fits(used, capacity) {
            return Err(PoolError::ReservationFailed);
        }
        let id = world_id(world);
        let bits = spawn_empty_entities(world, capacity);
        let slot_entity = |i: usize| -> (e: Result<u64, PoolError>)
            requires
                i < bits@.len(),
            ensures
                e == Ok::<u64, PoolError>(bits@[i as int]),
        { Ok(bits[i]) };
        let made = Pool::initialize(capacity, slot_entity);
        proof {
            if made is Err {
                let (i, m) = choose|i: usize, m: Result<u64, PoolError>|
                    i < capacity && #[trigger] call_ensures(slot_entity, (i,), m) && m is Err;
            }
        }
        match made {
            Ok(pool) => {
                proof {
                    pool.lemma_wf_facts();
                    assert(pool.items() =~= bits@);
                }
                let pool = pool.with_id(id as u64);
                Ok(EntityPool { world: id, pool })
            },
            Err(_) => Err(PoolError::ReservationFailed),
        }
    }

    /// Number of entities of the pool.
    pub fn capacity(&self) -> (r: usize)
        requires
            self.wf(),
        ensures
            r == self.capacity_spec(),
    {
        self.pool.capacity()
    }

    /// Number of entities checked out.
    pub fn in_use_count(&self) -> (r: usize)
        requires
            self.wf(),
        ensures
            r == count_in_use(self.owners()),
    {
        self.pool.in_use_count()
    }

    /// Hands out the entity of the lowest free slot.
    ///
    /// Fails with `PoolExhausted`, giving the capacity and the number of
    /// entities in use, when no slot is free (or the pool has issued all the
    /// tickets a `u64` counts).
    pub fn get(&mut self) -> (r: Result<EntityHandle, PoolError>)
        requires
            old(self).wf(),
        ensures
            final(self).wf(),
            final(self).slots() == old(self).slots(),
            final(self).world_id() == old(self).world_id(),
            final(self).pool_id() == old(self).pool_id(),
            match r {
                Ok(h) => {
                    &&& has_free_slot(old(self).owners())
                    &&& old(self).next_ticket() < u64::MAX
                    &&& is_lowest_free(old(self).owners(), h.spec_handle().spec_slot() as int)
                    &&& h.spec_handle().spec_ticket() == old(self).next_ticket()
                    &&& h.spec_handle().spec_pool() == old(self).pool_id()
                    &&& h.spec_entity() == old(self).slots()[h.spec_handle().spec_slot() as int]
                    &&& final(self).owners() == old(self).owners().update(
                        h.spec_handle().spec_slot() as int,
                        Some(h.spec_handle().spec_ticket()),
                    )
                    &&& final(self).next_ticket() == old(self).next_ticket() + 1
                },
                Err(e) => {
                    &&& !has_free_slot(old(self).owners()) || old(self).next_ticket() == u64::MAX
                    &&& e matches PoolError::PoolExhausted(x) && x.capacity == old(self).capacity_spec() && x.in_use == count_in_use(old(self).owners())
                    &&& final(self).owners() == old(self).owners()
                    &&& final(self).next_ticket() == old(self).next_ticket()
                },
            },
    {
        match self.pool.acquire() {
            Ok(handle) => {
                let entity = *self.pool.slot_item(handle.slot_index());
                Ok(EntityHandle { handle, entity })
            },
            Err(e) => Err(PoolError::PoolExhausted(e)),
        }
    }

    /// Gives back the entity held by `h` and clears its components in
    /// `world`.
    ///
    /// Returns `Ok(true)` when this call freed (and cleared) the entity,
    /// `Ok(false)` when `h` had been given back already. A handle of another
    /// pool is refused with `ForeignHandle`, a world other than the pool's
    /// with `ForeignWorld`. In all but the first case neither the pool nor
    /// the world changes.
    pub fn release(&mut self, h: &EntityHandle, world: &mut World) -> (r: Result<bool, PoolError>)
        requires
            old(self).wf(),
        ensures
            final(self).wf(),
            final(self).slots() == old(self).slots(),
            final(self).next_ticket() == old(self).next_ticket(),
            final(self).world_id() == old(self).world_id(),
            final(self).pool_id() == old(self).pool_id(),
            r == Err::<bool, PoolError>(PoolError::ForeignWorld) ==> final(self).owners() == old(self).owners(),
            r != Err::<bool, PoolError>(PoolError::ForeignWorld) ==> {
                &&& r == old(self).release_result(h)
                &&& final(self).owners() == old(self).owners_after(h)
            },
            r != Ok::<bool, PoolError>(true) ==> *final(world) == *old(world),
    {
        let id = world_id(world);
        self.release_in(h, id, world)
    }

    /// [`EntityPool::release`] once the world's identity `id` is known.
    fn release_in(&mut self, h: &EntityHandle, id: usize, world: &mut World) -> (r: Result<bool, PoolError>)
        requires
            old(self).wf(),
        ensures
            final(self).wf(),
            final(self).slots() == old(self).slots(),
            final(self).next_ticket() == old(self).next_ticket(),
            final(self).world_id() == old(self).world_id(),
            final(self).pool_id() == old(self).pool_id(),
            id != old(self).world_id() ==> r == Err::<bool, PoolError>(PoolError::ForeignWorld)
                && final(self).owners() == old(self).owners(),
            id == old(self).world_id() ==> {
                &&& r == old(self).release_result(h)
                &&& final(self).owners() == old(self).owners_after(h)
            },
            r != Ok::<bool, PoolError>(true) ==> *final(world) == *old(world),
    {
        if id != self.world {
            return Err(PoolError::ForeignWorld);
        }
        proof {
            self.pool.lemma_wf_facts();
            assert(self.pool.is_foreign(h.handle) ==> !self.pool.is_active(h.handle));
        }
        let i = h.handle.slot_index();
        if h.handle.pool_id() != self.pool.id_of() || i >= self.pool.capacity()
            || *self.pool.slot_item(i) != h.entity {
            return Err(PoolError::ForeignHandle);
        }
        let r = self.pool.release(&h.handle);
        if let Ok(true) = r {
            clear_entity(world, h.entity);
        }
        r
    }

    /// Clears every checked-out entity in `world` and frees every slot:
    /// each handle issued before is released for good. Returns the number of
    /// entities cleared; a world other than the pool's is refused with
    /// `ForeignWorld`, and then nothing changes.
    pub fn free_entities(&mut self, world: &mut World) -> (r: Result<usize, PoolError>)
        requires
            old(self).wf(),
        ensures
            final(self).wf(),
            final(self).slots() == old(self).slots(),
            final(self).next_ticket() == old(self).next_ticket(),
            final(self).capacity_spec() == old(self).capacity_spec(),
            final(self).world_id() == old(self).world_id(),
            final(self).pool_id() == old(self).pool_id(),
            r is Err ==> r == Err::<usize, PoolError>(PoolError::ForeignWorld) && final(self).owners()
                == old(self).owners() && *final(world) == *old(world),
            r matches Ok(n) ==> n == count_in_use(old(self).owners()) && all_free(final(self).owners()),
            r == Ok::<usize, PoolError>(0) ==> *final(world) == *old(world),
    {
        let id = world_id(world);
        self.free_entities_in(id, world)
    }

    /// [`EntityPool::free_entities`] once the world's identity `id` is known.
    fn free_entities_in(&mut self, id: usize, world: &mut World) -> (r: Result<usize, PoolError>)
        requires
            old(self).wf(),
        ensures
            final(self).wf(),
            final(self).slots() == old(self).slots(),
            final(self).next_ticket() == old(self).next_ticket(),
            final(self).capacity_spec() == old(self).capacity_spec(),
            final(self).world_id() == old(self).world_id(),
            final(self).pool_id() == old(self).pool_id(),
            id != old(self).world_id() ==> r == Err::<usize, PoolError>(PoolError::ForeignWorld)
                && final(self).owners() == old(self).owners() && *final(world) == *old(world),
            id == old(self).world_id() ==> r is Ok && all_free(final(self).owners()),
            r matches Ok(n) ==> n == count_in_use(old(self).owners()),
            r == Ok::<usize, PoolError>(0) ==> *final(world) == *old(world),
    {
        if id != self.world {
            return Err(PoolError::ForeignWorld);
        }
        let n = self.pool.capacity();
        let mut cleared: usize = 0;
        let mut i: usize = 0;
        while i < n
            invariant
                self.wf(),
                n == self.capacity_spec(),
                i <= n,
                cleared == count_in_use(self.owners().take(i as int)),
                cleared <= i,
                cleared == 0 ==> *world == *old(world),
            decreases n - i,
        {
            proof {
                assert(self.owners().take(i + 1).drop_last() =~= self.owners().take(i as int));
            }
            if self.pool.slot_in_use(i) {
                clear_entity(world, *self.pool.slot_item(i));
                cleared = cleared + 1;
            }
            i = i + 1;
        }
        proof {
            assert(self.owners().take(i as int) =~= self.owners());
        }
        self.pool.free_all();
        Ok(cleared)
    }

    /// Bits of the entity `h` holds, for addressing it in the world.
    pub fn entity(&self, h: &EntityHandle) -> (r: Result<u64, PoolError>)
        requires
            self.wf(),
        ensures
            r == self.entity_result(h),
    {
        match self.state(h) {
            Ok(HandleState::Active) => Ok(h.entity),
            Ok(HandleState::Released) => Err(PoolError::UseAfterRelease),
            Err(e) => Err(e),
        }
    }

    /// Whether `h` still holds its entity.
    pub fn state(&self, h: &EntityHandle) -> (r: Result<HandleState, PoolError>)
        requires
            self.wf(),
        ensures
            r == (if self.is_foreign(h) {
                Err(PoolError::ForeignHandle)
            } else if self.is_active(h) {
                Ok(HandleState::Active)
            } else {
                Ok(HandleState::Released)
            }),
    {
        let i = h.handle.slot_index();
        if h.handle.pool_id() != self.pool.id_of() || i >= self.pool.capacity()
            || *self.pool.slot_item(i) != h.entity {
            return Err(PoolError::ForeignHandle);
        }
        self.pool.state(&h.handle)
    }

    /// Fails with `UnreleasedHandleOnTeardown` while any entity is checked
    /// out; to be called before the pool is dropped.
    pub fn check_all_released(&self) -> (r: Result<(), PoolError>)
        requires
            self.wf(),
        ensures
            r is Ok <==> count_in_use(self.owners()) == 0,
            r is Err ==> r == Err::<(), PoolError>(PoolError::UnreleasedHandleOnTeardown),
    {
        self.pool.check_all_released()
    }
}

/// Giving back an entity handle a second time clears nothing and changes
/// nothing: `q` is the pool as the first release of `h` on `p` left it.
pub proof fn lemma_entity_release_idempotent(p: &EntityPool, q: &EntityPool, h: &EntityHandle)
    requires
        p.wf(),
        q.slots() == p.slots(),
        q.next_ticket() == p.next_ticket(),
        q.pool_id() == p.pool_id(),
        q.owners() == p.owners_after(h),
    ensures
        q.owners_after(h) == q.owners(),
        p.release_result(h) is Ok ==> q.release_result(h) == Ok::<bool, PoolError>(false),
        p.release_result(h) is Err ==> q.release_result(h) == p.release_result(h),
{
}

/// Once given back, an entity handle is refused on every access: `q` is the
/// pool as releasing `h` on `p` left it.
pub proof fn lemma_entity_use_after_release(p: &EntityPool, q: &EntityPool, h: &EntityHandle)
    requires
        p.wf(),
        q.slots() == p.slots(),
        q.next_ticket() == p.next_ticket(),
        q.pool_id() == p.pool_id(),
        q.owners() == p.owners_after(h),
        !p.is_foreign(h),
    ensures
        q.entity_result(h) == Err::<u64, PoolError>(PoolError::UseAfterRelease),
{
}

/// After `free_entities` took `p` to `q`, every handle of the pool is
/// refused as released, and the next `get` hands out the first slot again.
pub proof fn lemma_free_entities_complete(p: &EntityPool, q: &EntityPool, h: &EntityHandle)
    requires
        p.wf(),
        q.slots() == p.slots(),
        q.next_ticket() == p.next_ticket(),
        q.pool_id() == p.pool_id(),
        q.capacity_spec() == p.capacity_spec(),
        all_free(q.owners()),
    ensures
        !p.is_foreign(h) ==> q.entity_result(h) == Err::<u64, PoolError>(
            PoolError::UseAfterRelease,
        ),
        count_in_use(q.owners()) == 0,
        q.capacity_spec() > 0 ==> is_lowest_free(q.owners(), 0),
{
    crate::slot_pool::lemma_count_all_free(q.owners());
}

/// The entity handles of a pool that are active at the same time are no
/// more than its capacity, and two different ones hold different slots.
pub proof fn lemma_entity_capacity_invariant(p: &EntityPool, active: Set<EntityHandle>)
    requires
        p.wf(),
        forall|h: EntityHandle| #[trigger] active.contains(h) ==> p.is_active(&h) && !p.is_foreign(&h),
    ensures
        active.finite(),
        active.len() <= p.capacity_spec(),
        forall|h1: EntityHandle, h2: EntityHandle|
            active.contains(h1) && active.contains(h2) && h1 != h2
                ==> h1.spec_handle().spec_slot() != h2.spec_handle().spec_slot(),
{
    let inner = |h: EntityHandle| h.handle;
    let handles = active.map(inner);
    assert forall|h: PoolHandle| #[trigger] handles.contains(h) implies p.pool.is_active(h) by {
        let eh = choose|eh: EntityHandle| active.contains(eh) && inner(eh) == h;
    }
    lemma_capacity_invariant(&p.pool, handles);
    assert forall|h1: EntityHandle, h2: EntityHandle|
        active.contains(h1) && active.contains(h2) && #[trigger] inner(h1) == #[trigger] inner(h2)
        implies h1 == h2 by {
    }
    assert(injective_on(inner, active));
    assert(active.finite()) by {
        let back = |h: PoolHandle| EntityHandle { handle: h, entity: p.slots()[h.spec_slot() as int] };
        assert forall|h: EntityHandle| #[trigger] active.contains(h) implies handles.map(back).contains(h) by {
            assert(handles.contains(inner(h)));
            assert(back(inner(h)) == h);
        }
        handles.lemma_map_finite(back);
        lemma_len_subset(active, handles.map(back));
    }
    lemma_map_size(active, handles, inner);
    assert forall|h1: EntityHandle, h2: EntityHandle|
        active.contains(h1) && active.contains(h2) && h1 != h2
            implies h1.spec_handle().spec_slot() != h2.spec_handle().spec_slot() by {
        if h1.spec_handle().spec_slot() == h2.spec_handle().spec_slot() {
            PoolHandle::lemma_same_handle(h1.spec_handle(), h2.spec_handle());
        }
    }
}

} // verus!
