//! The slot bookkeeping of a fixed-capacity pool.
use vstd::prelude::*;
use vstd::set_lib::{lemma_int_range, lemma_len_subset, lemma_map_size_bound, set_int_range};

verus! {

/// Exclusive claim on one slot of a [`Pool`].
///
/// A handle holds the index of its slot and the ticket under which the slot
/// was handed out, and the identity of the pool that issued it. Tickets are
/// never issued twice by one pool, so once the slot has been given back (or
/// handed to someone else) the handle no longer matches it. Handles are not
/// copied: each checked-out slot has one owner.
#[derive(Debug, PartialEq, Eq, Structural)]
pub struct PoolHandle {
    pool_id: u64,
    slot_index: usize,
    ticket: u64,
}

impl PoolHandle {
    pub closed spec fn spec_pool(&self) -> u64 {
        self.pool_id
    }

    pub closed spec fn spec_slot(&self) -> usize {
        self.slot_index
    }

    pub closed spec fn spec_ticket(&self) -> u64 {
        self.ticket
    }

    /// Handles that agree on pool, slot and ticket are the same handle.
    pub proof fn lemma_same_handle(a: PoolHandle, b: PoolHandle)
        requires
            a.spec_pool() == b.spec_pool(),
            a.spec_slot() == b.spec_slot(),
            a.spec_ticket() == b.spec_ticket(),
        ensures
            a == b,
    {
    }

    /// Index of the slot this handle was issued for.
    pub fn slot_index(&self) -> (r: usize)
        ensures
            r == self.spec_slot(),
    {
        self.slot_index
    }

    /// Identity of the pool that issued this handle.
    pub fn pool_id(&self) -> (r: u64)
        ensures
            r == self.spec_pool(),
    {
        self.pool_id
    }
}

/// No slot was free when one was asked for.
#[derive(Clone, Copy, Debug, PartialEq, Eq, Structural)]
pub struct PoolExhausted {
    /// Number of slots of the pool.
    pub capacity: usize,
    /// Number of slots checked out at the time.
    pub in_use: usize,
}

/// What can go wrong when using a pool.
#[derive(Clone, Copy, Debug, PartialEq, Eq, Structural)]
pub enum PoolError {
    /// The store could not supply the identifiers the pool was to hold.
    ReservationFailed,
    /// Every slot is checked out.
    PoolExhausted(PoolExhausted),
    /// The handle was not issued by this pool.
    ForeignHandle,
    /// The store is not the one the pool was built on.
    ForeignWorld,
    /// The handle's slot has been given back already.
    UseAfterRelease,
    /// Some handle of the pool is still checked out.
    UnreleasedHandleOnTeardown,
}

/// Whether a handle still holds its slot.
#[derive(Clone, Copy, Debug, PartialEq, Eq, Structural)]
pub enum HandleState {
    Active,
    Released,
}

/// Whether `factory` may hand out an item for slot `k`.
pub open spec fn gave_item<T, E, F: Fn(usize) -> Result<T, E>>(factory: F, k: usize) -> bool {
    exists|x: T| call_ensures(factory, (k,), Ok::<T, E>(x))
}

/// Number of checked-out slots in `owners`.
pub open spec fn count_in_use(owners: Seq<Option<u64>>) -> nat
    decreases owners.len(),
{
    if owners.len() == 0 {
        0
    } else {
        count_in_use(owners.drop_last()) + if owners.last() is Some {
            1nat
        } else {
            0nat
        }
    }
}

/// Whether slot `i` is free.
pub open spec fn slot_free(owners: Seq<Option<u64>>, i: int) -> bool {
    0 <= i < owners.len() && owners[i] is None
}

/// Whether some slot is free.
pub open spec fn has_free_slot(owners: Seq<Option<u64>>) -> bool {
    exists|i: int| slot_free(owners, i)
}

/// `i` is the lowest free slot.
pub open spec fn is_lowest_free(owners: Seq<Option<u64>>, i: int) -> bool {
    slot_free(owners, i) && forall|j: int| 0 <= j < i ==> !slot_free(owners, j)
}

/// Whether `h` holds its slot under the bookkeeping `owners`.
pub open spec fn is_active_in(owners: Seq<Option<u64>>, h: PoolHandle) -> bool {
    h.spec_slot() < owners.len() && owners[h.spec_slot() as int] == Some(h.spec_ticket())
}

/// Whether `h` cannot have been issued by the pool with identity `id`,
/// bookkeeping `owners` and next ticket `next`.
pub open spec fn is_foreign_in(owners: Seq<Option<u64>>, next: u64, id: u64, h: PoolHandle) -> bool {
    h.spec_pool() != id || h.spec_slot() >= owners.len() || h.spec_ticket() >= next
}

/// The bookkeeping after `h` is given back: its slot becomes free if `h`
/// held it, and nothing changes otherwise.
pub open spec fn owners_after_release(owners: Seq<Option<u64>>, h: PoolHandle) -> Seq<Option<u64>> {
    if is_active_in(owners, h) {
        owners.update(h.spec_slot() as int, None)
    } else {
        owners
    }
}

/// What giving back `h` reports: the handle is foreign, or whether the slot
/// was freed (and so is to be cleared) by this call.
pub open spec fn release_result(owners: Seq<Option<u64>>, next: u64, id: u64, h: PoolHandle) -> Result<bool, PoolError> {
    if is_foreign_in(owners, next, id, h) {
        Err(PoolError::ForeignHandle)
    } else {
        Ok(is_active_in(owners, h))
    }
}

/// What an access through `h` reports.
pub open spec fn access_result(owners: Seq<Option<u64>>, next: u64, id: u64, h: PoolHandle) -> Result<(), PoolError> {
    if is_foreign_in(owners, next, id, h) {
        Err(PoolError::ForeignHandle)
    } else if !is_active_in(owners, h) {
        Err(PoolError::UseAfterRelease)
    } else {
        Ok(())
    }
}

/// A bookkeeping with every slot free.
pub open spec fn all_free(owners: Seq<Option<u64>>) -> bool {
    forall|i: int| 0 <= i < owners.len() ==> #[trigger] owners[i] is None
}

/// No more slots are checked out than there are.
pub proof fn lemma_count_bounded(owners: Seq<Option<u64>>)
    ensures
        count_in_use(owners) <= owners.len(),
    decreases owners.len(),
{
    if owners.len() > 0 {
        lemma_count_bounded(owners.drop_last());
    }
}

/// With every slot free, none is checked out.
pub proof fn lemma_count_all_free(owners: Seq<Option<u64>>)
    requires
        all_free(owners),
    ensures
        count_in_use(owners) == 0,
    decreases owners.len(),
{
    if owners.len() > 0 {
        lemma_count_all_free(owners.drop_last());
    }
}

/// A fixed set of slots, each holding an item, handed out one at a time.
///
/// `owners[i]` is the ticket of the handle that holds slot `i`, or `None`
/// when the slot is free. Every ticket in use is below `next_ticket`. `id`
/// is the identity that handles of this pool carry.
pub struct Pool<T> {
    id: u64,
    items: Vec<T>,
    owners: Vec<Option<u64>>,
    next_ticket: u64,
}

impl<T> Pool<T> {
    /// The item of each slot.
    pub closed spec fn items(&self) -> Seq<T> {
        self.items@
    }

    /// Ticket of the handle holding each slot, `None` for a free slot.
    pub closed spec fn owners(&self) -> Seq<Option<u64>> {
        self.owners@
    }

    /// The identity carried by the handles of this pool.
    pub closed spec fn id(&self) -> u64 {
        self.id
    }

    /// The ticket the next handle will carry.
    pub closed spec fn next_ticket(&self) -> u64 {
        self.next_ticket
    }

    pub open spec fn capacity_spec(&self) -> nat {
        self.owners().len()
    }

    pub closed spec fn wf(&self) -> bool {
        &&& self.items@.len() == self.owners@.len()
        &&& forall|i: int|
            0 <= i < self.owners@.len() && (#[trigger] self.owners@[i]) is Some
                ==> self.owners@[i].unwrap() < self.next_ticket
    }

    /// A well-formed pool holds one item per slot, and no handle it cannot
    /// have issued is active in it.
    pub proof fn lemma_wf_facts(&self)
        requires
            self.wf(),
        ensures
            self.items().len() == self.capacity_spec(),
            forall|h: PoolHandle| #[trigger] self.is_foreign(h) ==> !self.is_active(h),
    {
    }

    pub open spec fn is_active(&self, h: PoolHandle) -> bool {
        h.spec_pool() == self.id() && is_active_in(self.owners(), h)
    }

    pub open spec fn is_foreign(&self, h: PoolHandle) -> bool {
        is_foreign_in(self.owners(), self.next_ticket(), self.id(), h)
    }

    /// Builds a pool of `number_items` slots, slot `i` holding `factory(i)`;
    /// the first error of the factory is returned instead.
    pub fn initialize<F, E>(number_items: usize, factory: F) -> (r: Result<Self, E>)
        where
            F: Fn(usize) -> Result<T, E>,
        requires
            forall|i: usize| i < number_items ==> call_requires(factory, (i,)),
        ensures
            r matches Ok(p) ==> {
                &&& p.wf()
                &&& p.capacity_spec() == number_items
                &&& all_free(p.owners())
                &&& p.next_ticket() == 0
                &&& p.id() == 0
                &&& forall|i: int|
                    0 <= i < number_items ==> call_ensures(
                        factory,
                        (i as usize,),
                        Ok(#[trigger] p.items()[i]),
                    )
            },
            r is Err ==> exists|i: usize|
                {
                    &&& i < number_items
                    &&& #[trigger] call_ensures(factory, (i,), Err::<T, E>(r->Err_0))
                    &&& forall|k: usize| k < i ==> #[trigger] gave_item::<T, E, F>(factory, k)
                },
    {
        let mut items: Vec<T> = Vec::new();
        let mut owners: Vec<Option<u64>> = Vec::new();
        let mut i: usize = 0;
        while i < number_items
            invariant
                i <= number_items,
                items@.len() == i,
                owners@.len() == i,
                all_free(owners@),
                forall|k: usize| k < number_items ==> call_requires(factory, (k,)),
                forall|k: int|
                    0 <= k < i ==> call_ensures(factory, (k as usize,), Ok(#[trigger] items@[k])),
            decreases number_items - i,
        {
            let made = factory(i);
            match made {
                Ok(item) => {
                    items.push(item);
                    owners.push(None);
                },
                Err(e) => {
                    assert(call_ensures(factory, (i,), made));
                    let ghost back: Result<Self, E> = Err(e);
                    assert(made == Err::<T, E>(back->Err_0));
                    assert(call_ensures(factory, (i,), Err::<T, E>(back->Err_0)));
                    assert forall|k: usize| k < i implies #[trigger] gave_item::<T, E, F>(factory, k) by {
                        assert(call_ensures(factory, (k as int as usize,), Ok::<T, E>(items@[k as int])));
                    }
                    return Err(e);
                },
            }
            i = i + 1;
        }
        Ok(Pool { id: 0, items, owners, next_ticket: 0 })
    }

    /// The same pool, its handles carrying the identity `id`. Give pools
    /// that live side by side different identities, so that each refuses
    /// the other's handles.
    pub fn with_id(self, id: u64) -> (r: Self)
        requires
            self.wf(),
        ensures
            r.wf(),
            r.id() == id,
            r.items() == self.items(),
            r.owners() == self.owners(),
            r.next_ticket() == self.next_ticket(),
    {
        Pool { id, ..self }
    }

    /// The identity carried by the handles of this pool.
    pub fn id_of(&self) -> (r: u64)
        ensures
            r == self.id(),
    {
        self.id
    }

    /// Number of slots.
    pub fn capacity(&self) -> (r: usize)
        requires
            self.wf(),
        ensures
            r == self.capacity_spec(),
    {
        self.owners.len()
    }

    /// Number of slots checked out.
    pub fn in_use_count(&self) -> (r: usize)
        requires
            self.wf(),
        ensures
            r == count_in_use(self.owners()),
    {
        let mut n: usize = 0;
        let mut i: usize = 0;
        while i < self.owners.len()
            invariant
                i <= self.owners@.len(),
                n == count_in_use(self.owners@.take(i as int)),
                n <= i,
            decreases self.owners@.len() - i,
        {
            proof {
                assert(self.owners@.take(i + 1).drop_last() =~= self.owners@.take(i as int));
            }
            if self.owners[i].is_some() {
                n = n + 1;
            }
            i = i + 1;
        }
        proof {
            assert(self.owners@.take(i as int) =~= self.owners@);
        }
        n
    }

    /// Hands out the lowest free slot under a fresh ticket.
    ///
    /// Fails when every slot is checked out, or when the pool has issued all
    /// the tickets a `u64` can count.
    pub fn acquire(&mut self) -> (r: Result<PoolHandle, PoolExhausted>)
        requires
            old(self).wf(),
        ensures
            final(self).wf(),
            final(self).items() == old(self).items(),
            final(self).id() == old(self).id(),
            match r {
                Ok(h) => {
                    &&& has_free_slot(old(self).owners())
                    &&& old(self).next_ticket() < u64::MAX
                    &&& is_lowest_free(old(self).owners(), h.spec_slot() as int)
                    &&& h.spec_ticket() == old(self).next_ticket()
                    &&& h.spec_pool() == old(self).id()
                    &&& final(self).owners() == old(self).owners().update(
                        h.spec_slot() as int,
                        Some(h.spec_ticket()),
                    )
                    &&& final(self).next_ticket() == old(self).next_ticket() + 1
                },
                Err(e) => {
                    &&& !has_free_slot(old(self).owners()) || old(self).next_ticket() == u64::MAX
                    &&& e.capacity == old(self).capacity_spec()
                    &&& e.in_use == count_in_use(old(self).owners())
                    &&& *final(self) == *old(self)
                },
            },
    {
        let mut i: usize = 0;
        while i < self.owners.len() && self.owners[i].is_some()
            invariant
                i <= self.owners@.len(),
                forall|j: int| 0 <= j < i ==> !slot_free(self.owners@, j),
            decreases self.owners@.len() - i,
        {
            i = i + 1;
        }
        if i == self.owners.len() || self.next_ticket == u64::MAX {
            let in_use = self.in_use_count();
            return Err(PoolExhausted { capacity: self.owners.len(), in_use });
        }
        assert(slot_free(self.owners@, i as int));
        let ticket = self.next_ticket;
        self.owners.set(i, Some(ticket));
        self.next_ticket = ticket + 1;
        Ok(PoolHandle { pool_id: self.id, slot_index: i, ticket })
    }
    /// Gives back the slot held by `h`.
    ///
    /// Returns `Ok(true)` when this call freed the slot, `Ok(false)` when `h`
    /// had given it back already (nothing changes then), and
    /// `Err(ForeignHandle)` for a handle this pool cannot have issued.
    pub fn release(&mut self, h: &PoolHandle) -> (r: Result<bool, PoolError>)
        requires
            old(self).wf(),
        ensures
            final(self).wf(),
            final(self).items() == old(self).items(),
            final(self).next_ticket() == old(self).next_ticket(),
            final(self).id() == old(self).id(),
            r == release_result(old(self).owners(), old(self).next_ticket(), old(self).id(), *h),
            final(self).owners() == if old(self).is_foreign(*h) {
                old(self).owners()
            } else {
                owners_after_release(old(self).owners(), *h)
            },
    {
        if h.pool_id != self.id || h.slot_index >= self.owners.len() || h.ticket >= self.next_ticket {
            return Err(PoolError::ForeignHandle);
        }
        let i = h.slot_index;
        let held = match self.owners[i] {
            Some(t) => t == h.ticket,
            None => false,
        };
        if held {
            self.owners.set(i, None);
        }
        Ok(held)
    }

    /// Frees every slot. Handles issued before stay released for good.
    pub fn free_all(&mut self)
        requires
            old(self).wf(),
        ensures
            final(self).wf(),
            final(self).items() == old(self).items(),
            final(self).next_ticket() == old(self).next_ticket(),
            final(self).capacity_spec() == old(self).capacity_spec(),
            final(self).id() == old(self).id(),
            all_free(final(self).owners()),
    {
        let n = self.owners.len();
        let mut i: usize = 0;
        while i < n
            invariant
                n == self.owners@.len(),
                i <= n,
                self.items@.len() == n,
                self.next_ticket == old(self).next_ticket,
                self.id == old(self).id,
                self.items@ == old(self).items@,
                forall|j: int| 0 <= j < i ==> #[trigger] self.owners@[j] is None,
                forall|j: int|
                    0 <= j < n && (#[trigger] self.owners@[j]) is Some
                        ==> self.owners@[j].unwrap() < self.next_ticket,
            decreases n - i,
        {
            self.owners.set(i, None);
            i = i + 1;
        }
    }

    /// Whether slot `i` is checked out.
    pub fn slot_in_use(&self, i: usize) -> (r: bool)
        requires
            self.wf(),
            i < self.capacity_spec(),
        ensures
            r == (self.owners()[i as int] is Some),
    {
        self.owners[i].is_some()
    }

    /// The item of slot `i`, whether or not it is checked out.
    pub fn slot_item(&self, i: usize) -> (r: &T)
        requires
            self.wf(),
            i < self.capacity_spec(),
        ensures
            *r == self.items()[i as int],
    {
        &self.items[i]
    }

    /// The item of the slot that `h` holds.
    pub fn get(&self, h: &PoolHandle) -> (r: Result<&T, PoolError>)
        requires
            self.wf(),
        ensures
            match r {
                Ok(item) => access_result(self.owners(), self.next_ticket(), self.id(), *h) == Ok::<(), PoolError>(())
                    && *item == self.items()[h.spec_slot() as int],
                Err(e) => access_result(self.owners(), self.next_ticket(), self.id(), *h) == Err::<(), PoolError>(e),
            },
    {
        match self.state(h) {
            Ok(HandleState::Active) => Ok(&self.items[h.slot_index]),
            Ok(HandleState::Released) => Err(PoolError::UseAfterRelease),
            Err(e) => Err(e),
        }
    }

    /// Whether `h` still holds its slot.
    pub fn state(&self, h: &PoolHandle) -> (r: Result<HandleState, PoolError>)
        requires
            self.wf(),
        ensures
            r == (if self.is_foreign(*h) {
                Err(PoolError::ForeignHandle)
            } else if self.is_active(*h) {
                Ok(HandleState::Active)
            } else {
                Ok(HandleState::Released)
            }),
    {
        if h.pool_id != self.id || h.slot_index >= self.owners.len() || h.ticket >= self.next_ticket {
            return Err(PoolError::ForeignHandle);
        }
        match self.owners[h.slot_index] {
            Some(t) => if t == h.ticket {
                Ok(HandleState::Active)
            } else {
                Ok(HandleState::Released)
            },
            None => Ok(HandleState::Released),
        }
    }

    /// Fails with `UnreleasedHandleOnTeardown` while any slot is checked out.
    pub fn check_all_released(&self) -> (r: Result<(), PoolError>)
        requires
            self.wf(),
        ensures
            r is Ok <==> count_in_use(self.owners()) == 0,
            r is Err ==> r == Err::<(), PoolError>(PoolError::UnreleasedHandleOnTeardown),
    {
        if self.in_use_count() == 0 {
            Ok(())
        } else {
            Err(PoolError::UnreleasedHandleOnTeardown)
        }
    }
}

/// However slots are acquired and released, the handles that are active at
/// the same time are no more than the pool's capacity, and no more slots are
/// checked out than the pool has.
pub proof fn lemma_capacity_invariant<T>(p: &Pool<T>, active: Set<PoolHandle>)
    requires
        p.wf(),
        forall|h: PoolHandle| #[trigger] active.contains(h) ==> p.is_active(h),
    ensures
        active.finite(),
        active.len() <= p.capacity_spec(),
        count_in_use(p.owners()) <= p.capacity_spec(),
{
    let owners = p.owners();
    let slots = set_int_range(0, owners.len() as int);
    let holder = |i: int| PoolHandle { pool_id: p.id(), slot_index: i as usize, ticket: owners[i].unwrap() };
    let held = slots.map(holder);
    lemma_int_range(0, owners.len() as int);
    lemma_map_size_bound(slots, held, holder);
    assert forall|h: PoolHandle| #[trigger] active.contains(h) implies held.contains(h) by {
        let i = h.spec_slot() as int;
        assert(slots.contains(i));
        assert(holder(i) == h);
    }
    lemma_len_subset(active, held);
    lemma_count_bounded(owners);
}

/// Two different handles that are both active hold different slots, and a
/// slot handed out next is none that an active handle holds.
pub proof fn lemma_no_double_allocation<T>(p: &Pool<T>, h1: PoolHandle, h2: PoolHandle, i: int)
    requires
        p.wf(),
        p.is_active(h1),
        p.is_active(h2),
    ensures
        h1 != h2 ==> h1.spec_slot() != h2.spec_slot(),
        is_lowest_free(p.owners(), i) ==> {
            &&& h1.spec_slot() != i
            &&& is_active_in(p.owners().update(i, Some(p.next_ticket())), h1)
            &&& h1.spec_ticket() != p.next_ticket()
        },
{
}

/// Acquiring again and again after every slot was freed hands out the
/// slots in order: with the first `k` slots taken and the rest free, slot
/// `k` is the one handed out next.
pub proof fn lemma_refill_in_order(owners: Seq<Option<u64>>, k: int)
    requires
        0 <= k < owners.len(),
        forall|j: int| 0 <= j < k ==> #[trigger] owners[j] is Some,
        forall|j: int| k <= j < owners.len() ==> #[trigger] owners[j] is None,
    ensures
        is_lowest_free(owners, k),
        has_free_slot(owners),
{
    assert(slot_free(owners, k));
}

/// Giving back a handle a second time changes nothing and frees no slot.
pub proof fn lemma_release_idempotent(owners: Seq<Option<u64>>, next: u64, id: u64, h: PoolHandle)
    ensures
        owners_after_release(owners_after_release(owners, h), h) == owners_after_release(owners, h),
        release_result(owners, next, id, h) is Ok ==> release_result(
            owners_after_release(owners, h),
            next,
            id,
            h,
        ) == Ok::<bool, PoolError>(false),
        release_result(owners, next, id, h) is Err ==> release_result(
            owners_after_release(owners, h),
            next,
            id,
            h,
        ) == release_result(owners, next, id, h),
{
}

/// Once given back, a handle of the pool is refused on every access.
pub proof fn lemma_use_after_release(owners: Seq<Option<u64>>, next: u64, id: u64, h: PoolHandle)
    requires
        !is_foreign_in(owners, next, id, h),
    ensures
        access_result(owners_after_release(owners, h), next, id, h) == Err::<(), PoolError>(
            PoolError::UseAfterRelease,
        ),
{
}

/// After every slot is freed, each handle the pool issued is released, no
/// slot is checked out, and acquiring starts again from the first slot.
pub proof fn lemma_free_all_complete<T>(p: &Pool<T>, q: &Pool<T>, h: PoolHandle)
    requires
        p.wf(),
        q.wf(),
        q.capacity_spec() == p.capacity_spec(),
        q.next_ticket() == p.next_ticket(),
        q.id() == p.id(),
        all_free(q.owners()),
    ensures
        !p.is_foreign(h) ==> access_result(q.owners(), q.next_ticket(), q.id(), h) == Err::<(), PoolError>(
            PoolError::UseAfterRelease,
        ),
        count_in_use(q.owners()) == 0,
        forall|i: int| 0 <= i < q.capacity_spec() ==> slot_free(q.owners(), i),
        q.capacity_spec() > 0 ==> is_lowest_free(q.owners(), 0),
{
    lemma_count_all_free(q.owners());
}

} // verus!
