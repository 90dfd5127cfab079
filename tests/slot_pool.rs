use entity_pool::{HandleState, Pool, PoolError, PoolExhausted, PoolHandle};

fn pool_of(n: usize) -> Pool<u32> {
    let made: Result<Pool<u32>, ()> = Pool::initialize(n, |i: usize| Ok(i as u32 * 10));
    made.unwrap()
}

#[test]
fn initialize_fills_slots_in_order() {
    let pool = pool_of(4);
    assert_eq!(pool.capacity(), 4);
    assert_eq!(pool.in_use_count(), 0);
    assert_eq!(*pool.slot_item(0), 0);
    assert_eq!(*pool.slot_item(3), 30);
}

#[test]
fn initialize_returns_factory_error() {
    let made: Result<Pool<u32>, String> = Pool::initialize(5, |i: usize| {
        if i >= 2 {
            Err(format!("no item {i}"))
        } else {
            Ok(i as u32)
        }
    });
    assert_eq!(made.err(), Some("no item 2".to_string()));
}

#[test]
fn initialize_empty_pool_is_exhausted() {
    let mut pool = pool_of(0);
    assert_eq!(pool.acquire(), Err(PoolExhausted { capacity: 0, in_use: 0 }));
}

#[test]
fn exhaustion_and_recovery() {
    let mut pool = pool_of(3);
    let a = pool.acquire().unwrap();
    let b = pool.acquire().unwrap();
    let c = pool.acquire().unwrap();
    assert_eq!((a.slot_index(), b.slot_index(), c.slot_index()), (0, 1, 2));
    assert_eq!(pool.acquire(), Err(PoolExhausted { capacity: 3, in_use: 3 }));
    assert_eq!(pool.release(&b), Ok(true));
    let d = pool.acquire().unwrap();
    assert_eq!(d.slot_index(), 1);
    assert_eq!(pool.in_use_count(), 3);
}

#[test]
fn lowest_free_slot_wins() {
    let mut pool = pool_of(4);
    let hs: Vec<PoolHandle> = (0..4).map(|_| pool.acquire().unwrap()).collect();
    assert_eq!(pool.release(&hs[3]), Ok(true));
    assert_eq!(pool.release(&hs[1]), Ok(true));
    assert_eq!(pool.acquire().unwrap().slot_index(), 1);
    assert_eq!(pool.acquire().unwrap().slot_index(), 3);
}

#[test]
fn active_handles_hold_distinct_slots() {
    let mut pool = pool_of(5);
    let hs: Vec<PoolHandle> = (0..5).map(|_| pool.acquire().unwrap()).collect();
    for i in 0..hs.len() {
        for j in 0..i {
            assert_ne!(hs[i].slot_index(), hs[j].slot_index());
        }
    }
    assert!(pool.in_use_count() <= pool.capacity());
}

#[test]
fn release_twice_is_noop() {
    let mut pool = pool_of(2);
    let a = pool.acquire().unwrap();
    assert_eq!(pool.release(&a), Ok(true));
    assert_eq!(pool.in_use_count(), 0);
    assert_eq!(pool.release(&a), Ok(false));
    assert_eq!(pool.in_use_count(), 0);
    let b = pool.acquire().unwrap();
    assert_eq!(b.slot_index(), a.slot_index());
    // the old handle must not free the new occupant's slot
    assert_eq!(pool.release(&a), Ok(false));
    assert_eq!(pool.state(&b), Ok(HandleState::Active));
}

#[test]
fn use_after_release_is_rejected() {
    let mut pool = pool_of(2);
    let a = pool.acquire().unwrap();
    assert_eq!(pool.get(&a), Ok(&0));
    pool.release(&a).unwrap();
    for _ in 0..3 {
        assert_eq!(pool.get(&a), Err(PoolError::UseAfterRelease));
    }
    let _b = pool.acquire().unwrap();
    assert_eq!(pool.get(&a), Err(PoolError::UseAfterRelease));
    assert_eq!(pool.state(&a), Ok(HandleState::Released));
}

#[test]
fn foreign_handles_are_refused() {
    let mut first = pool_of(2).with_id(1);
    let mut second = pool_of(2).with_id(2);
    let a = first.acquire().unwrap();
    let b = second.acquire().unwrap();
    assert_eq!((a.pool_id(), b.pool_id()), (1, 2));
    assert_eq!(second.release(&a), Err(PoolError::ForeignHandle));
    assert_eq!(second.get(&a), Err(PoolError::ForeignHandle));
    assert_eq!(second.state(&b), Ok(HandleState::Active));
    assert_eq!(first.state(&a), Ok(HandleState::Active));
}

#[test]
fn handle_out_of_range_or_never_issued_is_foreign() {
    let mut big = pool_of(5);
    let hs: Vec<PoolHandle> = (0..5).map(|_| big.acquire().unwrap()).collect();
    let mut small = pool_of(2);
    assert_eq!(small.release(&hs[4]), Err(PoolError::ForeignHandle));
    assert_eq!(small.release(&hs[0]), Err(PoolError::ForeignHandle));
    let _c = small.acquire().unwrap();
    assert_eq!(small.state(&hs[4]), Err(PoolError::ForeignHandle));
}

#[test]
fn free_all_releases_every_handle() {
    let mut pool = pool_of(3);
    let hs: Vec<PoolHandle> = (0..3).map(|_| pool.acquire().unwrap()).collect();
    pool.free_all();
    assert_eq!(pool.in_use_count(), 0);
    for h in &hs {
        assert_eq!(pool.state(h), Ok(HandleState::Released));
        assert_eq!(pool.get(h), Err(PoolError::UseAfterRelease));
        assert_eq!(pool.release(h), Ok(false));
    }
    let again: Vec<usize> = (0..3).map(|_| pool.acquire().unwrap().slot_index()).collect();
    assert_eq!(again, vec![0, 1, 2]);
    for h in &hs {
        assert_eq!(pool.get(h), Err(PoolError::UseAfterRelease));
    }
}

#[test]
fn teardown_check_reports_outstanding_handles() {
    let mut pool = pool_of(2);
    assert_eq!(pool.check_all_released(), Ok(()));
    let a = pool.acquire().unwrap();
    assert_eq!(pool.check_all_released(), Err(PoolError::UnreleasedHandleOnTeardown));
    pool.release(&a).unwrap();
    assert_eq!(pool.check_all_released(), Ok(()));
}

