use bevy::ecs::component::{Component, StorageType};
use bevy::ecs::entity::Entity;
use bevy::ecs::world::World;
use entity_pool::entity_pool::index_space_fits;
use entity_pool::{EntityHandle, EntityPool, HandleState, PoolError, PoolExhausted};

struct Marker(u32);

impl Component for Marker {
    const STORAGE_TYPE: StorageType = StorageType::Table;
}

fn entity_of(pool: &EntityPool, h: &EntityHandle) -> Entity {
    Entity::from_bits(pool.entity(h).unwrap())
}

#[test]
fn new_reserves_distinct_entities() {
    let mut world = World::new();
    let mut pool = EntityPool::new(4, &mut world).unwrap();
    assert_eq!(pool.capacity(), 4);
    let hs: Vec<EntityHandle> = (0..4).map(|_| pool.get().unwrap()).collect();
    for i in 0..hs.len() {
        assert!(world.get_entity(entity_of(&pool, &hs[i])).is_some());
        for j in 0..i {
            assert_ne!(hs[i].entity_bits(), hs[j].entity_bits());
        }
    }
}

#[test]
fn entity_pool_exhaustion_and_recovery() {
    let mut world = World::new();
    let mut pool = EntityPool::new(3, &mut world).unwrap();
    let a = pool.get().unwrap();
    let b = pool.get().unwrap();
    let c = pool.get().unwrap();
    assert_eq!((a.slot_index(), b.slot_index(), c.slot_index()), (0, 1, 2));
    assert_eq!(
        pool.get(),
        Err(PoolError::PoolExhausted(PoolExhausted { capacity: 3, in_use: 3 }))
    );
    assert_eq!(pool.release(&a, &mut world), Ok(true));
    let d = pool.get().unwrap();
    assert_eq!(d.slot_index(), 0);
    assert_eq!(d.entity_bits(), a.entity_bits());
    for h in [&b, &c, &d] {
        pool.release(h, &mut world).unwrap();
    }
    assert_eq!(pool.check_all_released(), Ok(()));
}

#[test]
fn release_clears_before_reuse() {
    let mut world = World::new();
    let mut pool = EntityPool::new(2, &mut world).unwrap();
    let a = pool.get().unwrap();
    let e = entity_of(&pool, &a);
    world.entity_mut(e).insert(Marker(7));
    assert_eq!(world.get::<Marker>(e).map(|m| m.0), Some(7));
    assert_eq!(a.drop(&mut pool, &mut world), Ok(true));
    assert!(world.get::<Marker>(e).is_none());
    let b = pool.get().unwrap();
    assert_eq!(b.slot_index(), a.slot_index());
    assert!(world.get::<Marker>(entity_of(&pool, &b)).is_none());
}

#[test]
fn entity_release_twice_clears_once() {
    let mut world = World::new();
    let mut pool = EntityPool::new(1, &mut world).unwrap();
    let a = pool.get().unwrap();
    assert_eq!(pool.release(&a, &mut world), Ok(true));
    let b = pool.get().unwrap();
    let e = entity_of(&pool, &b);
    world.entity_mut(e).insert(Marker(1));
    // the stale handle neither frees nor clears the new occupant
    assert_eq!(pool.release(&a, &mut world), Ok(false));
    assert_eq!(world.get::<Marker>(e).map(|m| m.0), Some(1));
    assert_eq!(pool.state(&b), Ok(HandleState::Active));
}

#[test]
fn entity_use_after_release_is_rejected() {
    let mut world = World::new();
    let mut pool = EntityPool::new(2, &mut world).unwrap();
    let a = pool.get().unwrap();
    assert_eq!(pool.entity(&a), Ok(a.entity_bits()));
    pool.release(&a, &mut world).unwrap();
    assert_eq!(pool.entity(&a), Err(PoolError::UseAfterRelease));
    assert_eq!(pool.state(&a), Ok(HandleState::Released));
}

#[test]
fn handle_of_other_pool_is_foreign() {
    let mut world = World::new();
    let mut first = EntityPool::new(2, &mut world).unwrap();
    let mut second = EntityPool::new(2, &mut world).unwrap();
    let a = first.get().unwrap();
    let _b = second.get().unwrap();
    assert_eq!(second.release(&a, &mut world), Err(PoolError::ForeignHandle));
    assert_eq!(second.entity(&a), Err(PoolError::ForeignHandle));
    assert_eq!(first.state(&a), Ok(HandleState::Active));
}

#[test]
fn free_entities_clears_and_releases_all() {
    let mut world = World::new();
    let mut pool = EntityPool::new(3, &mut world).unwrap();
    let hs: Vec<EntityHandle> = (0..2).map(|_| pool.get().unwrap()).collect();
    let es: Vec<Entity> = hs.iter().map(|h| entity_of(&pool, h)).collect();
    for (k, e) in es.iter().enumerate() {
        world.entity_mut(*e).insert(Marker(k as u32));
    }
    assert_eq!(pool.free_entities(&mut world), Ok(2));
    assert_eq!(pool.free_entities(&mut world), Ok(0));
    assert_eq!(pool.in_use_count(), 0);
    for (h, e) in hs.iter().zip(es.iter()) {
        assert!(world.get::<Marker>(*e).is_none());
        assert_eq!(pool.entity(h), Err(PoolError::UseAfterRelease));
        assert_eq!(pool.release(h, &mut world), Ok(false));
    }
    let again: Vec<usize> = (0..3).map(|_| pool.get().unwrap().slot_index()).collect();
    assert_eq!(again, vec![0, 1, 2]);
}

#[test]
fn entity_teardown_check() {
    let mut world = World::new();
    let mut pool = EntityPool::new(1, &mut world).unwrap();
    let a = pool.get().unwrap();
    assert_eq!(pool.check_all_released(), Err(PoolError::UnreleasedHandleOnTeardown));
    a.drop(&mut pool, &mut world).unwrap();
    assert_eq!(pool.check_all_released(), Ok(()));
}

#[test]
fn other_world_is_refused() {
    let mut world = World::new();
    let mut other = World::new();
    let mut pool = EntityPool::new(2, &mut world).unwrap();
    let a = pool.get().unwrap();
    let e = entity_of(&pool, &a);
    world.entity_mut(e).insert(Marker(3));
    assert_eq!(pool.release(&a, &mut other), Err(PoolError::ForeignWorld));
    assert_eq!(pool.free_entities(&mut other), Err(PoolError::ForeignWorld));
    assert_eq!(pool.state(&a), Ok(HandleState::Active));
    assert_eq!(world.get::<Marker>(e).map(|m| m.0), Some(3));
    assert_eq!(pool.release(&a, &mut world), Ok(true));
}

#[test]
fn pools_in_different_worlds_refuse_each_other() {
    let mut w1 = World::new();
    let mut w2 = World::new();
    let mut p1 = EntityPool::new(1, &mut w1).unwrap();
    let mut p2 = EntityPool::new(1, &mut w2).unwrap();
    let a = p1.get().unwrap();
    let _b = p2.get().unwrap();
    assert_eq!(p2.entity(&a), Err(PoolError::ForeignHandle));
    assert_eq!(p2.release(&a, &mut w2), Err(PoolError::ForeignHandle));
}

#[test]
fn index_space_limits() {
    assert!(index_space_fits(0, 1));
    assert!(index_space_fits(4_294_967_295, 1));
    assert!(!index_space_fits(4_294_967_295, 2));
    assert!(!index_space_fits(4_294_967_297, 0));
}
