use std::sync::Arc;

use async_dispatcher::async_dispatcher::resource_locks::ResourceLocks;
use async_dispatcher::support::legion::LegionDispatcherBuilder;
use async_dispatcher::{AcquiredResourcesLockGuards, DispatcherBuilder, RequiredResources, ResourceId};

struct A;
struct B;
struct C;

fn id<T: 'static>() -> ResourceId {
    ResourceId::new::<T>()
}

#[test]
fn builder_registers_each_resource_once() {
    let mut builder = DispatcherBuilder::new().register_resource::<A>();
    builder.register_resource_id(id::<A>());
    builder.register_resource_id(id::<B>());
    let dispatcher = builder.build();
    assert!(dispatcher.has_resource(&id::<A>()));
    assert!(dispatcher.has_resource(&id::<B>()));
    assert!(!dispatcher.has_resource(&id::<C>()));
}

#[test]
fn readers_share_and_writers_exclude() {
    let dispatcher = Arc::new(
        DispatcherBuilder::new()
            .register_resource::<A>()
            .register_resource::<B>()
            .build(),
    );
    let read_a: RequiredResources<()> = RequiredResources::new(vec![id::<A>()], vec![]);
    let write_a: RequiredResources<()> = RequiredResources::new(vec![], vec![id::<A>()]);
    let write_b: RequiredResources<()> = RequiredResources::new(vec![], vec![id::<B>()]);
    let read_b: RequiredResources<()> = RequiredResources::new(vec![id::<B>()], vec![]);
    let first = AcquiredResourcesLockGuards::try_acquire(&dispatcher, &read_a).unwrap();
    let second = AcquiredResourcesLockGuards::try_acquire(&dispatcher, &read_a).unwrap();
    // A is read twice: nobody may write it
    assert!(AcquiredResourcesLockGuards::try_acquire(&dispatcher, &write_a).is_none());
    // B is free
    let writer = AcquiredResourcesLockGuards::try_acquire(&dispatcher, &write_b).unwrap();
    // B is written: nobody may read it
    assert!(AcquiredResourcesLockGuards::try_acquire(&dispatcher, &read_b).is_none());
    first.release();
    assert!(AcquiredResourcesLockGuards::try_acquire(&dispatcher, &write_a).is_none());
    second.release();
    assert!(AcquiredResourcesLockGuards::try_acquire(&dispatcher, &write_a).is_some());
    writer.release();
    assert!(AcquiredResourcesLockGuards::try_acquire(&dispatcher, &read_b).is_some());
}

#[test]
fn refused_request_changes_nothing() {
    let dispatcher = DispatcherBuilder::new()
        .register_resource::<A>()
        .register_resource::<B>()
        .build();
    let none: Vec<ResourceId> = vec![];
    assert!(dispatcher.try_acquire(&none, &vec![id::<B>()]));
    // reads A, writes B: refused as a whole, so A stays free
    assert!(!dispatcher.try_acquire(&vec![id::<A>()], &vec![id::<B>()]));
    assert!(dispatcher.try_acquire(&none, &vec![id::<A>()]));
}

#[test]
fn impossible_requests_are_never_granted() {
    let dispatcher = DispatcherBuilder::new().register_resource::<A>().build();
    let none: Vec<ResourceId> = vec![];
    // unregistered
    assert!(!dispatcher.try_acquire(&vec![id::<B>()], &none));
    assert!(!dispatcher.try_acquire(&none, &vec![id::<B>()]));
    // written twice
    assert!(!dispatcher.try_acquire(&none, &vec![id::<A>(), id::<A>()]));
    // read and written
    assert!(!dispatcher.try_acquire(&vec![id::<A>()], &vec![id::<A>()]));
    // reading twice in one request is fine
    assert!(dispatcher.try_acquire(&vec![id::<A>(), id::<A>()], &none));
}

#[test]
fn game_loop_flag() {
    let dispatcher = DispatcherBuilder::new().build();
    assert!(!dispatcher.is_terminating());
    dispatcher.end_game_loop();
    assert!(dispatcher.is_terminating());
}

#[test]
fn guards_hold_until_released() {
    let dispatcher = Arc::new(DispatcherBuilder::new().register_resource::<A>().build());
    let write_a: RequiredResources<()> = RequiredResources::new(vec![], vec![id::<A>()]);
    let guards = AcquiredResourcesLockGuards::try_acquire(&dispatcher, &write_a).unwrap();
    assert!(AcquiredResourcesLockGuards::try_acquire(&dispatcher, &write_a).is_none());
    guards.release();
    let again = AcquiredResourcesLockGuards::try_acquire(&dispatcher, &write_a);
    assert!(again.is_some());
}

#[test]
fn lock_table_grants_and_restores() {
    let ids = vec![id::<A>(), id::<B>()];
    let mut locks = ResourceLocks::new(&ids);
    let reads = vec![id::<A>()];
    let writes = vec![id::<B>()];
    assert!(locks.can_grant(&reads, &writes));
    assert!(locks.try_acquire(&reads, &writes));
    assert!(!locks.can_grant(&vec![], &reads));
    assert!(!locks.can_grant(&writes, &vec![]));
    locks.release(&reads, &writes);
    assert!(locks.can_grant(&vec![], &vec![id::<A>(), id::<B>()]));
}

#[test]
fn release_without_holders_stays_free() {
    let ids = vec![id::<A>()];
    let mut locks = ResourceLocks::new(&ids);
    locks.release(&vec![id::<A>()], &vec![id::<A>()]);
    assert!(locks.can_grant(&vec![], &vec![id::<A>()]));
}

#[test]
fn legion_builder_registers_types() {
    let mut builder = LegionDispatcherBuilder::new().with_resource_type::<A>();
    builder.insert_resource_type::<B>();
    let dispatcher = builder.build();
    assert!(dispatcher.has_resource(&id::<A>()));
    assert!(dispatcher.has_resource(&id::<B>()));
    assert!(!dispatcher.has_resource(&id::<C>()));
}

#[test]
fn empty_request_is_always_granted() {
    let dispatcher = Arc::new(DispatcherBuilder::new().register_resource::<A>().build());
    let none: Vec<ResourceId> = vec![];
    assert!(dispatcher.try_acquire(&none, &vec![id::<A>()]));
    assert!(dispatcher.try_acquire(&none, &none));
    let nothing: RequiredResources<()> = RequiredResources::new(vec![], vec![]);
    assert!(AcquiredResourcesLockGuards::try_acquire(&dispatcher, &nothing).is_some());
}
