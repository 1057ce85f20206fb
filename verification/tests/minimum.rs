use std::sync::Arc;

use async_dispatcher::minimum::{DataRequirement, Read, World, WorldBuilder, Write};
use async_dispatcher::support::minimum::{AcquiredResources, MinimumDispatcherBuilder, MinimumDispatcherContext};
use async_dispatcher::{AcquiredResourcesLockGuards, DispatcherBuilder, RequiresResources, ResourceId};

#[derive(Debug, PartialEq)]
struct Position(i32);
#[derive(Debug, PartialEq)]
struct Velocity(i32);
struct Missing;

#[test]
fn world_insert_and_remove() {
    let mut world = World::new();
    assert!(!world.has_value::<Position>());
    world.insert(Position(3));
    assert!(world.has_value::<Position>());
    assert!(world.has_value_raw(ResourceId::new::<Position>()));
    assert!(!world.has_value::<Velocity>());
    world.insert(Position(4));
    assert_eq!(world.keys(), vec![ResourceId::new::<Position>()]);
    assert_eq!(world.remove::<Position>(), Some(Position(4)));
    assert!(!world.has_value::<Position>());
    assert_eq!(world.remove::<Position>(), None);
    assert!(world.keys().is_empty());
}

#[test]
fn world_keys_lists_each_resource() {
    let world = WorldBuilder::new()
        .with_resource(Position(1))
        .with_resource(Velocity(2))
        .build();
    let mut keys = world.keys();
    keys.sort();
    let mut expected = vec![ResourceId::new::<Position>(), ResourceId::new::<Velocity>()];
    expected.sort();
    assert_eq!(keys, expected);
}

#[test]
fn world_remove_gives_back_the_value() {
    let mut world = World::new();
    world.insert(Velocity(7));
    world.insert(Position(1));
    assert_eq!(*world.try_fetch::<Velocity>().unwrap(), Velocity(7));
    assert_eq!(world.remove::<Velocity>(), Some(Velocity(7)));
    assert!(!world.has_value::<Velocity>());
    assert_eq!(world.remove::<Velocity>(), None);
    assert_eq!(*world.try_fetch::<Position>().unwrap(), Position(1));
}

#[test]
fn world_fetch_borrows() {
    let mut builder = WorldBuilder::new();
    builder.insert(Position(1));
    let world = builder.build();
    {
        let mut p = world.try_fetch_mut::<Position>().unwrap();
        p.0 += 10;
        // in use: no other borrow
        assert!(world.try_fetch::<Position>().is_none());
        assert!(world.try_fetch_mut::<Position>().is_none());
    }
    let a = world.try_fetch::<Position>().unwrap();
    let b = world.try_fetch::<Position>().unwrap();
    assert_eq!(*a, Position(11));
    assert_eq!(*b, Position(11));
    assert!(world.try_fetch_mut::<Position>().is_none());
    assert!(world.try_fetch::<Missing>().is_none());
}

#[test]
fn data_requirements_fetch_together() {
    let world = WorldBuilder::new()
        .with_resource(Position(1))
        .with_resource(Velocity(2))
        .build();
    {
        let (p, mut v) = <(Read<Position>, Write<Velocity>) as DataRequirement>::fetch(&world).unwrap();
        v.0 += p.0;
    }
    assert_eq!(*world.try_fetch::<Velocity>().unwrap(), Velocity(3));
    assert!(<(Read<Position>, Read<Missing>) as DataRequirement>::fetch(&world).is_none());
    assert!(<() as DataRequirement>::fetch(&world).is_some());
}

#[test]
fn minimum_builder_registers_what_it_stores() {
    let dispatcher = MinimumDispatcherBuilder::new()
        .insert(Position(5))
        .insert(Velocity(6))
        .build();
    let (dispatcher, world) = dispatcher.into_parts();
    for id in world.keys() {
        assert!(dispatcher.has_resource(&id));
    }
    assert!(dispatcher.has_resource(&ResourceId::new::<Position>()));
    assert!(dispatcher.has_resource(&ResourceId::new::<Velocity>()));
    assert!(!dispatcher.has_resource(&ResourceId::new::<Missing>()));
    assert_eq!(world.keys().len(), 2);
}

#[test]
fn context_shares_dispatcher_and_world() {
    let (dispatcher, world) = MinimumDispatcherBuilder::new().insert(Position(5)).build().into_parts();
    let dispatcher = Arc::new(dispatcher);
    let ctx = MinimumDispatcherContext::new(dispatcher.clone(), world.clone());
    assert!(Arc::ptr_eq(&ctx.dispatcher(), &dispatcher));
    assert!(Arc::ptr_eq(&ctx.world(), &world));
    assert!(!dispatcher.is_terminating());
    ctx.end_game_loop();
    assert!(dispatcher.is_terminating());
}

#[test]
fn acquired_resources_visit() {
    type Req = (Read<Position>, Write<Velocity>);
    let (dispatcher, world) = MinimumDispatcherBuilder::new()
        .insert(Position(2))
        .insert(Velocity(3))
        .build()
        .into_parts();
    let dispatcher = Arc::new(dispatcher);
    let required = <Req as RequiresResources>::required_resources();
    let guards = Arc::new(AcquiredResourcesLockGuards::try_acquire(&dispatcher, &required).unwrap());
    // the write of Velocity is held
    assert!(AcquiredResourcesLockGuards::try_acquire(&dispatcher, &required).is_none());
    let acquired: AcquiredResources<Req> = AcquiredResources::new(guards.clone(), world.clone());
    assert!(acquired.resources_present());
    let ran = acquired.visit(|(p, mut v)| {
        v.0 *= p.0;
    });
    assert!(ran);
    drop(acquired);
    Arc::try_unwrap(guards).ok().unwrap().release();
    assert_eq!(*world.try_fetch::<Velocity>().unwrap(), Velocity(6));
    assert!(AcquiredResourcesLockGuards::try_acquire(&dispatcher, &required).is_some());
}

#[test]
fn resources_present_reports_missing_resources() {
    let dispatcher = Arc::new(DispatcherBuilder::new().register_resource::<Missing>().build());
    let world = Arc::new(World::new());
    let required = <Read<Missing> as RequiresResources>::required_resources();
    let guards = Arc::new(AcquiredResourcesLockGuards::try_acquire(&dispatcher, &required).unwrap());
    let acquired: AcquiredResources<Read<Missing>> = AcquiredResources::new(guards, world);
    assert!(!acquired.resources_present());
}

#[test]
fn is_present_checks_every_member() {
    type Req = (Read<Position>, Write<Velocity>);
    let empty = World::new();
    assert!(<() as DataRequirement>::is_present(&empty));
    assert!(!<Req as DataRequirement>::is_present(&empty));
    let only_position = WorldBuilder::new().with_resource(Position(1)).build();
    assert!(<Read<Position> as DataRequirement>::is_present(&only_position));
    assert!(!<Req as DataRequirement>::is_present(&only_position));
    let both = WorldBuilder::new()
        .with_resource(Position(1))
        .with_resource(Velocity(2))
        .build();
    assert!(<Req as DataRequirement>::is_present(&both));
}

#[test]
fn default_world_is_empty() {
    let world = World::default();
    assert!(world.keys().is_empty());
    assert!(!world.has_value::<Position>());
}

#[test]
fn requirement_fetches_what_it_locks() {
    type Req = (Read<Position>, Write<Velocity>);
    let mut locked = <Req as RequiresResources>::reads();
    locked.extend(<Req as RequiresResources>::writes());
    let only_position = WorldBuilder::new().with_resource(Position(1)).build();
    assert!(<Req as DataRequirement>::fetch(&only_position).is_none());
    let both = WorldBuilder::new()
        .with_resource(Position(1))
        .with_resource(Velocity(2))
        .build();
    assert!(<Req as DataRequirement>::fetch(&both).is_some());
    for id in locked {
        assert!(both.has_value_raw(id));
    }
}

#[derive(Debug, PartialEq)]
struct Mass(i32);
#[derive(Debug, PartialEq)]
struct Drag(i32);
#[derive(Debug, PartialEq)]
struct Steps(i32);

#[test]
fn five_member_requirement_reads_and_writes() {
    type Req = (Read<Position>, Read<Velocity>, Read<Mass>, Read<Drag>, Write<Steps>);
    assert_eq!(<Req as RequiresResources>::reads().len(), 4);
    assert_eq!(<Req as RequiresResources>::writes(), vec![ResourceId::new::<Steps>()]);
    let world = WorldBuilder::new()
        .with_resource(Position(1))
        .with_resource(Velocity(2))
        .with_resource(Mass(3))
        .with_resource(Drag(4))
        .with_resource(Steps(0))
        .build();
    {
        let (p, v, m, d, mut s) = <Req as DataRequirement>::fetch(&world).unwrap();
        s.0 = p.0 + v.0 + m.0 + d.0;
    }
    assert_eq!(*world.try_fetch::<Steps>().unwrap(), Steps(10));
    let partial = WorldBuilder::new().with_resource(Position(1)).build();
    assert!(<Req as DataRequirement>::fetch(&partial).is_none());
}

#[test]
fn visit_with_empty_requirement_always_runs() {
    let dispatcher = Arc::new(DispatcherBuilder::new().build());
    let required = <() as RequiresResources>::required_resources();
    let guards = Arc::new(AcquiredResourcesLockGuards::try_acquire(&dispatcher, &required).unwrap());
    let acquired: AcquiredResources<()> = AcquiredResources::new(guards, Arc::new(World::new()));
    assert!(acquired.resources_present());
    let mut called = false;
    assert!(acquired.visit(|()| called = true));
    assert!(called);
}

#[test]
fn dispatcher_checks_every_resource_is_registered() {
    type Req = (Read<Position>, Write<Velocity>);
    let required = <Req as RequiresResources>::required_resources();
    let partial = DispatcherBuilder::new().register_resource::<Position>().build();
    assert!(!partial.has_all_resources(&required));
    let full = DispatcherBuilder::new()
        .register_resource::<Position>()
        .register_resource::<Velocity>()
        .build();
    assert!(full.has_all_resources(&required));
    assert!(partial.has_all_resources(&<() as RequiresResources>::required_resources()));
}
