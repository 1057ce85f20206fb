//! Connects the `minimum` resource system to the dispatcher.

use std::sync::Arc;
use vstd::prelude::*;

use super::{resource_id_of, AcquiredResourcesLockGuards, Dispatcher, DispatcherBuilder, RequiresResources, ResourceId};
use crate::minimum;
use crate::minimum::{DataRequirement, World};

verus! {

//
// Helper that holds the locks and provides a method to fetch the data
//
/// Access granted to the resources that `T` names, with the world they live in.
/// The access is shared with whoever acquired it, who gives it back once this
/// value is gone.
pub struct AcquiredResources<T> where T: RequiresResources + 'static + Send {
    lock_guards: Arc<AcquiredResourcesLockGuards<T>>,
    world: Arc<World>,
}

impl<T> AcquiredResources<T> where T: RequiresResources + 'static + Send {
    /// The granted access.
    pub closed spec fn guards(&self) -> AcquiredResourcesLockGuards<T> {
        *self.lock_guards
    }

    /// The world the resources live in.
    pub closed spec fn shared_world(&self) -> World {
        *self.world
    }

    pub fn new(lock_guards: Arc<AcquiredResourcesLockGuards<T>>, world: Arc<World>) -> (a: Self)
        ensures
            a.guards() == *lock_guards,
            a.shared_world() == *world,
    {
        AcquiredResources { lock_guards, world }
    }

    /// Whether the world holds every resource that `T` fetches.
    pub fn resources_present<'a>(&'a self) -> (r: bool)
        where
            T: DataRequirement<'a>,
        ensures
            r == T::fetched_ids().subset_of(self.shared_world()@),
    {
        T::is_present(&self.world)
    }

    /// Fetches the resources and hands them to `f`. Every resource must be in
    /// the world (see `resources_present`). Returns whether `f` ran: it does
    /// unless one of the resources is in use through a borrow held elsewhere,
    /// and always when `T` fetches nothing.
    pub fn visit<'a, F>(&'a self, f: F) -> (ran: bool)
        where
            F: FnOnce(T::Borrow),
            T: DataRequirement<'a>,
        requires
            forall|b: T::Borrow| f.requires((b,)),
            T::fetched_ids().subset_of(self.shared_world()@),
        ensures
            ran ==> exists|b: T::Borrow| call_ensures(f, (b,), ()),
            T::fetched_ids() == Set::<ResourceId>::empty() ==> ran,
    {
        match T::fetch(&self.world) {
            Some(fetched) => {
                f(fetched);
                true
            },
            None => false,
        }
    }
}

/// Collects resources into a world and registers each with the dispatcher.
pub struct MinimumDispatcherBuilder {
    dispatcher_builder: DispatcherBuilder,
    world: World,
}

impl MinimumDispatcherBuilder {
    #[verifier::type_invariant]
    closed spec fn inv(&self) -> bool {
        self.dispatcher_builder@ == self.world@
    }

    /// The resources added so far: both those in the world and those
    /// registered with the dispatcher.
    pub closed spec fn resources(&self) -> Set<ResourceId> {
        self.world@
    }

    /// The world built so far.
    pub closed spec fn world(&self) -> World {
        self.world
    }

    // Create an empty dispatcher builder
    pub fn new() -> (b: Self)
        ensures
            b.resources() == Set::<ResourceId>::empty(),
    {
        MinimumDispatcherBuilder { dispatcher_builder: DispatcherBuilder::new(), world: World::new() }
    }

    /// Puts `resource` in the world and registers it with the dispatcher.
    pub fn insert<T: minimum::Resource>(self, resource: T) -> (b: Self)
        ensures
            b.resources() == self.resources().insert(resource_id_of::<T>()),
    {
        proof {
            use_type_invariant(&self);
        }
        let MinimumDispatcherBuilder { mut dispatcher_builder, mut world } = self;
        let id = ResourceId::new::<T>();
        world.insert(resource);
        dispatcher_builder.register_resource_id(id);
        MinimumDispatcherBuilder { dispatcher_builder, world }
    }

    // Create the dispatcher
    pub fn build(self) -> (d: MinimumDispatcher)
        ensures
            d.resources() == self.resources(),
            d.shared_world() == self.world(),
    {
        proof {
            use_type_invariant(&self);
        }
        let MinimumDispatcherBuilder { dispatcher_builder, world } = self;
        let dispatcher = dispatcher_builder.build();
        let world = Arc::new(world);
        MinimumDispatcher { dispatcher, world }
    }
}

/// A dispatcher together with the world whose resources it arbitrates.
pub struct MinimumDispatcher {
    dispatcher: Dispatcher,
    world: Arc<World>,
}

impl MinimumDispatcher {
    #[verifier::type_invariant]
    closed spec fn inv(&self) -> bool {
        self.dispatcher.registered() == self.world@
    }

    /// The resources of the world, each registered with the dispatcher.
    pub closed spec fn resources(&self) -> Set<ResourceId> {
        self.world@
    }

    /// The world whose resources the dispatcher arbitrates.
    pub closed spec fn shared_world(&self) -> World {
        *self.world
    }

    /// Takes the dispatcher and the world apart, to run the game loop.
    pub fn into_parts(self) -> (parts: (Dispatcher, Arc<World>))
        ensures
            parts.0.registered() == self.resources(),
            parts.1@ == self.resources(),
            *parts.1 == self.shared_world(),
    {
        proof {
            use_type_invariant(&self);
        }
        let MinimumDispatcher { dispatcher, world } = self;
        (dispatcher, world)
    }
}

/// What each frame of the game loop gets: the dispatcher and the world.
pub struct MinimumDispatcherContext {
    dispatcher: Arc<Dispatcher>,
    world: Arc<World>,
}

impl MinimumDispatcherContext {
    /// The dispatcher shared by the frames.
    pub closed spec fn shared_dispatcher(&self) -> Dispatcher {
        *self.dispatcher
    }

    /// The world shared by the frames.
    pub closed spec fn shared_world(&self) -> World {
        *self.world
    }

    pub fn new(dispatcher: Arc<Dispatcher>, world: Arc<World>) -> (ctx: Self)
        ensures
            ctx.shared_dispatcher() == *dispatcher,
            ctx.shared_world() == *world,
    {
        MinimumDispatcherContext { dispatcher, world }
    }

    /// Asks the game loop to stop after the current frame.
    pub fn end_game_loop(&self) {
        self.dispatcher.end_game_loop();
    }

    pub fn dispatcher(&self) -> (d: Arc<Dispatcher>)
        ensures
            *d == self.shared_dispatcher(),
    {
        self.dispatcher.clone()
    }

    pub fn world(&self) -> (w: Arc<World>)
        ensures
            *w == self.shared_world(),
    {
        self.world.clone()
    }
}

} // verus!
