use vstd::prelude::*;

use crate::async_dispatcher::{resource_id_of, Dispatcher, DispatcherBuilder, ResourceId};

verus! {

/// Registers component types with a dispatcher.
pub struct LegionDispatcherBuilder {
    dispatcher_builder: DispatcherBuilder,
}

impl LegionDispatcherBuilder {
    /// The resource types registered so far.
    pub closed spec fn resources(&self) -> Set<ResourceId> {
        self.dispatcher_builder@
    }

    // Create an empty dispatcher builder
    pub fn new() -> (b: Self)
        ensures
            b.resources() == Set::<ResourceId>::empty(),
    {
        LegionDispatcherBuilder { dispatcher_builder: DispatcherBuilder::new() }
    }

    pub fn with_resource_type<T: 'static>(self) -> (b: Self)
        ensures
            b.resources() == self.resources().insert(resource_id_of::<T>()),
    {
        let mut b = self;
        b.insert_resource_type::<T>();
        b
    }

    pub fn insert_resource_type<T: 'static>(&mut self)
        ensures
            final(self).resources() == old(self).resources().insert(resource_id_of::<T>()),
    {
        self.dispatcher_builder.register_resource_id(ResourceId::new::<T>());
    }

    // Create the dispatcher
    pub fn build(self) -> (d: Dispatcher)
        ensures
            d.registered() == self.resources(),
    {
        self.dispatcher_builder.build()
    }
}

/// Adding a type by `with_resource_type` or by `insert_resource_type` to the
/// same builder registers the same types: the earlier ones and the new one.
pub proof fn lemma_with_and_insert_register_alike<T: 'static>(
    before: LegionDispatcherBuilder,
    chained: LegionDispatcherBuilder,
    inserted: LegionDispatcherBuilder,
)
    requires
        chained.resources() == before.resources().insert(resource_id_of::<T>()),
        inserted.resources() == before.resources().insert(resource_id_of::<T>()),
    ensures
        chained.resources() == inserted.resources(),
        chained.resources().contains(resource_id_of::<T>()),
{
}

} // verus!
