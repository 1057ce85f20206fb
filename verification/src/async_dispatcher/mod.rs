mod dispatcher;
pub mod minimum;
mod required_resources;
pub mod resource_locks;
mod resource_id;

pub mod support;

pub use required_resources::RequiredResources;
pub use required_resources::RequiresResources;
pub use resource_id::{lemma_resource_id_of_type, lemma_same_type_id_same_resource, resource_id_of, type_id_for, ResourceId};
pub use dispatcher::AcquiredResourcesLockGuards;
pub use dispatcher::Dispatcher;
pub use dispatcher::DispatcherBuilder;
