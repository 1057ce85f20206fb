//! Tasks declare which resources they read and write; a dispatcher hands out
//! access so that no resource is written by one holder while another holds it.

pub mod async_dispatcher;
pub mod minimum;

pub use async_dispatcher::support;
pub use async_dispatcher::AcquiredResourcesLockGuards;
pub use async_dispatcher::Dispatcher;
pub use async_dispatcher::DispatcherBuilder;
pub use async_dispatcher::RequiredResources;
pub use async_dispatcher::RequiresResources;
pub use async_dispatcher::ResourceId;
