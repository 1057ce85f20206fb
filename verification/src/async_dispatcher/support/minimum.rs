pub use crate::async_dispatcher::minimum::AcquiredResources;
pub use crate::async_dispatcher::minimum::MinimumDispatcher;
pub use crate::async_dispatcher::minimum::MinimumDispatcherBuilder;
pub use crate::async_dispatcher::minimum::MinimumDispatcherContext;
