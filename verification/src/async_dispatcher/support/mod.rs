//! Glue to the ECS systems the dispatcher integrates with.

pub mod legion;
pub mod minimum;
