//! Who runs next.
pub mod clock;
pub mod priority;
pub mod queue;
pub mod queue_laws;
pub mod request;
pub mod statistics;
