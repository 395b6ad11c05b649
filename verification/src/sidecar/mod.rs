//! What runs inside an application: the bookkeeping behind its GPU memory and its calls.
pub mod account;
pub mod allocate;
pub mod booking;
pub mod release;
pub mod streams;
pub mod tables;
