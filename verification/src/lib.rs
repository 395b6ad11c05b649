//! Sharing of GPUs between processes: what is allocated, who runs, and which data moves where.
pub mod assoc;
pub mod client;
pub mod constant;
pub mod control;
pub mod error;
pub mod general;
pub mod ids;
pub mod logging;
pub mod migration;
pub mod runtime;
pub mod schedule;
pub mod shm;
pub mod shm_buffer;
pub mod shm_vec;
pub mod sidecar;
pub mod sorting;
pub mod sums;
pub mod sync;
pub mod text;
