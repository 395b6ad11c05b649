//! Moving buffers between the GPU, shared memory, host memory and storage.

pub mod blocks;
pub mod clearing_laws;
pub mod gpu_prefetch_laws;
pub mod h2d;
pub mod local_laws;
pub mod prefetch;
pub mod prefetch_laws;
pub mod realtime;
pub mod realtime_laws;
pub mod run;
pub mod run_laws;
pub mod staging;
pub mod store;
pub mod summary;
pub mod task;
pub mod worker;
