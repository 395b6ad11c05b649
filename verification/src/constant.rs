//! Sizes and limits shared by the daemon and the sidecars.
use vstd::prelude::*;

verus! {

/// Slots in a handle list; slot zero is never handed out.
pub const HANDLE_NUM: usize = 40960;

/// Devices that one process can see.
pub const MAX_GPUS: usize = 8;

/// Smallest unit of GPU physical memory: one block.
pub const MIN_ALLOCATION_SIZE: usize = 2097152;

/// Largest physical allocation that one handle stands for.
pub const MAX_ALLOCATION_SIZE: usize = 134217728;

/// Bytes kept free for the CUDA control plane.
pub const CUDA_CONTROL_PLANE_RESERVATION_SIZE: usize = 268435456;

/// Bytes kept free for each CUDA process.
pub const CUDA_PROCESS_RESERVATION_SIZE: usize = 805306368;

/// Bytes in one block, in the width that buffer sizes use.
pub const BLOCK_BYTES: u32 = 2097152;

/// Where processes reach the daemon.
pub const DAEMON_PIPE_NAME: &'static str = "\\\\.\\pipe\\nixie";

} // verus!
