//! What the daemon is started with, and what it does when processes come and go.
use vstd::prelude::*;
use crate::constant::DAEMON_PIPE_NAME;
use crate::control::CONTROL_PATH;
use super::registry::{other_than, DaemonData};

verus! {

/// The daemon: where it is reached, where it stores data and how much, and who is connected.
pub struct Daemon {
    pub daemon_path: &'static str,
    pub control_path: &'static str,
    pub buffer_path: &'static str,
    pub shm_buffer_path: &'static str,
    pub shm_buffer_size: usize,
    pub ram_buffer_size: usize,
    pub data: DaemonData,
}

/// What happens to the processes of a daemon.
#[derive(Debug, Clone, Copy, PartialEq, Eq, Structural)]
pub enum ProcessEvent {
    /// A process has connected, under a number of its own.
    Connected {
        pid: i32,
        connection: u64,
    },
    Exited {
        pid: i32,
    },
}

impl Daemon {
    /// A daemon with as many bytes of shared memory and of host memory.
    pub fn new(shm_buffer_size: usize, ram_buffer_size: usize) -> (daemon: Self)
        ensures
            daemon.daemon_path@ == DAEMON_PIPE_NAME@,
            daemon.control_path@ == CONTROL_PATH@,
            daemon.buffer_path@ == "/tmp/nixie.pagebuffer"@,
            daemon.shm_buffer_path@ == "/nixie_shm_buffer"@,
            daemon.shm_buffer_size == shm_buffer_size,
            daemon.ram_buffer_size == ram_buffer_size,
            daemon.data.wf(),
            daemon.data@ == Seq::<(i32, u64)>::empty(),
    {
        Daemon {
            daemon_path: DAEMON_PIPE_NAME,
            control_path: CONTROL_PATH,
            buffer_path: "/tmp/nixie.pagebuffer",
            shm_buffer_path: "/nixie_shm_buffer",
            shm_buffer_size,
            ram_buffer_size,
            data: DaemonData::new(),
        }
    }

    /// Notes that a process has come or gone. Of one that has gone, everything that is stored has
    /// to be released.
    pub fn on_process(&mut self, event: ProcessEvent) -> (release: Option<i32>)
        ensures
            final(self).data.wf(),
            match event {
                ProcessEvent::Connected { pid, connection } => {
                    &&& final(self).data@ == old(self).data@.filter(other_than(pid)).push(
                        (pid, connection),
                    )
                    &&& release is None
                },
                ProcessEvent::Exited { pid } => {
                    &&& final(self).data@ == old(self).data@.filter(other_than(pid))
                    &&& release == Some(pid)
                },
            },
            final(self).daemon_path == old(self).daemon_path,
            final(self).control_path == old(self).control_path,
            final(self).buffer_path == old(self).buffer_path,
            final(self).shm_buffer_path == old(self).shm_buffer_path,
            final(self).shm_buffer_size == old(self).shm_buffer_size,
            final(self).ram_buffer_size == old(self).ram_buffer_size,
    {
        match event {
            ProcessEvent::Connected { pid, connection } => {
                self.data.join(pid, connection);
                None
            },
            ProcessEvent::Exited { pid } => {
                let _connection = self.data.leave(pid);
                Some(pid)
            },
        }
    }
}

} // verus!
