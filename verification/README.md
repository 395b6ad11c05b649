# Nixie

Nixie lets several processes share the GPUs of one machine. A daemon decides which process runs,
and moves the GPU memory of the others through shared memory to host memory and to storage. A
sidecar in each process keeps tables of what the process has allocated, in a region of shared
memory that the daemon can read.

`src/` is the library. Verus verifies its functions against their contracts. What std and other
crates do is called through a few wrappers, whose contracts are trusted; each says what it claims.

- `shm`, `shm_vec`, `shm_buffer`, `sync`: the tables in shared memory, the handles in them and the
  locks that guard them
- `sidecar`: what an allocation books, the account of what a process has, copies and frees on
  streams
- `schedule`: the queue of those that want to run, their priorities and their history
- `migration`: which buffers move where, in which order, and what happens while they move
- `runtime`: the processes that are connected, the devices they see and what they have allocated
- `client`: what the command line asks for and shows
- `control`, `error`, `logging`, `general`, `text`, `ids`, `constant`: what the others share

Laws that span several functions are public proof functions named `law_..`.

`app/` is the program around the library: the command line, the named pipes, the calls between
daemon and processes, the driver and the operating system. `tests/` runs the library on values.
