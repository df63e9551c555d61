# tikv_dst

Building blocks for deterministic simulation testing of a replicated key-value
store, written in Rust and proved with Verus. One seed gives one run: the same
times, the same random numbers, the same order of steps and of messages.

`src/` is the library. It holds no global state and does no I/O: clocks,
generators, queues and executors are values, and what has to happen outside (a
write to the shared clock file, a thread to start, a wait) is returned to the
caller.

| Module | What it is |
| --- | --- |
| `logical_clock`, `det_clock_bridge` | a clock that moves only when told, and the file that shows its time to other code |
| `duration`, `timespec`, `instant` | spans, points in time, measurements |
| `timer`, `spin`, `time_monitor` | tasks that fall due, short waits, jumps of the time of day |
| `dst_executor`, `dst_sched` | pollers stepped in the order of registration, worker queues interleaved by a seed |
| `dst_net`, `raft_message`, `delivery_log` | a virtual network with delays and drops, and fingerprints of what it delivered |
| `dst_rng`, `dst_collections` | seeded random numbers and hash maps |
| `det_env`, `key_handle`, `json`, `raftstore` | disk control, keys in a lock table, binary JSON, byte buffers |
| `dst_init` | the setup of a run |
| `number`, `text`, `chain` | integers and text, and how contracts speak of calls in a row |

What the proofs take for granted of other crates is stated next to the
functions that call them: `dst_rng` and `raftstore` for `rand` and `bytes`,
`duration` for `time`, `text` and `dst_collections` for the standard library.

`app/` is ordinary Rust around the library: process-wide state, threads, files,
the environment, and the traits of other crates. `tests/` runs the library.
