# shadow_rs

The verified core of a network simulator whose hosts can be split over several processes, called
shards. The library is written for [Verus](https://github.com/verus-lang/verus): functions state
what they return and change, and Verus proves it. The traits of exchanges and synchronizers leave it
to each implementation what `send`, `receive` and `wait` do.

## Layout

- `src/distributed/` holds packets on their way to other shards, their wire format, the control
  protocol by which shards agree on the next event, and the exchanges of packets.
- `src/transport/` holds the compact batch format, its exchanges, the coordinator's protocol and
  the arithmetic of the MPI collectives.
- `src/sim_config/` turns configuration options into hosts, addresses, seeds and shards.
- `src/controller.rs` decides how far the simulation advances.
- `src/launch.rs`, `src/children.rs` and `src/startup.rs` decide what a started process does and how
  it looks after the processes of the shards.
- `src/config_file.rs`, `src/system.rs`, `src/status.rs` and `src/sim_stats.rs` hold the
  configuration file, checks of the system, the status line and the statistics.
- The other modules hold what these share: identifiers, times, addresses, bytes, texts, sorting.
- `tests/` runs the library on concrete values.
- `app/` is the command line around the library: sockets, processes, files and MPI.

Proof functions whose names begin with `law_` state what holds across functions, such as that a
batch is read as it was written, or that all shards learn of the same earliest event.
