# ocrop

A distributed Linux process monitor. Agents read `/proc`, compute per-process
CPU and memory figures and send snapshots over Pulse, a small UDP protocol, to
an aggregator that shows the latest snapshot of each machine in a terminal
dashboard, one tab per machine.

- `src/` is the verified library (Verus):
  - `receiver.rs`, `sender.rs`: the Pulse state machines. The receiver keeps one
    connection per sender, hands on only snapshots newer than the last one taken,
    and asks a quiet sender to retransmit; the sender sends on a fixed interval
    and retransmits when a receiver reports that it is behind.
  - `protocol.rs`: properties of the two together.
  - `packet.rs`, `address.rs`, `process.rs`: the data model.
  - `text.rs`, `procfs.rs`: the `/proc` text formats, parsed with the meaning
    that `str::lines`, `str::trim`, `str::split_whitespace` and
    `str::parse::<u64>` give them.
  - `dashboard.rs`: the dashboard's view state: the latest snapshot per
    machine, the tab shown, and whether to quit.
- `app/` holds the sockets, files, clock, floating-point arithmetic, the
  serialized packet format (bincode for snapshots, JSON for retransmission
  requests) and the terminal UI. Run `ocrop agent` or `ocrop aggregator`; each
  reads `Config.toml` from the working directory.
