# rpc_monitor

A monitor for Solana RPC and WebSocket endpoints. It polls RPC endpoints for
their blockhash and slot, listens to the slots that WebSocket endpoints announce,
keeps both in RocksDB, and serves what it finds as JSON: who agrees with whom,
who is fastest, who reports a slot first, and how far the others are behind.

- `src/` is the verified library. Functions state in their contracts what they
  return or change. One that reads the clock states what holds of any reading,
  and calls one that takes the reading as an argument. What holds across functions
  is stated in the `law_...` proof functions beside them.
- `app/` is the program around it: databases, connections, HTTP routes, JSON, and
  the figures that need floating point.
- `tests/` runs the library on concrete values.

Timestamps are doubles. The library keeps them by their bits, compares them
through integers (`double`), and leaves differences and means of them to the
program: a delay is handed out as the two times it lies between, an average as
the values it is the mean of.

The slot updates of a database are loaded into a `SlotStore`, which answers from
memory and collects the changes that have to be written back.

What is taken on trust from outside the library is declared in `bytes` (UTF-8
validation and lossy decoding), `clock` (the system clock, by chrono) and `config`
(URL parsing, by url).
