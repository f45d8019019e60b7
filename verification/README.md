# infra_core

A collection of infrastructure components whose logic is verified with Verus:

- `broker`: a log broker's wire protocol (framing, request decoding, responses), its
  segment record format with CRC-32C checks, the offset index, topic segment accounting,
  consumer cursors and a byte ring buffer.
- `lob`: a limit order book with price levels, an order pool and latency statistics.
- `lsm`: a log-structured key-value store: the in-memory table, the sorted table file
  format, merging of tables and reads through the layers.
- `raft`: the decisions of a Raft replica as functions from state and event to next state
  and actions, its key-value state machine, message routing and election timers.
- `platform`: SWIM membership, the telemetry HTTP responses and the chaos-testing view.
- `sensor`: a sequenced ring of sensor frames.
- `ingest`: a bounded ingestion buffer.
- `sql`: a SQL lexer, parser, planner and catalog executor.

`src/` is the verified library. `app/` holds the programs around it: sockets, files,
threads, timers and the parts that compute in floating point. `tests/` runs the library
on concrete inputs.

The GPU render engine and the desktop shell that display the telemetry are not part of
this crate: they are graphics and floating-point code on the wgpu, wasm and tauri stacks.
