# monad-runtime

Verified building blocks of a validator node that takes part in distributed
key generation (DKG), together with the harness that runs a local cluster of
such nodes.

`src/` is the library. Everything in it is stated in `requires` / `ensures`
contracts and proved by Verus, down to the calls into outside crates, whose
contracts are believed and stand next to the wrappers that make the calls.

| module      | what it holds                                                              |
|-------------|----------------------------------------------------------------------------|
| `chain`     | contract codec, record pages, log scan, transactions, submission of calls  |
| `dkg`       | sessions, runners and the manager, message envelopes, recovery, delivery   |
| `reliable`  | retry schedule and message store that every delivery goes through          |
| `wal`       | framing, scanning and repair of append-only logs                           |
| `cluster`   | addresses, keys, roles, configuration and workload of a local cluster      |
| `dataplane` | sessions, buffer ring and completion handling of the datagram reader       |
| `executor`  | counters, gauges and histograms                                            |
| `rlp`, `digest`, `text`, `octets` | encodings and hashes                                 |
| `order`, `ordered_map` | total orders and the sorted map the other modules keep state in |

Properties that span several functions are public proof functions whose names
begin with `law_`: what a log gives back of what was appended, that sync
boundaries only move forward, that a settled submission stays settled, and so
on.

The library neither reads nor writes anything. A component that depends on the
outside says what it needs as a value (a read, a record to append, a call to
submit), and is handed the outcome. Times are nanoseconds, payloads are bytes.

`app/` is the program around the library: the command line, sockets, files,
telemetry and the loops that perform what the library asks for. The node's own
network stack is behind the feature `network`.

`tests/` exercises the library from outside.
