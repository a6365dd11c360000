# stryke-kafka

Apache Kafka for stryke: produce, consume and administer, from stryke itself or from the
command line. The library is written in Rust and verified with Verus: the functions in
`src/` are proved to meet the contracts written above their bodies.

## Layout

- `src/` is the library. It takes and gives plain values, and never talks to a broker.
  - `json`, `text`, `number`, `order`, `error`: the values and texts that the rest is
    built on.
  - `codec`, `headers`, `message`: how payloads, keys, headers and messages are framed
    and shown.
  - `config`, `brokers`, `cache`: what a client is told, whom it asks, and that it is
    kept for the next call.
  - `produce`, `consume`: records to send and messages received, decided step by step:
    the caller sends or polls, tells what came of it, and is told what to do next.
  - `metadata`, `lag`, `partitions`, `resource`, `admin`: what is asked of a cluster,
    and what is made of its answers.
  - `topic`, `hash`, `partitioner`, `assignment`, `offset`: helpers that need no broker.
  - `reply`: what a caller is given back, whatever came of its call.
- `app/` is the program around it: command line flags, the exports for stryke's FFI
  bridge, and the talk with brokers through `rdkafka`.
- `tests/` holds the tests.

## What is proved

Each operation's contract names its answer for every input, and each refusal with the
inputs that bring it. Public functions named `law_...` state what holds across
operations: what is produced under an encoding is consumed under it, a written broker
list reads back, every partition has exactly one owner under both assignors, a batch is
answered when each of its rows was delivered or has an error.

What the library has from `rdkafka`, `base64` and the standard library stands behind
functions whose contracts are believed, not proved; the comment above each says what it
claims.
