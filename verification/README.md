# cangling-broker

A message broker with a verified core. Producers and consumers speak gRPC or
MQTT 3.1.1; messages, topics, consumers, cached values and locks are kept in
SQLite.

- `src/` is the library, written in Verus: what the broker decides and computes,
  with contracts that say exactly what each function returns and changes.
- `app/` is the program around it: ports, loops, disk and logs. It performs what
  the library decides and hands back what happened.
- `tests/` runs the library on concrete values.
- `extras/queue.proto` is the gRPC API. The messages in `app/proto.rs` are written
  out by hand after it, for which `app/` needs `prost`.

## The library

| Module | What it holds |
| --- | --- |
| `topic`, `text`, `number`, `order`, `table`, `ranking` | names and filters of topics, texts, numbers, orders, maps keyed by text |
| `clock`, `json`, `shard`, `model` | times, attributes as JSON, message ids and their shards, settings and snapshots |
| `messages` | a shard of messages: storing, claiming, settling |
| `catalog`, `consumers`, `db` | topics, consumers, and the store as a whole |
| `intake`, `queue`, `retention`, `paging`, `snapshot`, `startup` | what the store does |
| `writer` | writes in batches, and who is woken by them |
| `bookkeeping` | what every operation of the store keeps |
| `delivery`, `subscribers`, `subscription` | messages to live subscribers, and the turns of a subscription |
| `mqtt` | packets, packet numbers, sessions |
| `grpc_conn`, `clients`, `status`, `page` | connections, and what the status page tells |
| `auth`, `config`, `service`, `cache`, `upkeep` | tokens, settings, calls, cached values and locks, sweeps |

Functions that need the time or a fresh identifier come twice: under their plain
name they read the clock, and with `_at`, `_as` or `_from` they take what was
read as an argument.

Public proof functions whose names begin with `law_` state what holds across
calls: that a claimed message is not claimed again, that a decoded packet is the
packet that was encoded, that a lock has one owner.

## What is trusted

Verus takes on trust the wrappers around `chrono`, `uuid`, `serde_json` and
`tonic`, and a few functions of the standard library. Each carries a comment that
says what is claimed of the code behind it.
