# ports-box

A TCP/UDP port forwarder with per-user traffic quotas, written in Rust and verified
with Verus.

- `src/` is the library: reading and showing sizes, judging a configuration and
  sharing out quotas, hourly billing, failover and failback between targets, the
  schedule of the health checks, UDP sessions, what is flushed to the usage database,
  and what the query API answers. Verus proves the contracts of its functions, but for
  the few facts about outside code that are listed at the end.
- `tests/` runs the library on concrete values.
- `app/` is the program around it: arguments, sockets, files, the database, HTTP and
  the tasks that carry out what the library decides.

## Modules of the library

| Module | What it holds |
|---|---|
| `size`, `size_laws` | byte counts as text: `parse_size`, `format_size`, and what they promise |
| `text` | characters, decimal numerals, messages |
| `config`, `config_laws` | the configuration, its rules, and what an accepted one guarantees |
| `plan` | what a configuration has the forwarder do |
| `clock` | the local hour |
| `quota`, `quota_laws` | quotas and hourly billing, and what billing promises |
| `pool`, `pool_laws` | prioritized targets, and what failover promises |
| `dial` | connecting to the active target |
| `probe` | the schedule of the health checks |
| `tcp`, `udp` | what becomes of chunks, packets and sessions |
| `dns`, `net` | `host:port` targets and addresses |
| `state` | what is written to the usage database, and when |
| `api` | the answers of the query API |

## What is taken on trust

The library takes four facts from outside: how Rust's `{:?}` shows a string (it is
only named, not described), that `String::push` appends a character, that the offset
of a local time zone, as chrono reports it, is less than a day, and the contracts that
vstd gives to the standard library.
