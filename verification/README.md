# redisrs

A Redis-compatible in-memory store whose core is verified with Verus.

The library (`src/`) holds the logic, each function with a contract that
Verus proves:

- `resp`: the RESP wire format. `parse` is specified by `parse_frame`, a
  definition of what a buffer holds (a value and its length, the need for
  more bytes, or a protocol error with its message); `serialize` by
  `encode_frame`. Proved: parsing an encoding gives the value back; a value
  that parses is not changed by the bytes after it, and every shorter cut of
  it is incomplete.
- `store`: the key space of strings, lists, hashes and sets with expiry
  times, viewed as a map from key to entry; every operation states its reply
  and the map it leaves, at a given time in milliseconds.
- `glob`: the patterns KEYS takes (`*`, `?`, `[...]`, `\`).
- `commands`: `execute` and `dispatch`, specified by `outcome` and
  `outcome_for`.
- `pubsub`: SUBSCRIBE, UNSUBSCRIBE and PUBLISH: the channels a connection
  listens to, and who listens where.
- `server`: what a connection does with the bytes it has received
  (`serves`): its replies, the messages it publishes, and the records of the
  commands that change keys, for the append-only file.
- `persistence`: the append-only file's records and their replay (`replays`,
  `replays_clocked`). A SET with EX or PX, and an EXPIRE, are recorded with
  their absolute deadline (`SET ... PXAT t`, `PEXPIREAT key t`), so a replay
  after a restart keeps it.
- `config`: the settings, with environment overrides and the persistence
  mode.
- `laws`: properties that span several operations.
- `text`, `ext`: decimal text, string helpers, and the trusted calls into
  `std` (UTF-8 decoding, integer parsing, upper-casing, the clock).

`app/` is the server program around the library: the TCP listener and
connections (tokio), the delivery of published messages, the configuration
file (toml) and environment, snapshots (bincode) and the files.

Settings: `REDISRS_PORT` (6379), `REDISRS_PERSISTENCE` (`none`, `rdb` or
`aof`; `none` by default), `REDISRS_SNAPSHOT_INTERVAL` (300 seconds) and
`REDISRS_AOF_PATH` (`appendonly.aof`) override `config.toml`.
