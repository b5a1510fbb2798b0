# session_timeline

Reconstructs where the time went in an agent's sessions: model inference, tool
execution, or waiting for the user. It reads what the agents log anyway (Hermes
profile databases, Prime session files) and changes nothing.

```text
user or assistant event, then an assistant event within the gap cap = inference
assistant tool call, then its tool result                           = tool
silence ended by a user event                                       = idle
silence longer than the gap cap                                     = idle, never inference
```

## Layout

- `src/` is the library, verified with Verus: loaders, span derivation, the index,
  the command line, and the laws that hold of them. Instants are whole nanoseconds
  since the Unix epoch.
- `app/` is the program around it: SQLite, files, the clock and time zone, HTTP, and
  JSON with times in seconds.
- `tests/` run the library on made-up rows and lines.

## Use

```text
session_timeline scan [--days N] [--hermes-home DIR] [--prime-dir DIR] [--json]
session_timeline serve          # http://127.0.0.1:8767, or PORT
```

The server answers `/api/index?days=N`, `/api/day?date=YYYY-MM-DD` and
`/api/session?id=ID`. A day or session is sent compressed to clients that accept
gzip.

## What is trusted

The library calls `serde_json` (parsing, reading and printing JSON values) and
`flate2` (gzip). What it believes of them stands with the declarations in
`src/json.rs` and `src/response.rs`; of the standard library it believes one thing
more than vstd states, in `src/text.rs`.

## Names

A session's id is `hermes:PROFILE:ID` or `prime:STEM`. The profile of the home's own
database is `default`; other profiles are named by their directory. In ids, the
directory `default` beside a database of the home's own goes by `./default`, and a
colon in a profile's name is the null character. So the ids of a scan are unique, and
each leads back to its source.
