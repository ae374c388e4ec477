# pir_core

Verified logic of a family of private-retrieval services: the enhancement
coordinator and its workers, the transparent filter service, the witness client
and server, and the monitoring sidecar.

- `src/` is the library. Every function in it is verified by Verus; calls into
  outside crates stand behind items whose doc comments say what is taken on
  trust.
- `tests/` runs the library, with the outside crates linked.
- `app/` is the ordinary Rust around it: command lines, HTTP, files, JSON, the
  loops that wait for the network, and floating point.

In `src/`, `engine` holds the calls into the retrieval engine; `enhance`,
`filter`, `witness` and `apm` are the services; `layout`, `pir_types`, `proto`
and `tables` are what they share; `bytemap`, `codec`, `digest`, `names`,
`numbers` and `text` are the small tools underneath.

The retrieval engine's packing relies on wrapping arithmetic, so a service is
built without overflow checks.
