# gha_indie_worker_sidecar

Sidecar of a build worker, verified with Verus.

- `src/log_tee.rs` copies a log stream to its native output and, redacted and bounded, to an exporter.
  `src/log_tee/ends.rs` holds its four endpoints together, and keeps the order in time of their calls.
- `src/pipe.rs` and `src/pipe/` receive live build logs: `contract` (metadata lines beside a raw data
  lane), `frames` and `metadata` (length-prefixed frames with metadata lines), `descriptor` (protocol
  and descriptor selection).
- `src/endpoint.rs` has the sources and sinks that the copies run over. Each keeps, in proofs only, a
  history of the calls made on it; the contracts of the copies are stated over these histories.
- `src/memory.rs` has endpoints in memory, and `src/memory/build_log.rs` says what comes of the build-log
  protocol between them; `src/fault.rs` has the failures, `src/config.rs` the settings.
- `app/` is the program: descriptors, standard streams, the metadata decoder and the service.

The sidecar listens where `GHA_INDIE_WORKER_SIDECAR_BIND` says, by default on `127.0.0.1:9090`. An
address that cannot be used ends the program; it does not fall back to another one.
