# redis_core

An in-memory key-value server for a subset of the Redis protocol, written in
Verus: the library under `src/` is verified, the TCP program under `app/` is
ordinary Rust (tokio) around it.

- `src/resp.rs`: the RESP values, their bytes (`to_bytes`, `write_to`) and the
  reader `bytes_to_resp`, with the proof that what is written reads back.
- `src/storage.rs`: the store and the commands `PING`, `ECHO`, `GET`, `SET`,
  with their meaning as spec functions and the laws of reads and writes.
- `src/set.rs`: the options of `SET` (`NX`, `XX`, `GET`, `EX`, `PX`).
- `src/server.rs`, `src/request.rs`: requests, and their dispatch to the store.
- `src/storage_result.rs`: the errors of the store and their messages.
- `src/text.rs`: lower-casing, decimal numbers and joining of words.
