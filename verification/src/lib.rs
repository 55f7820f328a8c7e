//! A small in-memory key-value store that speaks a subset of the Redis
//! protocol: the wire format of requests and replies (`resp`), the commands
//! `PING`, `ECHO`, `GET` and `SET` run on a store (`storage`), the options of
//! `SET` (`set`), and the dispatch of requests to the store (`server`).

pub mod request;
pub mod resp;
pub mod server;
pub mod set;
pub mod storage;
pub mod storage_result;
pub mod text;
