//! A key/value server's core: a decoder and encoder for RESP-style frames, a
//! store with a time to live on each key, the commands `PING`, `ECHO`, `SET`
//! and `GET`, and the state of one connection.

pub mod codec;
pub mod command;
pub mod connection;
pub mod frame_laws;
pub mod storage;
pub mod value;
