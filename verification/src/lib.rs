//! A small key/value server that speaks a Redis-style wire protocol: the codec, the framing of
//! a connection, the store and the commands, each with its contract.
//!
//! Nothing here reads from a socket. A program around the library receives bytes and hands
//! them to [`resp::Connection`], runs the commands that arrive with [`command::Command`] on a
//! [`db::DB`], and writes back the bytes of the replies.

pub mod command;
pub mod db;
pub mod resp;
