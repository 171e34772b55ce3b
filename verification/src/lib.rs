//! A small Redis-style command front end: splitting a byte stream into
//! RESP array frames, turning frames into `GET`/`SET` commands, and the
//! replies those commands and `ECHO` produce.

pub mod resp;
pub mod utf8;
pub mod frame;
pub mod frame_laws;
pub mod text;
pub mod error;
pub mod command;
pub mod echo;
