//! Wire codec and packet framing for a length-prefixed, VarInt-based game
//! protocol: primitive and compound value codecs over a byte buffer, and a
//! framer that splits a receive stream into `(id, payload)` packets.

pub mod buf;
pub mod buffer;
pub mod config;
pub mod error;
pub mod framer;
pub mod position;
pub mod reader;
pub mod varint;
pub mod wire_uuid;
pub mod writer;
