//! The wire types that packets are made of.
pub mod array;
pub mod chat;
pub mod json;
pub mod pos;
pub mod string;
pub mod varint;

pub use array::Array;
pub use chat::{ActionPair, Chat, ChatObj, Prim, Score};
pub use json::{Json, JsonN, JsonRef};
pub use pos::Position;
pub use string::{Identifier, MaxString, StringN, MAX_CHARS_CHAT, MAX_CHARS_IDENT, MAX_CHARS_STR};
pub use varint::{VarInt, VarLong};
