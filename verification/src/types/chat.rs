//! Chat values: the rich text of status descriptions and disconnect
//! messages. On the wire a chat value is JSON; these are its parts.
use vstd::prelude::*;

verus! {

/// A chat value.
#[derive(Debug)]
pub enum Chat {
    Primitive(Prim),
    Array(Vec<Chat>),
    Obj(ChatObj),
}

/// A chat value that is no array and no object.
#[derive(Clone, Debug)]
pub enum Prim {
    /// A number, held as the bit pattern of its IEEE 754 double.
    Float(u64),
    Str(String),
    Bool(bool),
}

/// A chat object. Fields that are `None` do not appear in the JSON.
#[derive(Debug, Default)]
pub struct ChatObj {
    pub text: Option<String>,
    pub translate: Option<String>,
    pub score: Option<Score>,
    pub keybind: Option<String>,
    pub selector: Option<String>,
    pub bold: Option<bool>,
    pub italic: Option<bool>,
    pub underlined: Option<bool>,
    pub strikethrough: Option<bool>,
    pub obfuscated: Option<bool>,
    pub color: Option<String>,
    pub insertion: Option<String>,
    pub click_event: Option<ActionPair>,
    pub hover_event: Option<ActionPair>,
    pub extra: Option<Box<Chat>>,
}

/// What a click or a hover does.
#[derive(Clone, Debug)]
pub struct ActionPair {
    pub action: String,
    pub value: Prim,
}

/// A scoreboard value shown in chat.
#[derive(Clone, Debug)]
pub struct Score {
    pub name: String,
    pub objective: String,
    pub value: Option<String>,
}

} // verus!
