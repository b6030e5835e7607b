//! Server side of a length-framed, stateful binary game protocol: field
//! codecs, packet framing with an optional zlib envelope, and the
//! per-connection state machine.
use vstd::prelude::*;

pub mod buffer;
pub mod codec;
pub mod packets;
pub mod sm;
pub mod types;
pub mod wire;

verus! {

/// Protocol version spoken by this library.
pub const VERSION: i32 = 756;

/// The game version that goes with it.
pub const MC_VERSION: &'static str = "1.17.1";

} // verus!
