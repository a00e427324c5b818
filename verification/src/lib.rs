pub mod bytebuf;
pub mod messages;
pub mod codec;
pub mod connection;
pub mod publisher;
pub mod subscriber;

use vstd::prelude::*;

verus! {

/// Initial and refill reserve for connection buffers, in bytes.
pub const BUFFER_SIZE: usize = 8192;

} // verus!
