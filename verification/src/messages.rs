//! The three wire shapes: `PubMessage`, `Subscribe` and `AckMessage`.
//!
//! Channel names and payloads are kept as raw byte strings: the broker never
//! inspects them beyond exact-match routing, and the wire format is defined
//! over bytes.

use vstd::prelude::*;

verus! {

/// A message published to a channel.
#[derive(Debug, Clone)]
pub struct PubMessage {
    pub channel: Vec<u8>,
    pub payload: Vec<u8>,
}

/// Mathematical value of a `PubMessage`.
pub struct PubMessageView {
    pub channel: Seq<u8>,
    pub payload: Seq<u8>,
}

impl View for PubMessage {
    type V = PubMessageView;

    open spec fn view(&self) -> PubMessageView {
        PubMessageView { channel: self.channel@, payload: self.payload@ }
    }
}

/// A request to join a channel.
#[derive(Debug, Clone)]
pub struct Subscribe {
    pub channel: Vec<u8>,
}

impl View for Subscribe {
    type V = Seq<u8>;

    open spec fn view(&self) -> Seq<u8> {
        self.channel@
    }
}

/// The acknowledgement written once per received `PubMessage` frame.
#[derive(Debug, Clone)]
pub struct AckMessage {
    pub ack: bool,
}

impl AckMessage {
    pub fn new() -> (r: Self)
        ensures
            r.ack == true,
    {
        Self { ack: true }
    }
}

} // verus!
