use vstd::prelude::*;

verus! {

/// The code and reason a close frame may carry.
#[derive(Clone, Debug, PartialEq, Eq)]
pub struct CloseFrame {
    pub code: u16,
    pub reason: String,
}

/// An untyped data payload: text or raw bytes.
#[derive(Clone, Debug, PartialEq, Eq)]
pub enum Payload {
    Text(String),
    Binary(Vec<u8>),
}

/// The closed set of frames a room sends. Only `Data` depends on the payload
/// type; the control frames are the same for every room.
#[derive(Clone, Debug, PartialEq, Eq)]
pub enum Frame<P> {
    Data(P),
    Ping(Vec<u8>),
    Pong(Vec<u8>),
    Close(Option<CloseFrame>),
}

} // verus!
