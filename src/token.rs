use vstd::prelude::*;

use crate::int_stream::INT_STREAM_EOF;

verus! {

/// Token types with a fixed meaning to the runtime.
#[derive(Debug, Clone, Copy, PartialEq, Eq, Structural)]
pub enum TokenType {
    InvalidType,
    Epsilon,
    MinUserTokenType,
    EOF,
}

impl TokenType {
    /// The integer that stands for the token type inside sets and streams.
    pub open spec fn spec_value(&self) -> int {
        match *self {
            TokenType::InvalidType => 123,
            TokenType::Epsilon => -2,
            TokenType::MinUserTokenType => 1,
            TokenType::EOF => -1,
        }
    }

    pub fn value(&self) -> (r: i32)
        ensures
            r == self.spec_value(),
    {
        match *self {
            TokenType::InvalidType => 123,
            TokenType::Epsilon => -2,
            TokenType::MinUserTokenType => 1,
            TokenType::EOF => INT_STREAM_EOF,
        }
    }
}

/// The channels a token can be sent on.
#[derive(Debug, Clone, Copy, PartialEq, Eq, Structural)]
pub enum TokenChannel {
    DefaultChannel,
    HiddenChannel,
    MinUserChannelValue,
}

/// A token of the input.
pub trait Token {

}

} // verus!
