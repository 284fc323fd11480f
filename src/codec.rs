//! The capability that a node's value needs: a single-token text encoding.
use vstd::prelude::*;
use crate::decimal::{decimal, parse_u32, format_u32, parse_u32_chars};
use crate::text::chars_of;

verus! {

/// A value that writes itself as one text token and reads itself back.
pub trait ValueCodec: Sized {
    /// The token that `encode` writes.
    spec fn token(&self) -> Seq<char>;

    /// The value that `decode` reads from a token, if the token is well formed.
    spec fn from_token(s: Seq<char>) -> Option<Self>;

    fn encode(&self) -> (r: String)
        ensures
            r@ == self.token(),
    ;

    fn decode(s: &str) -> (r: Option<Self>)
        ensures
            r == Self::from_token(s@),
    ;
}

impl ValueCodec for u32 {
    open spec fn token(&self) -> Seq<char> {
        decimal(*self as nat)
    }

    open spec fn from_token(s: Seq<char>) -> Option<u32> {
        parse_u32(s)
    }

    fn encode(&self) -> (r: String) {
        format_u32(*self)
    }

    fn decode(s: &str) -> (r: Option<u32>) {
        parse_u32_chars(&chars_of(s))
    }
}

} // verus!
