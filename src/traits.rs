use vstd::prelude::*;

use crate::types::{text_result, BitMapError, ErrorKind};

verus! {

/// A value that serialises itself to hexadecimal text.
pub trait Encode {
    /// The text that `encode` produces, or the kind of error it reports.
    spec fn encode_spec(&self) -> Result<Seq<char>, ErrorKind>;

    fn encode(&self) -> (r: Result<String, BitMapError>)
        ensures
            text_result(r) == self.encode_spec(),
    ;
}

/// A value that reconstructs a text.
pub trait Decode: Sized {
    /// The text that `decode` produces, or the kind of error it reports.
    spec fn decode_spec(&self) -> Result<Seq<char>, ErrorKind>;

    fn decode(&mut self) -> (r: Result<String, BitMapError>)
        ensures
            *final(self) == *old(self),
            text_result(r) == old(self).decode_spec(),
    ;
}

} // verus!
