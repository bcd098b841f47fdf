use vstd::prelude::*;

verus! {

/// The kind of failure that a codec operation reports.
#[derive(Debug, Clone, Copy, PartialEq, Eq, Structural)]
pub enum ErrorKind {
    /// The frame header is truncated or is not hexadecimal.
    MalformedHeader,
    /// The payload cannot be split into whole bitmap units, or a unit is too short.
    MalformedPayload,
    /// A character that is not a hex digit stands where one is required.
    InvalidHexDigit,
    /// A tracked character does not fit in one byte.
    CharacterOutOfRange,
}

/// An error of the codec, with a human-readable message.
#[derive(Debug)]
pub enum BitMapError {
    MalformedHeader(String),
    MalformedPayload(String),
    InvalidHexDigit(String),
    CharacterOutOfRange(String),
}

impl BitMapError {
    pub open spec fn spec_kind(&self) -> ErrorKind {
        match self {
            BitMapError::MalformedHeader(_) => ErrorKind::MalformedHeader,
            BitMapError::MalformedPayload(_) => ErrorKind::MalformedPayload,
            BitMapError::InvalidHexDigit(_) => ErrorKind::InvalidHexDigit,
            BitMapError::CharacterOutOfRange(_) => ErrorKind::CharacterOutOfRange,
        }
    }

    /// The kind of this error.
    pub fn kind(&self) -> (k: ErrorKind)
        ensures
            k == self.spec_kind(),
    {
        match self {
            BitMapError::MalformedHeader(_) => ErrorKind::MalformedHeader,
            BitMapError::MalformedPayload(_) => ErrorKind::MalformedPayload,
            BitMapError::InvalidHexDigit(_) => ErrorKind::InvalidHexDigit,
            BitMapError::CharacterOutOfRange(_) => ErrorKind::CharacterOutOfRange,
        }
    }

    /// Builds an error of the given kind with the given message.
    pub fn with_message(kind: ErrorKind, message: &str) -> (e: BitMapError)
        ensures
            e.spec_kind() == kind,
    {
        let m = String::from_str(message);
        match kind {
            ErrorKind::MalformedHeader => BitMapError::MalformedHeader(m),
            ErrorKind::MalformedPayload => BitMapError::MalformedPayload(m),
            ErrorKind::InvalidHexDigit => BitMapError::InvalidHexDigit(m),
            ErrorKind::CharacterOutOfRange => BitMapError::CharacterOutOfRange(m),
        }
    }
}

/// A text result seen as a value: the characters, or the kind of error.
pub open spec fn text_result(r: Result<String, BitMapError>) -> Result<Seq<char>, ErrorKind> {
    match r {
        Ok(s) => Ok(s@),
        Err(e) => Err(e.spec_kind()),
    }
}

} // verus!
