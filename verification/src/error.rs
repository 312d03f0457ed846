use vstd::prelude::*;

verus! {

/// Everything that can go wrong decoding an entry.
#[derive(Debug, Clone, Copy, PartialEq, Eq, Structural)]
pub enum Error {
    /// The input ended before a complete entry.
    Truncated,
    /// The tag byte names an unassigned codec id.
    UnknownCodec(u8),
    /// The tag byte names an unassigned crypto id.
    UnknownCrypto(u8),
    /// Malformed compressed or encoded data.
    Corrupt,
    /// The authentication tag did not verify.
    Auth,
    /// Decoded bytes are not valid UTF-8; `valid_up_to` leading bytes were.
    Utf8 { valid_up_to: usize },
}

/// The description of each error, as a user reads it.
pub open spec fn error_text(e: Error) -> Seq<char> {
    match e {
        Error::Truncated => "input ended before a complete entry"@,
        Error::UnknownCodec(v) => "unknown codec id "@ + crate::pack::decimal_chars(v as nat),
        Error::UnknownCrypto(v) => "unknown crypto id "@ + crate::pack::decimal_chars(v as nat),
        Error::Corrupt => "malformed compressed or encoded data"@,
        Error::Auth => "authentication tag mismatch"@,
        Error::Utf8 { valid_up_to } => "decoded bytes are not valid UTF-8 at byte "@
            + crate::pack::decimal_chars(valid_up_to as nat),
    }
}

impl Error {
    /// A human-readable description of the error.
    pub fn message(&self) -> (s: String)
        ensures
            s@ == error_text(*self),
    {
        match self {
            Error::Truncated => String::from_str("input ended before a complete entry"),
            Error::UnknownCodec(v) => {
                let mut s = String::from_str("unknown codec id ");
                let n = crate::pack::decimal(*v as usize);
                s.append(n.as_str());
                s
            },
            Error::UnknownCrypto(v) => {
                let mut s = String::from_str("unknown crypto id ");
                let n = crate::pack::decimal(*v as usize);
                s.append(n.as_str());
                s
            },
            Error::Corrupt => String::from_str("malformed compressed or encoded data"),
            Error::Auth => String::from_str("authentication tag mismatch"),
            Error::Utf8 { valid_up_to } => {
                let mut s = String::from_str("decoded bytes are not valid UTF-8 at byte ");
                let n = crate::pack::decimal(*valid_up_to);
                s.append(n.as_str());
                s
            },
        }
    }
}

} // verus!
