//! How pattern strings (delimiters, markers) are turned into bytes.

use vstd::prelude::*;
use crate::codec::Encoding;

verus! {

/// Encoding of a user-supplied pattern string.
#[derive(Debug, Clone, Copy, PartialEq, Eq, Structural)]
pub enum PatternEncoding {
    /// The pattern's UTF-8 bytes.
    Utf8,
    /// Hex pairs.
    Hex,
    /// Base64 (standard, or URL-safe without padding).
    Base64,
}

/// The codec encoding that decodes a pattern of this kind.
pub open spec fn spec_pattern_codec(p: PatternEncoding) -> Encoding {
    match p {
        PatternEncoding::Utf8 => Encoding::Utf8,
        PatternEncoding::Hex => Encoding::Hex,
        PatternEncoding::Base64 => Encoding::Base64,
    }
}

impl PatternEncoding {
    /// The codec encoding that decodes a pattern of this kind.
    pub fn to_encoding(self) -> (e: Encoding)
        ensures
            e == spec_pattern_codec(self),
    {
        match self {
            PatternEncoding::Utf8 => Encoding::Utf8,
            PatternEncoding::Hex => Encoding::Hex,
            PatternEncoding::Base64 => Encoding::Base64,
        }
    }
}

} // verus!
