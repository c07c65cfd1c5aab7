use vstd::prelude::*;

verus! {

/// Everything that can go wrong while decoding a QOI stream. All variants are
/// terminal: decode either fully succeeds or returns one of these.
#[derive(Clone, Copy, PartialEq, Eq, Structural, Debug)]
pub enum QoiError {
    /// The byte stream ends before a structurally required byte.
    TruncatedInput,
    /// The first four header bytes are not "qoif".
    BadMagic,
    /// A chunk tag byte matches no defined pattern. The tag grammar is
    /// exhaustive, so this is defensive and proved unreachable here.
    InvalidTag,
    /// The decoded pixel count differs from width * height.
    PixelCountMismatch { too_many: bool },
}

impl QoiError {
    /// A short description, for callers that report failures as text.
    pub fn describe(&self) -> &'static str {
        match self {
            QoiError::TruncatedInput => "end of data before end marker",
            QoiError::BadMagic => "wrong magic number at start, not a QOI stream",
            QoiError::InvalidTag => "not a possible QOI encoding",
            QoiError::PixelCountMismatch { too_many: true } => "too many pixels",
            QoiError::PixelCountMismatch { too_many: false } => "not enough pixels",
        }
    }
}

} // verus!
