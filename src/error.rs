//! The errors that parsing and decoding a texture report.
use crate::BlockCompressionType;
use vstd::prelude::*;

verus! {

/// Why a texture could not be parsed or decoded.
#[derive(Debug, Clone, PartialEq, Eq)]
pub enum TIDError {
    /// The first three bytes are not `TID`; holds the bytes found.
    MagicNumber(Vec<u8>),
    /// The input ended early; holds how many bytes it had.
    IO { available: usize },
    /// The type byte at offset 3 is not a known code.
    UnknownDataType(u8),
    /// The compression tag is neither zero nor a known FourCC; holds the tag.
    UnknownFourCC(Vec<u8>),
    /// A block-compressed texture carries no compression tag.
    NoFourCC,
    /// The name field is not valid UTF-8; holds its bytes up to the first NUL.
    NameDecodeError(Vec<u8>),
    /// The compression variant is recognised but not decoded.
    UnsupportedFeature(BlockCompressionType),
    /// The dimensions cannot be laid out as block-compressed tiles.
    InvalidDimensions { width: u32, height: u32 },
}

impl TIDError {
    /// A short human-readable description of the error's kind.
    pub fn description(&self) -> (r: &'static str)
        ensures
            r@ == match self {
                TIDError::MagicNumber(_) => "Magic number mismatch"@,
                TIDError::IO { .. } => "Input ended early"@,
                TIDError::UnknownDataType(_) => "Unknown data type"@,
                TIDError::UnknownFourCC(_) => "Unknown FourCC code"@,
                TIDError::NoFourCC => "Missing FourCC for BC type"@,
                TIDError::NameDecodeError(_) => "Failed to read name in header"@,
                TIDError::UnsupportedFeature(_) => "Unsupported block compression"@,
                TIDError::InvalidDimensions { .. } => "Dimensions unfit for block compression"@,
            },
    {
        match self {
            TIDError::MagicNumber(_) => "Magic number mismatch",
            TIDError::IO { .. } => "Input ended early",
            TIDError::UnknownDataType(_) => "Unknown data type",
            TIDError::UnknownFourCC(_) => "Unknown FourCC code",
            TIDError::NoFourCC => "Missing FourCC for BC type",
            TIDError::NameDecodeError(_) => "Failed to read name in header",
            TIDError::UnsupportedFeature(_) => "Unsupported block compression",
            TIDError::InvalidDimensions { .. } => "Dimensions unfit for block compression",
        }
    }
}

} // verus!
