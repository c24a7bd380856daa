use vstd::prelude::*;

verus! {

/// An out-of-range or order-violating configuration value.
#[derive(Clone, Copy, PartialEq, Eq, Structural, Debug)]
pub enum ConfigError {
    /// A value lies outside the range its setter allows.
    ValueOutOfRange,
    /// The minimum quality exceeds the target quality.
    MinAboveTarget,
}

/// A failure while building a palette from an image.
#[derive(Clone, Copy, PartialEq, Eq, Structural, Debug)]
pub enum QuantizeError {
    /// The input population is empty: no pixels to quantize.
    EmptyInput,
    /// The buffer length does not match width * height * 4.
    DimensionMismatch,
    /// The configured minimum quality cannot be met within the
    /// configured palette size.
    QualityUnattainable,
}

/// A failure while remapping an image against a palette.
#[derive(Clone, Copy, PartialEq, Eq, Structural, Debug)]
pub enum RemapError {
    /// The buffer length does not match width * height * 4.
    DimensionMismatch,
    /// The palette holds no entries.
    EmptyPalette,
}

/// A failure while decoding PNG bytes.
#[derive(Clone, Copy, PartialEq, Eq, Structural, Debug)]
pub enum DecodeError {
    /// The signature or the chunk structure is malformed.
    Malformed,
    /// The pixel format of the source is not supported.
    UnsupportedFormat,
    /// The compressed pixel data is truncated or corrupt.
    Corrupt,
}

/// A failure while encoding a palette and an index buffer as PNG bytes.
#[derive(Clone, Copy, PartialEq, Eq, Structural, Debug)]
pub enum EncodeError {
    /// The index buffer length does not match width * height, or a
    /// dimension is zero.
    DimensionMismatch,
    /// Some index is not below the palette length.
    IndexOutOfRange,
    /// The palette holds more than 256 entries.
    PaletteTooLarge,
    /// A non-opaque entry follows the representable leading run, so the
    /// transparency table cannot express the palette.
    UnrepresentableTransparency,
    /// The compressed pixel data does not fit one chunk's 32-bit length.
    TooLarge,
}

} // verus!
