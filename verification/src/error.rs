//! The ways in which reading or rebuilding firmware can fail.

use vstd::prelude::*;

verus! {

/// A failure of one of the library's operations.
#[derive(Debug, Clone, Copy, PartialEq, Eq)]
pub enum Error {
    /// A 16-bit number was to be read past the end of the bytes.
    U16OutOfBounds,
    /// A 32-bit number was to be read past the end of the bytes.
    U32OutOfBounds,
    /// A zero-padded text was to be read past the end of the bytes.
    TextOutOfBounds,
    /// The file ends before the section table begins.
    FirmwareTooSmall,
    /// The file does not begin with `NUX DFU`.
    InvalidMagic { magic: [u8; 7] },
    /// The size in the header is not the size of the file.
    TotalSizeMismatch { total_size: u32, file_size: usize },
    /// A section reaches past the end of the file.
    InvalidSection { tag: [u8; 4], offset: u32, size: u32 },
    /// The firmware has no section of the name BINA.
    BinaNotFound,
    /// The runs of a picture cover more pixels than it has.
    TooManyPixels,
    /// The runs of a picture cover fewer pixels than it has.
    PixelCountMismatch { pixels: usize, expected_pixels: usize },
    /// The decoded bytes do not fill an image of the picture's dimensions.
    InvalidImageBuffer,
    /// A `fmt ` chunk is shorter than the PCM format block.
    FmtChunkTooSmall,
    /// The sound is not plain PCM.
    UnsupportedAudioFormat { audio_format: u16 },
    /// The sound is neither mono nor stereo.
    InvalidChannelCount { channels: u16 },
    /// The sample rate is outside 8000 to 192000 Hz.
    InvalidSampleRate { sample_rate: u32 },
    /// The sample width is none of 8, 16, 24 and 32 bits.
    InvalidBitsPerSample { bits_per_sample: u16 },
    /// The frame size does not follow from channels and sample width.
    BlockAlignMismatch { block_align: u16, expected_block_align: u32 },
    /// The byte rate does not follow from sample rate and frame size.
    ByteRateMismatch { byte_rate: u32, expected_byte_rate: u32 },
    /// The colour depth is outside 1 to 8 bits per pixel.
    InvalidBpp { bpp: u16 },
    /// The palette is empty or larger than the colour depth can address.
    InvalidPaletteEntries { bpp: u16, palette_entries: u16 },
    /// An image does not have the dimensions that the manifest gives.
    DimensionMismatch { expected_width: u32, expected_height: u32, width: u32, height: u32 },
    /// A palette index does not fit the colour depth.
    IndexTooLarge { index: u8, bpp: u16 },
    /// A re-encoded picture needs more bytes than the record has.
    RecordTooLarge { encoded_size: usize, limit: usize },
    /// The bytes to be written are not as many as the record has.
    RecordLengthMismatch { length: usize, record_size: usize },
    /// A byte of a record lies past the end of the firmware.
    PatchOutOfBounds { clean_rel: usize, abs: usize },
}

} // verus!
