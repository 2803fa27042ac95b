//! Extraction and repacking of the resources in NUX MG-30 firmware images.
//!
//! The library works on bytes in memory: it reads the NUX DFU container, strips the frame
//! wrapper off the BINA section, finds and decodes the palette+RLE pictures and the RIFF/WAVE
//! sounds inside, and writes changed pictures back. Reading and writing files is the caller's
//! part.

pub mod container;
pub mod depacketize;
pub mod error;
pub mod export;
pub mod firmware;
pub mod hash;
pub mod image_format;
pub mod numbers;
mod order;
pub mod palette;
pub mod raster;
pub mod repack;
pub mod rle;
pub mod roundtrip;
pub mod scanner;
pub mod text;
pub mod waves;
