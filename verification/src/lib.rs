//! Lossless compression for Nikon NEF files.
//!
//! A NEF is a TIFF file with a few large chunks: the raw sensor data and
//! embedded JPEGs. The file is split at the boundaries of its chunks, and every
//! piece is compressed with a codec of its own: raw samples and JPEGs as JPEG XL,
//! everything between them with zstd. Decompression gives the file back byte for
//! byte; [`lossless`] proves it.
//!
//! - [`tiff`] and [`nef`] find the chunks of a file, [`region`] puts them in order.
//! - [`bits`], [`bitstream`], [`huffman`] and [`nikon_lossless`] are the codec of
//!   compressed raw strips, [`packed`] is that of uncompressed ones.
//! - [`strip`] and [`bayer`] prepare the samples for the image codec, whose steps
//!   are in [`jxl`]; [`gap`] compresses what is between the chunks.
//! - [`segment`] is the container, [`cnef`] compresses and decompresses files.
//!   [`tiling`] and [`offsets`] state what the segments say of the file, and what
//!   does not depend on them.
//! - [`scan`] and [`contents`] state what is found in a file and what the segments
//!   hold of it, byte by byte and sample by sample; [`refusals`] states what is
//!   refused and in which words.
//! - [`job`], [`batch`], [`inspect`] and [`roundtrip`] are the decisions and the
//!   computations of the command line tool.
//! - [`bytes`] and [`text`] are shared by the others.

pub mod batch;
pub mod bayer;
pub mod bits;
pub mod bitstream;
pub mod bytes;
pub mod cnef;
pub mod contents;
pub mod gap;
pub mod huffman;
pub mod inspect;
pub mod job;
pub mod jxl;
pub mod lossless;
pub mod nef;
pub mod nikon_lossless;
pub mod offsets;
pub mod packed;
pub mod refusals;
pub mod region;
pub mod roundtrip;
pub mod scan;
pub mod segment;
pub mod strip;
pub mod text;
pub mod tiff;
pub mod tiling;
