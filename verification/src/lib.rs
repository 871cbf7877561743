//! A baseline JPEG decoder whose behaviour is stated in contracts and proved.
//!
//! The decoder turns a byte stream into a pixel raster: it walks the marker
//! segments, rebuilds the quantization and Huffman tables they define, decodes
//! the entropy-coded scan block by block, applies the inverse cosine
//! transform, and merges the component planes into an [`image::Image`].
//! It covers 8-bit baseline streams with a single interleaved scan and no
//! restart intervals.
//!
//! Every stage has a mathematical description, a `spec` function over
//! sequences and integers, and an executable function proved to compute
//! exactly that:
//!
//! - [`reader`]: byte-aligned reads for headers, and bit reads that remove
//!   byte stuffing and stop at the next marker;
//! - [`marker`]: the markers and what each calls for in each parser state;
//! - [`quant`], [`huffman`], [`frame`]: the table and header segments;
//! - [`model`]: the tables and the frame header of a session;
//! - [`block`]: one block of coefficients out of the bit stream;
//! - [`idct`]: dequantization and the inverse cosine transform;
//! - [`scan`]: the geometry of a frame and the decoding of all its blocks;
//! - [`raster`]: replication of subsampled components and colour
//!   conversion;
//! - [`decoder`]: the session that ties the stages together, and
//!   [`image::Image::from_jpeg`].
//!
//! Arithmetic is integer throughout, so that what is proved is what runs.
pub mod block;
pub mod decoder;
pub mod error;
pub mod frame;
pub mod huffman;
pub mod idct;
pub mod image;
pub mod marker;
pub mod model;
pub mod quant;
pub mod raster;
pub mod reader;
pub mod scan;
