//! zlib / DEFLATE streams.
pub mod codes;
pub mod compress;
pub mod decompress;
pub mod huffman;
pub mod roundtrip;
pub mod stored;
pub mod stream;
pub mod tables;

pub use compress::compress;
pub use decompress::decompress;
