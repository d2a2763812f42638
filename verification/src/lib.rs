//! Streaming LZ4 frame encoder.
//!
//! The crate builds a complete LZ4 frame — header, compressed body blocks,
//! footer — incrementally, writing each piece to a caller-supplied byte sink
//! as soon as it is produced.  Block compression and XXH32 checksums come
//! from outside crates; the frame layout, the chunked write protocol and the
//! scratch-buffer discipline are verified here.

pub mod encoder;
pub mod engine;
pub mod frame;
pub mod sink;

mod context;

pub use encoder::BlockMode;
pub use encoder::BlockSize;
pub use encoder::ContentChecksum;
pub use encoder::Encoder;
pub use encoder::EncoderBuilder;
pub use sink::BoundedSink;
pub use sink::ByteSink;
pub use sink::Error;
pub use sink::VecSink;
