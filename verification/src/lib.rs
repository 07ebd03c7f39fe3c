//! Decoder for a stream of per-block UTXO changes.
//!
//! The stream is a custom framed format: records of fixed-width
//! little-endian integers followed by delta pairs in LEB128 and zigzag
//! coding.
//!
//! * [`format`] says what a byte sequence means: which events it decodes to,
//!   whether decoding succeeds, and how many bytes it takes.
//! * [`parser`] decodes in one forward pass over a byte cursor, reporting to
//!   a [`BlockCallback`], and is proved to do what [`format`] says.
//! * [`encoding`] says which bytes stand for a record, and [`laws`] states
//!   what follows for every stream: round trips, truncation, corruption.
//!   [`framing`] and [`arith`] hold the lemmas behind them.
//! * [`check_sequential`], [`fast_file_source`] and [`change_to_pixel`] are
//!   what stands around the decoder: a sink, a byte source, a picture frame.
pub mod arith;
pub mod change_to_pixel;
pub mod check_sequential;
pub mod encoding;
pub mod fast_file_source;
pub mod format;
pub mod framing;
pub mod laws;
pub mod parser;

pub use change_to_pixel::ChangeToPixel;
pub use check_sequential::CheckSequential;
pub use fast_file_source::FastFileSource;
pub use format::Event;
pub use parser::{parse, BlockCallback};
