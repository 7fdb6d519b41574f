//! Numeric array compression: width lowering, candidate selection, run-length
//! encoding, prefix varints, Simple16 and a Gorilla-style codec for doubles,
//! all framed into a byte stream with type tags and a length sidecar.
pub mod types;
pub mod varint;
pub mod stream;
pub mod root;
pub mod compressors;
pub mod select;
pub mod integer;
pub mod gorilla;
pub mod gorilla_round_trip;
pub mod reader;
pub mod round_trip;
pub mod traits;
