//! A compact, delimiter-free binary codec.
//!
//! Values of a closed set of shapes (integers, booleans, unit, strings, byte
//! buffers, optionals, boxes, sequences and tuples) are written to a byte sink
//! and read back from a byte cursor. The wire layout of every shape is given
//! by `WireFormat::encoding`, and decoding by `WireFormat::decoding`; each
//! shape proves that decoding an encoding gives the value back.
use vstd::prelude::*;

pub mod buffer;
pub mod composite;
pub mod cursor;
pub mod laws;
pub mod scalar;
pub mod sequence;
pub mod size;
pub mod text;
pub mod tuple;
pub mod types;

pub use cursor::ByteCursor;
pub use types::{from_bytes, to_bytes, ByteWriter, FromBytes, ToBytes, WireFormat};
