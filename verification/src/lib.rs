//! Parsing and emitting ISO 8583 messages: the message type indicator, the
//! chained bitmaps and the data elements, each read and written as its field
//! schema and the codec say.

pub mod bitmap;
pub mod bits;
pub mod buf;
pub mod codec;
pub mod error;
pub mod field;
pub mod msg;
pub mod roundtrip;
pub mod text;
pub mod spec;

pub use crate::codec::{Codec, Encoding, Framing, VariableLengthFormat};
pub use crate::error::RS8583Error;
pub use crate::msg::{Message, MTI};
pub use crate::spec::{FieldSpec, MessageSpec};
