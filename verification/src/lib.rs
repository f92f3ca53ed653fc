//! A witness stack kept in one packed buffer: the elements, each behind its
//! length prefix, followed by a table of four-byte offsets, together with the
//! wire codec of the stack and the tapscript locator.

pub mod bytes;
pub mod codec;
pub mod error;
pub mod layout;
pub mod packing;
pub mod signature;
pub mod stream;
pub mod varint;
pub mod witness;

pub use crate::codec::{deserialize, serialize};
pub use crate::error::{Error, MAX_VEC_SIZE};
pub use crate::signature::EcdsaSighashType;
pub use crate::stream::{Step, StreamDecoder};
pub use crate::varint::VarInt;
pub use crate::witness::{Iter, Witness};
