//! A binary-to-text codec over the 62-character alphabet `0-9A-Za-z`.
//!
//! Bytes are packed into a stream of symbols that are five or six bits wide;
//! which width a symbol carries is a function of the symbol alone, so the
//! stream is self-describing and decodes without any out-of-band state.

pub mod codec;
pub mod laws;
pub mod model;

pub use codec::decode;
pub use codec::encode;
pub use codec::DecodeError;
