//! A Base64 codec: encoding of byte sequences and UTF-8 text into
//! Base64 strings over the standard alphabet with `=` padding, and the
//! inverse decoding with three output shapes (UTF-8 text, a caller-supplied
//! buffer, an owned byte vector).

pub mod codec;
pub mod model;

pub use codec::DecodeError;
pub use codec::decode;
pub use codec::decode_as_mut8;
pub use codec::decode_as_vecu8;
pub use codec::encode;
pub use codec::encode_bytes;
