//! Lossless image compression in the "Quite OK Image" style.
//!
//! A raw stream of RGBA samples becomes a twelve byte header, a stream of
//! variable-length chunks and an eight byte end marker. Every function of
//! the crate carries a contract that Verus proves. The contracts are stated
//! over the chunks defined in [`pixel`], the chunk stream defined in
//! [`stream`] and the encoded image defined in [`encode`].

pub mod consts;
pub mod decode;
pub mod encode;
pub mod error;
pub mod header;
pub mod pixel;
pub mod stream;
pub mod utils;

pub use crate::encode::{encode_max_len, encode_to_buf, encode_to_vec, Encoder};
pub use crate::error::Error;
pub use crate::header::Header;
pub use crate::pixel::Pixel;
