//! Delta codec for sequences of raw RGBA frames.
//!
//! A frame is encoded against the frame before it: only the pixel pairs whose
//! colour changed are stored, behind a bitmap that says which pairs those are,
//! and the result is packed as a size-prefixed LZ4 block. Decoding unpacks the
//! block and writes the stored pairs over a buffer that holds the earlier frame.
//! Alpha bytes are never read and never written.
//!
//! * [`format`] says what a delta stream is and what it means, as
//!   mathematics; every contract is stated over it.
//! * [`encode`] and [`decode`] are the delta stage: [`diff_byte_header`] and
//!   [`diff_byte_header_copy_onto`].
//! * [`laws`] proves what holds of the two together: decoding undoes
//!   encoding.
//! * [`entropy`] is the LZ4 stage: [`entropy::compress`] and
//!   [`entropy::decompress`].
//! * [`codec`] joins the stages: [`mixed_comp`] and [`mixed_decomp`].
//! * [`error`] holds the two error types.

pub mod error;
pub mod format;
pub mod encode;
pub mod decode;
pub mod laws;
pub mod entropy;
pub mod codec;

pub use crate::codec::mixed_comp;
pub use crate::codec::mixed_decomp;
pub use crate::decode::diff_byte_header_copy_onto;
pub use crate::encode::diff_byte_header;
pub use crate::error::DecodeError;
pub use crate::error::EncodeError;
