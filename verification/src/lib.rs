//! A verified codec for Android's sparse image format.
//!
//! Enables reading and writing sparse images, as well as encoding from and
//! decoding to raw images:
//!
//! ```text
//!  --------               --------                -------
//! | sparse | --Reader--> | sparse | --Decoder--> | raw   |
//! | image  | <--Writer-- | blocks | <--Encoder-- | image |
//!  --------               --------                -------
//! ```
//!
//! The wire format, the classification of raw blocks, the run-merging of the
//! writer and the expansion of the reader are all specified against a
//! mathematical model of the format and proved with Verus.

pub mod block;
pub mod chunks;
pub mod crc32;
pub mod headers;
pub mod laws;
pub mod parse;
pub mod read;
pub mod result;
pub mod write;

pub use crate::block::Block;
pub use crate::read::{Encoder, Reader};
pub use crate::result::Error;
pub use crate::write::{Decoder, Writer};
