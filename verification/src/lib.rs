//! A steganographic data codec: embeds an arbitrary byte payload into the
//! low-order bits of an RGBA pixel buffer's blue channel and recovers it
//! exactly, locating the frame by a magic marker and framing it with a
//! length field and a rotate-and-xor integrity checksum.
//!
//! The layers, bottom up:
//! - [`bitpack`]: lossless conversion between bytes and fixed-width symbols.
//! - [`checksum`]: appends and strips a checksum suffix (detecting, not
//!   correcting: the suffix is never used to repair data).
//! - [`walk`]: a deterministic, seed-reproducible index sequence generator.
//! - [`carrier`]: owns a pixel buffer and performs frame-level embedding
//!   and extraction against it.
//!
//! [`verdict`] carries the classification that the host's scoring
//! heuristics produce beside an image; the scores themselves are
//! floating-point and live outside the verified library.

pub mod bitpack;
pub mod carrier;
pub mod checksum;
pub mod errors;
pub mod verdict;
pub mod walk;
