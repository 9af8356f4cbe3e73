//! Byte-signature matching: a textual signature such as `"00 __ 00 ??"` is
//! compiled into a [`Pattern`], which is then slid over a byte sequence to
//! find every window that satisfies it.
//!
//! A signature is a run of two-character tokens: two hexadecimal digits for a
//! byte that must be present, `??` for a byte that is captured and reported,
//! `__` for a byte that is skipped. Spaces may stand anywhere.

pub mod error;
pub mod element;
pub mod text;
pub mod pattern;
pub mod scan;

pub use element::PatternElement;
pub use error::BinmatchError;
pub use pattern::Pattern;
pub use text::ALLOWED_ALPHABET;
