//! One position of a compiled pattern.

use vstd::prelude::*;

verus! {

/// The rule that a pattern applies to one byte of a window.
#[derive(Clone, Copy, Debug, PartialEq, Eq, Structural, PartialOrd, Ord, Hash)]
pub enum PatternElement {
    /// The byte must equal this value.
    Literal(u8),
    /// Any byte is accepted, and it is reported with its offset.
    Placeholder,
    /// Any byte is accepted, and nothing is reported.
    Ignore,
}

impl PatternElement {
    /// Whether this element lets the byte `b` pass.
    pub open spec fn accepts(self, b: u8) -> bool {
        match self {
            PatternElement::Literal(v) => v == b,
            PatternElement::Placeholder => true,
            PatternElement::Ignore => true,
        }
    }
}

} // verus!
