use vstd::prelude::*;

verus! {

/// Why a descriptor was refused.
#[derive(Debug, Clone, Copy, PartialEq, Eq, Structural)]
pub enum ParseError {
    /// An atom token with an unknown letter, or shorter than two characters.
    InvalidAtom,
    /// A shell marker `N<n>` with `n` outside `1..=5`.
    InvalidShell,
    /// A subshell marker `L<l>` with `l` outside `0..n` for the current shell `n`.
    InvalidSubshell,
    /// A subshell marker or a number before any shell marker, or an empty token.
    InvalidBasis,
    /// An exponent or coefficient row whose length differs from the first exponent row.
    InconsistentOrder,
    /// Rows of differing widths, or no rows at all.
    InconsistentShape,
    /// Text that should hold an integer does not.
    InvalidInteger,
    /// Text that should hold a floating-point number does not.
    InvalidNumber,
    /// A token that does not belong to any bracketed group.
    UngroupedToken,
    /// A bracketed group without any token.
    EmptyGroup,
    /// A matrix too large to allocate.
    TooLarge,
}

} // verus!
