//! Errors: schema errors at registration, value errors at decoding.
use vstd::prelude::*;

verus! {

/// A bit pattern that is no valid value of the type it was decoded as.
#[derive(Debug, PartialEq, Eq, Structural, Clone, Copy)]
pub struct BitsError;

/// The one way to make a [`BitsError`].
pub fn give_me_error() -> (r: BitsError)
    ensures
        r == BitsError,
{
    BitsError
}

/// Why a schema was refused.
#[derive(Debug, PartialEq, Eq, Structural, Clone, Copy)]
pub enum SchemaError {
    /// A declared width of zero or above the maximum.
    InvalidWidth,
    /// A reference to a type that is not registered (yet).
    UnknownType,
    /// A type whose computed width passes the maximum record width.
    TooWide,
    /// A record without fields.
    NoFields,
    /// The computed width disagrees with the declared one.
    SizeMismatch,
    /// An explicit bit range in an auto-layout record.
    RangeInAutoLayout,
    /// A field without bit range in a manual-layout record.
    MissingRange,
    /// A bit range that runs past the declared width.
    RangeExceedsWidth,
    /// A bit range whose end does not come after its start.
    EmptyRange,
    /// An enum without variants.
    NoVariants,
    /// More variants than bit patterns.
    TooManyVariants,
    /// A discriminant at or above `2^width`.
    DiscriminantOutOfRange,
    /// Two variants with one discriminant.
    DuplicateDiscriminant,
    /// More than one fallback variant.
    MultipleFallbacks,
    /// A value-carrying fallback that is not the last variant.
    FallbackNotLast,
    /// A fallback payload whose width differs from the enum's.
    FallbackWidthMismatch,
    /// A payload on a variant that is not the fallback, or an unsupported payload.
    UnsupportedVariant,
    /// A fallback on an enum whose variants already cover every pattern.
    FallbackOnExhaustive,
    /// A fallback on a type decoded fallibly.
    FallbackWithFallible,
    /// Infallible decoding asked of a type that is not filled.
    NotFilled,
    /// A default variant that is not a unit variant of the enum.
    InvalidDefault,
}

} // verus!
