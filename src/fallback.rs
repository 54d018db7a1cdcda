//! The catch-all ("fallback") variant of an enum.
use crate::error::SchemaError;
use vstd::prelude::*;

verus! {

/// What a variant carries.
#[derive(Debug, PartialEq, Eq, Structural, Clone, Copy)]
pub enum Payload {
    /// Nothing.
    Unit,
    /// One unsigned value (or `bool`) of the given width.
    Value(u32),
    /// Anything else: named fields, several fields, a type without fixed width.
    Unsupported,
}

/// An enum variant as the schema declares it.
#[derive(Debug, PartialEq, Eq, Structural, Clone, Copy)]
pub struct VariantSpec {
    pub discriminant: Option<u128>,
    pub fallback: bool,
    pub payload: Payload,
}

/// The fallback variant, by index: a unit variant, or one that keeps the
/// unmatched bit pattern as its payload.
#[derive(Debug, PartialEq, Eq, Structural, Clone, Copy)]
pub enum Fallback {
    Unit(usize),
    WithValue(usize),
}

impl Fallback {
    pub open spec fn index(self) -> usize {
        match self {
            Fallback::Unit(i) => i,
            Fallback::WithValue(i) => i,
        }
    }

    pub fn is_fallback_variant(&self, variant: usize) -> (r: bool)
        ensures
            r == (self.index() == variant),
    {
        match self {
            Fallback::Unit(i) => *i == variant,
            Fallback::WithValue(i) => *i == variant,
        }
    }

    pub fn is_with_value(&self) -> (r: bool)
        ensures
            r == (self is WithValue),
    {
        matches!(self, Fallback::WithValue(_))
    }
}

/// How many variants are marked as fallback.
pub open spec fn count_fallbacks(vs: Seq<VariantSpec>) -> nat
    decreases vs.len(),
{
    if vs.len() == 0 {
        0
    } else {
        count_fallbacks(vs.drop_last()) + if vs.last().fallback {
            1nat
        } else {
            0nat
        }
    }
}

/// Index of the first variant marked as fallback, or -1.
pub open spec fn first_fallback(vs: Seq<VariantSpec>) -> int
    decreases vs.len(),
{
    if vs.len() == 0 {
        -1
    } else {
        let f = first_fallback(vs.drop_last());
        if f >= 0 {
            f
        } else if vs.last().fallback {
            vs.len() - 1
        } else {
            -1
        }
    }
}

/// The fallback of an enum with these variants, or why it is malformed.
pub open spec fn fallback_of(vs: Seq<VariantSpec>, enum_bitsize: u32) -> Result<Option<Fallback>, SchemaError> {
    if count_fallbacks(vs) >= 2 {
        Err(SchemaError::MultipleFallbacks)
    } else if count_fallbacks(vs) == 0 {
        Ok(None)
    } else {
        fallback_from(vs, first_fallback(vs), enum_bitsize)
    }
}

/// What the variant at `i`, the one marked as fallback, makes of the enum.
pub open spec fn fallback_from(vs: Seq<VariantSpec>, i: int, enum_bitsize: u32) -> Result<
    Option<Fallback>,
    SchemaError,
> {
    match vs[i].payload {
        Payload::Unit => Ok(Some(Fallback::Unit(i as usize))),
        Payload::Unsupported => Err(SchemaError::UnsupportedVariant),
        Payload::Value(w) => if i != vs.len() - 1 {
            Err(SchemaError::FallbackNotLast)
        } else if w != enum_bitsize {
            Err(SchemaError::FallbackWidthMismatch)
        } else {
            Ok(Some(Fallback::WithValue(i as usize)))
        },
    }
}

/// Checks one fallback variant.
fn from_variant(variant: &VariantSpec, index: usize, enum_bitsize: u32, is_last_variant: bool) -> (r:
    Result<Option<Fallback>, SchemaError>)
    ensures
        match variant.payload {
            Payload::Unit => r == Ok::<Option<Fallback>, SchemaError>(Some(Fallback::Unit(index))),
            Payload::Unsupported => r == Err::<Option<Fallback>, SchemaError>(
                SchemaError::UnsupportedVariant,
            ),
            Payload::Value(w) => if !is_last_variant {
                r == Err::<Option<Fallback>, SchemaError>(SchemaError::FallbackNotLast)
            } else if w != enum_bitsize {
                r == Err::<Option<Fallback>, SchemaError>(SchemaError::FallbackWidthMismatch)
            } else {
                r == Ok::<Option<Fallback>, SchemaError>(Some(Fallback::WithValue(index)))
            },
        },
{
    match variant.payload {
        Payload::Unit => Ok(Some(Fallback::Unit(index))),
        Payload::Unsupported => Err(SchemaError::UnsupportedVariant),
        Payload::Value(w) => {
            if !is_last_variant {
                Err(SchemaError::FallbackNotLast)
            } else if w != enum_bitsize {
                Err(SchemaError::FallbackWidthMismatch)
            } else {
                Ok(Some(Fallback::WithValue(index)))
            }
        },
    }
}

/// Finds the single variant marked as fallback, and checks its shape: a unit
/// variant, or a last variant with one payload as wide as the enum.
pub fn fallback_variant(variants: &Vec<VariantSpec>, enum_bitsize: u32) -> (r: Result<
    Option<Fallback>,
    SchemaError,
>)
    ensures
        r == fallback_of(variants@, enum_bitsize),
        r matches Ok(Some(f)) ==> 0 <= f.index() < variants.len() && variants@[f.index() as int].fallback
            && variants@[f.index() as int].payload != Payload::Unsupported,
{
    let mut count: usize = 0;
    let mut first: usize = 0;
    let mut k: usize = 0;
    while k < variants.len()
        invariant
            k <= variants.len(),
            count == count_fallbacks(variants@.subrange(0, k as int)),
            count <= k,
            count > 0 ==> first < k && variants@[first as int].fallback && first == first_fallback(
                variants@.subrange(0, k as int),
            ),
            count == 0 ==> first_fallback(variants@.subrange(0, k as int)) == -1,
        decreases variants.len() - k,
    {
        assert(variants@.subrange(0, k + 1).drop_last() == variants@.subrange(0, k as int));
        if variants[k].fallback {
            if count == 0 {
                first = k;
            }
            count = count + 1;
        }
        k = k + 1;
    }
    assert(variants@.subrange(0, variants.len() as int) == variants@);
    if count >= 2 {
        return Err(SchemaError::MultipleFallbacks);
    }
    if count == 0 {
        return Ok(None);
    }
    from_variant(&variants[first], first, enum_bitsize, first == variants.len() - 1)
}

} // verus!
