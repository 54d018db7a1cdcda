//! Sequential assignment of enum discriminants.
use crate::bits::low_mask;
use crate::error::SchemaError;
use crate::fallback::VariantSpec;
use vstd::prelude::*;

verus! {

/// Hands out discriminants in declaration order: an unlabelled variant gets
/// the previous value plus one (the first gets 0), an explicit one resets the
/// sequence.
pub struct DiscriminantAssigner {
    pub bitsize: u8,
    pub next_expected_assignment: u128,
}

/// The largest discriminant that fits `bitsize` bits.
pub open spec fn max_discriminant(bitsize: u8) -> u128 {
    low_mask(bitsize as u128)
}

/// The value the assigner gives a variant with the given explicit label.
pub open spec fn assigned_value(next: u128, explicit: Option<u128>) -> u128 {
    match explicit {
        Some(v) => v,
        None => next,
    }
}

impl DiscriminantAssigner {
    pub open spec fn wf(&self) -> bool {
        &&& self.bitsize <= 64
        &&& self.next_expected_assignment <= max_discriminant(self.bitsize) as int + 1
    }

    pub fn new(bitsize: u8) -> (r: DiscriminantAssigner)
        requires
            bitsize <= 64,
        ensures
            r.bitsize == bitsize,
            r.next_expected_assignment == 0,
            r.wf(),
    {
        DiscriminantAssigner { bitsize, next_expected_assignment: 0 }
    }

    pub fn max_value(&self) -> (r: u128)
        requires
            self.bitsize <= 64,
        ensures
            r == max_discriminant(self.bitsize),
    {
        if self.bitsize >= 128 {
            u128::MAX
        } else {
            !(u128::MAX << (self.bitsize as u128))
        }
    }

    /// The explicit discriminant, checked against the width.
    fn value_from_discriminant(&self, explicit: Option<u128>) -> (r: Result<Option<u128>, SchemaError>)
        requires
            self.bitsize <= 64,
        ensures
            match explicit {
                None => r == Ok::<Option<u128>, SchemaError>(None),
                Some(v) => if v > max_discriminant(self.bitsize) {
                    r == Err::<Option<u128>, SchemaError>(SchemaError::DiscriminantOutOfRange)
                } else {
                    r == Ok::<Option<u128>, SchemaError>(Some(v))
                },
            },
    {
        match explicit {
            None => Ok(None),
            Some(v) => {
                if v > self.max_value() {
                    Err(SchemaError::DiscriminantOutOfRange)
                } else {
                    Ok(Some(v))
                }
            },
        }
    }

    /// Assigns the next variant's discriminant; fails when it does not fit
    /// the width.
    pub fn assign(&mut self, explicit: Option<u128>) -> (r: Result<u128, SchemaError>)
        requires
            old(self).wf(),
        ensures
            final(self).wf(),
            final(self).bitsize == old(self).bitsize,
            assigned_value(old(self).next_expected_assignment, explicit) > max_discriminant(
                old(self).bitsize,
            ) ==> r == Err::<u128, SchemaError>(SchemaError::DiscriminantOutOfRange)
                && *final(self) == *old(self),
            assigned_value(old(self).next_expected_assignment, explicit) <= max_discriminant(
                old(self).bitsize,
            ) ==> r == Ok::<u128, SchemaError>(
                assigned_value(old(self).next_expected_assignment, explicit),
            ) && final(self).next_expected_assignment == assigned_value(
                old(self).next_expected_assignment,
                explicit,
            ) + 1,
    {
        let value = match self.value_from_discriminant(explicit) {
            Err(e) => {
                return Err(e);
            },
            Ok(Some(v)) => v,
            Ok(None) => self.next_expected_assignment,
        };
        if value > self.max_value() {
            return Err(SchemaError::DiscriminantOutOfRange);
        }
        proof {
            let b = self.bitsize as u128;
            assert(b <= 64 ==> !(u128::MAX << b) < u128::MAX) by (bit_vector);
        }
        self.next_expected_assignment = value + 1;
        Ok(value)
    }
}

/// The discriminants of the variants, in order: an explicit one as given,
/// else one more than the previous (0 for the first); none once a value
/// does not fit `bitsize` bits.
pub open spec fn assigned_values(vs: Seq<VariantSpec>, bitsize: u8) -> Option<Seq<u128>>
    decreases vs.len(),
{
    if vs.len() == 0 {
        Some(seq![])
    } else {
        match assigned_values(vs.drop_last(), bitsize) {
            None => None,
            Some(vals) => {
                let next: int = if vals.len() == 0 {
                    0
                } else {
                    vals.last() + 1
                };
                let v: int = match vs.last().discriminant {
                    Some(d) => d as int,
                    None => next,
                };
                if v > max_discriminant(bitsize) {
                    None
                } else {
                    Some(vals.push(v as u128))
                }
            },
        }
    }
}

/// Runs the assigner over all variants.
pub fn assign_all(variants: &Vec<VariantSpec>, bitsize: u8) -> (r: Result<Vec<u128>, SchemaError>)
    requires
        bitsize <= 64,
    ensures
        match assigned_values(variants@, bitsize) {
            None => r == Err::<Vec<u128>, SchemaError>(SchemaError::DiscriminantOutOfRange),
            Some(vals) => r is Ok && r->Ok_0@ == vals,
        },
{
    let mut assigner = DiscriminantAssigner::new(bitsize);
    let mut out: Vec<u128> = Vec::new();
    let mut i: usize = 0;
    while i < variants.len()
        invariant
            i <= variants.len(),
            assigner.wf(),
            assigner.bitsize == bitsize,
            assigned_values(variants@.subrange(0, i as int), bitsize) == Some(out@),
            assigner.next_expected_assignment == if out@.len() == 0 {
                0
            } else {
                out@.last() + 1
            },
        decreases variants.len() - i,
    {
        proof {
            assert(variants@.subrange(0, i + 1).drop_last() == variants@.subrange(0, i as int));
        }
        match assigner.assign(variants[i].discriminant) {
            Ok(v) => {
                out.push(v);
            },
            Err(e) => {
                proof {
                    lemma_assigned_prefix(variants@, bitsize, i + 1);
                }
                return Err(e);
            },
        }
        i = i + 1;
    }
    assert(variants@.subrange(0, variants.len() as int) == variants@);
    Ok(out)
}

/// Once a prefix fails, the whole list fails.
proof fn lemma_assigned_prefix(vs: Seq<VariantSpec>, bitsize: u8, i: int)
    requires
        0 <= i <= vs.len(),
        assigned_values(vs.subrange(0, i), bitsize) is None,
    ensures
        assigned_values(vs, bitsize) is None,
    decreases vs.len(),
{
    if i < vs.len() {
        let d = vs.drop_last();
        assert(vs.subrange(0, i) == d.subrange(0, i));
        lemma_assigned_prefix(d, bitsize, i);
    } else {
        assert(vs.subrange(0, i) == vs);
    }
}

} // verus!
