//! A layout and codec engine for bit-packed records.
//!
//! A [`schema::Schema`] is an arena of field types: unsigned and signed
//! scalars, booleans, tuples, arrays, records and enums. Every type refers
//! only to types registered before it, so the type graph has no cycles.
//! Registering a type ([`register`]) checks it, computes its width, whether it
//! is filled and its default pattern, and flattens it into a table of leaf
//! slots. The codec ([`codec`], [`record`]) reads and writes those slots of a
//! single `u128` with shifts and masks. [`laws`] holds what is proved of it
//! for all inputs: decoding what was encoded gives it back, setting a field
//! leaves the others alone, filled types always decode, and so on.
pub mod bits;
pub mod codec;
pub mod discriminant_assigner;
pub mod error;
pub mod fallback;
pub mod laws;
pub mod record;
pub mod register;
pub mod schema;
