//! Field accessors and constructors of records and enums.
use crate::bits::{low_mask, mask_of};
use crate::error::{give_me_error, BitsError};
use crate::schema::{
    constructed, constructor_args_fit, decodes_as, encoded, enum_decode, enum_def, leaf_fits,
    lemma_node_facts, node_wf, open_count, raw_of, record_def, record_valid, slot_ref_ok,
    value_fits, FieldDef, Leaf, Node, Schema, TypeKind,
};
use crate::laws::{lemma_filled_enum_total, lemma_filled_record_valid};
use vstd::prelude::*;

verus! {

/// Record `r` and its field `i` exist.
pub open spec fn has_field(s: Schema, r: int, i: int) -> bool {
    &&& 0 <= r < s.nodes.len()
    &&& s.nodes@[r].kind is Record
    &&& 0 <= i < record_def(s.nodes@, r).fields.len()
}

/// Field `i` of record `r`.
pub open spec fn field(s: Schema, r: int, i: int) -> FieldDef {
    record_def(s.nodes@, r).fields@[i]
}

/// Field `i` of record `r` is an array: its element type and length.
pub open spec fn array_field(s: Schema, r: int, i: int) -> (usize, usize) {
    let k = s.nodes@[field(s, r, i).ty as int].kind;
    (k->Array_0, k->Array_1)
}

impl Schema {
    proof fn lemma_field_in_record(&self, r: int, i: int)
        requires
            self.wf(),
            has_field(*self, r, i),
        ensures
            field(*self, r, i).ty < r,
            field(*self, r, i).offset + self.width_of(field(*self, r, i).ty as int) <= self.width_of(r),
            self.width_of(r) <= 128,
            node_wf(self.nodes@, field(*self, r, i).ty as int),
    {
        lemma_node_facts(self.nodes@, r);
        lemma_node_facts(self.nodes@, field(*self, r, i).ty as int);
    }

    /// Reads field `i` of record `r` from its packed value.
    pub fn get_field(&self, r: usize, packed: u128, i: usize) -> (res: Result<Vec<Leaf>, BitsError>)
        requires
            self.wf(),
            has_field(*self, r as int, i as int),
        ensures
            decodes_as(
                self.nodes@,
                field(*self, r as int, i as int).ty as int,
                packed,
                field(*self, r as int, i as int).offset as int,
                res,
            ),
    {
        proof {
            self.lemma_field_in_record(r as int, i as int);
        }
        match &self.nodes[r].kind {
            TypeKind::Record(def) => {
                let f = def.fields[i];
                self.decode(f.ty, packed, f.offset)
            },
            _ => Err(give_me_error()),
        }
    }

    /// Writes field `i` of record `r`; a reserved field cannot be set.
    pub fn set_field(&self, r: usize, packed: u128, i: usize, value: &Vec<Leaf>) -> (res: u128)
        requires
            self.wf(),
            has_field(*self, r as int, i as int),
            !field(*self, r as int, i as int).reserved,
            value_fits(self.nodes@, field(*self, r as int, i as int).ty as int, value@),
        ensures
            res == encoded(
                self.nodes@,
                field(*self, r as int, i as int).ty as int,
                packed,
                field(*self, r as int, i as int).offset as int,
                value@,
                value@.len(),
            ),
    {
        proof {
            self.lemma_field_in_record(r as int, i as int);
        }
        match &self.nodes[r].kind {
            TypeKind::Record(def) => {
                let f = def.fields[i];
                self.encode(f.ty, packed, f.offset, value)
            },
            _ => packed,
        }
    }

    /// Builds record `r` from one value per field that is not reserved;
    /// reserved fields stay zero.
    pub fn new_record(&self, r: usize, values: &Vec<Vec<Leaf>>) -> (res: u128)
        requires
            self.wf(),
            r < self.nodes.len(),
            self.nodes@[r as int].kind is Record,
            constructor_args_fit(self.nodes@, record_def(self.nodes@, r as int).fields@, values@),
        ensures
            res == constructed(self.nodes@, record_def(self.nodes@, r as int).fields@, values@),
    {
        match &self.nodes[r].kind {
            TypeKind::Record(def) => self.construct(r, &def.fields, values),
            _ => 0,
        }
    }

    fn construct(&self, r: usize, fields: &Vec<FieldDef>, values: &Vec<Vec<Leaf>>) -> (res: u128)
        requires
            self.wf(),
            r < self.nodes.len(),
            self.nodes@[r as int].kind is Record,
            fields@ == record_def(self.nodes@, r as int).fields@,
            constructor_args_fit(self.nodes@, fields@, values@),
        ensures
            res == constructed(self.nodes@, fields@, values@),
    {
        let ghost nodes = self.nodes@;
        proof {
            lemma_node_facts(nodes, r as int);
        }
        let mut acc: u128 = 0;
        let mut j: usize = 0;
        let mut i: usize = 0;
        let n = values.len();
        proof {
            reveal(constructed);
            assert(fields@.subrange(0, 0) == Seq::<FieldDef>::empty());
        }
        while i < fields.len()
            invariant
                self.wf(),
                nodes == self.nodes@,
                r < nodes.len(),
                forall|i2: int| 0 <= i2 < fields.len() ==> #[trigger] fields@[i2].ty < r
                    && fields@[i2].offset + nodes[fields@[i2].ty as int].width <= 128,
                constructor_args_fit(nodes, fields@, values@),
                n == values@.len(),
                i <= fields.len(),
                j == open_count(fields@.subrange(0, i as int)),
                acc == constructed(nodes, fields@.subrange(0, i as int), values@),
            decreases fields.len() - i,
        {
            let f = fields[i];
            proof {
                lemma_constructor_step(nodes, fields@, values@, i as int);
                assert(f == fields@[i as int]);
                assert(!f.reserved ==> j < n);
            }
            if !f.reserved {
                acc = self.encode(f.ty, acc, f.offset, &values[j]);
                j = j + 1;
            }
            i = i + 1;
        }
        proof {
            assert(fields@.subrange(0, fields.len() as int) == fields@);
        }
        acc
    }

    /// Reads element `index` of array field `i` of record `r`.
    pub fn element_at(&self, r: usize, packed: u128, i: usize, index: usize) -> (res: Result<
        Vec<Leaf>,
        BitsError,
    >)
        requires
            self.wf(),
            has_field(*self, r as int, i as int),
            self.nodes@[field(*self, r as int, i as int).ty as int].kind is Array,
            index < array_field(*self, r as int, i as int).1,
        ensures
            decodes_as(
                self.nodes@,
                array_field(*self, r as int, i as int).0 as int,
                packed,
                field(*self, r as int, i as int).offset + index * self.width_of(
                    array_field(*self, r as int, i as int).0 as int,
                ),
                res,
            ),
    {
        proof {
            self.lemma_field_in_record(r as int, i as int);
        }
        let f = match &self.nodes[r].kind {
            TypeKind::Record(def) => def.fields[i],
            _ => {
                return Err(give_me_error());
            },
        };
        proof {
            lemma_node_facts(self.nodes@, f.ty as int);
        }
        match &self.nodes[f.ty].kind {
            TypeKind::Array(e, n) => {
                let ew = self.nodes[*e].width;
                assert(ew * index + ew <= ew * *n) by (nonlinear_arith)
                    requires
                        index < *n,
                ;
                assert(self.nodes@[f.ty as int].width == ew * *n);
                assert(ew * index <= 128);
                let eoff: u32 = if ew == 0 {
                    0
                } else {
                    assert(index <= 128) by (nonlinear_arith)
                        requires
                            ew >= 1,
                            ew * index <= 128,
                    ;
                    ew * (index as u32)
                };
                assert(eoff == index * ew) by (nonlinear_arith)
                    requires
                        ew == 0 ==> eoff == 0,
                        ew != 0 ==> eoff == ew * index,
                ;
                self.decode(*e, packed, f.offset + eoff)
            },
            _ => Err(give_me_error()),
        }
    }

    /// Writes element `index` of array field `i` of record `r`.
    pub fn set_element_at(&self, r: usize, packed: u128, i: usize, index: usize, value: &Vec<Leaf>) -> (res:
        u128)
        requires
            self.wf(),
            has_field(*self, r as int, i as int),
            !field(*self, r as int, i as int).reserved,
            self.nodes@[field(*self, r as int, i as int).ty as int].kind is Array,
            index < array_field(*self, r as int, i as int).1,
            value_fits(self.nodes@, array_field(*self, r as int, i as int).0 as int, value@),
        ensures
            res == encoded(
                self.nodes@,
                array_field(*self, r as int, i as int).0 as int,
                packed,
                field(*self, r as int, i as int).offset + index * self.width_of(
                    array_field(*self, r as int, i as int).0 as int,
                ),
                value@,
                value@.len(),
            ),
    {
        proof {
            self.lemma_field_in_record(r as int, i as int);
        }
        let f = match &self.nodes[r].kind {
            TypeKind::Record(def) => def.fields[i],
            _ => {
                return packed;
            },
        };
        proof {
            lemma_node_facts(self.nodes@, f.ty as int);
        }
        match &self.nodes[f.ty].kind {
            TypeKind::Array(e, n) => {
                let ew = self.nodes[*e].width;
                assert(ew * index + ew <= ew * *n) by (nonlinear_arith)
                    requires
                        index < *n,
                ;
                assert(self.nodes@[f.ty as int].width == ew * *n);
                assert(ew * index <= 128);
                let eoff: u32 = if ew == 0 {
                    0
                } else {
                    assert(index <= 128) by (nonlinear_arith)
                        requires
                            ew >= 1,
                            ew * index <= 128,
                    ;
                    ew * (index as u32)
                };
                assert(eoff == index * ew) by (nonlinear_arith)
                    requires
                        ew == 0 ==> eoff == 0,
                        ew != 0 ==> eoff == ew * index,
                ;
                self.encode(*e, packed, f.offset + eoff, value)
            },
            _ => packed,
        }
    }

    /// Checks a raw pattern of record `r`: every enum inside must hold a valid pattern.
    pub fn try_from_raw(&self, r: usize, raw: u128) -> (res: Result<u128, BitsError>)
        requires
            self.wf(),
            r < self.nodes.len(),
            self.nodes@[r as int].kind is Record,
            raw <= low_mask(self.width_of(r as int) as u128),
        ensures
            res == if record_valid(self.nodes@, r as int, raw) {
                Ok::<u128, BitsError>(raw)
            } else {
                Err::<u128, BitsError>(BitsError)
            },
    {
        if self.record_is_valid(r, raw) {
            Ok(raw)
        } else {
            Err(give_me_error())
        }
    }

    /// Decodes enum `e` from a raw pattern, failing where no variant matches.
    pub fn enum_try_from_raw(&self, e: usize, raw: u128) -> (res: Result<Leaf, BitsError>)
        requires
            self.wf(),
            e < self.nodes.len(),
            self.nodes@[e as int].kind is Enum,
        ensures
            match enum_decode(enum_def(self.nodes@, e as int), raw) {
                Some(l) => res == Ok::<Leaf, BitsError>(l),
                None => res == Err::<Leaf, BitsError>(BitsError),
            },
    {
        match self.enum_lookup(e, raw) {
            Some(l) => Ok(l),
            None => Err(give_me_error()),
        }
    }

    /// The raw pattern of a value of enum `e`.
    pub fn enum_to_raw(&self, e: usize, leaf: Leaf) -> (res: u128)
        requires
            self.wf(),
            e < self.nodes.len(),
            self.nodes@[e as int].kind is Enum,
            leaf_fits(self.nodes@, self.slots_of(e as int)[0], leaf),
        ensures
            res == raw_of(self.nodes@, self.slots_of(e as int)[0], leaf),
    {
        proof {
            lemma_node_facts(self.nodes@, e as int);
            assert(slot_ref_ok(self.nodes@, e + 1, self.slots_of(e as int)[0], self.nodes@[e as int].filled));
        }
        let sl = self.nodes[e].slots[0];
        self.encode_leaf(sl, leaf)
    }

    /// Decodes a filled enum from any pattern of its width: this cannot fail.
    pub fn enum_from_raw(&self, e: usize, raw: u128) -> (res: Leaf)
        requires
            self.wf(),
            e < self.nodes.len(),
            self.nodes@[e as int].kind is Enum,
            self.nodes@[e as int].filled,
            raw <= low_mask(self.width_of(e as int) as u128),
        ensures
            enum_decode(enum_def(self.nodes@, e as int), raw) == Some(res),
    {
        proof {
            lemma_filled_enum_total(*self, e as int, raw);
        }
        match self.enum_lookup(e, raw) {
            Some(l) => l,
            None => Leaf::Fallback(raw),
        }
    }

    /// Takes any pattern of a filled record's width as its packed value; every
    /// field of the result decodes.
    pub fn from_raw(&self, r: usize, raw: u128) -> (res: u128)
        requires
            self.wf(),
            r < self.nodes.len(),
            self.nodes@[r as int].kind is Record,
            self.nodes@[r as int].filled,
            raw <= low_mask(self.width_of(r as int) as u128),
        ensures
            res == raw,
            record_valid(self.nodes@, r as int, res),
    {
        proof {
            lemma_filled_record_valid(*self, r as int, raw);
        }
        raw
    }

    /// The number of registered types.
    pub fn len(&self) -> (n: usize)
        ensures
            n == self.nodes.len(),
    {
        self.nodes.len()
    }

    /// The bit width of type `t`.
    pub fn bit_width(&self, t: usize) -> (w: u32)
        requires
            t < self.nodes.len(),
        ensures
            w == self.width_of(t as int),
    {
        self.nodes[t].width
    }

    /// The largest pattern of type `t`'s width: all its bits set.
    pub fn max_value(&self, t: usize) -> (m: u128)
        requires
            t < self.nodes.len(),
        ensures
            m == low_mask(self.width_of(t as int) as u128),
    {
        mask_of(self.nodes[t].width)
    }

    /// Whether every pattern of type `t`'s width is a valid value.
    pub fn is_filled(&self, t: usize) -> (f: bool)
        requires
            t < self.nodes.len(),
        ensures
            f == self.nodes@[t as int].filled,
    {
        self.nodes[t].filled
    }

    /// The pattern of type `t`'s default value, if it has one.
    pub fn default_bits(&self, t: usize) -> (d: Option<u128>)
        requires
            t < self.nodes.len(),
        ensures
            d == self.nodes@[t as int].default_bits,
    {
        self.nodes[t].default_bits
    }

    /// Field `i` of record `r`, placed.
    pub fn field_at(&self, r: usize, i: usize) -> (f: FieldDef)
        requires
            has_field(*self, r as int, i as int),
        ensures
            f == field(*self, r as int, i as int),
    {
        match &self.nodes[r].kind {
            TypeKind::Record(def) => def.fields[i],
            _ => FieldDef { ty: 0, offset: 0, reserved: false },
        }
    }

    /// States, where it verifies, that type `t` is filled: a call is a check
    /// made once, when the caller is verified, not at run time.
    pub fn assume_filled(&self, t: usize)
        requires
            t < self.nodes.len(),
            self.nodes@[t as int].filled,
    {
    }
}

/// One step of the constructor: the value for field `i`, and the packed
/// value after it.
proof fn lemma_constructor_step(nodes: Seq<Node>, fields: Seq<FieldDef>, values: Seq<Vec<Leaf>>, i: int)
    requires
        0 <= i < fields.len(),
        constructor_args_fit(nodes, fields, values),
    ensures
        ({
            let j = open_count(fields.subrange(0, i));
            let f = fields[i];
            let prev = constructed(nodes, fields.subrange(0, i), values);
            &&& fields.subrange(0, i + 1).drop_last() == fields.subrange(0, i)
            &&& f.reserved ==> open_count(fields.subrange(0, i + 1)) == j
                && constructed(nodes, fields.subrange(0, i + 1), values) == prev
            &&& !f.reserved ==> {
                &&& j < values.len()
                &&& open_count(fields.subrange(0, i + 1)) == j + 1
                &&& value_fits(nodes, f.ty as int, values[j as int]@)
                &&& constructed(nodes, fields.subrange(0, i + 1), values) == encoded(
                    nodes,
                    f.ty as int,
                    prev,
                    f.offset as int,
                    values[j as int]@,
                    values[j as int]@.len(),
                )
            }
        }),
{
    reveal(constructed);
    reveal(constructor_args_fit);
    assert(fields.subrange(0, i + 1).drop_last() == fields.subrange(0, i));
    lemma_open_count_prefix(fields, i);
    lemma_open_count_mono(fields, i + 1);
}

pub proof fn lemma_open_count_mono(fields: Seq<FieldDef>, i: int)
    requires
        0 <= i <= fields.len(),
    ensures
        open_count(fields.subrange(0, i)) <= open_count(fields),
    decreases fields.len(),
{
    if i < fields.len() {
        let d = fields.drop_last();
        assert(fields.subrange(0, i) == d.subrange(0, i));
        lemma_open_count_mono(d, i);
    } else {
        assert(fields.subrange(0, i) == fields);
    }
}

pub proof fn lemma_open_count_prefix(fields: Seq<FieldDef>, i: int)
    requires
        0 <= i < fields.len(),
    ensures
        open_count(fields.subrange(0, i + 1)) == open_count(fields.subrange(0, i)) + if fields[i].reserved {
            0nat
        } else {
            1nat
        },
{
    assert(fields.subrange(0, i + 1).drop_last() == fields.subrange(0, i));
}

} // verus!
