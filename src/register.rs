//! Registering types: each new type is checked, flattened and analysed once.
use crate::bits::{low_mask, mask_of};
use crate::discriminant_assigner::{assign_all, assigned_values, max_discriminant};
use crate::fallback::{fallback_of, fallback_variant, Fallback, Payload, VariantSpec};
use crate::error::SchemaError;
use crate::schema::{
    array_default, array_slots, enum_def, enum_error, enum_wf, exhaustive, field_width_sum,
    first_range_error, has_duplicates, layout_error, lemma_node_facts, node_wf, non_unit_variant,
    planned, record_def, record_default, record_error, shift_slot, shift_slots, slot_ref_ok,
    slots_ok, spec_field_sum, tuple_default, tuple_slots, width_sum, EnumDef, FieldDef, FieldLayout,
    FieldSpec, Node, RecordDef, Schema, Slot, SlotKind, TypeKind,
};
use vstd::prelude::*;

verus! {

proof fn lemma_push_width_sum(nodes: Seq<Node>, x: Node, elems: Seq<usize>)
    requires
        forall|i: int| 0 <= i < elems.len() ==> #[trigger] elems[i] < nodes.len(),
    ensures
        width_sum(nodes.push(x), elems) == width_sum(nodes, elems),
        tuple_slots(nodes.push(x), elems) == tuple_slots(nodes, elems),
        tuple_default(nodes.push(x), elems) == tuple_default(nodes, elems),
    decreases elems.len(),
{
    if elems.len() > 0 {
        let d = elems.drop_last();
        assert forall|i: int| 0 <= i < d.len() implies #[trigger] d[i] < nodes.len() by {
            assert(d[i] == elems[i]);
        }
        lemma_push_width_sum(nodes, x, d);
    }
}

proof fn lemma_push_field_sum(nodes: Seq<Node>, x: Node, fields: Seq<FieldDef>)
    requires
        forall|i: int| 0 <= i < fields.len() ==> #[trigger] fields[i].ty < nodes.len(),
    ensures
        field_width_sum(nodes.push(x), fields) == field_width_sum(nodes, fields),
        record_default(nodes.push(x), fields) == record_default(nodes, fields),
    decreases fields.len(),
{
    if fields.len() > 0 {
        let d = fields.drop_last();
        assert forall|i: int| 0 <= i < d.len() implies #[trigger] d[i].ty < nodes.len() by {
            assert(d[i] == fields[i]);
        }
        lemma_push_field_sum(nodes, x, d);
    }
}

/// Registering a type leaves every earlier type well formed.
proof fn lemma_push_keeps_wf(nodes: Seq<Node>, x: Node, k: int)
    requires
        0 <= k < nodes.len(),
        node_wf(nodes, k),
    ensures
        node_wf(nodes.push(x), k),
{
    reveal(node_wf);
    let m = nodes.push(x);
    let n = nodes[k];
    assert(m[k] == n);
    assert forall|j: int| 0 <= j < n.slots@.len() implies slot_ref_ok(m, k + 1, #[trigger] n.slots@[j], n.filled) by {
        assert(slot_ref_ok(nodes, k + 1, n.slots@[j], n.filled));
    }
    match n.kind {
        TypeKind::Tuple(elems) => {
            assert forall|i: int| 0 <= i < elems@.len() implies #[trigger] elems@[i] < nodes.len() by {
                assert(elems@[i] < k);
            }
            lemma_push_width_sum(nodes, x, elems@);
            assert(m[k].width == width_sum(m, elems@));
            assert(m[k].slots@ == tuple_slots(m, elems@));
            assert(m[k].default_bits == tuple_default(m, elems@));
            let pm = forall|i: int| 0 <= i < elems.len() ==> #[trigger] m[elems@[i] as int].filled;
            let pn = forall|i: int| 0 <= i < elems.len() ==> #[trigger] nodes[elems@[i] as int].filled;
            if pm {
                assert forall|i: int| 0 <= i < elems.len() implies #[trigger] nodes[elems@[i] as int].filled by {
                    assert(elems@[i] < k);
                    assert(m[elems@[i] as int].filled);
                }
            }
            if pn {
                assert forall|i: int| 0 <= i < elems.len() implies #[trigger] m[elems@[i] as int].filled by {
                    assert(elems@[i] < k);
                    assert(nodes[elems@[i] as int].filled);
                }
            }
            assert(pm == pn);
        },
        TypeKind::Array(e, len) => {
            assert(m[e as int] == nodes[e as int]);
        },
        TypeKind::Record(def) => {
            let fields = def.fields@;
            assert forall|i: int| 0 <= i < fields.len() implies #[trigger] fields[i].ty < nodes.len() by {
                assert(fields[i].ty < k);
            }
            lemma_push_field_sum(nodes, x, fields);
            assert forall|i: int| 0 <= i < fields.len() implies #[trigger] fields[i].ty < k && fields[i].offset
                + m[fields[i].ty as int].width <= n.width by {
                assert(fields[i].ty < k);
            }
            if def.layout == crate::schema::FieldLayout::Auto {
                assert forall|i: int| 0 <= i < fields.len() implies #[trigger] fields[i].offset == field_width_sum(
                    m,
                    fields.subrange(0, i),
                ) by {
                    let s = fields.subrange(0, i);
                    assert forall|i2: int| 0 <= i2 < s.len() implies #[trigger] s[i2].ty < nodes.len() by {
                        assert(s[i2] == fields[i2]);
                        assert(fields[i2].ty < k);
                    }
                    lemma_push_field_sum(nodes, x, s);
                }
            }
            let pm = forall|i: int| 0 <= i < def.fields.len() ==> #[trigger] m[def.fields@[i].ty as int].filled;
            let pn = forall|i: int| 0 <= i < def.fields.len() ==> #[trigger] nodes[def.fields@[i].ty as int].filled;
            if pm {
                assert forall|i: int| 0 <= i < def.fields.len() implies #[trigger] nodes[def.fields@[i].ty as int].filled by {
                    assert(fields[i].ty < k);
                    assert(m[def.fields@[i].ty as int].filled);
                }
            }
            if pn {
                assert forall|i: int| 0 <= i < def.fields.len() implies #[trigger] m[def.fields@[i].ty as int].filled by {
                    assert(fields[i].ty < k);
                    assert(nodes[def.fields@[i].ty as int].filled);
                }
            }
            assert(pm == pn);
        },
        _ => {},
    }
}


proof fn lemma_width_sum_prefix(nodes: Seq<Node>, elems: Seq<usize>, i: int)
    requires
        0 <= i <= elems.len(),
    ensures
        width_sum(nodes, elems.subrange(0, i)) <= width_sum(nodes, elems),
    decreases elems.len(),
{
    if i < elems.len() {
        let d = elems.drop_last();
        assert(elems.subrange(0, i) == d.subrange(0, i));
        lemma_width_sum_prefix(nodes, d, i);
    } else {
        assert(elems.subrange(0, i) == elems);
    }
}

/// Slots that satisfy `slot_ref_ok` below `k` keep satisfying it once a node is pushed.
proof fn lemma_refs_after_push(nodes: Seq<Node>, x: Node, sls: Seq<Slot>, filled: bool)
    requires
        forall|a: int| 0 <= a < sls.len() ==> slot_ref_ok(nodes, nodes.len() as int, #[trigger] sls[a], filled),
    ensures
        forall|a: int| 0 <= a < sls.len() ==> slot_ref_ok(nodes.push(x), nodes.len() + 1int, #[trigger] sls[a], filled),
{
    assert forall|a: int| 0 <= a < sls.len() implies slot_ref_ok(nodes.push(x), nodes.len() + 1int, #[trigger] sls[a], filled) by {
        assert(slot_ref_ok(nodes, nodes.len() as int, sls[a], filled));
    }
}

/// The `[Slot]` of a leaf type's own single slot.
proof fn lemma_single_slot_ok(nodes: Seq<Node>, x: Node, sl: Slot)
    requires
        sl.offset == 0,
        x.slots@ == seq![sl],
        slot_ref_ok(nodes.push(x), nodes.len() + 1int, sl, x.filled),
        sl.width == x.width,
    ensures
        slots_ok(nodes.push(x), nodes.len() + 1int, x.slots@, x.width as nat, x.filled),
{
    assert(x.slots@[0] == sl);
}

proof fn lemma_spec_sum_prefix(nodes: Seq<Node>, fields: Seq<FieldSpec>, i: int)
    requires
        0 <= i <= fields.len(),
    ensures
        spec_field_sum(nodes, fields.subrange(0, i)) <= spec_field_sum(nodes, fields),
    decreases fields.len(),
{
    if i < fields.len() {
        let d = fields.drop_last();
        assert(fields.subrange(0, i) == d.subrange(0, i));
        lemma_spec_sum_prefix(nodes, d, i);
    } else {
        assert(fields.subrange(0, i) == fields);
    }
}

/// The first wrong range of a prefix is the first of the whole list.
proof fn lemma_range_error_prefix(nodes: Seq<Node>, fields: Seq<FieldSpec>, width: nat, i: int)
    requires
        0 <= i <= fields.len(),
        first_range_error(nodes, fields.subrange(0, i), width) is Some,
    ensures
        first_range_error(nodes, fields, width) == first_range_error(
            nodes,
            fields.subrange(0, i),
            width,
        ),
    decreases fields.len(),
{
    if i < fields.len() {
        let d = fields.drop_last();
        assert(fields.subrange(0, i) == d.subrange(0, i));
        lemma_range_error_prefix(nodes, d, width, i);
    } else {
        assert(fields.subrange(0, i) == fields);
    }
}

proof fn lemma_assigned_fit(vs: Seq<VariantSpec>, bitsize: u8)
    requires
        assigned_values(vs, bitsize) is Some,
    ensures
        assigned_values(vs, bitsize)->Some_0.len() == vs.len(),
        forall|i: int|
            0 <= i < vs.len() ==> #[trigger] assigned_values(vs, bitsize)->Some_0[i] <= max_discriminant(
                bitsize,
            ),
    decreases vs.len(),
{
    if vs.len() > 0 {
        lemma_assigned_fit(vs.drop_last(), bitsize);
    }
}

/// Whether `count` variants use every pattern of `bitsize` bits; more
/// variants than patterns is an error.
pub fn enum_fills_bitsize(bitsize: u32, count: usize) -> (r: Result<bool, SchemaError>)
    requires
        bitsize <= 64,
    ensures
        count > low_mask(bitsize as u128) + 1 ==> r == Err::<bool, SchemaError>(SchemaError::TooManyVariants),
        count <= low_mask(bitsize as u128) + 1 ==> r == Ok::<bool, SchemaError>(exhaustive(count as nat, bitsize)),
{
    let m = mask_of(bitsize);
    proof {
        let w = bitsize as u128;
        assert(w <= 64 ==> !(u128::MAX << w) <= 0xffff_ffff_ffff_ffffu128) by (bit_vector);
    }
    if count as u128 > m + 1 {
        Err(SchemaError::TooManyVariants)
    } else {
        Ok(count as u128 == m + 1)
    }
}

/// Whether a variant other than the one at `skip` carries a payload.
fn any_payload_besides(variants: &Vec<VariantSpec>, skip: usize) -> (r: bool)
    ensures
        r == exists|i: int| 0 <= i < variants.len() && i != skip && #[trigger] variants@[i].payload != Payload::Unit,
{
    let mut i: usize = 0;
    while i < variants.len()
        invariant
            i <= variants.len(),
            forall|i2: int| 0 <= i2 < i && i2 != skip ==> #[trigger] variants@[i2].payload == Payload::Unit,
        decreases variants.len() - i,
    {
        if i != skip && variants[i].payload != Payload::Unit {
            assert(variants@[i as int].payload != Payload::Unit);
            return true;
        }
        i = i + 1;
    }
    false
}

/// Whether two entries are equal.
fn has_duplicate(values: &Vec<u128>) -> (r: bool)
    ensures
        r == has_duplicates(values@),
{
    let mut a: usize = 0;
    while a < values.len()
        invariant
            a <= values.len(),
            forall|i2: int, j2: int|
                0 <= i2 < a && 0 <= j2 < values.len() && i2 != j2 ==> #[trigger] values@[i2]
                    != #[trigger] values@[j2],
        decreases values.len() - a,
    {
        let mut b: usize = 0;
        while b < values.len()
            invariant
                a < values.len(),
                b <= values.len(),
                forall|i2: int, j2: int|
                    0 <= i2 < a && 0 <= j2 < values.len() && i2 != j2 ==> #[trigger] values@[i2]
                        != #[trigger] values@[j2],
                forall|j2: int| 0 <= j2 < b && a != j2 ==> values@[a as int] != #[trigger] values@[j2],
            decreases values.len() - b,
        {
            if a != b && values[a] == values[b] {
                assert(values@[a as int] == values@[b as int]);
                return true;
            }
            b = b + 1;
        }
        a = a + 1;
    }
    false
}

impl Schema {
    /// A schema without types.
    pub fn new() -> (r: Schema)
        ensures
            r.wf(),
            r.nodes.len() == 0,
    {
        Schema { nodes: Vec::new() }
    }

    /// Appends a node that is well formed at the end.
    fn push_node(&mut self, x: Node) -> (k: usize)
        requires
            old(self).wf(),
            node_wf(old(self).nodes@.push(x), old(self).nodes.len() as int),
        ensures
            final(self).wf(),
            k == old(self).nodes.len(),
            final(self).nodes@ == old(self).nodes@.push(x),
    {
        let ghost before = self.nodes@;
        let k = self.nodes.len();
        self.nodes.push(x);
        proof {
            assert forall|i: int| 0 <= i < self.nodes.len() implies #[trigger] node_wf(self.nodes@, i) by {
                if i < k {
                    lemma_push_keeps_wf(before, x, i);
                }
            }
        }
        k
    }

    /// Registers an unsigned scalar of `w` bits.
    pub fn add_unsigned(&mut self, w: u32) -> (r: Result<usize, SchemaError>)
        requires
            old(self).wf(),
        ensures
            final(self).wf(),
            !(1 <= w <= 128) ==> r == Err::<usize, SchemaError>(SchemaError::InvalidWidth)
                && final(self).nodes@ == old(self).nodes@,
            1 <= w <= 128 ==> r == Ok::<usize, SchemaError>(old(self).nodes.len())
                && final(self).nodes.len() == old(self).nodes.len() + 1
                && final(self).nodes@.subrange(0, old(self).nodes.len() as int) == old(self).nodes@
                && final(self).nodes@.last().kind == TypeKind::Unsigned(w),
    {
        if w == 0 || w > 128 {
            return Err(SchemaError::InvalidWidth);
        }
        let x = Node {
            kind: TypeKind::Unsigned(w),
            width: w,
            slots: vec![Slot { kind: SlotKind::Unsigned, offset: 0, width: w }],
            filled: true,
            default_bits: Some(0),
        };
        let ghost m = self.nodes@.push(x);
        assert(m[self.nodes.len() as int] == x);
        assert(x.slots@ == seq![Slot { kind: SlotKind::Unsigned, offset: 0, width: w }]);
        assert(slot_ref_ok(m, self.nodes.len() + 1int, x.slots@[0], true));
        assert(slots_ok(m, self.nodes.len() + 1int, x.slots@, w as nat, true));
        proof {
            reveal(node_wf);
        }
        let k = self.push_node(x);
        assert(self.nodes@.subrange(0, k as int) == old(self).nodes@);
        Ok(k)
    }

    /// Registers `bool`, one bit.
    pub fn add_bool(&mut self) -> (r: usize)
        requires
            old(self).wf(),
        ensures
            final(self).wf(),
            r == old(self).nodes.len(),
            final(self).nodes.len() == old(self).nodes.len() + 1,
            final(self).nodes@.subrange(0, r as int) == old(self).nodes@,
            final(self).nodes@.last().kind == TypeKind::Bool,
    {
        let x = Node {
            kind: TypeKind::Bool,
            width: 1,
            slots: vec![Slot { kind: SlotKind::Bool, offset: 0, width: 1 }],
            filled: true,
            default_bits: Some(0),
        };
        let ghost m = self.nodes@.push(x);
        assert(m[self.nodes.len() as int] == x);
        assert(x.slots@ == seq![Slot { kind: SlotKind::Bool, offset: 0, width: 1 }]);
        proof {
            lemma_single_slot_ok(self.nodes@, x, x.slots@[0]);
        }
        proof {
            reveal(node_wf);
        }
        let k = self.push_node(x);
        assert(self.nodes@.subrange(0, k as int) == old(self).nodes@);
        k
    }

    /// Registers a signed scalar of `w` bits, two's complement.
    pub fn add_signed(&mut self, w: u32) -> (r: Result<usize, SchemaError>)
        requires
            old(self).wf(),
        ensures
            final(self).wf(),
            !(1 <= w <= 128) ==> r == Err::<usize, SchemaError>(SchemaError::InvalidWidth)
                && final(self).nodes@ == old(self).nodes@,
            1 <= w <= 128 ==> r == Ok::<usize, SchemaError>(old(self).nodes.len())
                && final(self).nodes.len() == old(self).nodes.len() + 1
                && final(self).nodes@.subrange(0, old(self).nodes.len() as int) == old(self).nodes@
                && final(self).nodes@.last().kind == TypeKind::Signed(w),
    {
        if w == 0 || w > 128 {
            return Err(SchemaError::InvalidWidth);
        }
        let x = Node {
            kind: TypeKind::Signed(w),
            width: w,
            slots: vec![Slot { kind: SlotKind::Signed, offset: 0, width: w }],
            filled: true,
            default_bits: Some(0),
        };
        let ghost m = self.nodes@.push(x);
        assert(m[self.nodes.len() as int] == x);
        assert(x.slots@ == seq![Slot { kind: SlotKind::Signed, offset: 0, width: w }]);
        proof {
            lemma_single_slot_ok(self.nodes@, x, x.slots@[0]);
        }
        proof {
            reveal(node_wf);
        }
        let k = self.push_node(x);
        assert(self.nodes@.subrange(0, k as int) == old(self).nodes@);
        Ok(k)
    }

    /// Registers a tuple of the given element types, least significant first.
    pub fn add_tuple(&mut self, elems: Vec<usize>) -> (r: Result<usize, SchemaError>)
        requires
            old(self).wf(),
        ensures
            final(self).wf(),
            (exists|i: int| 0 <= i < elems.len() && #[trigger] elems@[i] >= old(self).nodes.len())
                ==> r == Err::<usize, SchemaError>(SchemaError::UnknownType) && final(self).nodes@
                == old(self).nodes@,
            (forall|i: int| 0 <= i < elems.len() ==> #[trigger] elems@[i] < old(self).nodes.len())
                && width_sum(old(self).nodes@, elems@) > 128 ==> r == Err::<usize, SchemaError>(
                SchemaError::TooWide,
            ) && final(self).nodes@ == old(self).nodes@,
            (forall|i: int| 0 <= i < elems.len() ==> #[trigger] elems@[i] < old(self).nodes.len())
                && width_sum(old(self).nodes@, elems@) <= 128 ==> r == Ok::<usize, SchemaError>(
                old(self).nodes.len(),
            )
                && final(self).nodes.len() == old(self).nodes.len() + 1
                && final(self).nodes@.subrange(0, old(self).nodes.len() as int) == old(self).nodes@
                && final(self).nodes@.last().kind == TypeKind::Tuple(elems),
    {
        let ghost nodes = self.nodes@;
        let k = self.nodes.len();
        let mut i: usize = 0;
        while i < elems.len()
            invariant
                self.wf(),
                i <= elems.len(),
                k == nodes.len(),
                nodes == self.nodes@,
                forall|i2: int| 0 <= i2 < i ==> #[trigger] elems@[i2] < k,
            decreases elems.len() - i,
        {
            if elems[i] >= k {
                return Err(SchemaError::UnknownType);
            }
            i = i + 1;
        }
        let mut total: u32 = 0;
        i = 0;
        while i < elems.len()
            invariant
                self.wf(),
                i <= elems.len(),
                k == nodes.len(),
                nodes == self.nodes@,
                forall|i2: int| 0 <= i2 < elems.len() ==> #[trigger] elems@[i2] < k,
                total == width_sum(nodes, elems@.subrange(0, i as int)),
                total <= 128,
            decreases elems.len() - i,
        {
            let c = elems[i];
            proof {
                lemma_node_facts(nodes, c as int);
                assert(elems@.subrange(0, i + 1).drop_last() == elems@.subrange(0, i as int));
            }
            let w = self.nodes[c].width;
            if total + w > 128 {
                proof {
                    lemma_width_sum_prefix(nodes, elems@, i + 1);
                }
                return Err(SchemaError::TooWide);
            }
            total = total + w;
            i = i + 1;
        }
        assert(elems@.subrange(0, elems.len() as int) == elems@);
        let mut slots: Vec<Slot> = Vec::new();
        let mut default: Option<u128> = Some(0);
        let mut filled = true;
        let mut base: u32 = 0;
        i = 0;
        while i < elems.len()
            invariant
                self.wf(),
                i <= elems.len(),
                k == nodes.len(),
                nodes == self.nodes@,
                forall|i2: int| 0 <= i2 < elems.len() ==> #[trigger] elems@[i2] < k,
                total == width_sum(nodes, elems@),
                total <= 128,
                base == width_sum(nodes, elems@.subrange(0, i as int)),
                base <= total,
                slots@ == tuple_slots(nodes, elems@.subrange(0, i as int)),
                default == tuple_default(nodes, elems@.subrange(0, i as int)),
                filled == forall|i2: int| 0 <= i2 < i ==> #[trigger] nodes[elems@[i2] as int].filled,
                forall|a: int| 0 <= a < slots.len() ==> #[trigger] slots@[a].offset + slots@[a].width <= base,
                forall|a: int, b: int|
                    0 <= a < b < slots.len() ==> #[trigger] slots@[a].offset + slots@[a].width
                        <= #[trigger] slots@[b].offset,
                forall|a: int| 0 <= a < slots.len() ==> slot_ref_ok(nodes, k as int, #[trigger] slots@[a], filled),
            decreases elems.len() - i,
        {
            let c = elems[i];
            let cw = self.nodes[c].width;
            proof {
                lemma_node_facts(nodes, c as int);
                lemma_width_sum_prefix(nodes, elems@, i + 1);
                assert(elems@.subrange(0, i + 1).drop_last() == elems@.subrange(0, i as int));
            }
            let ghost before = slots@;
            let ghost child = nodes[c as int].slots@;
            let mut j: usize = 0;
            while j < self.nodes[c].slots.len()
                invariant
                    self.wf(),
                    nodes == self.nodes@,
                    c < k,
                    k == nodes.len(),
                    node_wf(nodes, c as int),
                    child == nodes[c as int].slots@,
                    cw == nodes[c as int].width,
                    base + cw <= 128,
                    j <= child.len(),
                    slots@ == before + shift_slots(child.subrange(0, j as int), base as int),
                    forall|a: int| 0 <= a < before.len() ==> #[trigger] before[a].offset + before[a].width <= base,
                    forall|a: int| 0 <= a < slots.len() ==> #[trigger] slots@[a].offset + slots@[a].width <= base + cw,
                    forall|a: int, b: int|
                        0 <= a < b < slots.len() ==> #[trigger] slots@[a].offset + slots@[a].width
                            <= #[trigger] slots@[b].offset,
                    forall|a: int| 0 <= a < slots.len() ==> slot_ref_ok(nodes, k as int, #[trigger] slots@[a], filled && nodes[c as int].filled),
                decreases child.len() - j,
            {
                let sl = self.nodes[c].slots[j];
                proof {
                    lemma_node_facts(nodes, c as int);
                    assert(slot_ref_ok(nodes, c + 1, sl, nodes[c as int].filled));
                    assert forall|a: int| 0 <= a < slots.len() implies #[trigger] slots@[a].offset + slots@[a].width <= base + sl.offset by {
                        if a >= before.len() {
                            let j2 = a - before.len();
                            assert(slots@[a] == shift_slot(child[j2], base as int));
                            assert(child[j2].offset + child[j2].width <= child[j as int].offset);
                        }
                    }
                }
                let ghost old_slots = slots@;
                slots.push(Slot { kind: sl.kind, offset: sl.offset + base, width: sl.width });
                proof {
                    assert(child.subrange(0, j + 1) == child.subrange(0, j as int).push(sl));
                    assert(shift_slots(child.subrange(0, j + 1), base as int) == shift_slots(child.subrange(0, j as int), base as int).push(shift_slot(sl, base as int)));
                    assert(slots@ == old_slots.push(shift_slot(sl, base as int)));
                }
                j = j + 1;
            }
            proof {
                assert(child.subrange(0, child.len() as int) == child);
            }
            default = match (default, self.nodes[c].default_bits) {
                (Some(acc), Some(d)) => Some(
                    if base >= 128 {
                        acc
                    } else {
                        acc | (d << (base as u128))
                    },
                ),
                _ => None,
            };
            filled = filled && self.nodes[c].filled;
            base = base + cw;
            i = i + 1;
        }
        let x = Node { kind: TypeKind::Tuple(elems), width: total, slots, filled, default_bits: default };
        proof {
            let m = nodes.push(x);
            let el = x.kind->Tuple_0@;
            assert(m[k as int] == x);
            lemma_push_width_sum(nodes, x, el);
            lemma_refs_after_push(nodes, x, x.slots@, filled);
            let pm = forall|i2: int| 0 <= i2 < el.len() ==> #[trigger] m[el[i2] as int].filled;
            if pm {
                assert forall|i2: int| 0 <= i2 < el.len() implies #[trigger] nodes[el[i2] as int].filled by {
                    assert(m[el[i2] as int].filled);
                }
            }
            if filled {
                assert forall|i2: int| 0 <= i2 < el.len() implies #[trigger] m[el[i2] as int].filled by {
                    assert(nodes[el[i2] as int].filled);
                }
            }
            reveal(node_wf);
            lemma_node_facts(m, k as int);
        }
        let r = self.push_node(x);
        assert(self.nodes@.subrange(0, r as int) == old(self).nodes@);
        Ok(r)
    }

    /// Registers an array of `len` elements of type `elem`; element `i` sits
    /// `i` element widths above bit 0.
    pub fn add_array(&mut self, elem: usize, len: usize) -> (r: Result<usize, SchemaError>)
        requires
            old(self).wf(),
        ensures
            final(self).wf(),
            elem >= old(self).nodes.len() ==> r == Err::<usize, SchemaError>(SchemaError::UnknownType)
                && final(self).nodes@ == old(self).nodes@,
            elem < old(self).nodes.len() && old(self).width_of(elem as int) * len > 128 ==> r == Err::<
                usize,
                SchemaError,
            >(SchemaError::TooWide) && final(self).nodes@ == old(self).nodes@,
            elem < old(self).nodes.len() && old(self).width_of(elem as int) * len <= 128 ==> r == Ok::<
                usize,
                SchemaError,
            >(old(self).nodes.len())
                && final(self).nodes.len() == old(self).nodes.len() + 1
                && final(self).nodes@.subrange(0, old(self).nodes.len() as int) == old(self).nodes@
                && final(self).nodes@.last().kind == TypeKind::Array(elem, len),
    {
        let ghost nodes = self.nodes@;
        let k = self.nodes.len();
        if elem >= k {
            return Err(SchemaError::UnknownType);
        }
        proof {
            lemma_node_facts(nodes, elem as int);
        }
        let cw = self.nodes[elem].width;
        if cw > 0 && len > (128 / cw) as usize {
            assert(cw * len > 128) by (nonlinear_arith)
                requires
                    cw > 0,
                    len > 128u32 / cw,
            ;
            return Err(SchemaError::TooWide);
        }
        let total: u32 = if cw == 0 {
            0
        } else {
            assert(cw * len <= 128) by (nonlinear_arith)
                requires
                    cw > 0,
                    len <= 128u32 / cw,
            ;
            cw * (len as u32)
        };
        assert(total == cw * len);
        let ghost child = nodes[elem as int].slots@;
        let ghost cf = nodes[elem as int].filled;
        let mut slots: Vec<Slot> = Vec::new();
        let mut default: Option<u128> = Some(0);
        let mut base: u32 = 0;
        let mut i: usize = 0;
        while i < len
            invariant
                self.wf(),
                i <= len,
                k == nodes.len(),
                nodes == self.nodes@,
                elem < k,
                node_wf(nodes, elem as int),
                child == nodes[elem as int].slots@,
                cf == nodes[elem as int].filled,
                cw == nodes[elem as int].width,
                total == cw * len,
                total <= 128,
                base == cw * i,
                slots@ == array_slots(nodes[elem as int], i as nat),
                default == array_default(nodes[elem as int], i as nat),
                forall|a: int| 0 <= a < slots.len() ==> #[trigger] slots@[a].offset + slots@[a].width <= base,
                forall|a: int, b: int|
                    0 <= a < b < slots.len() ==> #[trigger] slots@[a].offset + slots@[a].width
                        <= #[trigger] slots@[b].offset,
                forall|a: int| 0 <= a < slots.len() ==> slot_ref_ok(nodes, k as int, #[trigger] slots@[a], cf),
            decreases len - i,
        {
            assert(base + cw <= total) by (nonlinear_arith)
                requires
                    base == cw * i,
                    total == cw * len,
                    i < len,
            ;
            let ghost before = slots@;
            let mut j: usize = 0;
            while j < self.nodes[elem].slots.len()
                invariant
                    self.wf(),
                    nodes == self.nodes@,
                    elem < k,
                    k == nodes.len(),
                    node_wf(nodes, elem as int),
                    child == nodes[elem as int].slots@,
                    cf == nodes[elem as int].filled,
                    cw == nodes[elem as int].width,
                    base + cw <= 128,
                    j <= child.len(),
                    slots@ == before + shift_slots(child.subrange(0, j as int), base as int),
                    forall|a: int| 0 <= a < before.len() ==> #[trigger] before[a].offset + before[a].width <= base,
                    forall|a: int| 0 <= a < slots.len() ==> #[trigger] slots@[a].offset + slots@[a].width <= base + cw,
                    forall|a: int, b: int|
                        0 <= a < b < slots.len() ==> #[trigger] slots@[a].offset + slots@[a].width
                            <= #[trigger] slots@[b].offset,
                    forall|a: int| 0 <= a < slots.len() ==> slot_ref_ok(nodes, k as int, #[trigger] slots@[a], cf),
                decreases child.len() - j,
            {
                let sl = self.nodes[elem].slots[j];
                proof {
                    lemma_node_facts(nodes, elem as int);
                    assert(slot_ref_ok(nodes, elem + 1, sl, cf));
                    assert forall|a: int| 0 <= a < slots.len() implies #[trigger] slots@[a].offset + slots@[a].width <= base + sl.offset by {
                        if a >= before.len() {
                            let j2 = a - before.len();
                            assert(slots@[a] == shift_slot(child[j2], base as int));
                            assert(child[j2].offset + child[j2].width <= child[j as int].offset);
                        }
                    }
                }
                let ghost old_slots = slots@;
                slots.push(Slot { kind: sl.kind, offset: sl.offset + base, width: sl.width });
                proof {
                    assert(child.subrange(0, j + 1) == child.subrange(0, j as int).push(sl));
                    assert(shift_slots(child.subrange(0, j + 1), base as int) == shift_slots(child.subrange(0, j as int), base as int).push(shift_slot(sl, base as int)));
                    assert(slots@ == old_slots.push(shift_slot(sl, base as int)));
                }
                j = j + 1;
            }
            proof {
                assert(child.subrange(0, child.len() as int) == child);
                assert(base == (i + 1 - 1) * cw) by (nonlinear_arith)
                    requires
                        base == cw * i,
                ;
            }
            default = match (default, self.nodes[elem].default_bits) {
                (Some(acc), Some(d)) => Some(
                    if base >= 128 {
                        acc
                    } else {
                        acc | (d << (base as u128))
                    },
                ),
                _ => None,
            };
            base = base + cw;
            assert(base == cw * (i + 1)) by (nonlinear_arith)
                requires
                    base == cw * i + cw,
            ;
            i = i + 1;
        }
        let x = Node {
            kind: TypeKind::Array(elem, len),
            width: total,
            slots,
            filled: self.nodes[elem].filled,
            default_bits: default,
        };
        proof {
            let m = nodes.push(x);
            assert(m[k as int] == x);
            assert(m[elem as int] == nodes[elem as int]);
            lemma_refs_after_push(nodes, x, x.slots@, cf);
            reveal(node_wf);
            lemma_node_facts(m, k as int);
        }
        let r = self.push_node(x);
        assert(self.nodes@.subrange(0, r as int) == old(self).nodes@);
        Ok(r)
    }

    /// Whether every field's type is registered.
    fn types_known(&self, fields: &Vec<FieldSpec>) -> (r: bool)
        ensures
            r == forall|i: int| 0 <= i < fields.len() ==> #[trigger] fields@[i].ty < self.nodes.len(),
    {
        let mut i: usize = 0;
        while i < fields.len()
            invariant
                i <= fields.len(),
                forall|i2: int| 0 <= i2 < i ==> #[trigger] fields@[i2].ty < self.nodes.len(),
            decreases fields.len() - i,
        {
            if fields[i].ty >= self.nodes.len() {
                assert(fields@[i as int].ty >= self.nodes.len());
                return false;
            }
            i = i + 1;
        }
        true
    }

    /// Auto layout: each field starts where the previous one ends; the
    /// widths must add up to `width`.
    fn plan_auto(&self, fields: &Vec<FieldSpec>, width: u32) -> (r: Result<Vec<FieldDef>, SchemaError>)
        requires
            self.wf(),
            1 <= width <= 128,
            forall|i: int| 0 <= i < fields.len() ==> #[trigger] fields@[i].ty < self.nodes.len(),
        ensures
            match layout_error(self.nodes@, fields@, width as nat, FieldLayout::Auto) {
                Some(e) => r == Err::<Vec<FieldDef>, SchemaError>(e),
                None => r is Ok && planned(self.nodes@, fields@, FieldLayout::Auto, width as nat, r->Ok_0@),
            },
    {
        let ghost nodes = self.nodes@;
        let k = self.nodes.len();
        let mut i: usize = 0;
        while i < fields.len()
            invariant
                i <= fields.len(),
                forall|i2: int| 0 <= i2 < i ==> #[trigger] fields@[i2].range is None,
            decreases fields.len() - i,
        {
            if fields[i].range.is_some() {
                assert(fields@[i as int].range is Some);
                return Err(SchemaError::RangeInAutoLayout);
            }
            i = i + 1;
        }
        let mut defs: Vec<FieldDef> = Vec::new();
        let mut total: u32 = 0;
        i = 0;
        while i < fields.len()
            invariant
                self.wf(),
                i <= fields.len(),
                k == nodes.len(),
                nodes == self.nodes@,
                forall|i2: int| 0 <= i2 < fields.len() ==> #[trigger] fields@[i2].ty < k,
                forall|i2: int| 0 <= i2 < fields.len() ==> #[trigger] fields@[i2].range is None,
                1 <= width <= 128,
                total == spec_field_sum(nodes, fields@.subrange(0, i as int)),
                total == field_width_sum(nodes, defs@),
                total <= 128,
                defs@.len() == i,
                forall|i2: int|
                    0 <= i2 < i ==> #[trigger] defs@[i2] == (FieldDef {
                        ty: fields@[i2].ty,
                        offset: spec_field_sum(nodes, fields@.subrange(0, i2)) as u32,
                        reserved: fields@[i2].reserved,
                    }),
                forall|i2: int|
                    0 <= i2 < i ==> #[trigger] defs@[i2].offset == field_width_sum(
                        nodes,
                        defs@.subrange(0, i2),
                    ),
                forall|i2: int|
                    0 <= i2 < i ==> #[trigger] defs@[i2].offset + nodes[defs@[i2].ty as int].width
                        <= total,
            decreases fields.len() - i,
        {
            let f = fields[i];
            proof {
                lemma_node_facts(nodes, f.ty as int);
                assert(fields@.subrange(0, i + 1).drop_last() == fields@.subrange(0, i as int));
            }
            let w = self.nodes[f.ty].width;
            if total + w > 128 {
                proof {
                    lemma_spec_sum_prefix(nodes, fields@, i + 1);
                    assert(fields@.subrange(0, i + 1).last() == f);
                    assert(spec_field_sum(nodes, fields@.subrange(0, i + 1)) == total + w);
                    assert(!(exists|i2: int| 0 <= i2 < fields.len() && #[trigger] fields@[i2].range is Some));
                }
                return Err(SchemaError::SizeMismatch);
            }
            let ghost old_defs = defs@;
            defs.push(FieldDef { ty: f.ty, offset: total, reserved: f.reserved });
            proof {
                assert(defs@.drop_last() == old_defs);
                assert forall|i2: int| 0 <= i2 < i implies #[trigger] defs@[i2].offset == field_width_sum(
                    nodes,
                    defs@.subrange(0, i2),
                ) by {
                    assert(defs@.subrange(0, i2) == old_defs.subrange(0, i2));
                }
                assert(defs@.subrange(0, i as int) == old_defs);
            }
            total = total + w;
            i = i + 1;
        }
        assert(fields@.subrange(0, fields.len() as int) == fields@);
        if total != width {
            return Err(SchemaError::SizeMismatch);
        }
        Ok(defs)
    }

    /// Manual layout: each field at its explicit range, checked in order.
    fn plan_manual(&self, fields: &Vec<FieldSpec>, width: u32) -> (r: Result<Vec<FieldDef>, SchemaError>)
        requires
            self.wf(),
            1 <= width <= 128,
            forall|i: int| 0 <= i < fields.len() ==> #[trigger] fields@[i].ty < self.nodes.len(),
        ensures
            match layout_error(self.nodes@, fields@, width as nat, FieldLayout::Manual) {
                Some(e) => r == Err::<Vec<FieldDef>, SchemaError>(e),
                None => r is Ok && planned(self.nodes@, fields@, FieldLayout::Manual, width as nat, r->Ok_0@),
            },
    {
        let ghost nodes = self.nodes@;
        let k = self.nodes.len();
        let mut defs: Vec<FieldDef> = Vec::new();
        let mut i: usize = 0;
        while i < fields.len()
            invariant
                self.wf(),
                i <= fields.len(),
                k == nodes.len(),
                nodes == self.nodes@,
                1 <= width <= 128,
                forall|i2: int| 0 <= i2 < fields.len() ==> #[trigger] fields@[i2].ty < k,
                first_range_error(nodes, fields@.subrange(0, i as int), width as nat) is None,
                defs@.len() == i,
                forall|i2: int|
                    0 <= i2 < i ==> #[trigger] defs@[i2] == (FieldDef {
                        ty: fields@[i2].ty,
                        offset: fields@[i2].range->Some_0.start_bit as u32,
                        reserved: fields@[i2].reserved,
                    }),
                forall|i2: int|
                    0 <= i2 < i ==> #[trigger] defs@[i2].offset + nodes[defs@[i2].ty as int].width
                        <= width,
            decreases fields.len() - i,
        {
            let f = fields[i];
            proof {
                lemma_node_facts(nodes, f.ty as int);
                assert(fields@.subrange(0, i + 1).drop_last() == fields@.subrange(0, i as int));
            }
            match f.range {
                None => {
                    proof {
                        lemma_range_error_prefix(nodes, fields@, width as nat, i + 1);
                    }
                    return Err(SchemaError::MissingRange);
                },
                Some(range) => {
                    if range.start_bit > width as usize || range.bit_size > width as usize
                        - range.start_bit {
                        proof {
                            lemma_range_error_prefix(nodes, fields@, width as nat, i + 1);
                        }
                        return Err(SchemaError::RangeExceedsWidth);
                    }
                    if range.bit_size != self.nodes[f.ty].width as usize {
                        proof {
                            lemma_range_error_prefix(nodes, fields@, width as nat, i + 1);
                        }
                        return Err(SchemaError::SizeMismatch);
                    }
                    defs.push(
                        FieldDef { ty: f.ty, offset: range.start_bit as u32, reserved: f.reserved },
                    );
                },
            }
            i = i + 1;
        }
        assert(fields@.subrange(0, fields.len() as int) == fields@);
        Ok(defs)
    }

    /// The offset table of a record: one placed field per declared field.
    pub fn plan_layout(&self, fields: &Vec<FieldSpec>, width: u32, layout: FieldLayout) -> (r: Result<
        Vec<FieldDef>,
        SchemaError,
    >)
        requires
            self.wf(),
            1 <= width <= 128,
            forall|i: int| 0 <= i < fields.len() ==> #[trigger] fields@[i].ty < self.nodes.len(),
        ensures
            match layout_error(self.nodes@, fields@, width as nat, layout) {
                Some(e) => r == Err::<Vec<FieldDef>, SchemaError>(e),
                None => r is Ok && planned(self.nodes@, fields@, layout, width as nat, r->Ok_0@),
            },
    {
        match layout {
            FieldLayout::Auto => self.plan_auto(fields, width),
            FieldLayout::Manual => self.plan_manual(fields, width),
        }
    }

    /// Whether every field's type is filled.
    fn fields_filled(&self, fields: &Vec<FieldSpec>) -> (r: bool)
        requires
            forall|i: int| 0 <= i < fields.len() ==> #[trigger] fields@[i].ty < self.nodes.len(),
        ensures
            r == forall|i: int| 0 <= i < fields.len() ==> #[trigger] self.nodes@[fields@[i].ty as int].filled,
    {
        let mut filled = true;
        let mut i: usize = 0;
        while i < fields.len()
            invariant
                i <= fields.len(),
                forall|i2: int| 0 <= i2 < fields.len() ==> #[trigger] fields@[i2].ty < self.nodes.len(),
                filled == forall|i2: int| 0 <= i2 < i ==> #[trigger] self.nodes@[fields@[i2].ty as int].filled,
            decreases fields.len() - i,
        {
            filled = filled && self.nodes[fields[i].ty].filled;
            i = i + 1;
        }
        filled
    }

    /// The default pattern of a record: each non-reserved field's default at
    /// its offset; none if a field's type has no default.
    fn record_default_bits(&self, defs: &Vec<FieldDef>) -> (r: Option<u128>)
        requires
            forall|i: int| 0 <= i < defs.len() ==> #[trigger] defs@[i].ty < self.nodes.len(),
        ensures
            r == record_default(self.nodes@, defs@),
    {
        let mut default: Option<u128> = Some(0);
        let mut i: usize = 0;
        while i < defs.len()
            invariant
                i <= defs.len(),
                forall|i2: int| 0 <= i2 < defs.len() ==> #[trigger] defs@[i2].ty < self.nodes.len(),
                default == record_default(self.nodes@, defs@.subrange(0, i as int)),
            decreases defs.len() - i,
        {
            let f = defs[i];
            proof {
                assert(defs@.subrange(0, i + 1).drop_last() == defs@.subrange(0, i as int));
            }
            if !f.reserved {
                default = match (default, self.nodes[f.ty].default_bits) {
                    (Some(acc), Some(d)) => Some(
                        if f.offset >= 128 {
                            acc
                        } else {
                            acc | (d << (f.offset as u128))
                        },
                    ),
                    _ => None,
                };
            }
            i = i + 1;
        }
        assert(defs@.subrange(0, defs.len() as int) == defs@);
        default
    }

    /// Lays out and registers a record of `width` bits: in auto layout the
    /// fields follow each other from bit 0 and must fill the width exactly; in
    /// manual layout each field sits at its explicit range, which must lie
    /// within the width and be as wide as the field's type. With `infallible`,
    /// the record must be filled.
    pub fn add_record(
        &mut self,
        fields: &Vec<FieldSpec>,
        width: u32,
        layout: FieldLayout,
        infallible: bool,
    ) -> (r: Result<usize, SchemaError>)
        requires
            old(self).wf(),
        ensures
            final(self).wf(),
            match record_error(old(self).nodes@, fields@, width, layout, infallible) {
                Some(e) => r == Err::<usize, SchemaError>(e) && final(self).nodes@ == old(self).nodes@,
                None => {
                    let k = old(self).nodes.len() as int;
                    let def = record_def(final(self).nodes@, k);
                    &&& r == Ok::<usize, SchemaError>(k as usize)
                    &&& final(self).nodes.len() == k + 1
                    &&& final(self).nodes@.subrange(0, k) == old(self).nodes@
                    &&& final(self).nodes@[k].kind is Record
                    &&& final(self).nodes@[k].width == width
                    &&& def.layout == layout
                    &&& planned(old(self).nodes@, fields@, layout, width as nat, def.fields@)
                },
            },
    {
        let ghost nodes = self.nodes@;
        let k = self.nodes.len();
        if width == 0 || width > 128 {
            return Err(SchemaError::InvalidWidth);
        }
        if fields.len() == 0 {
            return Err(SchemaError::NoFields);
        }
        if !self.types_known(fields) {
            return Err(SchemaError::UnknownType);
        }
        let defs = match self.plan_layout(fields, width, layout) {
            Ok(d) => d,
            Err(e) => {
                return Err(e);
            },
        };
        let filled = self.fields_filled(fields);
        if infallible && !filled {
            return Err(SchemaError::NotFilled);
        }
        proof {
            assert forall|i: int| 0 <= i < defs.len() implies #[trigger] defs@[i].ty < k by {
                assert(defs@[i].ty == fields@[i].ty);
            }
        }
        let default = self.record_default_bits(&defs);
        let ghost gdefs = defs@;
        let x = Node {
            kind: TypeKind::Record(RecordDef { layout, fields: defs }),
            width,
            slots: vec![Slot { kind: SlotKind::Record(k), offset: 0, width }],
            filled,
            default_bits: default,
        };
        proof {
            let m = nodes.push(x);
            assert(m[k as int] == x);
            lemma_push_field_sum(nodes, x, gdefs);
            assert forall|i2: int| 0 <= i2 < gdefs.len() implies #[trigger] gdefs[i2].ty < k && gdefs[i2].offset
                + m[gdefs[i2].ty as int].width <= width by {
                assert(gdefs[i2].ty == fields@[i2].ty);
            }
            if layout == FieldLayout::Auto {
                assert forall|i2: int| 0 <= i2 < gdefs.len() implies #[trigger] gdefs[i2].offset == field_width_sum(
                    m,
                    gdefs.subrange(0, i2),
                ) by {
                    let sub = gdefs.subrange(0, i2);
                    assert forall|i3: int| 0 <= i3 < sub.len() implies #[trigger] sub[i3].ty < nodes.len() by {
                        assert(sub[i3] == gdefs[i3]);
                    }
                    lemma_push_field_sum(nodes, x, sub);
                }
            }
            let pm = forall|i2: int| 0 <= i2 < gdefs.len() ==> #[trigger] m[gdefs[i2].ty as int].filled;
            if pm {
                assert forall|i2: int| 0 <= i2 < fields.len() implies #[trigger] nodes[fields@[i2].ty as int].filled by {
                    assert(gdefs[i2].ty == fields@[i2].ty);
                    assert(m[gdefs[i2].ty as int].filled);
                }
            }
            if filled {
                assert forall|i2: int| 0 <= i2 < gdefs.len() implies #[trigger] m[gdefs[i2].ty as int].filled by {
                    assert(gdefs[i2].ty == fields@[i2].ty);
                    assert(nodes[fields@[i2].ty as int].filled);
                }
            }
            assert(x.slots@ == seq![Slot { kind: SlotKind::Record(k), offset: 0, width }]);
            lemma_single_slot_ok(nodes, x, x.slots@[0]);
            reveal(node_wf);
            lemma_node_facts(m, k as int);
        }
        let r = self.push_node(x);
        assert(self.nodes@.subrange(0, r as int) == old(self).nodes@);
        Ok(r)
    }

    /// Registers an enum of `width` bits. With `infallible`, every pattern must
    /// decode to a variant: the enum is exhaustive or has a fallback, not both.
    /// Without it, no fallback is allowed.
    pub fn add_enum(
        &mut self,
        variants: &Vec<VariantSpec>,
        width: u32,
        default_variant: Option<usize>,
        infallible: bool,
    ) -> (r: Result<usize, SchemaError>)
        requires
            old(self).wf(),
        ensures
            final(self).wf(),
            match enum_error(variants@, width, default_variant, infallible) {
                Some(e) => r == Err::<usize, SchemaError>(e) && final(self).nodes@ == old(self).nodes@,
                None => {
                    let k = old(self).nodes.len() as int;
                    let def = enum_def(final(self).nodes@, k);
                    &&& r == Ok::<usize, SchemaError>(k as usize)
                    &&& final(self).nodes.len() == k + 1
                    &&& final(self).nodes@.subrange(0, k) == old(self).nodes@
                    &&& final(self).nodes@[k].kind is Enum
                    &&& final(self).nodes@[k].width == width
                    &&& def.values@ == assigned_values(variants@, width as u8)->Some_0
                    &&& def.fallback == fallback_of(variants@, width)->Ok_0
                    &&& def.default_variant == default_variant
                },
            },
    {
        let ghost nodes = self.nodes@;
        let k = self.nodes.len();
        if width == 0 || width > 64 {
            return Err(SchemaError::InvalidWidth);
        }
        if variants.len() == 0 {
            return Err(SchemaError::NoVariants);
        }
        let fills = match enum_fills_bitsize(width, variants.len()) {
            Ok(f) => f,
            Err(e) => {
                return Err(e);
            },
        };
        let fb = match fallback_variant(variants, width) {
            Ok(f) => f,
            Err(e) => {
                return Err(e);
            },
        };
        if !infallible && fb.is_some() {
            return Err(SchemaError::FallbackWithFallible);
        }
        let skip: usize = match fb {
            Some(f) => match f {
                Fallback::Unit(i) => i,
                Fallback::WithValue(i) => i,
            },
            None => variants.len(),
        };
        if any_payload_besides(variants, skip) {
            assert(non_unit_variant(variants@, fb));
            return Err(SchemaError::UnsupportedVariant);
        }
        assert(!non_unit_variant(variants@, fb));
        if infallible && fills && fb.is_some() {
            return Err(SchemaError::FallbackOnExhaustive);
        }
        if infallible && !fills && fb.is_none() {
            return Err(SchemaError::NotFilled);
        }
        let values = match assign_all(variants, width as u8) {
            Ok(v) => v,
            Err(e) => {
                return Err(e);
            },
        };
        proof {
            lemma_assigned_fit(variants@, width as u8);
        }
        if has_duplicate(&values) {
            return Err(SchemaError::DuplicateDiscriminant);
        }
        let default_bits = match default_variant {
            Some(d) => {
                let value_fallback = match fb {
                    Some(Fallback::WithValue(i)) => i == d,
                    _ => false,
                };
                if d >= variants.len() || value_fallback {
                    return Err(SchemaError::InvalidDefault);
                }
                Some(values[d])
            },
            None => None,
        };
        let filled = fb.is_some() || fills;
        let ghost gvalues = values@;
        let x = Node {
            kind: TypeKind::Enum(EnumDef { values, fallback: fb, default_variant }),
            width,
            slots: vec![Slot { kind: SlotKind::Enum(k), offset: 0, width }],
            filled,
            default_bits,
        };
        proof {
            let mm = nodes.push(x);
            assert(mm[k as int] == x);
            assert(x.slots@ == seq![Slot { kind: SlotKind::Enum(k), offset: 0, width }]);
            lemma_single_slot_ok(nodes, x, x.slots@[0]);
            assert(!has_duplicates(gvalues));
            assert(enum_wf(x.kind->Enum_0, width as nat));
            reveal(node_wf);
            lemma_node_facts(mm, k as int);
        }
        let r = self.push_node(x);
        assert(self.nodes@.subrange(0, r as int) == old(self).nodes@);
        Ok(r)
    }
}

} // verus!
