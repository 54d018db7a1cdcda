//! Reading and writing typed values in a packed `u128`.
use crate::bits::{get_bits, lemma_field_fits, lemma_low_mask_step, low_mask, mask_of, set_bits};
use crate::error::{give_me_error, BitsError};
use crate::fallback::Fallback;
use crate::schema::{
    decoded, decodes_as, encoded, enum_decode, enum_def, fallback_index, field_leaf_bits,
    field_valid, first_match, leaf_fits, leaf_of, lemma_node_facts, lemma_record_valid_unfold,
    node_wf, raw_of, record_def, record_valid, slot_ref_ok, slot_valid, value_fits, FieldDef, Leaf,
    Schema, Slot, SlotKind, TypeKind,
};
use vstd::prelude::*;

verus! {

proof fn lemma_half_mask_fits(v: u128)
    requires
        v <= 127,
    ensures
        low_mask(v) <= i128::MAX,
{
    assert(v <= 127 ==> !(u128::MAX << v) <= 0x7fff_ffff_ffff_ffff_ffff_ffff_ffff_ffffu128)
        by (bit_vector);
}

impl Schema {
    /// The variant that `raw` is of enum `e`.
    pub fn enum_lookup(&self, e: usize, raw: u128) -> (r: Option<Leaf>)
        requires
            self.wf(),
            e < self.nodes.len(),
            self.nodes@[e as int].kind is Enum,
        ensures
            r == enum_decode(enum_def(self.nodes@, e as int), raw),
    {
        match &self.nodes[e].kind {
            TypeKind::Enum(def) => {
                let skip: usize = match def.fallback {
                    Some(f) => match f {
                        Fallback::Unit(i) => i,
                        Fallback::WithValue(i) => i,
                    },
                    None => def.values.len(),
                };
                proof {
                    lemma_node_facts(self.nodes@, e as int);
                }
                let mut found: Option<usize> = None;
                let mut i: usize = 0;
                while i < def.values.len()
                    invariant
                        i <= def.values.len(),
                        def.fallback is Some ==> skip as int == fallback_index(def.fallback),
                        def.fallback is None ==> skip == def.values.len(),
                        found == first_match(
                            def.values@,
                            fallback_index(def.fallback),
                            raw,
                            i as nat,
                        ),
                    decreases def.values.len() - i,
                {
                    if found.is_none() && i != skip && def.values[i] == raw {
                        found = Some(i);
                    }
                    i = i + 1;
                }
                match found {
                    Some(v) => Some(Leaf::Variant(v)),
                    None => match def.fallback {
                        Some(Fallback::Unit(i)) => Some(Leaf::Variant(i)),
                        Some(Fallback::WithValue(_)) => Some(Leaf::Fallback(raw)),
                        None => None,
                    },
                }
            },
            _ => None,
        }
    }

    /// Whether `bits` is valid in slot `sl` of a type below `bound`.
    pub fn slot_is_valid(&self, bound: usize, sl: Slot, bits: u128) -> (ok: bool)
        requires
            self.wf(),
            bound <= self.nodes.len(),
            slot_ref_ok(self.nodes@, self.nodes.len() as int, sl, false),
        ensures
            ok == slot_valid(self.nodes@, bound as int, sl, bits),
        decreases bound, 0int,
    {
        match sl.kind {
            SlotKind::Record(q) => q < bound && self.record_is_valid(q, bits),
            SlotKind::Enum(e) => self.enum_lookup(e, bits).is_some(),
            _ => true,
        }
    }

    /// Whether every leaf of field `f` of record `r` holds a valid pattern.
    fn field_is_valid(&self, r: usize, f: FieldDef, raw: u128) -> (ok: bool)
        requires
            self.wf(),
            r < self.nodes.len(),
            f.ty < r,
            f.offset + self.width_of(f.ty as int) <= 128,
        ensures
            ok == field_valid(self.nodes@, r as int, f, raw),
        decreases r, 1int,
    {
        let ghost nodes = self.nodes@;
        let ty = f.ty;
        proof {
            lemma_node_facts(nodes, ty as int);
        }
        let mut j: usize = 0;
        while j < self.nodes[ty].slots.len()
            invariant
                self.wf(),
                nodes == self.nodes@,
                r < nodes.len(),
                ty == f.ty,
                ty < r,
                f.offset + nodes[ty as int].width <= 128,
                j <= nodes[ty as int].slots.len(),
                forall|j2: int|
                    0 <= j2 < j ==> slot_valid(
                        nodes,
                        r as int,
                        nodes[ty as int].slots@[j2],
                        #[trigger] field_leaf_bits(nodes, f, j2, raw),
                    ),
            decreases nodes[ty as int].slots.len() - j,
        {
            let sl = self.nodes[ty].slots[j];
            proof {
                lemma_node_facts(nodes, ty as int);
                assert(slot_ref_ok(nodes, ty + 1, sl, nodes[ty as int].filled));
            }
            let bits = get_bits(raw, f.offset + sl.offset, sl.width);
            assert(bits == field_leaf_bits(nodes, f, j as int, raw));
            if !self.slot_is_valid(r, sl, bits) {
                return false;
            }
            j = j + 1;
        }
        true
    }

    /// Whether every enum inside record `r` holds a valid pattern in `raw`.
    pub fn record_is_valid(&self, r: usize, raw: u128) -> (ok: bool)
        requires
            self.wf(),
            r < self.nodes.len(),
        ensures
            ok == record_valid(self.nodes@, r as int, raw),
        decreases r, 2int,
    {
        let ghost nodes = self.nodes@;
        match &self.nodes[r].kind {
            TypeKind::Record(def) => {
                proof {
                    lemma_node_facts(nodes, r as int);
                }
                let mut i: usize = 0;
                while i < def.fields.len()
                    invariant
                        self.wf(),
                        nodes == self.nodes@,
                        r < nodes.len(),
                        nodes[r as int].kind == TypeKind::Record(*def),
                        node_wf(nodes, r as int),
                        i <= def.fields.len(),
                        forall|i2: int| 0 <= i2 < i ==> field_valid(nodes, r as int, #[trigger] def.fields@[i2], raw),
                    decreases def.fields.len() - i,
                {
                    proof {
                        lemma_node_facts(nodes, r as int);
                    }
                    if !self.field_is_valid(r, def.fields[i], raw) {
                        assert(record_def(nodes, r as int) == *def);
                        assert(!field_valid(nodes, r as int, record_def(nodes, r as int).fields@[i as int], raw));
                        proof {
                            lemma_record_valid_unfold(nodes, r as int, raw);
                        }
                        return false;
                    }
                    i = i + 1;
                }
                assert(record_def(nodes, r as int) == *def);
                proof {
                    lemma_record_valid_unfold(nodes, r as int, raw);
                }
                true
            },
            _ => false,
        }
    }

    /// The leaf that `raw` is in slot `sl`, or none if it is not valid there.
    pub fn decode_leaf(&self, sl: Slot, raw: u128) -> (r: Option<Leaf>)
        requires
            self.wf(),
            slot_ref_ok(self.nodes@, self.nodes.len() as int, sl, false),
            raw <= low_mask(sl.width as u128),
        ensures
            r == leaf_of(self.nodes@, sl, raw),
    {
        match sl.kind {
            SlotKind::Unsigned => Some(Leaf::Unsigned(raw)),
            SlotKind::Bool => Some(Leaf::Bool(raw == 1)),
            SlotKind::Signed => {
                let half = mask_of(sl.width - 1);
                proof {
                    lemma_low_mask_step(sl.width as u128);
                    lemma_half_mask_fits((sl.width - 1) as u128);
                }
                if raw > half {
                    let a = (raw - half - 1) as i128;
                    Some(Leaf::Signed(a - (half as i128) - 1))
                } else {
                    Some(Leaf::Signed(raw as i128))
                }
            },
            SlotKind::Record(q) => {
                if self.record_is_valid(q, raw) {
                    Some(Leaf::Record(raw))
                } else {
                    None
                }
            },
            SlotKind::Enum(e) => self.enum_lookup(e, raw),
        }
    }

    /// The bit pattern of a leaf that fits slot `sl`.
    pub fn encode_leaf(&self, sl: Slot, leaf: Leaf) -> (r: u128)
        requires
            self.wf(),
            slot_ref_ok(self.nodes@, self.nodes.len() as int, sl, false),
            leaf_fits(self.nodes@, sl, leaf),
        ensures
            r == raw_of(self.nodes@, sl, leaf),
    {
        match leaf {
            Leaf::Unsigned(v) => v,
            Leaf::Bool(b) => if b {
                1
            } else {
                0
            },
            Leaf::Signed(v) => {
                let half = mask_of(sl.width - 1);
                proof {
                    lemma_low_mask_step(sl.width as u128);
                    lemma_half_mask_fits((sl.width - 1) as u128);
                }
                if v >= 0 {
                    v as u128
                } else {
                    ((v + half as i128 + 1) as u128) + half + 1
                }
            },
            Leaf::Record(b) => b,
            Leaf::Variant(i) => {
                let e = match sl.kind {
                    SlotKind::Enum(e) => e,
                    _ => 0,
                };
                match &self.nodes[e].kind {
                    TypeKind::Enum(def) => def.values[i],
                    _ => 0,
                }
            },
            Leaf::Fallback(x) => x,
        }
    }

    /// Decodes type `t` from bit `off` of `p`: each leaf in turn, failing on
    /// the first pattern that is no valid value.
    pub fn decode(&self, t: usize, p: u128, off: u32) -> (r: Result<Vec<Leaf>, BitsError>)
        requires
            self.wf(),
            t < self.nodes.len(),
            off + self.width_of(t as int) <= 128,
        ensures
            decodes_as(self.nodes@, t as int, p, off as int, r),
    {
        let ghost nodes = self.nodes@;
        proof {
            lemma_node_facts(nodes, t as int);
        }
        let n = self.nodes[t].slots.len();
        let mut out: Vec<Leaf> = Vec::new();
        let mut j: usize = 0;
        while j < n
            invariant
                self.wf(),
                nodes == self.nodes@,
                t < nodes.len(),
                node_wf(nodes, t as int),
                n == nodes[t as int].slots.len(),
                off + nodes[t as int].width <= 128,
                j <= n,
                out@.len() == j,
                forall|j2: int|
                    0 <= j2 < j ==> decoded(nodes, t as int, p, off as int)[j2] == Some(
                        #[trigger] out@[j2],
                    ),
            decreases n - j,
        {
            let sl = self.nodes[t].slots[j];
            proof {
                lemma_node_facts(nodes, t as int);
                assert(slot_ref_ok(nodes, t + 1, sl, nodes[t as int].filled));
                lemma_field_fits(p, (off + sl.offset) as u128, sl.width as u128);
            }
            let bits = get_bits(p, off + sl.offset, sl.width);
            match self.decode_leaf(sl, bits) {
                Some(leaf) => {
                    out.push(leaf);
                },
                None => {
                    assert(decoded(nodes, t as int, p, off as int)[j as int] is None);
                    return Err(give_me_error());
                },
            }
            j = j + 1;
        }
        Ok(out)
    }

    /// Writes a value of type `t` at bit `off` of `p`, leaf by leaf; the bits
    /// outside the type's slots stay as they are.
    pub fn encode(&self, t: usize, p: u128, off: u32, v: &Vec<Leaf>) -> (r: u128)
        requires
            self.wf(),
            t < self.nodes.len(),
            off + self.width_of(t as int) <= 128,
            value_fits(self.nodes@, t as int, v@),
        ensures
            r == encoded(self.nodes@, t as int, p, off as int, v@, v@.len()),
    {
        let ghost nodes = self.nodes@;
        proof {
            lemma_node_facts(nodes, t as int);
        }
        let n = self.nodes[t].slots.len();
        let mut acc = p;
        let mut j: usize = 0;
        while j < n
            invariant
                self.wf(),
                nodes == self.nodes@,
                t < nodes.len(),
                node_wf(nodes, t as int),
                n == nodes[t as int].slots.len(),
                n == v@.len(),
                value_fits(nodes, t as int, v@),
                off + nodes[t as int].width <= 128,
                j <= n,
                acc == encoded(nodes, t as int, p, off as int, v@, j as nat),
            decreases n - j,
        {
            let sl = self.nodes[t].slots[j];
            proof {
                lemma_node_facts(nodes, t as int);
                assert(slot_ref_ok(nodes, t + 1, sl, nodes[t as int].filled));
                assert(leaf_fits(nodes, sl, v@[j as int]));
            }
            let raw = self.encode_leaf(sl, v[j]);
            acc = set_bits(acc, off + sl.offset, sl.width, raw);
            j = j + 1;
        }
        acc
    }
}

} // verus!
