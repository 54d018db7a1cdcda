//! The schema: an arena of field types, each flattened into leaf slots.
use crate::bits::{field_of, low_mask, with_field};
use crate::error::{BitsError, SchemaError};
use crate::discriminant_assigner::assigned_values;
use crate::fallback::{fallback_of, Fallback, Payload, VariantSpec};
use vstd::prelude::*;

verus! {

/// The widest record, in bits.
pub const MAX_STRUCT_BIT_SIZE: u32 = 128;

/// The widest enum, in bits.
pub const MAX_ENUM_BIT_SIZE: u32 = 64;

/// How the fields of a record are placed.
#[derive(Debug, PartialEq, Eq, Structural, Clone, Copy)]
pub enum FieldLayout {
    /// One after the other from bit 0, without gaps or overlaps.
    Auto,
    /// Each field at an explicit bit range; gaps and overlaps are allowed.
    Manual,
}

/// The access a manual-layout field declares.
#[derive(Debug, PartialEq, Eq, Structural, Clone, Copy)]
pub enum Access {
    ReadOnly,
    WriteOnly,
    ReadWrite,
}

/// An explicit bit range of a field.
#[derive(Debug, PartialEq, Eq, Structural, Clone, Copy)]
pub struct BitRange {
    /// Index of the first bit.
    pub start_bit: usize,
    pub bit_size: usize,
    pub access: Access,
}

impl BitRange {
    /// A single bit at `index`.
    pub fn single(index: usize, access: Access) -> (r: BitRange)
        ensures
            r == (BitRange { start_bit: index, bit_size: 1, access }),
    {
        BitRange { start_bit: index, bit_size: 1, access }
    }

    /// The bits from `start` to `end`, `end` itself included when
    /// `inclusive`; the range must not be empty. (No record is wide enough
    /// for a range that ends at `usize::MAX`.)
    pub fn from_bounds(start: usize, end: usize, inclusive: bool, access: Access) -> (r: Result<
        BitRange,
        SchemaError,
    >)
        ensures
            inclusive && start <= end && end < usize::MAX ==> r == Ok::<BitRange, SchemaError>(
                BitRange { start_bit: start, bit_size: (end + 1 - start) as usize, access },
            ),
            inclusive && start > end ==> r == Err::<BitRange, SchemaError>(SchemaError::EmptyRange),
            inclusive && start <= end && end == usize::MAX ==> r == Err::<BitRange, SchemaError>(
                SchemaError::RangeExceedsWidth,
            ),
            !inclusive && start < end ==> r == Ok::<BitRange, SchemaError>(
                BitRange { start_bit: start, bit_size: (end - start) as usize, access },
            ),
            !inclusive && start >= end ==> r == Err::<BitRange, SchemaError>(SchemaError::EmptyRange),
    {
        if inclusive {
            if start > end {
                return Err(SchemaError::EmptyRange);
            }
            if end == usize::MAX {
                return Err(SchemaError::RangeExceedsWidth);
            }
            Ok(BitRange { start_bit: start, bit_size: end + 1 - start, access })
        } else {
            if start >= end {
                return Err(SchemaError::EmptyRange);
            }
            Ok(BitRange { start_bit: start, bit_size: end - start, access })
        }
    }
}

/// A field of a record as the schema declares it.
#[derive(Debug, PartialEq, Eq, Structural, Clone, Copy)]
pub struct FieldSpec {
    /// The field's type, an index into the schema.
    pub ty: usize,
    /// The bit range, in manual layout.
    pub range: Option<BitRange>,
    /// A reserved or padding field: zero at construction, never set.
    pub reserved: bool,
}

/// A placed field of a record.
#[derive(Debug, PartialEq, Eq, Structural, Clone, Copy)]
pub struct FieldDef {
    pub ty: usize,
    pub offset: u32,
    pub reserved: bool,
}

/// One leaf value: what one slot holds.
#[derive(Debug, PartialEq, Eq, Structural, Clone, Copy)]
pub enum Leaf {
    Unsigned(u128),
    Bool(bool),
    Signed(i128),
    /// A nested record, as its own packed value.
    Record(u128),
    /// An enum variant, by index (a unit fallback too).
    Variant(usize),
    /// The payload of a value-carrying fallback: the unmatched pattern.
    Fallback(u128),
}

/// What a slot holds.
#[derive(Debug, PartialEq, Eq, Structural, Clone, Copy)]
pub enum SlotKind {
    Unsigned,
    Bool,
    Signed,
    /// A record, by its index in the schema.
    Record(usize),
    /// An enum, by its index in the schema.
    Enum(usize),
}

/// A leaf position of a type: `width` bits at `offset` from the type's bit 0.
#[derive(Debug, PartialEq, Eq, Structural, Clone, Copy)]
pub struct Slot {
    pub kind: SlotKind,
    pub offset: u32,
    pub width: u32,
}

/// A record: its fields, placed.
pub struct RecordDef {
    pub layout: FieldLayout,
    pub fields: Vec<FieldDef>,
}

/// An enum: the discriminant of each variant, and its fallback.
pub struct EnumDef {
    pub values: Vec<u128>,
    pub fallback: Option<Fallback>,
    pub default_variant: Option<usize>,
}

/// The shape of a type.
pub enum TypeKind {
    Unsigned(u32),
    Bool,
    Signed(u32),
    /// Elements by index, least significant first.
    Tuple(Vec<usize>),
    /// Element type and length.
    Array(usize, usize),
    Record(RecordDef),
    Enum(EnumDef),
}

/// A registered type with what is computed once for it.
pub struct Node {
    pub kind: TypeKind,
    pub width: u32,
    /// The leaves, least significant first.
    pub slots: Vec<Slot>,
    /// Every bit pattern of the width is a valid value.
    pub filled: bool,
    /// The bit pattern of the default value, where there is one.
    pub default_bits: Option<u128>,
}

/// The registered types. A type refers only to types registered before it.
pub struct Schema {
    pub nodes: Vec<Node>,
}

// ---------------------------------------------------------------- flattening

pub open spec fn shift_slot(sl: Slot, by: int) -> Slot {
    Slot { kind: sl.kind, offset: (sl.offset + by) as u32, width: sl.width }
}

pub open spec fn shift_slots(sls: Seq<Slot>, by: int) -> Seq<Slot> {
    sls.map_values(|sl: Slot| shift_slot(sl, by))
}

/// Sum of the widths of the given types.
pub open spec fn width_sum(nodes: Seq<Node>, elems: Seq<usize>) -> nat
    decreases elems.len(),
{
    if elems.len() == 0 {
        0
    } else {
        width_sum(nodes, elems.drop_last()) + nodes[elems.last() as int].width as nat
    }
}

/// The leaves of a tuple: those of each element, moved to its offset.
pub open spec fn tuple_slots(nodes: Seq<Node>, elems: Seq<usize>) -> Seq<Slot>
    decreases elems.len(),
{
    if elems.len() == 0 {
        seq![]
    } else {
        tuple_slots(nodes, elems.drop_last()) + shift_slots(
            nodes[elems.last() as int].slots@,
            width_sum(nodes, elems.drop_last()) as int,
        )
    }
}

/// The leaves of an array of `n` elements.
pub open spec fn array_slots(elem: Node, n: nat) -> Seq<Slot>
    decreases n,
{
    if n == 0 {
        seq![]
    } else {
        array_slots(elem, (n - 1) as nat) + shift_slots(elem.slots@, (n - 1) * elem.width)
    }
}

/// Sum of the widths of the given fields' types.
pub open spec fn field_width_sum(nodes: Seq<Node>, fields: Seq<FieldDef>) -> nat
    decreases fields.len(),
{
    if fields.len() == 0 {
        0
    } else {
        field_width_sum(nodes, fields.drop_last()) + nodes[fields.last().ty as int].width as nat
    }
}

// ------------------------------------------------------------------ defaults

/// `acc` with `d` or-ed in at bit `off`.
pub open spec fn or_shift(acc: u128, d: u128, off: int) -> u128 {
    if off >= 128 {
        acc
    } else {
        acc | (d << (off as u128))
    }
}

pub open spec fn tuple_default(nodes: Seq<Node>, elems: Seq<usize>) -> Option<u128>
    decreases elems.len(),
{
    if elems.len() == 0 {
        Some(0)
    } else {
        match (tuple_default(nodes, elems.drop_last()), nodes[elems.last() as int].default_bits) {
            (Some(acc), Some(d)) => Some(
                or_shift(acc, d, width_sum(nodes, elems.drop_last()) as int),
            ),
            _ => None,
        }
    }
}

pub open spec fn array_default(elem: Node, n: nat) -> Option<u128>
    decreases n,
{
    if n == 0 {
        Some(0)
    } else {
        match (array_default(elem, (n - 1) as nat), elem.default_bits) {
            (Some(acc), Some(d)) => Some(or_shift(acc, d, (n - 1) * elem.width)),
            _ => None,
        }
    }
}

/// Reserved fields stay zero; every other field contributes its type's default.
pub open spec fn record_default(nodes: Seq<Node>, fields: Seq<FieldDef>) -> Option<u128>
    decreases fields.len(),
{
    if fields.len() == 0 {
        Some(0)
    } else {
        let f = fields.last();
        match record_default(nodes, fields.drop_last()) {
            None => None,
            Some(acc) => if f.reserved {
                Some(acc)
            } else {
                match nodes[f.ty as int].default_bits {
                    Some(d) => Some(or_shift(acc, d, f.offset as int)),
                    None => None,
                }
            },
        }
    }
}

// -------------------------------------------------------------------- enums

/// The first variant below `n`, other than `skip`, whose discriminant is `raw`.
pub open spec fn first_match(values: Seq<u128>, skip: int, raw: u128, n: nat) -> Option<usize>
    decreases n,
{
    if n == 0 {
        None
    } else {
        match first_match(values, skip, raw, (n - 1) as nat) {
            Some(i) => Some(i),
            None => if n - 1 != skip && values[n - 1] == raw {
                Some((n - 1) as usize)
            } else {
                None
            },
        }
    }
}

pub open spec fn fallback_index(fb: Option<Fallback>) -> int {
    match fb {
        Some(f) => f.index() as int,
        None => -1,
    }
}

/// Decoding of an enum: the variant whose discriminant matches, else the
/// fallback (with the raw pattern as payload, if it carries one), else none.
pub open spec fn enum_decode(def: EnumDef, raw: u128) -> Option<Leaf> {
    match first_match(def.values@, fallback_index(def.fallback), raw, def.values.len() as nat) {
        Some(i) => Some(Leaf::Variant(i)),
        None => match def.fallback {
            Some(Fallback::Unit(i)) => Some(Leaf::Variant(i)),
            Some(Fallback::WithValue(_)) => Some(Leaf::Fallback(raw)),
            None => None,
        },
    }
}

pub open spec fn enum_filled(def: EnumDef, width: u32) -> bool {
    def.fallback is Some || def.values.len() == low_mask(width as u128) + 1
}

// ------------------------------------------------------------ well-formedness

/// A slot's width fits its kind; a record or enum it holds is registered below
/// `bound`, with that width, and filled where `filled` is asked.
pub open spec fn slot_ref_ok(nodes: Seq<Node>, bound: int, sl: Slot, filled: bool) -> bool {
    match sl.kind {
        SlotKind::Unsigned => 1 <= sl.width <= 128,
        SlotKind::Bool => sl.width == 1,
        SlotKind::Signed => 1 <= sl.width <= 128,
        SlotKind::Record(r) => {
            &&& 1 <= sl.width
            &&& r < bound
            &&& nodes[r as int].kind is Record
            &&& nodes[r as int].width == sl.width
            &&& filled ==> nodes[r as int].filled
        },
        SlotKind::Enum(e) => {
            &&& 1 <= sl.width
            &&& e < bound
            &&& nodes[e as int].kind is Enum
            &&& nodes[e as int].width == sl.width
            &&& filled ==> nodes[e as int].filled
        },
    }
}

/// Slots within `width`, in increasing order, without overlap.
pub open spec fn slots_ok(nodes: Seq<Node>, bound: int, sls: Seq<Slot>, width: nat, filled: bool) -> bool {
    &&& forall|j: int| 0 <= j < sls.len() ==> #[trigger] sls[j].offset + sls[j].width <= width
    &&& forall|i: int, j: int|
        0 <= i < j < sls.len() ==> #[trigger] sls[i].offset + sls[i].width <= #[trigger] sls[j].offset
    &&& forall|j: int| 0 <= j < sls.len() ==> slot_ref_ok(nodes, bound, #[trigger] sls[j], filled)
}

pub open spec fn record_wf(nodes: Seq<Node>, k: int, def: RecordDef, width: nat) -> bool {
    let fields = def.fields@;
    &&& 1 <= width <= 128
    &&& fields.len() >= 1
    &&& forall|i: int|
        0 <= i < fields.len() ==> #[trigger] fields[i].ty < k && fields[i].offset
            + nodes[fields[i].ty as int].width <= width
    &&& def.layout == FieldLayout::Auto ==> {
        &&& forall|i: int|
            0 <= i < fields.len() ==> #[trigger] fields[i].offset == field_width_sum(
                nodes,
                fields.subrange(0, i),
            )
        &&& field_width_sum(nodes, fields) == width
    }
}

pub open spec fn enum_wf(def: EnumDef, width: nat) -> bool {
    let values = def.values@;
    &&& 1 <= width <= 64
    &&& values.len() >= 1
    &&& forall|i: int| 0 <= i < values.len() ==> #[trigger] values[i] <= low_mask(width as u128)
    &&& forall|i: int, j: int|
        0 <= i < values.len() && 0 <= j < values.len() && i != j ==> #[trigger] values[i]
            != #[trigger] values[j]
    &&& match def.fallback {
        Some(Fallback::Unit(i)) => i < values.len(),
        Some(Fallback::WithValue(i)) => i == values.len() - 1,
        None => true,
    }
    &&& match def.default_variant {
        Some(d) => d < values.len() && def.fallback != Some(Fallback::WithValue(d)),
        None => true,
    }
}

pub open spec fn enum_default(def: EnumDef) -> Option<u128> {
    match def.default_variant {
        Some(d) => Some(def.values@[d as int]),
        None => None,
    }
}

#[verifier::opaque]
pub open spec fn node_wf(nodes: Seq<Node>, k: int) -> bool {
    let n = nodes[k];
    &&& n.width <= 128
    &&& slots_ok(nodes, k + 1, n.slots@, n.width as nat, n.filled)
    &&& match n.kind {
        TypeKind::Unsigned(w) => {
            &&& 1 <= w <= 128
            &&& n.width == w
            &&& n.slots@ == seq![Slot { kind: SlotKind::Unsigned, offset: 0, width: w }]
            &&& n.filled
            &&& n.default_bits == Some(0u128)
        },
        TypeKind::Bool => {
            &&& n.width == 1
            &&& n.slots@ == seq![Slot { kind: SlotKind::Bool, offset: 0, width: 1 }]
            &&& n.filled
            &&& n.default_bits == Some(0u128)
        },
        TypeKind::Signed(w) => {
            &&& 1 <= w <= 128
            &&& n.width == w
            &&& n.slots@ == seq![Slot { kind: SlotKind::Signed, offset: 0, width: w }]
            &&& n.filled
            &&& n.default_bits == Some(0u128)
        },
        TypeKind::Tuple(elems) => {
            &&& forall|i: int| 0 <= i < elems.len() ==> #[trigger] elems@[i] < k
            &&& n.width == width_sum(nodes, elems@)
            &&& n.slots@ == tuple_slots(nodes, elems@)
            &&& n.filled == forall|i: int|
                0 <= i < elems.len() ==> #[trigger] nodes[elems@[i] as int].filled
            &&& n.default_bits == tuple_default(nodes, elems@)
        },
        TypeKind::Array(e, len) => {
            &&& e < k
            &&& n.width == nodes[e as int].width * len
            &&& n.slots@ == array_slots(nodes[e as int], len as nat)
            &&& n.filled == nodes[e as int].filled
            &&& n.default_bits == array_default(nodes[e as int], len as nat)
        },
        TypeKind::Record(def) => {
            &&& record_wf(nodes, k, def, n.width as nat)
            &&& n.slots@ == seq![Slot { kind: SlotKind::Record(k as usize), offset: 0, width: n.width }]
            &&& n.filled == forall|i: int|
                0 <= i < def.fields.len() ==> #[trigger] nodes[def.fields@[i].ty as int].filled
            &&& n.default_bits == record_default(nodes, def.fields@)
        },
        TypeKind::Enum(def) => {
            &&& enum_wf(def, n.width as nat)
            &&& n.slots@ == seq![Slot { kind: SlotKind::Enum(k as usize), offset: 0, width: n.width }]
            &&& n.filled == enum_filled(def, n.width)
            &&& n.default_bits == enum_default(def)
        },
    }
}

/// What a well-formed node offers its users.
pub proof fn lemma_node_facts(nodes: Seq<Node>, k: int)
    requires
        node_wf(nodes, k),
    ensures
        nodes[k].width <= 128,
        slots_ok(nodes, k + 1, nodes[k].slots@, nodes[k].width as nat, nodes[k].filled),
        nodes[k].kind is Record ==> record_wf(nodes, k, nodes[k].kind->Record_0, nodes[k].width as nat),
        nodes[k].kind is Enum ==> enum_wf(nodes[k].kind->Enum_0, nodes[k].width as nat),
        nodes[k].kind is Enum ==> nodes[k].slots@ == seq![Slot { kind: SlotKind::Enum(k as usize), offset: 0, width: nodes[k].width }],
        nodes[k].kind is Record ==> nodes[k].slots@ == seq![Slot { kind: SlotKind::Record(k as usize), offset: 0, width: nodes[k].width }],
        nodes[k].kind is Array ==> nodes[k].kind->Array_0 < k && nodes[k].width == nodes[nodes[k].kind->Array_0 as int].width
            * nodes[k].kind->Array_1,
{
    reveal(node_wf);
}

impl Schema {
    pub open spec fn wf(&self) -> bool {
        forall|k: int| 0 <= k < self.nodes.len() ==> #[trigger] node_wf(self.nodes@, k)
    }

    pub open spec fn slots_of(&self, t: int) -> Seq<Slot> {
        self.nodes@[t].slots@
    }

    pub open spec fn width_of(&self, t: int) -> nat {
        self.nodes@[t].width as nat
    }
}

// ------------------------------------------------------------------ leaves

/// Two's complement reading of the low `w` bits.
pub open spec fn sign_extend(raw: u128, w: u32) -> int {
    if w >= 1 && raw > low_mask((w - 1) as u128) {
        raw - low_mask(w as u128) - 1
    } else {
        raw as int
    }
}

/// Two's complement pattern of `v` in `w` bits.
pub open spec fn twos(v: int, w: u32) -> u128 {
    if v >= 0 {
        v as u128
    } else {
        (v + low_mask(w as u128) + 1) as u128
    }
}

pub open spec fn enum_def(nodes: Seq<Node>, e: int) -> EnumDef {
    nodes[e].kind->Enum_0
}

pub open spec fn record_def(nodes: Seq<Node>, r: int) -> RecordDef {
    nodes[r].kind->Record_0
}

/// The pattern `bits` is valid in slot `sl` of a type below `bound`.
pub open spec fn slot_valid(nodes: Seq<Node>, bound: int, sl: Slot, bits: u128) -> bool
    decreases bound, 0int,
{
    match sl.kind {
        SlotKind::Record(q) => 0 <= q < bound && record_valid(nodes, q as int, bits),
        SlotKind::Enum(e) => enum_decode(enum_def(nodes, e as int), bits) is Some,
        _ => true,
    }
}

/// The bits of leaf `j` of field `f` in a record's packed value `raw`.
pub open spec fn field_leaf_bits(nodes: Seq<Node>, f: FieldDef, j: int, raw: u128) -> u128 {
    let sl = nodes[f.ty as int].slots@[j];
    field_of(raw, (f.offset + sl.offset) as u128, sl.width as u128)
}

/// Every leaf of field `f` of record `r` holds a valid pattern.
pub open spec fn field_valid(nodes: Seq<Node>, r: int, f: FieldDef, raw: u128) -> bool
    decreases r, 1int,
{
    forall|j: int|
        0 <= j < nodes[f.ty as int].slots.len() ==> slot_valid(
            nodes,
            r,
            nodes[f.ty as int].slots@[j],
            #[trigger] field_leaf_bits(nodes, f, j, raw),
        )
}

/// Every enum in record `r`, nested records included, holds a valid pattern.
pub open spec fn record_valid(nodes: Seq<Node>, r: int, raw: u128) -> bool
    decreases r, 2int,
{
    if r < 0 || r >= nodes.len() || !(nodes[r].kind is Record) {
        false
    } else {
        let fields = record_def(nodes, r).fields@;
        forall|i: int| 0 <= i < fields.len() ==> field_valid(nodes, r, #[trigger] fields[i], raw)
    }
}

/// The leaf that `raw` is in a slot, if it is a valid one.
pub open spec fn leaf_of(nodes: Seq<Node>, sl: Slot, raw: u128) -> Option<Leaf> {
    match sl.kind {
        SlotKind::Unsigned => Some(Leaf::Unsigned(raw)),
        SlotKind::Bool => Some(Leaf::Bool(raw == 1)),
        SlotKind::Signed => Some(Leaf::Signed(sign_extend(raw, sl.width) as i128)),
        SlotKind::Record(q) => if record_valid(nodes, q as int, raw) {
            Some(Leaf::Record(raw))
        } else {
            None
        },
        SlotKind::Enum(e) => enum_decode(enum_def(nodes, e as int), raw),
    }
}

/// The bit pattern of a leaf.
pub open spec fn raw_of(nodes: Seq<Node>, sl: Slot, leaf: Leaf) -> u128 {
    match leaf {
        Leaf::Unsigned(v) => v,
        Leaf::Bool(b) => if b {
            1
        } else {
            0
        },
        Leaf::Signed(v) => twos(v as int, sl.width),
        Leaf::Record(b) => b,
        Leaf::Variant(i) => enum_def(nodes, sl.kind->Enum_0 as int).values@[i as int],
        Leaf::Fallback(x) => x,
    }
}

/// A leaf is a value of the slot's kind, in range.
pub open spec fn leaf_fits(nodes: Seq<Node>, sl: Slot, leaf: Leaf) -> bool {
    match (sl.kind, leaf) {
        (SlotKind::Unsigned, Leaf::Unsigned(v)) => v <= low_mask(sl.width as u128),
        (SlotKind::Bool, Leaf::Bool(_)) => true,
        (SlotKind::Signed, Leaf::Signed(v)) => -(low_mask((sl.width - 1) as u128) + 1) <= v
            <= low_mask((sl.width - 1) as u128),
        (SlotKind::Record(q), Leaf::Record(b)) => b <= low_mask(sl.width as u128) && record_valid(
            nodes,
            q as int,
            b,
        ),
        (SlotKind::Enum(e), Leaf::Variant(i)) => {
            let def = enum_def(nodes, e as int);
            i < def.values.len() && def.fallback != Some(Fallback::WithValue(i))
        },
        (SlotKind::Enum(e), Leaf::Fallback(x)) => {
            let def = enum_def(nodes, e as int);
            &&& def.fallback matches Some(Fallback::WithValue(_))
            &&& x <= low_mask(sl.width as u128)
            &&& first_match(
                def.values@,
                fallback_index(def.fallback),
                x,
                def.values.len() as nat,
            ) is None
        },
        _ => false,
    }
}

/// A value of type `t`: one fitting leaf per slot.
pub open spec fn value_fits(nodes: Seq<Node>, t: int, v: Seq<Leaf>) -> bool {
    let sls = nodes[t].slots@;
    &&& v.len() == sls.len()
    &&& forall|j: int| 0 <= j < sls.len() ==> leaf_fits(nodes, sls[j], #[trigger] v[j])
}

/// What decoding type `t` at bit `off` of `p` gives, leaf by leaf.
pub open spec fn decoded(nodes: Seq<Node>, t: int, p: u128, off: int) -> Seq<Option<Leaf>> {
    let sls = nodes[t].slots@;
    Seq::new(
        sls.len(),
        |j: int| leaf_of(nodes, sls[j], field_of(p, (off + sls[j].offset) as u128, sls[j].width as u128)),
    )
}

/// `p` with the first `n` leaves of `v` written at their slots, type `t` at bit `off`.
pub open spec fn encoded(nodes: Seq<Node>, t: int, p: u128, off: int, v: Seq<Leaf>, n: nat) -> u128
    decreases n,
{
    if n == 0 {
        p
    } else {
        let sl = nodes[t].slots@[n - 1];
        with_field(
            encoded(nodes, t, p, off, v, (n - 1) as nat),
            (off + sl.offset) as u128,
            sl.width as u128,
            raw_of(nodes, sl, v[n - 1]),
        )
    }
}

// ------------------------------------------------------------------- layout

/// Sum of the widths of the declared fields' types.
pub open spec fn spec_field_sum(nodes: Seq<Node>, fields: Seq<FieldSpec>) -> nat
    decreases fields.len(),
{
    if fields.len() == 0 {
        0
    } else {
        spec_field_sum(nodes, fields.drop_last()) + nodes[fields.last().ty as int].width as nat
    }
}

/// What is wrong with one manual-layout field, if anything.
pub open spec fn range_error(nodes: Seq<Node>, f: FieldSpec, width: nat) -> Option<SchemaError> {
    match f.range {
        None => Some(SchemaError::MissingRange),
        Some(r) => if r.start_bit + r.bit_size > width {
            Some(SchemaError::RangeExceedsWidth)
        } else if r.bit_size != nodes[f.ty as int].width {
            Some(SchemaError::SizeMismatch)
        } else {
            None
        },
    }
}

/// The first field, in declaration order, with a wrong range.
pub open spec fn first_range_error(nodes: Seq<Node>, fields: Seq<FieldSpec>, width: nat) -> Option<
    SchemaError,
>
    decreases fields.len(),
{
    if fields.len() == 0 {
        None
    } else {
        match first_range_error(nodes, fields.drop_last(), width) {
            Some(e) => Some(e),
            None => range_error(nodes, fields.last(), width),
        }
    }
}

/// Why a record with these fields cannot be laid out, if it cannot.
pub open spec fn layout_error(
    nodes: Seq<Node>,
    fields: Seq<FieldSpec>,
    width: nat,
    layout: FieldLayout,
) -> Option<SchemaError> {
    match layout {
        FieldLayout::Auto => if exists|i: int| 0 <= i < fields.len() && #[trigger] fields[i].range is Some {
            Some(SchemaError::RangeInAutoLayout)
        } else if spec_field_sum(nodes, fields) != width {
            Some(SchemaError::SizeMismatch)
        } else {
            None
        },
        FieldLayout::Manual => first_range_error(nodes, fields, width),
    }
}

/// Why a record cannot be registered, if it cannot, checked in this order:
/// its width, its fields' presence and types, its layout, and (when decoding
/// is to be infallible) whether it is filled.
pub open spec fn record_error(
    nodes: Seq<Node>,
    fields: Seq<FieldSpec>,
    width: u32,
    layout: FieldLayout,
    infallible: bool,
) -> Option<SchemaError> {
    if !(1 <= width <= 128) {
        Some(SchemaError::InvalidWidth)
    } else if fields.len() == 0 {
        Some(SchemaError::NoFields)
    } else if exists|i: int| 0 <= i < fields.len() && #[trigger] fields[i].ty >= nodes.len() {
        Some(SchemaError::UnknownType)
    } else if layout_error(nodes, fields, width as nat, layout) is Some {
        layout_error(nodes, fields, width as nat, layout)
    } else if infallible && !(forall|i: int|
        0 <= i < fields.len() ==> #[trigger] nodes[fields[i].ty as int].filled) {
        Some(SchemaError::NotFilled)
    } else {
        None
    }
}

/// The offset the planner gives field `i`: the widths of the fields before
/// it (auto), or its explicit start (manual).
pub open spec fn planned_offset(nodes: Seq<Node>, fields: Seq<FieldSpec>, layout: FieldLayout, i: int) -> nat {
    match layout {
        FieldLayout::Auto => spec_field_sum(nodes, fields.subrange(0, i)),
        FieldLayout::Manual => fields[i].range->Some_0.start_bit as nat,
    }
}

/// `defs` is the offset table the planner owes for these fields: same types
/// and markers, planned offsets, each field within the width, and in auto
/// layout offsets that are the running sums of the widths.
pub open spec fn planned(
    nodes: Seq<Node>,
    fields: Seq<FieldSpec>,
    layout: FieldLayout,
    width: nat,
    defs: Seq<FieldDef>,
) -> bool {
    &&& defs.len() == fields.len()
    &&& forall|i: int|
        0 <= i < fields.len() ==> #[trigger] defs[i] == (FieldDef {
            ty: fields[i].ty,
            offset: planned_offset(nodes, fields, layout, i) as u32,
            reserved: fields[i].reserved,
        })
    &&& forall|i: int|
        0 <= i < defs.len() ==> #[trigger] defs[i].offset + nodes[defs[i].ty as int].width <= width
    &&& layout == FieldLayout::Auto ==> {
        &&& forall|i: int|
            0 <= i < defs.len() ==> #[trigger] defs[i].offset == field_width_sum(
                nodes,
                defs.subrange(0, i),
            )
        &&& field_width_sum(nodes, defs) == width
    }
}

// ------------------------------------------------------------------- enums

/// Two variants share a discriminant.
pub open spec fn has_duplicates(vals: Seq<u128>) -> bool {
    exists|i: int, j: int|
        0 <= i < vals.len() && 0 <= j < vals.len() && i != j && #[trigger] vals[i] == #[trigger] vals[j]
}

/// A variant other than the fallback carries a payload.
pub open spec fn non_unit_variant(vs: Seq<VariantSpec>, fb: Option<Fallback>) -> bool {
    exists|i: int| 0 <= i < vs.len() && i != fallback_index(fb) && #[trigger] vs[i].payload != Payload::Unit
}

/// Every pattern of the width has its own variant.
pub open spec fn exhaustive(count: nat, width: u32) -> bool {
    count == low_mask(width as u128) + 1
}

/// Why an enum cannot be registered, if it cannot, checked in this order: its
/// width, its variant count, its fallback, the payloads of the other
/// variants, whether decoding is infallible exactly when it should be, its
/// discriminants, and its default variant.
pub open spec fn enum_error(
    vs: Seq<VariantSpec>,
    width: u32,
    default_variant: Option<usize>,
    infallible: bool,
) -> Option<SchemaError> {
    if !(1 <= width <= 64) {
        Some(SchemaError::InvalidWidth)
    } else if vs.len() == 0 {
        Some(SchemaError::NoVariants)
    } else if vs.len() > low_mask(width as u128) + 1 {
        Some(SchemaError::TooManyVariants)
    } else {
        match fallback_of(vs, width) {
            Err(e) => Some(e),
            Ok(fb) => if !infallible && fb is Some {
                Some(SchemaError::FallbackWithFallible)
            } else if non_unit_variant(vs, fb) {
                Some(SchemaError::UnsupportedVariant)
            } else if infallible && exhaustive(vs.len(), width) && fb is Some {
                Some(SchemaError::FallbackOnExhaustive)
            } else if infallible && !exhaustive(vs.len(), width) && fb is None {
                Some(SchemaError::NotFilled)
            } else {
                match assigned_values(vs, width as u8) {
                    None => Some(SchemaError::DiscriminantOutOfRange),
                    Some(vals) => if has_duplicates(vals) {
                        Some(SchemaError::DuplicateDiscriminant)
                    } else {
                        match default_variant {
                            Some(d) => if d >= vs.len() || fb == Some(Fallback::WithValue(d)) {
                                Some(SchemaError::InvalidDefault)
                            } else {
                                None
                            },
                            None => None,
                        }
                    },
                }
            },
        }
    }
}

/// `r` is what decoding type `t` at bit `off` of `p` must give: every leaf
/// when all are valid, an error when one is not.
pub open spec fn decodes_as(nodes: Seq<Node>, t: int, p: u128, off: int, r: Result<Vec<Leaf>, BitsError>) -> bool {
    match r {
        Ok(v) => v@.len() == nodes[t].slots.len() && forall|j: int|
            0 <= j < v@.len() ==> decoded(nodes, t, p, off)[j] == Some(#[trigger] v@[j]),
        Err(_) => exists|j: int|
            0 <= j < nodes[t].slots.len() && #[trigger] decoded(nodes, t, p, off)[j] is None,
    }
}

/// Number of fields that are not reserved.
pub open spec fn open_count(fields: Seq<FieldDef>) -> nat
    decreases fields.len(),
{
    if fields.len() == 0 {
        0
    } else {
        open_count(fields.drop_last()) + if fields.last().reserved {
            0nat
        } else {
            1nat
        }
    }
}

/// The packed value built from zero by writing each field that is not
/// reserved, in order, from the next value of `values`.
#[verifier::opaque]
pub open spec fn constructed(nodes: Seq<Node>, fields: Seq<FieldDef>, values: Seq<Vec<Leaf>>) -> u128
    decreases fields.len(),
{
    if fields.len() == 0 {
        0
    } else {
        let prev = constructed(nodes, fields.drop_last(), values);
        let f = fields.last();
        if f.reserved {
            prev
        } else {
            let v = values[open_count(fields.drop_last()) as int]@;
            encoded(nodes, f.ty as int, prev, f.offset as int, v, v.len())
        }
    }
}

/// One fitting value per field that is not reserved, in field order.
#[verifier::opaque]
pub open spec fn constructor_args_fit(nodes: Seq<Node>, fields: Seq<FieldDef>, values: Seq<Vec<Leaf>>) -> bool {
    &&& values.len() == open_count(fields)
    &&& forall|i: int|
        0 <= i < fields.len() && !fields[i].reserved ==> value_fits(
            nodes,
            fields[i].ty as int,
            values[open_count(#[trigger] fields.subrange(0, i)) as int]@,
        )
}

/// The validity of a record is that of each of its fields.
pub proof fn lemma_record_valid_unfold(nodes: Seq<Node>, r: int, raw: u128)
    requires
        0 <= r < nodes.len(),
        nodes[r].kind is Record,
    ensures
        record_valid(nodes, r, raw) == forall|i: int|
            0 <= i < record_def(nodes, r).fields.len() ==> field_valid(
                nodes,
                r,
                #[trigger] record_def(nodes, r).fields@[i],
                raw,
            ),
{
}

} // verus!
