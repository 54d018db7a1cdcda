//! Properties of the codec and of the schema analyses, proved once for all inputs.
use crate::bits::{
    field_of, lemma_get_set_disjoint, lemma_get_set_same, lemma_low_mask_step, lemma_masked_fits,
    lemma_writes_commute, low_mask, with_field,
};
use crate::fallback::Fallback;
use crate::record::{field, has_field};
use crate::schema::{
    constructed, constructor_args_fit, decoded, encoded, enum_decode, enum_def, exhaustive,
    fallback_index, field_leaf_bits, field_valid, field_width_sum, first_match, leaf_fits, leaf_of,
    lemma_node_facts, node_wf, open_count, raw_of, record_def, record_valid, slot_ref_ok,
    slot_valid, value_fits, FieldDef, FieldLayout, Leaf, Node, Schema, Slot, SlotKind,
};
use vstd::prelude::*;
use vstd::set_lib::{lemma_int_range, lemma_len_subset, set_int_range};

verus! {

broadcast use vstd::set::group_set_axioms;

/// With distinct discriminants, the first match of a variant's own
/// discriminant is that variant, unless it is skipped.
proof fn lemma_first_match_own(values: Seq<u128>, skip: int, i: int, n: nat)
    requires
        0 <= i < values.len(),
        n <= values.len(),
        forall|a: int, b: int|
            0 <= a < values.len() && 0 <= b < values.len() && a != b ==> #[trigger] values[a]
                != #[trigger] values[b],
    ensures
        first_match(values, skip, values[i], n) == if i < n && i != skip {
            Some(i as usize)
        } else {
            None::<usize>
        },
    decreases n,
{
    if n > 0 {
        lemma_first_match_own(values, skip, i, (n - 1) as nat);
    }
}

/// Some unskipped variant below `n` has discriminant `raw`: a match is found.
proof fn lemma_first_match_found(values: Seq<u128>, skip: int, raw: u128, n: nat, i: int)
    requires
        0 <= i < n <= values.len(),
        i != skip,
        values[i] == raw,
    ensures
        first_match(values, skip, raw, n) is Some,
    decreases n,
{
    if i < n - 1 {
        lemma_first_match_found(values, skip, raw, (n - 1) as nat, i);
    }
}

/// A found match is a variant, other than `skip`, with that discriminant.
proof fn lemma_first_match_sound(values: Seq<u128>, skip: int, raw: u128, n: nat)
    requires
        n <= values.len(),
        values.len() <= usize::MAX,
        first_match(values, skip, raw, n) is Some,
    ensures
        ({
            let i = first_match(values, skip, raw, n)->Some_0 as int;
            0 <= i < n && i != skip && values[i] == raw
        }),
    decreases n,
{
    if n > 0 && first_match(values, skip, raw, (n - 1) as nat) is Some {
        lemma_first_match_sound(values, skip, raw, (n - 1) as nat);
    }
}

/// Pigeonhole: `2^w` distinct discriminants below `2^w` cover every pattern.
proof fn lemma_exhaustive_covers(values: Seq<u128>, w: u32, raw: u128)
    requires
        1 <= w <= 64,
        exhaustive(values.len(), w),
        raw <= low_mask(w as u128),
        forall|i: int| 0 <= i < values.len() ==> #[trigger] values[i] <= low_mask(w as u128),
        forall|a: int, b: int|
            0 <= a < values.len() && 0 <= b < values.len() && a != b ==> #[trigger] values[a]
                != #[trigger] values[b],
    ensures
        exists|i: int| 0 <= i < values.len() && values[i] == raw,
{
    let m = low_mask(w as u128) as int;
    let ints = values.map_values(|x: u128| x as int);
    assert(ints.no_duplicates()) by {
        assert forall|a: int, b: int|
            0 <= a < ints.len() && 0 <= b < ints.len() && a != b implies ints[a] != ints[b] by {
            assert(values[a] != values[b]);
        }
    }
    ints.unique_seq_to_set();
    let s = ints.to_set();
    if !(exists|i: int| 0 <= i < values.len() && values[i] == raw) {
        let range = set_int_range(0, m + 1).remove(raw as int);
        lemma_int_range(0, m + 1);
        assert(set_int_range(0, m + 1).contains(raw as int));
        assert(s.subset_of(range)) by {
            assert forall|x: int| s.contains(x) implies range.contains(x) by {
                let i = choose|i: int| 0 <= i < ints.len() && ints[i] == x;
                assert(values[i] <= low_mask(w as u128));
                assert(values[i] != raw);
            }
        }
        lemma_len_subset(s, range);
        assert(false);
    }
}

/// Decoding every pattern of a filled enum succeeds: with a fallback
/// trivially, without one because its variants cover every pattern.
pub proof fn lemma_filled_enum_total(s: Schema, e: int, raw: u128)
    requires
        s.wf(),
        0 <= e < s.nodes.len(),
        s.nodes@[e].kind is Enum,
        s.nodes@[e].filled,
        raw <= low_mask(s.width_of(e) as u128),
    ensures
        enum_decode(enum_def(s.nodes@, e), raw) is Some,
{
    let nodes = s.nodes@;
    assert(node_wf(nodes, e));
    reveal(node_wf);
    let def = enum_def(nodes, e);
    let values = def.values@;
    if def.fallback is None {
        lemma_exhaustive_covers(values, nodes[e].width, raw);
        let i = choose|i: int| 0 <= i < values.len() && values[i] == raw;
        lemma_first_match_found(values, fallback_index(def.fallback), raw, values.len() as nat, i);
    }
}

/// An enum with a value-carrying fallback loses nothing: every pattern of its
/// width decodes to a value whose pattern is the one it came from.
pub proof fn lemma_value_fallback_preserves(s: Schema, e: int, raw: u128)
    requires
        s.wf(),
        0 <= e < s.nodes.len(),
        s.nodes@[e].kind is Enum,
        enum_def(s.nodes@, e).fallback matches Some(Fallback::WithValue(_)),
        raw <= low_mask(s.width_of(e) as u128),
    ensures
        enum_decode(enum_def(s.nodes@, e), raw) is Some,
        raw_of(s.nodes@, s.slots_of(e)[0], enum_decode(enum_def(s.nodes@, e), raw)->Some_0) == raw,
{
    let nodes = s.nodes@;
    assert(node_wf(nodes, e));
    lemma_node_facts(nodes, e);
    let def = enum_def(nodes, e);
    let fm = first_match(def.values@, fallback_index(def.fallback), raw, def.values.len() as nat);
    if fm is Some {
        lemma_first_match_sound(def.values@, fallback_index(def.fallback), raw, def.values.len() as nat);
    }
}

/// Reading a slot back after the whole value was written gives that leaf's pattern.
proof fn lemma_encoded_reads(nodes: Seq<Node>, t: int, p: u128, off: int, v: Seq<Leaf>, n: nat, j: int)
    requires
        node_wf(nodes, t),
        0 <= off,
        off + nodes[t].width <= 128,
        0 <= j < n <= nodes[t].slots.len(),
    ensures
        ({
            let sl = nodes[t].slots@[j];
            field_of(encoded(nodes, t, p, off, v, n), (off + sl.offset) as u128, sl.width as u128)
                == raw_of(nodes, sl, v[j]) & low_mask(sl.width as u128)
        }),
    decreases n,
{
    lemma_node_facts(nodes, t);
    let sls = nodes[t].slots@;
    let last = sls[n - 1];
    let sl = sls[j];
    let prev = encoded(nodes, t, p, off, v, (n - 1) as nat);
    if j == n - 1 {
        lemma_get_set_same(prev, (off + sl.offset) as u128, sl.width as u128, raw_of(nodes, sl, v[j]));
    } else {
        lemma_encoded_reads(nodes, t, p, off, v, (n - 1) as nat, j);
        assert(sl.offset + sl.width <= last.offset);
        lemma_get_set_disjoint(
            prev,
            (off + last.offset) as u128,
            last.width as u128,
            raw_of(nodes, last, v[n - 1]),
            (off + sl.offset) as u128,
            sl.width as u128,
        );
    }
}

/// Writing a value of type `t` at `off` leaves every bit range outside
/// `[off, off + width)` as it was.
pub proof fn lemma_encoded_keeps_outside(
    nodes: Seq<Node>,
    t: int,
    p: u128,
    off: int,
    v: Seq<Leaf>,
    n: nat,
    o: int,
    w: int,
)
    requires
        node_wf(nodes, t),
        0 <= off,
        off + nodes[t].width <= 128,
        n <= nodes[t].slots.len(),
        0 <= o,
        0 <= w,
        o + w <= 128,
        o + w <= off || off + nodes[t].width <= o,
    ensures
        field_of(encoded(nodes, t, p, off, v, n), o as u128, w as u128) == field_of(p, o as u128, w as u128),
    decreases n,
{
    if n > 0 {
        lemma_node_facts(nodes, t);
        let last = nodes[t].slots@[n - 1];
        lemma_encoded_keeps_outside(nodes, t, p, off, v, (n - 1) as nat, o, w);
        lemma_get_set_disjoint(
            encoded(nodes, t, p, off, v, (n - 1) as nat),
            (off + last.offset) as u128,
            last.width as u128,
            raw_of(nodes, last, v[n - 1]),
            o as u128,
            w as u128,
        );
    }
}

/// A fitting leaf reads back as itself from its own pattern.
proof fn lemma_leaf_round_trip(s: Schema, sl: Slot, l: Leaf)
    requires
        s.wf(),
        slot_ref_ok(s.nodes@, s.nodes.len() as int, sl, false),
        leaf_fits(s.nodes@, sl, l),
    ensures
        raw_of(s.nodes@, sl, l) & low_mask(sl.width as u128) == raw_of(s.nodes@, sl, l),
        leaf_of(s.nodes@, sl, raw_of(s.nodes@, sl, l)) == Some(l),
{
    let nodes = s.nodes@;
    let raw = raw_of(nodes, sl, l);
    let m = low_mask(sl.width as u128);
    match l {
        Leaf::Bool(b) => {
            assert(1u128 & !(u128::MAX << 1u128) == 1u128) by (bit_vector);
            assert(0u128 & !(u128::MAX << 1u128) == 0u128) by (bit_vector);
        },
        Leaf::Signed(v) => {
            lemma_low_mask_step(sl.width as u128);
            lemma_masked_fits(raw, sl.width as u128);
        },
        Leaf::Variant(i) => {
            let e = sl.kind->Enum_0 as int;
            assert(node_wf(nodes, e));
            lemma_node_facts(nodes, e);
            let def = enum_def(nodes, e);
            lemma_first_match_own(def.values@, fallback_index(def.fallback), i as int, def.values.len() as nat);
            lemma_masked_fits(raw, sl.width as u128);
        },
        _ => {
            lemma_masked_fits(raw, sl.width as u128);
        },
    }
}

/// Decoding what was encoded gives back the value, leaf by leaf, whatever
/// the packed value held before.
pub proof fn lemma_round_trip(s: Schema, t: int, p: u128, off: int, v: Seq<Leaf>)
    requires
        s.wf(),
        0 <= t < s.nodes.len(),
        0 <= off,
        off + s.width_of(t) <= 128,
        value_fits(s.nodes@, t, v),
    ensures
        forall|j: int|
            0 <= j < v.len() ==> #[trigger] decoded(s.nodes@, t, encoded(s.nodes@, t, p, off, v, v.len()), off)[j]
                == Some(v[j]),
{
    let nodes = s.nodes@;
    assert(node_wf(nodes, t));
    lemma_node_facts(nodes, t);
    assert forall|j: int| 0 <= j < v.len() implies #[trigger] decoded(
        nodes,
        t,
        encoded(nodes, t, p, off, v, v.len()),
        off,
    )[j] == Some(v[j]) by {
        let sl = nodes[t].slots@[j];
        assert(slot_ref_ok(nodes, t + 1, sl, nodes[t].filled));
        lemma_encoded_reads(nodes, t, p, off, v, v.len(), j);
        lemma_leaf_round_trip(s, sl, v[j]);
    }
}

/// Setting one field of a record leaves what another field decodes to
/// unchanged, when their bit ranges do not overlap.
pub proof fn lemma_set_keeps_other_field(s: Schema, r: int, f: int, g: int, p: u128, v: Seq<Leaf>)
    requires
        s.wf(),
        has_field(s, r, f),
        has_field(s, r, g),
        value_fits(s.nodes@, field(s, r, f).ty as int, v),
        field(s, r, f).offset + s.width_of(field(s, r, f).ty as int) <= field(s, r, g).offset
            || field(s, r, g).offset + s.width_of(field(s, r, g).ty as int) <= field(s, r, f).offset,
    ensures
        decoded(
            s.nodes@,
            field(s, r, g).ty as int,
            encoded(s.nodes@, field(s, r, f).ty as int, p, field(s, r, f).offset as int, v, v.len()),
            field(s, r, g).offset as int,
        ) == decoded(s.nodes@, field(s, r, g).ty as int, p, field(s, r, g).offset as int),
{
    let nodes = s.nodes@;
    let ff = field(s, r, f);
    let gf = field(s, r, g);
    assert(node_wf(nodes, r));
    lemma_node_facts(nodes, r);
    assert(record_def(nodes, r).fields@[f] == ff);
    assert(record_def(nodes, r).fields@[g] == gf);
    assert(node_wf(nodes, ff.ty as int));
    assert(node_wf(nodes, gf.ty as int));
    lemma_node_facts(nodes, gf.ty as int);
    lemma_node_facts(nodes, ff.ty as int);
    let q = encoded(nodes, ff.ty as int, p, ff.offset as int, v, v.len());
    let a = decoded(nodes, gf.ty as int, q, gf.offset as int);
    let b = decoded(nodes, gf.ty as int, p, gf.offset as int);
    assert forall|j: int| 0 <= j < a.len() implies a[j] == b[j] by {
        let sl = nodes[gf.ty as int].slots@[j];
        lemma_encoded_keeps_outside(
            nodes,
            ff.ty as int,
            p,
            ff.offset as int,
            v,
            v.len(),
            gf.offset + sl.offset,
            sl.width as int,
        );
    }
    assert(a == b);
}

/// In auto layout, a field's offset is the sum of the widths of the fields
/// before it, and all widths add up to the record's width.
pub proof fn lemma_auto_offsets(s: Schema, r: int, i: int)
    requires
        s.wf(),
        has_field(s, r, i),
        record_def(s.nodes@, r).layout == FieldLayout::Auto,
    ensures
        field(s, r, i).offset == field_width_sum(s.nodes@, record_def(s.nodes@, r).fields@.subrange(0, i)),
        field_width_sum(s.nodes@, record_def(s.nodes@, r).fields@) == s.width_of(r),
{
    assert(node_wf(s.nodes@, r));
    lemma_node_facts(s.nodes@, r);
}

/// Every pattern of a filled record is valid: decoding it never fails.
pub proof fn lemma_filled_record_valid(s: Schema, r: int, raw: u128)
    requires
        s.wf(),
        0 <= r < s.nodes.len(),
        s.nodes@[r].kind is Record,
        s.nodes@[r].filled,
    ensures
        record_valid(s.nodes@, r, raw),
    decreases r,
{
    let nodes = s.nodes@;
    assert(node_wf(nodes, r));
    reveal(node_wf);
    let fields = record_def(nodes, r).fields@;
    assert forall|i: int| 0 <= i < fields.len() implies field_valid(nodes, r, #[trigger] fields[i], raw) by {
        let f = fields[i];
        let ty = f.ty as int;
        assert(nodes[ty].filled);
        assert(node_wf(nodes, ty));
        lemma_node_facts(nodes, ty);
        assert forall|j: int| 0 <= j < nodes[ty].slots.len() implies slot_valid(
            nodes,
            r,
            nodes[ty].slots@[j],
            #[trigger] field_leaf_bits(nodes, f, j, raw),
        ) by {
            let sl = nodes[ty].slots@[j];
            assert(slot_ref_ok(nodes, ty + 1, sl, true));
            let bits = field_leaf_bits(nodes, f, j, raw);
            crate::bits::lemma_field_fits(raw, (f.offset + sl.offset) as u128, sl.width as u128);
            match sl.kind {
                SlotKind::Record(q) => {
                    lemma_filled_record_valid(s, q as int, bits);
                },
                SlotKind::Enum(e) => {
                    lemma_filled_enum_total(s, e as int, bits);
                },
                _ => {},
            }
        }
    }
}

/// A write outside type `t`'s range commutes with writing a value of `t`.
proof fn lemma_encoded_commutes_with_write(
    nodes: Seq<Node>,
    t: int,
    p: u128,
    off: int,
    v: Seq<Leaf>,
    n: nat,
    a: int,
    wa: int,
    x: u128,
)
    requires
        node_wf(nodes, t),
        0 <= off,
        off + nodes[t].width <= 128,
        n <= nodes[t].slots.len(),
        0 <= a,
        1 <= wa,
        a + wa <= 128,
        a + wa <= off || off + nodes[t].width <= a,
    ensures
        encoded(nodes, t, with_field(p, a as u128, wa as u128, x), off, v, n) == with_field(
            encoded(nodes, t, p, off, v, n),
            a as u128,
            wa as u128,
            x,
        ),
    decreases n,
{
    if n > 0 {
        lemma_node_facts(nodes, t);
        let sl = nodes[t].slots@[n - 1];
        assert(slot_ref_ok(nodes, t + 1, sl, nodes[t].filled));
        lemma_encoded_commutes_with_write(nodes, t, p, off, v, (n - 1) as nat, a, wa, x);
        lemma_writes_commute(
            encoded(nodes, t, p, off, v, (n - 1) as nat),
            a as u128,
            wa as u128,
            x,
            (off + sl.offset) as u128,
            sl.width as u128,
            raw_of(nodes, sl, v[n - 1]),
        );
    }
}

proof fn lemma_encoded_commute_n(
    nodes: Seq<Node>,
    t1: int,
    off1: int,
    v1: Seq<Leaf>,
    n1: nat,
    t2: int,
    off2: int,
    v2: Seq<Leaf>,
    p: u128,
)
    requires
        node_wf(nodes, t1),
        node_wf(nodes, t2),
        0 <= off1,
        0 <= off2,
        off1 + nodes[t1].width <= 128,
        off2 + nodes[t2].width <= 128,
        n1 <= nodes[t1].slots.len(),
        v2.len() <= nodes[t2].slots.len(),
        off1 + nodes[t1].width <= off2 || off2 + nodes[t2].width <= off1,
    ensures
        encoded(nodes, t2, encoded(nodes, t1, p, off1, v1, n1), off2, v2, v2.len()) == encoded(
            nodes,
            t1,
            encoded(nodes, t2, p, off2, v2, v2.len()),
            off1,
            v1,
            n1,
        ),
    decreases n1,
{
    if n1 > 0 {
        lemma_node_facts(nodes, t1);
        let sl = nodes[t1].slots@[n1 - 1];
        assert(slot_ref_ok(nodes, t1 + 1, sl, nodes[t1].filled));
        lemma_encoded_commute_n(nodes, t1, off1, v1, (n1 - 1) as nat, t2, off2, v2, p);
        lemma_encoded_commutes_with_write(
            nodes,
            t2,
            encoded(nodes, t1, p, off1, v1, (n1 - 1) as nat),
            off2,
            v2,
            v2.len(),
            off1 + sl.offset,
            sl.width as int,
            raw_of(nodes, sl, v1[n1 - 1]),
        );
    }
}

/// Writing two values whose bit ranges do not overlap gives the same packed
/// value in either order; so records that place the same fields at the same
/// ranges build the same pattern whatever order declares them.
pub proof fn lemma_disjoint_writes_commute(
    s: Schema,
    t1: int,
    off1: int,
    v1: Seq<Leaf>,
    t2: int,
    off2: int,
    v2: Seq<Leaf>,
    p: u128,
)
    requires
        s.wf(),
        0 <= t1 < s.nodes.len(),
        0 <= t2 < s.nodes.len(),
        0 <= off1,
        0 <= off2,
        off1 + s.width_of(t1) <= 128,
        off2 + s.width_of(t2) <= 128,
        value_fits(s.nodes@, t1, v1),
        value_fits(s.nodes@, t2, v2),
        off1 + s.width_of(t1) <= off2 || off2 + s.width_of(t2) <= off1,
    ensures
        encoded(s.nodes@, t2, encoded(s.nodes@, t1, p, off1, v1, v1.len()), off2, v2, v2.len())
            == encoded(s.nodes@, t1, encoded(s.nodes@, t2, p, off2, v2, v2.len()), off1, v1, v1.len()),
{
    assert(node_wf(s.nodes@, t1));
    assert(node_wf(s.nodes@, t2));
    lemma_encoded_commute_n(s.nodes@, t1, off1, v1, v1.len(), t2, off2, v2, p);
}

/// `s` with the entries at `k` and `k + 1` exchanged.
pub open spec fn swap_adjacent<A>(s: Seq<A>, k: int) -> Seq<A> {
    s.update(k, s[k + 1]).update(k + 1, s[k])
}

proof fn lemma_open_count_swap(fields: Seq<FieldDef>, k: int, n: int)
    requires
        0 <= k,
        k + 1 < fields.len(),
        0 <= n <= fields.len(),
        n != k + 1,
    ensures
        open_count(swap_adjacent(fields, k).subrange(0, n)) == open_count(fields.subrange(0, n)),
    decreases n,
{
    let g = swap_adjacent(fields, k);
    if n > 0 {
        crate::record::lemma_open_count_prefix(g, n - 1);
        crate::record::lemma_open_count_prefix(fields, n - 1);
        if n - 1 == k + 1 {
            crate::record::lemma_open_count_prefix(g, k);
            crate::record::lemma_open_count_prefix(fields, k);
            assert(g.subrange(0, k) == fields.subrange(0, k));
        } else {
            lemma_open_count_swap(fields, k, n - 1);
        }
    }
}

proof fn lemma_constructed_swap(
    s: Schema,
    fields: Seq<FieldDef>,
    values: Seq<Vec<Leaf>>,
    k: int,
    n: int,
)
    requires
        s.wf(),
        0 <= k,
        k + 1 < fields.len(),
        k + 2 <= n <= fields.len() || 0 <= n <= k,
        !fields[k].reserved,
        !fields[k + 1].reserved,
        constructor_args_fit(s.nodes@, fields, values),
        forall|i: int|
            0 <= i < fields.len() ==> #[trigger] fields[i].ty < s.nodes.len() && fields[i].offset
                + s.width_of(fields[i].ty as int) <= 128,
        fields[k].offset + s.width_of(fields[k].ty as int) <= fields[k + 1].offset
            || fields[k + 1].offset + s.width_of(fields[k + 1].ty as int) <= fields[k].offset,
    ensures
        constructed(
            s.nodes@,
            swap_adjacent(fields, k).subrange(0, n),
            swap_adjacent(values, open_count(fields.subrange(0, k)) as int),
        ) == constructed(s.nodes@, fields.subrange(0, n), values),
    decreases n,
{
    reveal(constructed);
    let nodes = s.nodes@;
    let g = swap_adjacent(fields, k);
    let j = open_count(fields.subrange(0, k)) as int;
    let w = swap_adjacent(values, j);
    reveal(constructor_args_fit);
    crate::record::lemma_open_count_mono(fields, k + 2);
    crate::record::lemma_open_count_prefix(fields, k);
    crate::record::lemma_open_count_prefix(fields, k + 1);
    assert(j + 1 < values.len());
    if n == 0 {
        assert(g.subrange(0, 0) == fields.subrange(0, 0));
    } else if n <= k {
        assert(g.subrange(0, n).drop_last() == g.subrange(0, n - 1));
        assert(fields.subrange(0, n).drop_last() == fields.subrange(0, n - 1));
        lemma_constructed_swap(s, fields, values, k, n - 1);
        lemma_open_count_swap(fields, k, n - 1);
        crate::record::lemma_open_count_prefix(fields, n - 1);
        crate::record::lemma_open_count_mono(fields.subrange(0, k), n);
        assert(fields.subrange(0, k).subrange(0, n) == fields.subrange(0, n));
        assert(g.subrange(0, n).last() == fields.subrange(0, n).last());
        let c = open_count(fields.subrange(0, n - 1)) as int;
        if !fields[n - 1].reserved {
            assert(c < j);
            assert(w[c] == values[c]);
        }
        assert(constructed(nodes, g.subrange(0, n), w) == constructed(nodes, fields.subrange(0, n), values));
    } else if n == k + 2 {
        let gk = g.subrange(0, k);
        assert(gk == fields.subrange(0, k));
        assert(g.subrange(0, k + 2).drop_last() == g.subrange(0, k + 1));
        assert(g.subrange(0, k + 1).drop_last() == gk);
        assert(fields.subrange(0, k + 2).drop_last() == fields.subrange(0, k + 1));
        assert(fields.subrange(0, k + 1).drop_last() == fields.subrange(0, k));
        lemma_constructed_swap(s, fields, values, k, k);
        let base = constructed(nodes, fields.subrange(0, k), values);
        let a = fields[k];
        let b = fields[k + 1];
        let fa = fields.subrange(0, k + 1);
        assert(fa[k] == a);
        assert(!a.reserved);
        assert(value_fits(nodes, a.ty as int, values[open_count(fields.subrange(0, k)) as int]@));
        assert(value_fits(nodes, b.ty as int, values[open_count(fields.subrange(0, k + 1)) as int]@));
        assert(node_wf(nodes, a.ty as int));
        assert(node_wf(nodes, b.ty as int));
        lemma_encoded_commute_n(
            nodes,
            a.ty as int,
            a.offset as int,
            values[j]@,
            values[j]@.len(),
            b.ty as int,
            b.offset as int,
            values[j + 1]@,
            base,
        );
        crate::record::lemma_open_count_prefix(g, k);
        assert(open_count(g.subrange(0, k)) == j);
        assert(open_count(g.subrange(0, k + 1)) == j + 1);
        assert(g.subrange(0, k + 1).last() == b);
        assert(g.subrange(0, k + 2).last() == a);
        assert(fields.subrange(0, k + 1).last() == a);
        assert(fields.subrange(0, k + 2).last() == b);
        assert(w[j] == values[j + 1]);
        assert(w[j + 1] == values[j]);
        let va = values[j]@;
        let vb = values[j + 1]@;
        let cg1 = constructed(nodes, g.subrange(0, k + 1), w);
        assert(cg1 == encoded(nodes, b.ty as int, base, b.offset as int, vb, vb.len()));
        assert(constructed(nodes, g.subrange(0, k + 2), w) == encoded(nodes, a.ty as int, cg1, a.offset as int, va, va.len()));
        let cf1 = constructed(nodes, fields.subrange(0, k + 1), values);
        assert(cf1 == encoded(nodes, a.ty as int, base, a.offset as int, va, va.len()));
        assert(constructed(nodes, fields.subrange(0, k + 2), values) == encoded(nodes, b.ty as int, cf1, b.offset as int, vb, vb.len()));
        assert(constructed(nodes, g.subrange(0, n), w) == constructed(nodes, fields.subrange(0, n), values));
    } else {
        assert(g.subrange(0, n).drop_last() == g.subrange(0, n - 1));
        assert(fields.subrange(0, n).drop_last() == fields.subrange(0, n - 1));
        lemma_constructed_swap(s, fields, values, k, n - 1);
        lemma_open_count_swap(fields, k, n - 1);
        crate::record::lemma_open_count_mono(fields, n);
        crate::record::lemma_open_count_mono(fields.subrange(0, n - 1), k + 2);
        crate::record::lemma_open_count_prefix(fields, n - 1);
        assert(fields.subrange(0, n - 1).subrange(0, k + 2) == fields.subrange(0, k + 2));
        assert(fields.subrange(0, k + 2).drop_last() == fields.subrange(0, k + 1));
        assert(g.subrange(0, n).last() == fields.subrange(0, n).last());
        let c = open_count(fields.subrange(0, n - 1)) as int;
        assert(c >= j + 2);
        if !fields[n - 1].reserved {
            assert(w[c] == values[c]);
        }
        assert(constructed(nodes, g.subrange(0, n), w) == constructed(nodes, fields.subrange(0, n), values));
    }
}

/// Declaration order does not matter between two neighbouring fields whose
/// bit ranges do not overlap: exchanging them, and their constructor
/// values, builds the same packed value.
pub proof fn lemma_swap_disjoint_fields(s: Schema, fields: Seq<FieldDef>, values: Seq<Vec<Leaf>>, k: int)
    requires
        s.wf(),
        0 <= k,
        k + 1 < fields.len(),
        !fields[k].reserved,
        !fields[k + 1].reserved,
        constructor_args_fit(s.nodes@, fields, values),
        forall|i: int|
            0 <= i < fields.len() ==> #[trigger] fields[i].ty < s.nodes.len() && fields[i].offset
                + s.width_of(fields[i].ty as int) <= 128,
        fields[k].offset + s.width_of(fields[k].ty as int) <= fields[k + 1].offset
            || fields[k + 1].offset + s.width_of(fields[k + 1].ty as int) <= fields[k].offset,
    ensures
        constructed(
            s.nodes@,
            swap_adjacent(fields, k),
            swap_adjacent(values, open_count(fields.subrange(0, k)) as int),
        ) == constructed(s.nodes@, fields, values),
{
    lemma_constructed_swap(s, fields, values, k, fields.len() as int);
    assert(swap_adjacent(fields, k).subrange(0, fields.len() as int) == swap_adjacent(fields, k));
    assert(fields.subrange(0, fields.len() as int) == fields);
}

/// The bit ranges of two fields do not overlap.
pub open spec fn ranges_disjoint(s: Schema, a: FieldDef, b: FieldDef) -> bool {
    a.offset + s.width_of(a.ty as int) <= b.offset || b.offset + s.width_of(b.ty as int) <= a.offset
}

/// Fields none of which is reserved, at pairwise disjoint ranges, each with a
/// fitting value.
pub open spec fn disjoint_fields_with_values(s: Schema, fields: Seq<FieldDef>, values: Seq<Vec<Leaf>>) -> bool {
    &&& values.len() == fields.len()
    &&& forall|i: int|
        0 <= i < fields.len() ==> {
            &&& !(#[trigger] fields[i]).reserved
            &&& fields[i].ty < s.nodes.len()
            &&& fields[i].offset + s.width_of(fields[i].ty as int) <= 128
            &&& value_fits(s.nodes@, fields[i].ty as int, values[i]@)
        }
    &&& forall|i: int, j: int|
        0 <= i < fields.len() && 0 <= j < fields.len() && i != j ==> ranges_disjoint(
            s,
            #[trigger] fields[i],
            #[trigger] fields[j],
        )
}

/// `p` maps the positions of one list into those of another of length `n`,
/// no two to one.
pub open spec fn is_reordering(p: Seq<int>, n: nat) -> bool {
    &&& p.len() == n
    &&& forall|i: int| 0 <= i < n ==> 0 <= #[trigger] p[i] < n
    &&& forall|i: int, j: int| 0 <= i < n && 0 <= j < n && i != j ==> #[trigger] p[i] != #[trigger] p[j]
}

proof fn lemma_open_count_all(fields: Seq<FieldDef>, i: int)
    requires
        0 <= i <= fields.len(),
        forall|k: int| 0 <= k < fields.len() ==> !(#[trigger] fields[k]).reserved,
    ensures
        open_count(fields.subrange(0, i)) == i,
    decreases i,
{
    if i > 0 {
        crate::record::lemma_open_count_prefix(fields, i - 1);
        lemma_open_count_all(fields, i - 1);
    }
}

proof fn lemma_args_fit(s: Schema, fields: Seq<FieldDef>, values: Seq<Vec<Leaf>>)
    requires
        disjoint_fields_with_values(s, fields, values),
    ensures
        constructor_args_fit(s.nodes@, fields, values),
{
    reveal(constructor_args_fit);
    lemma_open_count_all(fields, fields.len() as int);
    assert(fields.subrange(0, fields.len() as int) == fields);
    assert forall|i: int| 0 <= i < fields.len() && !fields[i].reserved implies value_fits(
        s.nodes@,
        fields[i].ty as int,
        values[open_count(#[trigger] fields.subrange(0, i)) as int]@,
    ) by {
        lemma_open_count_all(fields, i);
    }
}

/// Only the first `fields.len()` values matter.
proof fn lemma_constructed_agree(nodes: Seq<Node>, fields: Seq<FieldDef>, v1: Seq<Vec<Leaf>>, v2: Seq<Vec<Leaf>>)
    requires
        forall|k: int| 0 <= k < fields.len() ==> !(#[trigger] fields[k]).reserved,
        forall|k: int| 0 <= k < fields.len() ==> #[trigger] v1[k] == v2[k],
    ensures
        constructed(nodes, fields, v1) == constructed(nodes, fields, v2),
    decreases fields.len(),
{
    reveal(constructed);
    if fields.len() > 0 {
        let d = fields.drop_last();
        lemma_constructed_agree(nodes, d, v1, v2);
        lemma_open_count_all(fields, fields.len() - 1);
        assert(fields.subrange(0, fields.len() - 1) == d);
        assert(v1[fields.len() - 1] == v2[fields.len() - 1]);
    }
}

/// `s` with its entry at `m` moved to the end.
pub open spec fn move_to_end<A>(s: Seq<A>, m: int) -> Seq<A> {
    s.remove(m).push(s[m])
}

proof fn lemma_move_to_end(s: Schema, fields: Seq<FieldDef>, values: Seq<Vec<Leaf>>, m: int)
    requires
        s.wf(),
        0 <= m < fields.len(),
        disjoint_fields_with_values(s, fields, values),
    ensures
        constructed(s.nodes@, fields, values) == constructed(
            s.nodes@,
            move_to_end(fields, m),
            move_to_end(values, m),
        ),
    decreases fields.len() - m,
{
    let n = fields.len() as int;
    if m == n - 1 {
        assert(move_to_end(fields, m) == fields);
        assert(move_to_end(values, m) == values);
    } else {
        lemma_args_fit(s, fields, values);
        lemma_open_count_all(fields, m);
        lemma_swap_disjoint_fields(s, fields, values, m);
        let f2 = swap_adjacent(fields, m);
        let v2 = swap_adjacent(values, m);
        assert forall|i: int| 0 <= i < n implies {
            &&& !(#[trigger] f2[i]).reserved
            &&& f2[i].ty < s.nodes.len()
            &&& f2[i].offset + s.width_of(f2[i].ty as int) <= 128
            &&& value_fits(s.nodes@, f2[i].ty as int, v2[i]@)
        } by {
            let o = if i == m { m + 1 } else if i == m + 1 { m } else { i };
            assert(f2[i] == fields[o]);
            assert(v2[i] == values[o]);
        }
        assert forall|i: int, j: int|
            0 <= i < n && 0 <= j < n && i != j implies ranges_disjoint(s, #[trigger] f2[i], #[trigger] f2[j]) by {
            let oi = if i == m { m + 1 } else if i == m + 1 { m } else { i };
            let oj = if j == m { m + 1 } else if j == m + 1 { m } else { j };
            assert(f2[i] == fields[oi]);
            assert(f2[j] == fields[oj]);
        }
        lemma_move_to_end(s, f2, v2, m + 1);
        assert(move_to_end(f2, m + 1) == move_to_end(fields, m));
        assert(move_to_end(v2, m + 1) == move_to_end(values, m));
    }
}

/// Declaration order does not matter for fields at non-overlapping ranges:
/// building a record from the same fields and values in any other order
/// gives the same packed value.
pub proof fn lemma_reordered_fields(
    s: Schema,
    f1: Seq<FieldDef>,
    v1: Seq<Vec<Leaf>>,
    f2: Seq<FieldDef>,
    v2: Seq<Vec<Leaf>>,
    p: Seq<int>,
)
    requires
        s.wf(),
        disjoint_fields_with_values(s, f1, v1),
        is_reordering(p, f1.len()),
        f2.len() == f1.len(),
        v2.len() == f1.len(),
        forall|i: int| 0 <= i < f1.len() ==> #[trigger] f2[i] == f1[p[i]] && v2[i] == v1[p[i]],
    ensures
        constructed(s.nodes@, f2, v2) == constructed(s.nodes@, f1, v1),
    decreases f1.len(),
{
    reveal(constructed);
    let n = f1.len() as int;
    if n > 0 {
        let m = p[n - 1];
        lemma_move_to_end(s, f1, v1, m);
        let g = f1.remove(m);
        let w = v1.remove(m);
        let q = Seq::new((n - 1) as nat, |i: int| if p[i] < m { p[i] } else { p[i] - 1 });
        assert forall|i: int| 0 <= i < n - 1 implies 0 <= #[trigger] q[i] < n - 1 by {
            assert(p[i] != p[n - 1]);
        }
        assert(is_reordering(q, (n - 1) as nat)) by {
            assert forall|i: int, j: int|
                0 <= i < n - 1 && 0 <= j < n - 1 && i != j implies #[trigger] q[i] != #[trigger] q[j] by {
                assert(p[i] != p[j]);
                assert(p[i] != p[n - 1]);
                assert(p[j] != p[n - 1]);
            }
        }
        assert(disjoint_fields_with_values(s, g, w)) by {
            assert forall|i: int| 0 <= i < n - 1 implies {
                &&& !(#[trigger] g[i]).reserved
                &&& g[i].ty < s.nodes.len()
                &&& g[i].offset + s.width_of(g[i].ty as int) <= 128
                &&& value_fits(s.nodes@, g[i].ty as int, w[i]@)
            } by {
                let o = if i < m { i } else { i + 1 };
                assert(g[i] == f1[o]);
                assert(w[i] == v1[o]);
            }
            assert forall|i: int, j: int|
                0 <= i < n - 1 && 0 <= j < n - 1 && i != j implies ranges_disjoint(s, #[trigger] g[i], #[trigger] g[j]) by {
                let oi = if i < m { i } else { i + 1 };
                let oj = if j < m { j } else { j + 1 };
                assert(g[i] == f1[oi]);
                assert(g[j] == f1[oj]);
            }
        }
        let f2d = f2.drop_last();
        let v2d = v2.drop_last();
        assert forall|i: int| 0 <= i < n - 1 implies #[trigger] f2d[i] == g[q[i]] && v2d[i] == w[q[i]] by {
            assert(p[i] != p[n - 1]);
            assert(f2[i] == f1[p[i]]);
        }
        lemma_reordered_fields(s, g, w, f2d, v2d, q);
        let mf = move_to_end(f1, m);
        let mv = move_to_end(v1, m);
        assert(mf.drop_last() == g);
        lemma_open_count_all(mf, n - 1);
        lemma_open_count_all(f2, n - 1);
        assert(forall|k: int| 0 <= k < n ==> !(#[trigger] mf[k]).reserved) by {
            assert forall|k: int| 0 <= k < n implies !(#[trigger] mf[k]).reserved by {
                let o = if k < m { k } else if k < n - 1 { k + 1 } else { m };
                assert(mf[k] == f1[o]);
            }
        }
        assert(forall|k: int| 0 <= k < n ==> !(#[trigger] f2[k]).reserved) by {
            assert forall|k: int| 0 <= k < n implies !(#[trigger] f2[k]).reserved by {
                assert(f2[k] == f1[p[k]]);
            }
        }
        assert(mf.subrange(0, n - 1) == g);
        assert(f2.subrange(0, n - 1) == f2d);
        lemma_constructed_agree(s.nodes@, g, mv, w);
        assert forall|k: int| 0 <= k < n - 1 implies #[trigger] v2[k] == v2d[k] by {}
        lemma_constructed_agree(s.nodes@, f2d, v2, v2d);
        assert(f2[n - 1] == f1[m]);
        assert(mv[n - 1] == v1[m]);
        assert(v2[n - 1] == v1[m]);
        assert(mf[n - 1] == f1[m]);
        assert(constructed(s.nodes@, f2, v2) == constructed(s.nodes@, mf, mv));
    } else {
        assert(f1 == f2);
    }
}

} // verus!
