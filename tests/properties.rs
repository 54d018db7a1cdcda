use bilge::error::{give_me_error, BitsError, SchemaError};
use bilge::fallback::{Payload, VariantSpec};
use bilge::schema::{Access, BitRange, FieldLayout, FieldSpec, Leaf, Schema};

fn field(ty: usize) -> FieldSpec {
    FieldSpec { ty, range: None, reserved: false }
}

fn placed(ty: usize, start_bit: usize, bit_size: usize) -> FieldSpec {
    FieldSpec { ty, range: Some(BitRange { start_bit, bit_size, access: Access::ReadWrite }), reserved: false }
}

fn un(x: u128) -> Vec<Leaf> {
    vec![Leaf::Unsigned(x)]
}

#[test]
fn auto_layout_offsets_are_running_sums() {
    let mut s = Schema::new();
    let u4 = s.add_unsigned(4).unwrap();
    let u7 = s.add_unsigned(7).unwrap();
    let u3 = s.add_unsigned(3).unwrap();
    let r = s.add_record(&vec![field(u4), field(u7), field(u3)], 14, FieldLayout::Auto, true).unwrap();
    assert_eq!(s.field_at(r, 0).offset, 0);
    assert_eq!(s.field_at(r, 1).offset, 4);
    assert_eq!(s.field_at(r, 2).offset, 11);
    assert_eq!(s.bit_width(r), 14);
}

#[test]
fn twenty_four_bit_record_scenario() {
    let mut s = Schema::new();
    let b = s.add_bool();
    let u1 = s.add_unsigned(1).unwrap();
    let u8t = s.add_unsigned(8).unwrap();
    let fields = vec![field(b), field(b), field(b), field(u1), field(b), field(b), field(b), field(b), field(u8t), field(u8t)];
    let r = s.add_record(&fields, 24, FieldLayout::Auto, true).unwrap();
    let p = s.from_raw(r, 0b11100111_00001111_00111001);
    assert_eq!(s.get_field(r, p, 0), Ok(vec![Leaf::Bool(true)]));
    assert_eq!(s.get_field(r, p, 1), Ok(vec![Leaf::Bool(false)]));
    assert_eq!(s.get_field(r, p, 2), Ok(vec![Leaf::Bool(false)]));
    assert_eq!(s.get_field(r, p, 8), Ok(un(0b00001111)));
    assert_eq!(s.get_field(r, p, 9), Ok(un(0b11100111)));
}

#[test]
fn manual_layout_order_does_not_matter() {
    let mut s = Schema::new();
    let u4 = s.add_unsigned(4).unwrap();
    let u8t = s.add_unsigned(8).unwrap();
    let a = s.add_record(&vec![placed(u4, 0, 4), placed(u8t, 8, 8)], 16, FieldLayout::Manual, true).unwrap();
    let b = s.add_record(&vec![placed(u8t, 8, 8), placed(u4, 0, 4)], 16, FieldLayout::Manual, true).unwrap();
    let pa = s.new_record(a, &vec![un(0xa), un(0x5c)]);
    let pb = s.new_record(b, &vec![un(0x5c), un(0xa)]);
    assert_eq!(pa, pb);
    assert_eq!(pa, 0x5c0a);
    assert_eq!(s.field_at(a, 1).offset, 8);
    assert_eq!(s.get_field(b, pb, 1), Ok(un(0xa)));
}

#[test]
fn manual_layout_allows_gaps_and_overlaps() {
    let mut s = Schema::new();
    let u8t = s.add_unsigned(8).unwrap();
    let u4 = s.add_unsigned(4).unwrap();
    let r = s.add_record(&vec![placed(u8t, 0, 8), placed(u4, 4, 4)], 32, FieldLayout::Manual, true).unwrap();
    let p = s.from_raw(r, 0xab);
    assert_eq!(s.get_field(r, p, 0), Ok(un(0xab)));
    assert_eq!(s.get_field(r, p, 1), Ok(un(0xa)));
}

#[test]
fn round_trip_on_every_kind() {
    let mut s = Schema::new();
    let u5 = s.add_unsigned(5).unwrap();
    let i5 = s.add_signed(5).unwrap();
    let b = s.add_bool();
    let e = s.add_enum(&vec![VariantSpec { discriminant: None, fallback: false, payload: Payload::Unit }; 4], 2, None, true).unwrap();
    let inner = s.add_record(&vec![field(u5), field(b)], 6, FieldLayout::Auto, true).unwrap();
    let t = s.add_tuple(vec![u5, i5, b, e, inner]).unwrap();
    let arr = s.add_array(t, 3).unwrap();
    assert_eq!(s.bit_width(arr), 3 * 19);
    let one = vec![Leaf::Unsigned(17), Leaf::Signed(-16), Leaf::Bool(true), Leaf::Variant(3), Leaf::Record(0b1_10101)];
    let value = [one.clone(), one.clone(), one].concat();
    for p in [0u128, u128::MAX, 0x1234_5678_9abc_def0] {
        let packed = s.encode(arr, p, 7, &value);
        assert_eq!(s.decode(arr, packed, 7), Ok(value.clone()));
        assert_eq!(packed & 0x7f, p & 0x7f);
        assert_eq!(packed >> 64, p >> 64);
    }
}

#[test]
fn set_keeps_other_fields() {
    let mut s = Schema::new();
    let u3 = s.add_unsigned(3).unwrap();
    let u9 = s.add_unsigned(9).unwrap();
    let r = s.add_record(&vec![field(u3), field(u9), field(u3)], 15, FieldLayout::Auto, true).unwrap();
    let p = s.from_raw(r, 0b101_110011001_011);
    let q = s.set_field(r, p, 1, &un(0b111111111));
    assert_eq!(s.get_field(r, q, 0), s.get_field(r, p, 0));
    assert_eq!(s.get_field(r, q, 2), s.get_field(r, p, 2));
    assert_eq!(q, 0b101_111111111_011);
}

#[test]
fn record_schema_errors() {
    let mut s = Schema::new();
    let u4 = s.add_unsigned(4).unwrap();
    assert_eq!(s.add_record(&vec![field(u4)], 0, FieldLayout::Auto, true), Err(SchemaError::InvalidWidth));
    assert_eq!(s.add_record(&vec![field(u4)], 129, FieldLayout::Auto, true), Err(SchemaError::InvalidWidth));
    assert_eq!(s.add_record(&vec![], 4, FieldLayout::Auto, true), Err(SchemaError::NoFields));
    assert_eq!(s.add_record(&vec![field(7)], 4, FieldLayout::Auto, true), Err(SchemaError::UnknownType));
    assert_eq!(
        s.add_record(&vec![placed(u4, 0, 4)], 4, FieldLayout::Auto, true),
        Err(SchemaError::RangeInAutoLayout)
    );
    assert_eq!(s.add_record(&vec![field(u4)], 5, FieldLayout::Auto, true), Err(SchemaError::SizeMismatch));
    assert_eq!(s.add_record(&vec![field(u4)], 4, FieldLayout::Manual, true), Err(SchemaError::MissingRange));
    assert_eq!(
        s.add_record(&vec![placed(u4, 2, 4)], 5, FieldLayout::Manual, true),
        Err(SchemaError::RangeExceedsWidth)
    );
    assert_eq!(
        s.add_record(&vec![placed(u4, 0, 3)], 5, FieldLayout::Manual, true),
        Err(SchemaError::SizeMismatch)
    );
    let unfilled = s.add_enum(&vec![VariantSpec { discriminant: None, fallback: false, payload: Payload::Unit }; 3], 2, None, false).unwrap();
    assert_eq!(s.add_record(&vec![field(unfilled)], 2, FieldLayout::Auto, true), Err(SchemaError::NotFilled));
    let u100 = s.add_unsigned(100).unwrap();
    assert_eq!(s.add_tuple(vec![u100, u100]), Err(SchemaError::TooWide));
    assert_eq!(s.add_array(u100, 2), Err(SchemaError::TooWide));
    assert_eq!(s.add_tuple(vec![u4, 99]), Err(SchemaError::UnknownType));
    assert_eq!(s.add_array(99, 1), Err(SchemaError::UnknownType));
    assert_eq!(s.add_unsigned(0), Err(SchemaError::InvalidWidth));
    assert_eq!(s.add_signed(129), Err(SchemaError::InvalidWidth));
    assert_eq!(s.len(), 3);
}

#[test]
fn filled_flags() {
    let mut s = Schema::new();
    let u2 = s.add_unsigned(2).unwrap();
    let unit = VariantSpec { discriminant: None, fallback: false, payload: Payload::Unit };
    let unfilled = s.add_enum(&vec![unit; 3], 2, None, false).unwrap();
    let t = s.add_tuple(vec![u2, unfilled]).unwrap();
    let a = s.add_array(unfilled, 2).unwrap();
    let empty = s.add_tuple(vec![]).unwrap();
    assert!(s.is_filled(u2));
    assert!(!s.is_filled(unfilled));
    assert!(!s.is_filled(t));
    assert!(!s.is_filled(a));
    assert!(s.is_filled(empty));
    assert_eq!(s.bit_width(empty), 0);
    assert_eq!(s.decode(t, 0b11_01, 0), Err(give_me_error()));
    assert_eq!(s.decode(t, 0b10_01, 0), Ok(vec![Leaf::Unsigned(1), Leaf::Variant(2)]));
    assert_eq!(s.decode(a, 0b11_00, 0), Err(BitsError));
}

#[test]
fn default_needs_every_default() {
    let mut s = Schema::new();
    let unit = VariantSpec { discriminant: Some(2), fallback: false, payload: Payload::Unit };
    let e = s.add_enum(&vec![unit], 2, None, false).unwrap();
    let u3 = s.add_unsigned(3).unwrap();
    let r = s.add_record(&vec![field(u3), field(e)], 5, FieldLayout::Auto, false).unwrap();
    assert_eq!(s.default_bits(r), None);
    let reserved = FieldSpec { ty: e, range: None, reserved: true };
    let r2 = s.add_record(&vec![field(u3), reserved], 5, FieldLayout::Auto, false).unwrap();
    assert_eq!(s.default_bits(r2), Some(0));
    let d = s.add_enum(&vec![unit], 2, Some(0), false).unwrap();
    let arr = s.add_array(d, 3).unwrap();
    assert_eq!(s.default_bits(arr), Some(0b10_10_10));
}

#[test]
fn plan_layout_gives_the_offset_table() {
    let mut s = Schema::new();
    let u4 = s.add_unsigned(4).unwrap();
    let u7 = s.add_unsigned(7).unwrap();
    let auto = s.plan_layout(&vec![field(u4), field(u7), field(u4)], 15, FieldLayout::Auto).unwrap();
    let offsets: Vec<u32> = auto.iter().map(|f| f.offset).collect();
    assert_eq!(offsets, vec![0, 4, 11]);
    let manual = s.plan_layout(&vec![placed(u7, 9, 7), placed(u4, 0, 4)], 16, FieldLayout::Manual).unwrap();
    let offsets: Vec<u32> = manual.iter().map(|f| f.offset).collect();
    assert_eq!(offsets, vec![9, 0]);
    assert_eq!(s.plan_layout(&vec![field(u4)], 15, FieldLayout::Auto), Err(SchemaError::SizeMismatch));
}

#[test]
fn bit_ranges_from_bounds() {
    let r = BitRange::from_bounds(5, 10, true, Access::ReadOnly).unwrap();
    assert_eq!((r.start_bit, r.bit_size), (5, 6));
    let r = BitRange::from_bounds(5, 10, false, Access::ReadWrite).unwrap();
    assert_eq!((r.start_bit, r.bit_size), (5, 5));
    assert_eq!(BitRange::from_bounds(5, 5, true, Access::ReadWrite).map(|r| r.bit_size), Ok(1));
    assert_eq!(BitRange::from_bounds(5, 5, false, Access::ReadWrite), Err(SchemaError::EmptyRange));
    assert_eq!(BitRange::from_bounds(6, 5, true, Access::ReadWrite), Err(SchemaError::EmptyRange));
    let b = BitRange::single(7, Access::WriteOnly);
    assert_eq!((b.start_bit, b.bit_size, b.access), (7, 1, Access::WriteOnly));
}

#[test]
fn manual_layout_example() {
    let mut s = Schema::new();
    let labelled = |d: u128| VariantSpec { discriminant: Some(d), fallback: false, payload: Payload::Unit };
    let complete = s.add_enum(&vec![labelled(0), labelled(1), labelled(0b0000_0010), labelled(3)], 2, None, true).unwrap();
    assert!(s.is_filled(complete));
    let u1 = s.add_unsigned(1).unwrap();
    let u2 = s.add_unsigned(2).unwrap();
    let u3 = s.add_unsigned(3).unwrap();
    let b = s.add_bool();
    let incomplete = s.add_record(&vec![field(u2), field(complete)], 4, FieldLayout::Auto, false).unwrap();
    let c_t = s.add_array(u2, 2).unwrap();
    let d_t = s.add_tuple(vec![u1, u3]).unwrap();
    let fa = placed(u3, 3, 3);
    let fb = placed(b, 6, 1);
    let fc = placed(c_t, 10, 4);
    let fd = placed(d_t, 18, 4);
    let fe = placed(incomplete, 28, 4);
    let m1 = s.add_record(&vec![fa, fb, fc, fd, fe], 32, FieldLayout::Manual, false).unwrap();
    let m2 = s.add_record(&vec![fe, fa, fc, fd, fb], 32, FieldLayout::Manual, false).unwrap();

    let a = vec![Leaf::Unsigned(0b110)];
    let bv = vec![Leaf::Bool(true)];
    let c = vec![Leaf::Unsigned(0b10), Leaf::Unsigned(0b10)];
    let d = vec![Leaf::Unsigned(1), Leaf::Unsigned(0b011)];
    let e_bits = s.new_record(incomplete, &vec![un(0b11), vec![Leaf::Variant(2)]]);
    let e = vec![Leaf::Record(e_bits)];
    let m1_new = s.new_record(m1, &vec![a.clone(), bv.clone(), c.clone(), d.clone(), e.clone()]);
    assert_eq!(s.get_field(m1, m1_new, 0), Ok(a.clone()));
    assert_eq!(s.get_field(m1, m1_new, 1), Ok(bv.clone()));
    assert_eq!(s.get_field(m1, m1_new, 2), Ok(c.clone()));
    assert_eq!(s.get_field(m1, m1_new, 3), Ok(d.clone()));
    assert_eq!(s.get_field(m1, m1_new, 4), Ok(e.clone()));
    let raw: u128 = 0b_10_11_000000_011_1_0000_10_10_000_1_110_000;
    let m1_raw = s.try_from_raw(m1, raw).unwrap();
    let m2_raw = s.try_from_raw(m2, raw).unwrap();
    assert_eq!(m1_new, m1_raw);
    assert_eq!(m1_raw, m2_raw);
    let m2_new = s.new_record(m2, &vec![e, a, c, d, bv]);
    assert_eq!(m2_new, m1_new);
}

#[test]
fn unit_fallback_example() {
    let mut s = Schema::new();
    let unit = VariantSpec { discriminant: None, fallback: false, payload: Payload::Unit };
    let fallback = VariantSpec { discriminant: None, fallback: true, payload: Payload::Unit };
    let with_value = VariantSpec { discriminant: None, fallback: true, payload: Payload::Value(7) };
    let unit_fallback = s.add_enum(&vec![unit, unit, unit, fallback], 7, None, true).unwrap();
    let converted = s.enum_from_raw(unit_fallback, 7);
    assert_eq!(converted, Leaf::Variant(3));
    assert_eq!(s.enum_to_raw(unit_fallback, converted), 3);
    let value_fallback = s.add_enum(&vec![unit, unit, unit, with_value], 7, None, true).unwrap();
    for original in [3u128, 9] {
        let converted = s.enum_from_raw(value_fallback, original);
        assert_eq!(s.enum_to_raw(value_fallback, converted), original);
    }
}
