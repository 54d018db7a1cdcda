use bilge::schema::{FieldLayout, FieldSpec, Leaf, Schema};

fn field(ty: usize) -> FieldSpec {
    FieldSpec { ty, range: None, reserved: false }
}

fn i(x: i128) -> Vec<Leaf> {
    vec![Leaf::Signed(x)]
}

fn un(x: u128) -> Vec<Leaf> {
    vec![Leaf::Unsigned(x)]
}

#[test]
fn bit_struct_signed() {
    let mut s = Schema::new();
    let i20 = s.add_signed(20).unwrap();
    let i7 = s.add_signed(7).unwrap();
    let r = s.add_record(&vec![field(i20), field(i7)], 27, FieldLayout::Auto, true).unwrap();
    let mut bits = s.from_raw(r, 0b1010110_00110001000101000001);
    let new = s.new_record(r, &vec![i(201025), i(-42)]);
    assert_eq!(bits, new);
    assert_eq!(s.get_field(r, bits, 0), Ok(i(201025)));
    assert_eq!(s.get_field(r, bits, 1), Ok(i(-42)));
    bits = s.set_field(r, bits, 1, &i(0b0101010));
    assert_eq!(s.get_field(r, bits, 1), Ok(i(42)));
}

#[test]
fn tuple_struct_signed() {
    let mut s = Schema::new();
    let u2 = s.add_unsigned(2).unwrap();
    let i6 = s.add_signed(6).unwrap();
    let i7 = s.add_signed(7).unwrap();
    let u8t = s.add_unsigned(8).unwrap();
    let i1 = s.add_signed(1).unwrap();
    let fields = vec![field(u2), field(i6), field(i7), field(u8t), field(u8t), field(i1)];
    let r = s.add_record(&fields, 32, FieldLayout::Auto, true).unwrap();
    let mut vals = vec![un(0), i(-30), i(-9), un(3), un(4), i(-1)];
    let mut a = s.new_record(r, &vals);
    for k in 0..6 {
        assert_eq!(s.get_field(r, a, k), Ok(vals[k].clone()));
    }
    vals[1] = i(25);
    a = s.set_field(r, a, 1, &vals[1]);
    for k in 0..6 {
        assert_eq!(s.get_field(r, a, k), Ok(vals[k].clone()));
    }
    vals[2] = i(-64);
    a = s.set_field(r, a, 2, &vals[2]);
    for k in 0..6 {
        assert_eq!(s.get_field(r, a, k), Ok(vals[k].clone()));
    }
}

#[test]
fn should_be_same_structure_issue_30_signed() {
    let mut s = Schema::new();
    let i11 = s.add_signed(11).unwrap();
    let i1 = s.add_signed(1).unwrap();
    let u4 = s.add_unsigned(4).unwrap();
    let h1 = s.add_record(&vec![field(i11), field(i1), field(u4)], 16, FieldLayout::Auto, true).unwrap();
    let reserved = FieldSpec { ty: i1, range: None, reserved: true };
    let h2 = s.add_record(&vec![field(i11), reserved, field(u4)], 16, FieldLayout::Auto, true).unwrap();
    let eh1 = s.new_record(h1, &vec![i(0xe), i(0), un(0x1)]);
    let eh2 = s.new_record(h2, &vec![i(0xe), un(0x1)]);
    assert_eq!(s.get_field(h1, eh1, 2), Ok(un(0x1)));
    assert_eq!(s.get_field(h2, eh2, 2), Ok(un(0x1)));
    assert_eq!(eh1, eh2);
}

#[test]
fn should_be_same_structure_issue_30() {
    let mut s = Schema::new();
    let u11 = s.add_unsigned(11).unwrap();
    let u1 = s.add_unsigned(1).unwrap();
    let u4 = s.add_unsigned(4).unwrap();
    let h1 = s.add_record(&vec![field(u11), field(u1), field(u4)], 16, FieldLayout::Auto, true).unwrap();
    let reserved = FieldSpec { ty: u1, range: None, reserved: true };
    let h2 = s.add_record(&vec![field(u11), reserved, field(u4)], 16, FieldLayout::Auto, true).unwrap();
    let eh1 = s.new_record(h1, &vec![un(0xe), un(0), un(0x1)]);
    let eh2 = s.new_record(h2, &vec![un(0xe), un(0x1)]);
    assert_eq!(s.get_field(h1, eh1, 2), Ok(un(0x1)));
    assert_eq!(s.get_field(h2, eh2, 2), Ok(un(0x1)));
    assert_eq!(eh1, eh2);
}

#[test]
fn signed_width_seven_reads_minus_forty_two() {
    let mut s = Schema::new();
    let i7 = s.add_signed(7).unwrap();
    assert_eq!(s.decode(i7, 0b1010110, 0), Ok(i(-42)));
    assert_eq!(s.encode(i7, 0, 0, &i(-42)), 0b1010110);
}

#[test]
fn signed_width_one_is_zero_or_minus_one() {
    let mut s = Schema::new();
    let i1 = s.add_signed(1).unwrap();
    assert_eq!(s.decode(i1, 0, 0), Ok(i(0)));
    assert_eq!(s.decode(i1, 1, 0), Ok(i(-1)));
    assert_eq!(s.encode(i1, 0, 0, &i(-1)), 1);
}

#[test]
fn signed_full_width() {
    let mut s = Schema::new();
    let i128t = s.add_signed(128).unwrap();
    assert_eq!(s.decode(i128t, u128::MAX, 0), Ok(i(-1)));
    assert_eq!(s.decode(i128t, 1u128 << 127, 0), Ok(i(i128::MIN)));
    assert_eq!(s.encode(i128t, 0, 0, &i(i128::MIN)), 1u128 << 127);
    assert_eq!(s.encode(i128t, 0, 0, &i(i128::MAX)), u128::MAX >> 1);
}
