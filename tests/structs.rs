use bilge::fallback::{Payload, VariantSpec};
use bilge::schema::{FieldLayout, FieldSpec, Leaf, Schema};

fn field(ty: usize) -> FieldSpec {
    FieldSpec { ty, range: None, reserved: false }
}

fn reserved(ty: usize) -> FieldSpec {
    FieldSpec { ty, range: None, reserved: true }
}

fn un(x: u128) -> Vec<Leaf> {
    vec![Leaf::Unsigned(x)]
}

fn unit(count: usize) -> Vec<VariantSpec> {
    let mut v = Vec::new();
    for _ in 0..count {
        v.push(VariantSpec { discriminant: None, fallback: false, payload: Payload::Unit });
    }
    v
}

#[test]
fn struct_conversions() {
    let mut s = Schema::new();
    let u1 = s.add_unsigned(1).unwrap();
    let bit = s.add_record(&vec![field(u1)], 1, FieldLayout::Auto, true).unwrap();
    assert_eq!(0, s.new_record(bit, &vec![un(0)]));
    assert_eq!(1, s.new_record(bit, &vec![un(1)]));
    assert_eq!(s.new_record(bit, &vec![un(0)]), s.from_raw(bit, 0));
    assert_eq!(s.new_record(bit, &vec![un(1)]), s.from_raw(bit, 1));

    let unfilled = s.add_enum(&unit(3), 2, None, false).unwrap();
    let unfilled_struct = s.add_record(&vec![field(unfilled)], 2, FieldLayout::Auto, false).unwrap();
    for value in 0..4u128 {
        match s.try_from_raw(unfilled_struct, value) {
            Ok(a) => {
                match s.get_field(unfilled_struct, a, 0).unwrap()[0] {
                    Leaf::Variant(0) => assert_eq!(0, value),
                    Leaf::Variant(1) => assert_eq!(1, value),
                    Leaf::Variant(2) => assert_eq!(2, value),
                    _ => panic!("not a variant"),
                }
                assert_eq!(a, value);
            }
            Err(e) => assert_eq!(format!("{e:?}"), "BitsError"),
        }
    }
}

#[test]
fn multiple_fields() {
    let mut s = Schema::new();
    let u2 = s.add_unsigned(2).unwrap();
    let u1 = s.add_unsigned(1).unwrap();
    let r = s.add_record(&vec![field(u2), field(u1), field(u2)], 5, FieldLayout::Auto, true).unwrap();

    let a = s.from_raw(r, 0b11_1_01);
    assert_eq!(s.get_field(r, a, 0), Ok(un(0b01)));
    assert_eq!(s.get_field(r, a, 1), Ok(un(0b1)));
    assert_eq!(s.get_field(r, a, 2), Ok(un(0b11)));

    let mut a = s.from_raw(r, 0b00_0_11);
    a = s.set_field(r, a, 0, &un(0b01));
    assert_eq!(s.get_field(r, a, 0), Ok(un(0b01)));
    assert_eq!(s.get_field(r, a, 1), Ok(un(0b0)));
    assert_eq!(s.get_field(r, a, 2), Ok(un(0b00)));
    assert_eq!(a, s.from_raw(r, 0b00_0_01));
    a = s.set_field(r, a, 1, &un(0b1));
    assert_eq!(s.get_field(r, a, 0), Ok(un(0b01)));
    assert_eq!(s.get_field(r, a, 1), Ok(un(0b1)));
    assert_eq!(s.get_field(r, a, 2), Ok(un(0b00)));
    assert_eq!(a, s.from_raw(r, 0b00_1_01));
    a = s.set_field(r, a, 2, &un(0b11));
    assert_eq!(s.get_field(r, a, 0), Ok(un(0b01)));
    assert_eq!(s.get_field(r, a, 1), Ok(un(0b1)));
    assert_eq!(s.get_field(r, a, 2), Ok(un(0b11)));
    assert_eq!(a, s.from_raw(r, 0b11_1_01));

    let a = s.new_record(r, &vec![un(0b01), un(0b1), un(0b11)]);
    assert_eq!(s.get_field(r, a, 0), Ok(un(0b01)));
    assert_eq!(s.get_field(r, a, 1), Ok(un(0b1)));
    assert_eq!(s.get_field(r, a, 2), Ok(un(0b11)));
}

#[test]
fn nested_fields() {
    let mut s = Schema::new();
    let u1 = s.add_unsigned(1).unwrap();
    let u2 = s.add_unsigned(2).unwrap();
    let u8t = s.add_unsigned(8).unwrap();
    let u22 = s.add_unsigned(22).unwrap();
    let nested = s.add_record(&vec![field(u2), field(u8t), field(u22)], 32, FieldLayout::Auto, true).unwrap();
    let outer = s.add_record(&vec![field(nested), field(u1), field(u2)], 35, FieldLayout::Auto, true).unwrap();

    let a = s.from_raw(outer, 0b111_1111_1111_1111_1111_0111_1111_1111_1111);
    assert_eq!(s.get_field(outer, a, 0), Ok(vec![Leaf::Record(0b___1111_1111_1111_1111_0111_1111_1111_1111)]));
    assert_eq!(s.get_field(outer, a, 1), Ok(un(0b1)));
    assert_eq!(s.get_field(outer, a, 2), Ok(un(0b11)));

    let n = match s.get_field(outer, a, 0).unwrap()[0] {
        Leaf::Record(bits) => bits,
        _ => panic!("not a record"),
    };
    assert_eq!(s.get_field(nested, n, 0), Ok(un(0b11)));
    assert_eq!(s.get_field(nested, n, 1), Ok(un(0b1111_1111)));
    assert_eq!(s.get_field(nested, n, 2), Ok(un(0b11_1111_1111_1111_1101_1111)));

    let mut a = s.from_raw(outer, 0b111_1111_1111_1111_1111_1111_1111_1111_1111);
    let n = match s.get_field(outer, a, 0).unwrap()[0] {
        Leaf::Record(bits) => bits,
        _ => panic!("not a record"),
    };
    let n = s.set_field(nested, n, 1, &un(0));
    a = s.set_field(outer, a, 0, &vec![Leaf::Record(n)]);
    assert_eq!(s.get_field(outer, a, 0), Ok(vec![Leaf::Record(0b___1111_1111_1111_1111_1111_1100_0000_0011)]));

    let inner = s.new_record(nested, &vec![un(0b11), un(0b1111_1111), un(0b11_0000_1111_0000_1111_1111)]);
    let a = s.new_record(outer, &vec![vec![Leaf::Record(inner)], un(0b1), un(0b11)]);
    assert_eq!(s.get_field(outer, a, 0), Ok(vec![Leaf::Record(0b___1100_0011_1100_0011_1111_1111_1111_1111)]));
    assert_eq!(s.get_field(outer, a, 1), Ok(un(0b1)));
    assert_eq!(s.get_field(outer, a, 2), Ok(un(0b11)));
}

#[test]
fn bools_and_bitflags_like_usage() {
    let mut s = Schema::new();
    let b = s.add_bool();
    let r = s.add_record(&vec![field(b), field(b), field(b), field(b)], 4, FieldLayout::Auto, true).unwrap();
    let mut flags = s.from_raw(r, 0b1101);
    assert_eq!(s.get_field(r, flags, 0), Ok(vec![Leaf::Bool(true)]));
    assert_eq!(s.get_field(r, flags, 1), Ok(vec![Leaf::Bool(false)]));
    assert_eq!(s.get_field(r, flags, 2), Ok(vec![Leaf::Bool(true)]));
    flags = s.set_field(r, flags, 2, &vec![Leaf::Bool(false)]);
    assert_eq!(s.get_field(r, flags, 0), Ok(vec![Leaf::Bool(true)]));
    assert_eq!(s.get_field(r, flags, 1), Ok(vec![Leaf::Bool(false)]));
    assert_eq!(s.get_field(r, flags, 2), Ok(vec![Leaf::Bool(false)]));
}

#[test]
fn reserved_fields() {
    let mut s = Schema::new();
    let u2 = s.add_unsigned(2).unwrap();
    let u4 = s.add_unsigned(4).unwrap();
    let u12 = s.add_unsigned(12).unwrap();
    let u14 = s.add_unsigned(14).unwrap();
    let u16 = s.add_unsigned(16).unwrap();
    let fields = vec![reserved(u14), field(u2), field(u16), reserved(u4), field(u12), reserved(u16)];
    let r = s.add_record(&fields, 64, FieldLayout::Auto, true).unwrap();
    let mapped = s.from_raw(r, 0b0000000000000000_001111110000_0000_1000000010001000_11_00000000000000);
    let status = 0b11;
    let register1 = 0b1000000010001000;
    let register2 = 0b001111110000;
    assert_eq!(mapped, s.new_record(r, &vec![un(status), un(register1), un(register2)]));
    assert_eq!(s.get_field(r, mapped, 1), Ok(un(status)));
    assert_eq!(s.get_field(r, mapped, 2), Ok(un(register1)));
    assert_eq!(s.get_field(r, mapped, 4), Ok(un(register2)));
    assert_eq!(s.get_field(r, mapped, 5), Ok(un(0)));
}

#[test]
fn tuple_struct() {
    let mut s = Schema::new();
    let w: Vec<usize> = [2u32, 6, 7, 8, 8, 1].iter().map(|&w| s.add_unsigned(w).unwrap()).collect();
    let fields: Vec<FieldSpec> = w.iter().map(|&t| field(t)).collect();
    let r = s.add_record(&fields, 32, FieldLayout::Auto, true).unwrap();
    let mut vals: Vec<u128> = vec![0, 1, 2, 3, 4, 0];
    let mut a = s.new_record(r, &vals.iter().map(|&v| un(v)).collect());
    for i in 0..6 {
        assert_eq!(s.get_field(r, a, i), Ok(un(vals[i])));
    }
    vals[0] = 1;
    a = s.set_field(r, a, 0, &un(1));
    for i in 0..6 {
        assert_eq!(s.get_field(r, a, i), Ok(un(vals[i])));
    }
    vals[3] = u8::MAX as u128;
    a = s.set_field(r, a, 3, &un(u8::MAX as u128));
    for i in 0..6 {
        assert_eq!(s.get_field(r, a, i), Ok(un(vals[i])));
    }
}

#[test]
fn other_field_types() {
    let mut s = Schema::new();
    let u4 = s.add_unsigned(4).unwrap();
    let u2 = s.add_unsigned(2).unwrap();
    let b = s.add_bool();
    let arr = s.add_array(u4, 12).unwrap();
    let tup = s.add_tuple(vec![b, b, b]).unwrap();
    let pair = s.add_tuple(vec![u2, b]).unwrap();
    let tup_arr = s.add_array(pair, 2).unwrap();
    let r = s.add_record(&vec![field(arr), field(tup), field(tup_arr)], 57, FieldLayout::Auto, true).unwrap();
    let mut basic = s.from_raw(r, 0);

    let sixth = Leaf::Unsigned(0b1111);
    let eleventh = Leaf::Unsigned(0b1101);
    basic = s.set_element_at(r, basic, 0, 6, &vec![sixth]);
    basic = s.set_element_at(r, basic, 0, 11, &vec![eleventh]);

    let z = Leaf::Unsigned(0);
    let mut arr_v = vec![z, z, z, z, z, z, sixth, z, z, z, z, eleventh];
    assert_eq!(s.get_field(r, basic, 0), Ok(arr_v.clone()));
    assert_eq!(Ok(vec![sixth]), s.element_at(r, basic, 0, 6));
    assert_eq!(Ok(vec![eleventh]), s.element_at(r, basic, 0, 11));

    arr_v.reverse();
    basic = s.set_field(r, basic, 0, &arr_v);
    assert_eq!(s.get_field(r, basic, 0), Ok(arr_v.clone()));
    assert_eq!(Ok(vec![z]), s.element_at(r, basic, 0, 6));
    assert_eq!(Ok(vec![z]), s.element_at(r, basic, 0, 11));
    assert_eq!(Ok(vec![sixth]), s.element_at(r, basic, 0, 5));
    assert_eq!(Ok(vec![eleventh]), s.element_at(r, basic, 0, 0));

    let zt = vec![Leaf::Bool(false), Leaf::Bool(false), Leaf::Bool(false)];
    let t = vec![Leaf::Bool(false), Leaf::Bool(true), Leaf::Bool(true)];
    assert_eq!(s.get_field(r, basic, 1), Ok(zt));
    basic = s.set_field(r, basic, 1, &t);
    assert_eq!(s.get_field(r, basic, 1), Ok(t));

    let zp = vec![Leaf::Unsigned(0), Leaf::Bool(false)];
    let zeroth = vec![Leaf::Unsigned(0b11), Leaf::Bool(true)];
    basic = s.set_element_at(r, basic, 2, 0, &zeroth);
    assert_eq!(s.get_field(r, basic, 2), Ok([zeroth.clone(), zp.clone()].concat()));
    assert_eq!(Ok(zeroth.clone()), s.element_at(r, basic, 2, 0));
    assert_eq!(Ok(zp.clone()), s.element_at(r, basic, 2, 1));

    let first = vec![Leaf::Unsigned(0b10), Leaf::Bool(false)];
    basic = s.set_element_at(r, basic, 2, 1, &first);
    assert_eq!(s.get_field(r, basic, 2), Ok([zeroth.clone(), first.clone()].concat()));
    assert_eq!(Ok(zeroth), s.element_at(r, basic, 2, 0));
    assert_eq!(Ok(first), s.element_at(r, basic, 2, 1));
}
