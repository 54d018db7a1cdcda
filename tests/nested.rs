use bilge::fallback::{Payload, VariantSpec};
use bilge::schema::{FieldLayout, FieldSpec, Leaf, Schema};

fn field(ty: usize) -> FieldSpec {
    FieldSpec { ty, range: None, reserved: false }
}

fn unit(count: usize) -> Vec<VariantSpec> {
    let mut v = Vec::new();
    for _ in 0..count {
        v.push(VariantSpec { discriminant: None, fallback: false, payload: Payload::Unit });
    }
    v
}

fn r(x: u128) -> Leaf {
    Leaf::Record(x)
}

fn u(x: u128) -> Leaf {
    Leaf::Unsigned(x)
}

fn v(i: usize) -> Leaf {
    Leaf::Variant(i)
}

#[test]
fn that_one_test() {
    let mut s = Schema::new();
    let u1 = s.add_unsigned(1).unwrap();
    let u2 = s.add_unsigned(2).unwrap();
    let u8t = s.add_unsigned(8).unwrap();
    let b = s.add_bool();
    let inner = s.add_record(&vec![field(u1), field(b)], 2, FieldLayout::Auto, true).unwrap();
    let mid = s.add_tuple(vec![u2, u8t]).unwrap();
    let tu_tuple_ple_t = s.add_tuple(vec![u1, mid, u1]).unwrap();
    let inner2 = s.add_array(inner, 2).unwrap();
    let arr_arr_t = s.add_array(inner2, 2).unwrap();
    let pair = s.add_tuple(vec![inner, u2]).unwrap();
    let pair2 = s.add_array(pair, 2).unwrap();
    let pair21 = s.add_array(pair2, 1).unwrap();
    let tup = s.add_tuple(vec![pair21, u1]).unwrap();
    let tup2 = s.add_array(tup, 2).unwrap();
    let big_t = s.add_array(tup2, 1).unwrap();
    let fields = vec![field(tu_tuple_ple_t), field(arr_arr_t), field(u1), field(big_t)];
    let mess_t = s.add_record(&fields, 39, FieldLayout::Auto, true).unwrap();

    let tu_tuple_ple = vec![u(0), u(0b00), u(0b1111_1111), u(1)];
    let arr_arr_ay_ay = vec![r(3), r(0b10), r(3), r(0)];
    let bit = vec![u(1)];
    let big = vec![r(3), u(3), r(3), u(3), u(0), r(0b10), u(3), r(3), u(3), u(0)];
    let mut mess = s.new_record(
        mess_t,
        &vec![tu_tuple_ple.clone(), arr_arr_ay_ay.clone(), bit.clone(), big.clone()],
    );
    assert_eq!(mess, s.from_raw(mess_t, 0b0_1_1111_110_0_1_1111_111__1_0011_1011__1__111_1111_1000));
    assert_eq!(Ok(tu_tuple_ple), s.get_field(mess_t, mess, 0));
    assert_eq!(Ok(arr_arr_ay_ay.clone()), s.get_field(mess_t, mess, 1));
    assert_eq!(Ok(bit.clone()), s.get_field(mess_t, mess, 2));
    assert_eq!(Ok(big.clone()), s.get_field(mess_t, mess, 3));

    let tu_tuple_ple = vec![u(0), u(0b10), u(0b1010_0100), u(0)];
    mess = s.set_field(mess_t, mess, 0, &tu_tuple_ple);
    assert_eq!(Ok(tu_tuple_ple.clone()), s.get_field(mess_t, mess, 0));
    assert_eq!(Ok(arr_arr_ay_ay), s.get_field(mess_t, mess, 1));
    assert_eq!(Ok(bit.clone()), s.get_field(mess_t, mess, 2));
    assert_eq!(Ok(big.clone()), s.get_field(mess_t, mess, 3));

    let elem_0 = vec![r(0), r(0b01)];
    let elem_1 = vec![r(0), r(3)];
    let arr_arr_ay_ay = [elem_0.clone(), elem_1.clone()].concat();
    mess = s.set_field(mess_t, mess, 1, &arr_arr_ay_ay);
    assert_eq!(Ok(tu_tuple_ple.clone()), s.get_field(mess_t, mess, 0));
    assert_eq!(Ok(arr_arr_ay_ay.clone()), s.get_field(mess_t, mess, 1));
    assert_eq!(Ok(bit.clone()), s.get_field(mess_t, mess, 2));
    assert_eq!(Ok(big), s.get_field(mess_t, mess, 3));

    let big = vec![r(0), u(0), r(0b01), u(0), u(0), r(0), u(1), r(3), u(0), u(0)];
    mess = s.set_field(mess_t, mess, 3, &big);
    assert_eq!(Ok(tu_tuple_ple), s.get_field(mess_t, mess, 0));
    assert_eq!(Ok(arr_arr_ay_ay), s.get_field(mess_t, mess, 1));
    assert_eq!(Ok(bit), s.get_field(mess_t, mess, 2));
    assert_eq!(Ok(big), s.get_field(mess_t, mess, 3));

    let have_fun = s.add_enum(&unit(3), 2, None, false).unwrap();
    let fun_pair = s.add_tuple(vec![have_fun, u2]).unwrap();
    let fun_pair2 = s.add_array(fun_pair, 2).unwrap();
    let fun_pair21 = s.add_array(fun_pair2, 1).unwrap();
    let fun_tup = s.add_tuple(vec![fun_pair21, u1]).unwrap();
    let fun_tup2 = s.add_array(fun_tup, 2).unwrap();
    let fumble = s.add_array(fun_tup2, 1).unwrap();
    let uem_t = s.add_record(&vec![field(fumble)], 18, FieldLayout::Auto, false).unwrap();
    let uem1 = s.try_from_raw(uem_t, 0b1_0101_1110_0_1010_1010).unwrap();
    let uem2 = s.new_record(
        uem_t,
        &vec![vec![v(2), u(2), v(2), u(2), u(0), v(2), u(3), v(1), u(1), u(1)]],
    );
    assert_eq!(uem1, uem2);
    let raw = 0b1_0101_11___11____0_1010_1010;
    let err = s.try_from_raw(uem_t, raw);
    assert!(err.is_err());

    assert_eq!(Ok(elem_0.clone()), s.element_at(mess_t, mess, 1, 0));
    assert_eq!(Ok(elem_1.clone()), s.element_at(mess_t, mess, 1, 1));
    mess = s.set_element_at(mess_t, mess, 1, 0, &elem_1);
    mess = s.set_element_at(mess_t, mess, 1, 1, &elem_0);
    assert_eq!(Ok(elem_1), s.element_at(mess_t, mess, 1, 0));
    assert_eq!(Ok(elem_0), s.element_at(mess_t, mess, 1, 1));
}

#[test]
fn default_bits() {
    let mut s = Schema::new();
    let u2 = s.add_unsigned(2).unwrap();
    let u4 = s.add_unsigned(4).unwrap();
    let b = s.add_bool();
    let cool = s.add_enum(&unit(4), 2, Some(2), true).unwrap();
    let nnzd = s.add_record(&vec![field(u2), field(u4), field(cool)], 8, FieldLayout::Auto, true).unwrap();
    let expected = s.new_record(nnzd, &vec![vec![u(0)], vec![u(0)], vec![v(2)]]);
    assert_eq!(s.default_bits(nnzd), Some(expected));

    let t1 = s.add_tuple(vec![u2, cool, b]).unwrap();
    let t2 = s.add_tuple(vec![b, b, cool]).unwrap();
    let t12 = s.add_tuple(vec![t1, t2]).unwrap();
    let a2 = s.add_array(t12, 2).unwrap();
    let field1 = s.add_array(a2, 1).unwrap();
    let cools = s.add_array(cool, 2).unwrap();
    let uc = s.add_tuple(vec![u2, cool]).unwrap();
    let ucs = s.add_array(uc, 3).unwrap();
    let field2 = s.add_tuple(vec![cools, ucs]).unwrap();
    let atd = s.add_record(&vec![field(field1), field(field2)], 34, FieldLayout::Auto, true).unwrap();
    assert_eq!(
        s.default_bits(atd),
        Some(s.from_raw(atd, 0b1000_1000_1000_10_10_1000_01000_1000_01000))
    );
}
