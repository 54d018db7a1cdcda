//! Bit-field primitives on the packed `u128` value.
use vstd::prelude::*;

verus! {

/// All ones in the low `w` bits (all 128 bits once `w >= 128`).
pub open spec fn low_mask(w: u128) -> u128 {
    if w >= 128 {
        u128::MAX
    } else {
        !(u128::MAX << w)
    }
}

/// The `w` bits of `p` that start at bit `off`, moved down to bit 0.
pub open spec fn field_of(p: u128, off: u128, w: u128) -> u128 {
    if off >= 128 {
        0
    } else {
        (p >> off) & low_mask(w)
    }
}

/// `p` with the `w` bits at `off` replaced by the low `w` bits of `v`.
pub open spec fn with_field(p: u128, off: u128, w: u128, v: u128) -> u128 {
    (p & !(low_mask(w) << off)) | ((v & low_mask(w)) << off)
}

/// Reading a field just written gives the written value, masked to the width.
pub proof fn lemma_get_set_same(p: u128, off: u128, w: u128, v: u128)
    requires
        off + w <= 128,
    ensures
        field_of(with_field(p, off, w, v), off, w) == v & low_mask(w),
{
    if w >= 128 {
        assert(off == 0);
        assert(((p & !(u128::MAX << 0u128)) | ((v & u128::MAX) << 0u128)) >> 0u128 & u128::MAX
            == v & u128::MAX) by (bit_vector);
    } else if off < 128 {
        assert((((p & !((!(u128::MAX << w)) << off)) | ((v & !(u128::MAX << w)) << off)) >> off)
            & !(u128::MAX << w) == v & !(u128::MAX << w)) by (bit_vector)
            requires
                off + w <= 128,
                w < 128,
                off < 128,
        ;
    } else {
        assert(v & !(u128::MAX << 0u128) == 0) by (bit_vector);
    }
}

proof fn lemma_shifted_mask_below(w: u128, off: u128, k: u128)
    by (bit_vector)
    requires
        w < 128,
        off + w <= k,
        k < 128,
    ensures
        ((!(u128::MAX << w)) << off) & (u128::MAX << k) == 0,
{
}

proof fn lemma_shifted_value_in_mask(v: u128, w: u128, off: u128)
    by (bit_vector)
    requires
        w < 128,
        off < 128,
    ensures
        ((v & !(u128::MAX << w)) << off) & !((!(u128::MAX << w)) << off) == 0,
{
}

proof fn lemma_same_under_mask(q: u128, p: u128, w: u128, off: u128)
    by (bit_vector)
    requires
        w < 128,
        off < 128,
        q & ((!(u128::MAX << w)) << off) == p & ((!(u128::MAX << w)) << off),
    ensures
        (q >> off) & !(u128::MAX << w) == (p >> off) & !(u128::MAX << w),
{
}

proof fn lemma_masks_split(p: u128, a: u128, m1: u128, f2: u128)
    by (bit_vector)
    requires
        a & !m1 == 0,
        m1 & f2 == 0,
    ensures
        ((p & !m1) | a) & f2 == p & f2,
{
}

proof fn lemma_low_below(w: u128, k: u128)
    by (bit_vector)
    requires
        w < 128,
        k < 128,
    ensures
        (!(u128::MAX << w) << k) & !(u128::MAX << k) == 0,
{
}

/// Writing a field leaves every disjoint field as it was.
pub proof fn lemma_get_set_disjoint(p: u128, off1: u128, w1: u128, v: u128, off2: u128, w2: u128)
    requires
        off1 + w1 <= 128,
        off2 + w2 <= 128,
        off1 + w1 <= off2 || off2 + w2 <= off1,
    ensures
        field_of(with_field(p, off1, w1, v), off2, w2) == field_of(p, off2, w2),
{
    if w1 == 0 {
        assert((p & !((!(u128::MAX << 0u128)) << off1)) | ((v & !(u128::MAX << 0u128)) << off1)
            == p) by (bit_vector);
    } else if w2 == 0 {
        if off2 < 128 {
            let q = with_field(p, off1, w1, v);
            assert((q >> off2) & !(u128::MAX << 0u128) == (p >> off2) & !(u128::MAX << 0u128))
                by (bit_vector);
        }
    } else {
        let m1 = (!(u128::MAX << w1)) << off1;
        let f2 = (!(u128::MAX << w2)) << off2;
        let a = (v & !(u128::MAX << w1)) << off1;
        lemma_shifted_value_in_mask(v, w1, off1);
        if off1 + w1 <= off2 {
            lemma_shifted_mask_below(w1, off1, off2);
            lemma_low_below(w2, off2);
            assert(m1 & f2 == 0) by (bit_vector)
                requires
                    m1 & (u128::MAX << off2) == 0,
                    f2 & !(u128::MAX << off2) == 0,
            ;
        } else {
            lemma_shifted_mask_below(w2, off2, off1);
            lemma_low_below(w1, off1);
            assert(m1 & f2 == 0) by (bit_vector)
                requires
                    f2 & (u128::MAX << off1) == 0,
                    m1 & !(u128::MAX << off1) == 0,
            ;
        }
        lemma_masks_split(p, a, m1, f2);
        let q = (p & !m1) | a;
        lemma_same_under_mask(q, p, w2, off2);
    }
}

/// The low `w` bits set.
pub fn mask_of(w: u32) -> (r: u128)
    ensures
        r == low_mask(w as u128),
{
    if w >= 128 {
        u128::MAX
    } else {
        !(u128::MAX << (w as u128))
    }
}

/// The `w` bits of `p` at bit `off`, shifted down to bit 0.
pub fn get_bits(p: u128, off: u32, w: u32) -> (r: u128)
    requires
        off + w <= 128,
    ensures
        r == field_of(p, off as u128, w as u128),
{
    if off >= 128 {
        0
    } else {
        (p >> (off as u128)) & mask_of(w)
    }
}

/// Clears the `w` bits of `p` at `off`, then ors in the low `w` bits of `v` there.
pub fn set_bits(p: u128, off: u32, w: u32, v: u128) -> (r: u128)
    requires
        off + w <= 128,
    ensures
        r == with_field(p, off as u128, w as u128, v),
{
    if w == 0 {
        let o = off as u128;
        assert((p & !((!(u128::MAX << 0u128)) << o)) | ((v & !(u128::MAX << 0u128)) << o) == p)
            by (bit_vector);
        p
    } else {
        let m = mask_of(w);
        (p & !(m << (off as u128))) | ((v & m) << (off as u128))
    }
}

/// A masked value fits the mask.
pub proof fn lemma_masked_fits(x: u128, w: u128)
    ensures
        x & low_mask(w) <= low_mask(w),
        x <= low_mask(w) ==> x & low_mask(w) == x,
{
    let m = low_mask(w);
    assert(x & m <= m) by (bit_vector);
    assert(x <= m ==> x & m == x) by (bit_vector)
        requires
            m == u128::MAX || m == !(u128::MAX << w),
    ;
}

/// The field just read fits its width.
pub proof fn lemma_field_fits(p: u128, off: u128, w: u128)
    ensures
        field_of(p, off, w) <= low_mask(w),
{
    if off < 128 {
        lemma_masked_fits(p >> off, w);
    }
}

/// One more bit doubles the mask, plus one.
pub proof fn lemma_low_mask_step(w: u128)
    requires
        1 <= w <= 128,
    ensures
        low_mask(w) == 2 * low_mask((w - 1) as u128) + 1,
{
    let v = (w - 1) as u128;
    if w == 128 {
        assert(u128::MAX == 2 * !(u128::MAX << 127u128) + 1) by (bit_vector);
    } else {
        assert(!(u128::MAX << w) == 2 * !(u128::MAX << v) + 1) by (bit_vector)
            requires
                1 <= w < 128,
                v == w - 1,
        ;
    }
}

/// The masks of two disjoint fields share no bit.
proof fn lemma_masks_disjoint(off1: u128, w1: u128, off2: u128, w2: u128)
    requires
        1 <= w1,
        1 <= w2,
        off1 + w1 <= 128,
        off2 + w2 <= 128,
        off1 + w1 <= off2 || off2 + w2 <= off1,
    ensures
        (low_mask(w1) << off1) & (low_mask(w2) << off2) == 0,
{
    let m1 = (!(u128::MAX << w1)) << off1;
    let f2 = (!(u128::MAX << w2)) << off2;
    if w1 == 128 || w2 == 128 {
        assert(false);
    }
    if off1 + w1 <= off2 {
        lemma_shifted_mask_below(w1, off1, off2);
        lemma_low_below(w2, off2);
        assert(m1 & f2 == 0) by (bit_vector)
            requires
                m1 & (u128::MAX << off2) == 0,
                f2 & !(u128::MAX << off2) == 0,
        ;
    } else {
        lemma_shifted_mask_below(w2, off2, off1);
        lemma_low_below(w1, off1);
        assert(m1 & f2 == 0) by (bit_vector)
            requires
                f2 & (u128::MAX << off1) == 0,
                m1 & !(u128::MAX << off1) == 0,
        ;
    }
}

/// Two writes to disjoint bit ranges can be made in either order.
pub proof fn lemma_writes_commute(p: u128, off1: u128, w1: u128, x: u128, off2: u128, w2: u128, y: u128)
    requires
        1 <= w1,
        1 <= w2,
        off1 + w1 <= 128,
        off2 + w2 <= 128,
        off1 + w1 <= off2 || off2 + w2 <= off1,
    ensures
        with_field(with_field(p, off1, w1, x), off2, w2, y) == with_field(
            with_field(p, off2, w2, y),
            off1,
            w1,
            x,
        ),
{
    lemma_masks_disjoint(off1, w1, off2, w2);
    assert(w1 < 128 && w2 < 128);
    lemma_shifted_value_in_mask(x, w1, off1);
    lemma_shifted_value_in_mask(y, w2, off2);
    let m1 = low_mask(w1) << off1;
    let m2 = low_mask(w2) << off2;
    let a = (x & low_mask(w1)) << off1;
    let b = (y & low_mask(w2)) << off2;
    assert(((((p & !m1) | a) & !m2) | b) == ((((p & !m2) | b) & !m1) | a)) by (bit_vector)
        requires
            a & !m1 == 0,
            b & !m2 == 0,
            m1 & m2 == 0,
    ;
}

} // verus!
