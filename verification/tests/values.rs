//! NaN-boxed values: each constructor is read back by its accessor, and the
//! kinds never overlap.
use pillow::value::{Value, CANON_NAN_BITS, PAYLOAD_MASK, QNAN_BASE};

#[test]
fn int_roundtrip_at_the_edges_of_48_bits() {
    for i in [0i64, 1, -1, 42, -42, (1 << 47) - 1, -(1 << 47)] {
        let v = Value::from_int(i);
        assert!(v.is_int());
        assert_eq!(v.as_int(), Some(i));
        assert!(!v.is_float() && !v.is_nil() && !v.is_bool() && !v.is_obj());
    }
}

#[test]
fn from_int_wrapping_keeps_the_low_48_bits() {
    assert_eq!(Value::from_int_wrapping(1 << 47).as_int(), Some(-(1 << 47)));
    assert_eq!(Value::from_int_wrapping(1 << 48).as_int(), Some(0));
    assert_eq!(Value::from_int_wrapping(-1).as_int(), Some(-1));
    assert_eq!(Value::from_int_wrapping(i64::MAX).as_int(), Some(-1));
}

#[test]
fn int_bits_are_exact() {
    assert_eq!(Value::from_int(5).to_bits(), 0x7FFA_0000_0000_0005);
    assert_eq!(Value::from_int(-1).to_bits(), 0x7FFA_FFFF_FFFF_FFFF);
}

#[test]
fn bool_roundtrip() {
    assert_eq!(Value::from_bool(true).as_bool(), Some(true));
    assert_eq!(Value::from_bool(false).as_bool(), Some(false));
    assert_eq!(Value::from_bool(true).to_bits(), 0x7FF9_0000_0000_0001);
    assert_eq!(Value::from_int(1).as_bool(), None);
}

#[test]
fn nil_is_only_nil() {
    let v = Value::nil();
    assert_eq!(v.to_bits(), QNAN_BASE);
    assert!(v.is_nil());
    assert!(!v.is_float() && !v.is_bool() && !v.is_int() && !v.is_obj());
    assert_eq!(v.as_int(), None);
    assert_eq!(v.as_bool(), None);
    assert_eq!(v.as_obj(), None);
}

#[test]
fn obj_roundtrip() {
    for p in [0u64, 8, 4096, PAYLOAD_MASK] {
        let v = Value::from_obj(p);
        assert!(v.is_obj());
        assert_eq!(v.as_obj(), Some(p));
        assert_eq!(v.as_int(), None);
    }
}

#[test]
fn floats_keep_their_bits() {
    for f in [0.0f64, -0.0, 1.5, -2.25, f64::INFINITY, f64::NEG_INFINITY, f64::MAX] {
        let v = Value::from_float_bits(f.to_bits());
        assert!(v.is_float());
        assert_eq!(v.float_bits(), Some(f.to_bits()));
        assert!(!v.is_nil() && !v.is_bool() && !v.is_int() && !v.is_obj());
    }
}

#[test]
fn every_nan_becomes_the_canonical_nan() {
    for bits in [f64::NAN.to_bits(), 0x7FF0_0000_0000_0001, 0xFFFF_FFFF_FFFF_FFFF, QNAN_BASE] {
        let v = Value::from_float_bits(bits);
        assert_eq!(v.to_bits(), CANON_NAN_BITS);
        assert!(v.is_float());
    }
}

#[test]
fn bits_roundtrip() {
    for bits in [0u64, QNAN_BASE, CANON_NAN_BITS, u64::MAX, 0x7FFA_0000_0000_0005] {
        assert_eq!(Value::from_bits(bits).to_bits(), bits);
    }
}

#[test]
fn truthiness() {
    assert!(!Value::nil().is_truthy());
    assert!(!Value::from_bool(false).is_truthy());
    assert!(Value::from_bool(true).is_truthy());
    assert!(Value::from_int(0).is_truthy());
    assert!(Value::from_float_bits(0.0f64.to_bits()).is_truthy());
    assert!(Value::from_obj(8).is_truthy());
}

#[test]
fn non_floats_have_no_float_bits() {
    assert_eq!(Value::nil().float_bits(), None);
    assert_eq!(Value::from_int(3).float_bits(), None);
    assert_eq!(Value::from_bool(true).float_bits(), None);
}

#[test]
fn from_int_wrapping_is_the_shift_sign_extension() {
    for i in [0i64, 5, -5, (1 << 47) - 1, 1 << 47, -(1 << 47) - 1, i64::MIN, i64::MAX, 0x1234_5678_9ABC_DEF0] {
        assert_eq!(Value::from_int_wrapping(i).as_int(), Some((i << 16) >> 16));
    }
    assert_eq!(
        Value::from_int_wrapping(((1i64 << 47) - 1).wrapping_add(1)).as_int(),
        Some(-(1i64 << 47))
    );
}
