//! NaN-boxed values.
//!
//! ```text
//! 63    62-52    51    50-48    47-0
//! S     exp      Q     tag      payload
//! ```
//!
//! A value is a float unless its top thirteen bits are `0 11111111111 1`
//! (sign clear, exponent all ones, quiet bit set). Such "tagged" values carry
//! a three-bit tag and a 48-bit payload:
//!
//! * tag 0: nil (payload 0)
//! * tag 1: bool (payload 0 or 1)
//! * tag 2: 48-bit two's complement integer
//! * tag 3: heap object (48-bit arena offset)
//!
//! Incoming NaNs are canonicalized to `CANON_NAN_BITS`, whose sign bit is set,
//! so they never collide with the tag space.
use vstd::prelude::*;

verus! {

pub const QNAN_BASE: u64 = 0x7FF8_0000_0000_0000;

pub const SIGN_BIT: u64 = 0x8000_0000_0000_0000;

pub const TAG_MASK: u64 = 0x0007_0000_0000_0000;

pub const PAYLOAD_MASK: u64 = 0x0000_FFFF_FFFF_FFFF;

pub const TAG_NIL: u64 = 0x0000_0000_0000_0000;

pub const TAG_BOOL: u64 = 0x0001_0000_0000_0000;

pub const TAG_INT: u64 = 0x0002_0000_0000_0000;

pub const TAG_OBJ: u64 = 0x0003_0000_0000_0000;

/// The single NaN pattern that every float NaN is stored as.
pub const CANON_NAN_BITS: u64 = 0xFFF8_0000_0000_0000;

/// Exponent bits of an IEEE 754 double.
pub const EXP_MASK: u64 = 0x7FF0_0000_0000_0000;

/// Mantissa bits of an IEEE 754 double.
pub const MANTISSA_MASK: u64 = 0x000F_FFFF_FFFF_FFFF;

/// 2^48: the size of the payload space.
pub open spec fn payload_space() -> int {
    0x1_0000_0000_0000
}

/// True when `bits` lies in the tag space: sign 0, exponent all ones, quiet bit 1.
pub open spec fn is_tagged_bits(bits: u64) -> bool {
    bits / 0x8_0000_0000_0000 == 0xFFF
}

/// True when bits 62-51 (exponent and quiet bit) are all set, whatever the sign.
pub open spec fn is_quiet_nan_bits(bits: u64) -> bool {
    (bits / 0x8_0000_0000_0000) % 0x1000 == 0xFFF
}

/// The three tag bits (50-48).
pub open spec fn tag_of(bits: u64) -> u64 {
    (bits / 0x1_0000_0000_0000) % 8
}

/// The 48 payload bits (47-0).
pub open spec fn payload_of(bits: u64) -> u64 {
    bits % 0x1_0000_0000_0000
}

/// A tagged value with the given tag and payload.
pub open spec fn tagged_bits(tag: u64, payload: int) -> int {
    QNAN_BASE + tag * 0x1_0000_0000_0000 + payload
}

/// The integer that a 48-bit two's complement payload denotes.
pub open spec fn sign_extend_48(p: u64) -> int {
    if p < 0x8000_0000_0000 {
        p as int
    } else {
        p - payload_space()
    }
}

/// The 48-bit payload that stores the integer `i`, wrapping modulo 2^48.
pub open spec fn int_payload(i: int) -> int {
    i % payload_space()
}

/// True for integers representable in a 48-bit two's complement payload.
pub open spec fn fits_48(i: int) -> bool {
    -0x8000_0000_0000 <= i < 0x8000_0000_0000
}

/// IEEE 754: exponent all ones and a nonzero mantissa.
pub open spec fn is_nan_bits(bits: u64) -> bool {
    bits / 0x10_0000_0000_0000 % 0x800 == 0x7FF && bits % 0x10_0000_0000_0000 != 0
}

/// The stored form of a float with the given IEEE bits: NaNs become `CANON_NAN_BITS`.
pub open spec fn canonical_float_bits(bits: u64) -> u64 {
    if is_nan_bits(bits) {
        CANON_NAN_BITS
    } else {
        bits
    }
}

/// The IEEE bits of the negation of a double: its sign bit flipped.
pub open spec fn negated_float_bits(bits: u64) -> u64 {
    if bits >= SIGN_BIT {
        (bits - SIGN_BIT) as u64
    } else {
        (bits + SIGN_BIT) as u64
    }
}


pub open spec fn bits_is_float(b: u64) -> bool {
    !is_tagged_bits(b)
}

pub open spec fn bits_is_nil(b: u64) -> bool {
    b == QNAN_BASE
}

pub open spec fn bits_is_bool(b: u64) -> bool {
    is_quiet_nan_bits(b) && tag_of(b) == 1
}

pub open spec fn bits_is_int(b: u64) -> bool {
    is_quiet_nan_bits(b) && tag_of(b) == 2
}

pub open spec fn bits_is_obj(b: u64) -> bool {
    is_quiet_nan_bits(b) && tag_of(b) == 3
}

/// The boolean a bool value holds: bit 0 of its payload.
pub open spec fn bits_bool(b: u64) -> bool {
    payload_of(b) % 2 == 1
}

/// The integer an int value holds.
pub open spec fn bits_int(b: u64) -> int {
    sign_extend_48(payload_of(b))
}

/// Pillow's truthiness rule: only `false` and `nil` are falsy.
pub open spec fn bits_truthy(b: u64) -> bool {
    !(bits_is_nil(b) || (bits_is_bool(b) && !bits_bool(b)))
}

/// The bits of the bool value `b`.
pub open spec fn bool_bits(b: bool) -> u64 {
    tagged_bits(1, if b { 1 } else { 0 }) as u64
}

/// The bits of the int value holding `i` modulo 2^48.
pub open spec fn int_bits(i: int) -> u64 {
    tagged_bits(2, int_payload(i)) as u64
}

/// The bits of the object value holding `p`.
pub open spec fn obj_bits(p: int) -> u64 {
    tagged_bits(3, p) as u64
}


/// An encoded integer decodes to itself, is of no other kind, and is truthy.
pub proof fn law_int_roundtrip(i: int)
    requires
        fits_48(i),
    ensures
        bits_is_int(int_bits(i)),
        bits_int(int_bits(i)) == i,
        !bits_is_float(int_bits(i)),
        !bits_is_nil(int_bits(i)),
        !bits_is_bool(int_bits(i)),
        !bits_is_obj(int_bits(i)),
        bits_truthy(int_bits(i)),
{
    let p = int_payload(i);
    assert(0 <= p < 0x1_0000_0000_0000);
    assert(i >= 0 ==> p == i);
    assert(i < 0 ==> p == i + 0x1_0000_0000_0000);
    let b = int_bits(i);
    let pu = p as u64;
    assert(b == 0x7FFA_0000_0000_0000u64 + pu);
    lemma_tagged_fields(b, 2, pu);
}

/// The bits of a tagged value with sign clear, tag `t` and payload `p`.
proof fn lemma_tagged_fields(b: u64, t: u64, p: u64)
    requires
        t < 8,
        p < 0x1_0000_0000_0000,
        b == 0x7FF8_0000_0000_0000u64 + t * 0x1_0000_0000_0000u64 + p,
    ensures
        is_tagged_bits(b),
        is_quiet_nan_bits(b),
        tag_of(b) == t,
        payload_of(b) == p,
{
    assert(b / 0x8_0000_0000_0000 == 0xFFF && (b / 0x8_0000_0000_0000) % 0x1000 == 0xFFF && (b
        / 0x1_0000_0000_0000) % 8 == t && b % 0x1_0000_0000_0000 == p) by (bit_vector)
        requires
            t < 8,
            p < 0x1_0000_0000_0000,
            b == 0x7FF8_0000_0000_0000u64 + t * 0x1_0000_0000_0000u64 + p,
    ;
}

/// An encoded boolean decodes to itself and is of no other kind; its
/// truthiness is itself.
pub proof fn law_bool_roundtrip(v: bool)
    ensures
        bits_is_bool(bool_bits(v)),
        bits_bool(bool_bits(v)) == v,
        !bits_is_float(bool_bits(v)),
        !bits_is_nil(bool_bits(v)),
        !bits_is_int(bool_bits(v)),
        !bits_is_obj(bool_bits(v)),
        bits_truthy(bool_bits(v)) == v,
{
    let p: u64 = if v { 1 } else { 0 };
    lemma_tagged_fields(bool_bits(v), 1, p);
}

/// An encoded object decodes to its location and is of no other kind.
pub proof fn law_obj_roundtrip(loc: u64)
    requires
        loc <= PAYLOAD_MASK,
    ensures
        bits_is_obj(obj_bits(loc as int)),
        payload_of(obj_bits(loc as int)) == loc,
        !bits_is_float(obj_bits(loc as int)),
        !bits_is_nil(obj_bits(loc as int)),
        !bits_is_int(obj_bits(loc as int)),
        !bits_is_bool(obj_bits(loc as int)),
        bits_truthy(obj_bits(loc as int)),
{
    lemma_tagged_fields(obj_bits(loc as int), 3, loc);
}

/// Nil is of no other kind and is falsy.
pub proof fn law_nil()
    ensures
        bits_is_nil(QNAN_BASE),
        !bits_is_float(QNAN_BASE),
        !bits_is_int(QNAN_BASE),
        !bits_is_bool(QNAN_BASE),
        !bits_is_obj(QNAN_BASE),
        !bits_truthy(QNAN_BASE),
{
    lemma_tagged_fields(QNAN_BASE, 0, 0);
}

/// A stored double never collides with the tag space: NaNs are canonicalized
/// to a pattern with the sign bit set, and no other double has the quiet bit
/// set under an all-ones exponent.
pub proof fn law_float_outside_tags(bits: u64)
    ensures
        bits_is_float(canonical_float_bits(bits)),
        !bits_is_nil(canonical_float_bits(bits)),
        !bits_is_bool(canonical_float_bits(bits)),
        !bits_is_int(canonical_float_bits(bits)),
        !bits_is_obj(canonical_float_bits(bits)),
        bits_truthy(canonical_float_bits(bits)),
{
    let c = canonical_float_bits(bits);
    let nan = is_nan_bits(bits);
    assert(!nan ==> (bits / 0x8_0000_0000_0000) % 0x1000 != 0xFFF) by (bit_vector)
        requires
            nan == (bits / 0x10_0000_0000_0000 % 0x800 == 0x7FF && bits % 0x10_0000_0000_0000
                != 0),
    ;
    assert((0xFFF8_0000_0000_0000u64 / 0x8_0000_0000_0000) % 0x1000 == 0xFFF
        && 0xFFF8_0000_0000_0000u64 / 0x8_0000_0000_0000 != 0xFFF && (0xFFF8_0000_0000_0000u64
        / 0x1_0000_0000_0000) % 8 == 0) by (bit_vector);
}

/// With the sign bit clear a value has exactly one kind among float, nil,
/// bool, int and object, or none of them (the tags 4 to 7 and tag 0 with a
/// nonzero payload are unused).
pub proof fn law_kinds_exclusive(b: u64)
    requires
        b < SIGN_BIT,
    ensures
        bits_is_float(b) ==> !bits_is_nil(b) && !bits_is_bool(b) && !bits_is_int(b) && !bits_is_obj(b),
        bits_is_nil(b) ==> !bits_is_bool(b) && !bits_is_int(b) && !bits_is_obj(b),
        bits_is_bool(b) ==> !bits_is_int(b) && !bits_is_obj(b),
        bits_is_int(b) ==> !bits_is_obj(b),
{
    assert(b < 0x8000_0000_0000_0000u64 ==> ((b / 0x8_0000_0000_0000 != 0xFFF) == ((b
        / 0x8_0000_0000_0000) % 0x1000 != 0xFFF))) by (bit_vector);
    assert(tag_of(QNAN_BASE) == 0) by (bit_vector);
}

/// A 64-bit NaN-boxed value. Copy type, no allocations.
#[derive(Debug, Clone, Copy, PartialEq, Eq, Structural)]
pub struct Value(u64);

impl View for Value {
    type V = u64;

    closed spec fn view(&self) -> u64 {
        self.0
    }
}

impl Value {
    pub open spec fn spec_is_float(self) -> bool {
        bits_is_float(self@)
    }

    pub open spec fn spec_is_nil(self) -> bool {
        bits_is_nil(self@)
    }

    pub open spec fn spec_is_bool(self) -> bool {
        bits_is_bool(self@)
    }

    pub open spec fn spec_is_int(self) -> bool {
        bits_is_int(self@)
    }

    pub open spec fn spec_is_obj(self) -> bool {
        bits_is_obj(self@)
    }

    pub open spec fn spec_bool(self) -> bool {
        bits_bool(self@)
    }

    pub open spec fn spec_int(self) -> int {
        bits_int(self@)
    }

    /// The arena offset an object value holds.
    pub open spec fn spec_obj(self) -> u64 {
        payload_of(self@)
    }

    pub open spec fn spec_truthy(self) -> bool {
        bits_truthy(self@)
    }

    /// Two values with the same bits are the same value.
    pub proof fn lemma_view_injective(a: Value, b: Value)
        ensures
            a@ == b@ <==> a == b,
    {
    }

    pub fn nil() -> (r: Self)
        ensures
            r@ == QNAN_BASE,
            r.spec_is_nil(),
    {
        Value(QNAN_BASE)
    }

    pub fn from_bool(b: bool) -> (r: Self)
        ensures
            r@ == bool_bits(b),
            r.spec_is_bool(),
            r.spec_bool() == b,
    {
        let p: u64 = if b { 1 } else { 0 };
        let r = QNAN_BASE | TAG_BOOL | p;
        assert(r == QNAN_BASE + TAG_BOOL + p && r / 0x8_0000_0000_0000 == 0xFFF && (r
            / 0x1_0000_0000_0000) % 8 == 1 && r % 0x1_0000_0000_0000 == p) by (bit_vector)
            requires
                r == 0x7FF8_0000_0000_0000u64 | 0x0001_0000_0000_0000u64 | p,
                p <= 1,
        ;
        Value(r)
    }

    /// Encodes a 48-bit integer; the range is checked in debug builds only,
    /// so it is part of the contract.
    pub fn from_int(i: i64) -> (r: Self)
        requires
            fits_48(i as int),
        ensures
            r@ == int_bits(i as int),
            r.spec_is_int(),
            r.spec_int() == i,
    {
        Self::from_int_wrapping(i)
    }

    /// Encodes the low 48 bits of `i` as an integer value.
    pub fn from_int_wrapping(i: i64) -> (r: Self)
        ensures
            r@ == int_bits(i as int),
            r.spec_is_int(),
            fits_48(i as int) ==> r.spec_int() == i,
            r.spec_int() == sign_extend_48(int_payload(i as int) as u64),
            r.spec_int() == (i << 16u64) >> 16u64,
    {
        let u = i as u64;
        let payload = u & PAYLOAD_MASK;
        let r = QNAN_BASE | TAG_INT | payload;
        assert(payload == u % 0x1_0000_0000_0000) by (bit_vector)
            requires
                payload == u & 0x0000_FFFF_FFFF_FFFFu64,
        ;
        assert(r == QNAN_BASE + TAG_INT + payload && r / 0x8_0000_0000_0000 == 0xFFF && (r
            / 0x1_0000_0000_0000) % 8 == 2 && r % 0x1_0000_0000_0000 == payload) by (bit_vector)
            requires
                r == 0x7FF8_0000_0000_0000u64 | 0x0002_0000_0000_0000u64 | payload,
                payload == u & 0x0000_FFFF_FFFF_FFFFu64,
        ;
        assert(payload == int_payload(i as int)) by {
            assert(i >= 0 ==> u == i) by (bit_vector)
                requires
                    u == i as u64,
            ;
            assert(i < 0 ==> u == i + 0x1_0000_0000_0000_0000) by (bit_vector)
                requires
                    u == i as u64,
            ;
            if i < 0 {
                assert((i + 0x1_0000_0000_0000_0000) % 0x1_0000_0000_0000 == i
                    % 0x1_0000_0000_0000) by (nonlinear_arith);
            }
        }
        let ghost w: i64 = (i << 16u64) >> 16u64;
        assert(payload < 0x8000_0000_0000 ==> w == payload) by (bit_vector)
            requires
                payload == (i as u64) & 0x0000_FFFF_FFFF_FFFFu64,
                w == (i << 16u64) >> 16u64,
        ;
        assert(payload >= 0x8000_0000_0000 ==> w == payload - 0x1_0000_0000_0000) by (bit_vector)
            requires
                payload == (i as u64) & 0x0000_FFFF_FFFF_FFFFu64,
                w == (i << 16u64) >> 16u64,
        ;
        Value(r)
    }

    /// Encodes an arena offset; the range is checked in debug builds only,
    /// so it is part of the contract.
    pub fn from_obj(idx: u64) -> (r: Self)
        requires
            idx <= PAYLOAD_MASK,
        ensures
            r@ == obj_bits(idx as int),
            r.spec_is_obj(),
            r.spec_obj() == idx,
    {
        let r = QNAN_BASE | TAG_OBJ | idx;
        assert(r == QNAN_BASE + TAG_OBJ + idx && r / 0x8_0000_0000_0000 == 0xFFF && (r
            / 0x1_0000_0000_0000) % 8 == 3 && r % 0x1_0000_0000_0000 == idx) by (bit_vector)
            requires
                r == 0x7FF8_0000_0000_0000u64 | 0x0003_0000_0000_0000u64 | idx,
                idx <= 0x0000_FFFF_FFFF_FFFFu64,
        ;
        Value(r)
    }

    /// True for any value that is not in the tag space. The canonical NaN has
    /// its sign bit set, so it is a float.
    pub fn is_float(&self) -> (r: bool)
        ensures
            r == self.spec_is_float(),
    {
        let x = self.0;
        let r = (x & (SIGN_BIT | QNAN_BASE)) != QNAN_BASE;
        assert(r == (x / 0x8_0000_0000_0000 != 0xFFF)) by (bit_vector)
            requires
                r == ((x & (0x8000_0000_0000_0000u64 | 0x7FF8_0000_0000_0000u64))
                    != 0x7FF8_0000_0000_0000u64),
        ;
        r
    }

    pub fn is_nil(&self) -> (r: bool)
        ensures
            r == self.spec_is_nil(),
    {
        self.0 == QNAN_BASE
    }

    pub fn is_bool(&self) -> (r: bool)
        ensures
            r == self.spec_is_bool(),
    {
        let x = self.0;
        let r = (x & (QNAN_BASE | TAG_MASK)) == (QNAN_BASE | TAG_BOOL);
        assert(r == ((x / 0x8_0000_0000_0000) % 0x1000 == 0xFFF && (x / 0x1_0000_0000_0000) % 8 == 1))
            by (bit_vector)
            requires
                r == ((x & (0x7FF8_0000_0000_0000u64 | 0x0007_0000_0000_0000u64))
                    == (0x7FF8_0000_0000_0000u64 | 0x0001_0000_0000_0000u64)),
        ;
        r
    }

    pub fn is_int(&self) -> (r: bool)
        ensures
            r == self.spec_is_int(),
    {
        let x = self.0;
        let r = (x & (QNAN_BASE | TAG_MASK)) == (QNAN_BASE | TAG_INT);
        assert(r == ((x / 0x8_0000_0000_0000) % 0x1000 == 0xFFF && (x / 0x1_0000_0000_0000) % 8 == 2))
            by (bit_vector)
            requires
                r == ((x & (0x7FF8_0000_0000_0000u64 | 0x0007_0000_0000_0000u64))
                    == (0x7FF8_0000_0000_0000u64 | 0x0002_0000_0000_0000u64)),
        ;
        r
    }

    pub fn is_obj(&self) -> (r: bool)
        ensures
            r == self.spec_is_obj(),
    {
        let x = self.0;
        let r = (x & (QNAN_BASE | TAG_MASK)) == (QNAN_BASE | TAG_OBJ);
        assert(r == ((x / 0x8_0000_0000_0000) % 0x1000 == 0xFFF && (x / 0x1_0000_0000_0000) % 8 == 3))
            by (bit_vector)
            requires
                r == ((x & (0x7FF8_0000_0000_0000u64 | 0x0007_0000_0000_0000u64))
                    == (0x7FF8_0000_0000_0000u64 | 0x0003_0000_0000_0000u64)),
        ;
        r
    }

    pub fn as_bool(self) -> (r: Option<bool>)
        ensures
            r == (if self.spec_is_bool() {
                Some(self.spec_bool())
            } else {
                None
            }),
    {
        if self.is_bool() {
            let x = self.0;
            let b = (x & 1) != 0;
            assert(b == (x % 0x1_0000_0000_0000 % 2 == 1)) by (bit_vector)
                requires
                    b == ((x & 1) != 0),
            ;
            Some(b)
        } else {
            None
        }
    }

    /// Sign-extends the 48-bit payload of an int value.
    pub fn as_int(self) -> (r: Option<i64>)
        ensures
            r matches Some(i) ==> self.spec_is_int() && i == self.spec_int(),
            r is None ==> !self.spec_is_int(),
    {
        if self.is_int() {
            let raw = self.0 & PAYLOAD_MASK;
            let shifted = (raw << 16) as i64;
            let i = shifted >> 16;
            proof {
                let x = self.0;
                assert(raw == x % 0x1_0000_0000_0000) by (bit_vector)
                    requires
                        raw == x & 0x0000_FFFF_FFFF_FFFFu64,
                ;
                assert(raw < 0x8000_0000_0000 ==> i == raw) by (bit_vector)
                    requires
                        raw <= 0x0000_FFFF_FFFF_FFFFu64,
                        shifted == (raw << 16u64) as i64,
                        i == shifted >> 16i64,
                ;
                assert(raw >= 0x8000_0000_0000 ==> i == raw - 0x1_0000_0000_0000)
                    by (bit_vector)
                    requires
                        raw <= 0x0000_FFFF_FFFF_FFFFu64,
                        shifted == (raw << 16u64) as i64,
                        i == shifted >> 16i64,
                ;
            }
            Some(i)
        } else {
            None
        }
    }

    pub fn as_obj(self) -> (r: Option<u64>)
        ensures
            r == (if self.spec_is_obj() {
                Some(self.spec_obj())
            } else {
                None
            }),
    {
        if self.is_obj() {
            let x = self.0;
            let p = x & PAYLOAD_MASK;
            assert(p == x % 0x1_0000_0000_0000) by (bit_vector)
                requires
                    p == x & 0x0000_FFFF_FFFF_FFFFu64,
            ;
            Some(p)
        } else {
            None
        }
    }

    pub fn to_bits(self) -> (r: u64)
        ensures
            r == self@,
    {
        self.0
    }

    /// Reinterprets raw bits as a value, with no check.
    pub fn from_bits(bits: u64) -> (r: Self)
        ensures
            r@ == bits,
    {
        Value(bits)
    }

    /// Stores a double given by its IEEE bits; every NaN becomes `CANON_NAN_BITS`.
    pub fn from_float_bits(bits: u64) -> (r: Self)
        ensures
            r@ == canonical_float_bits(bits),
    {
        let nan = (bits & EXP_MASK) == EXP_MASK && (bits & MANTISSA_MASK) != 0;
        assert(nan == (bits / 0x10_0000_0000_0000 % 0x800 == 0x7FF && bits % 0x10_0000_0000_0000
            != 0)) by (bit_vector)
            requires
                nan == ((bits & 0x7FF0_0000_0000_0000u64) == 0x7FF0_0000_0000_0000u64 && (bits
                    & 0x000F_FFFF_FFFF_FFFFu64) != 0),
        ;
        if nan {
            Value(CANON_NAN_BITS)
        } else {
            Value(bits)
        }
    }

    /// The IEEE bits of a float value.
    pub fn float_bits(self) -> (r: Option<u64>)
        ensures
            r == (if self.spec_is_float() {
                Some(self@)
            } else {
                None
            }),
    {
        if self.is_float() {
            Some(self.0)
        } else {
            None
        }
    }

    pub fn is_truthy(self) -> (r: bool)
        ensures
            r == self.spec_truthy(),
    {
        if self.is_nil() {
            return false;
        }
        if let Some(b) = self.as_bool() {
            return b;
        }
        true
    }
}

} // verus!
