//! Floating-point numbers, held as their bits. Two of them are equal where they
//! are the same number: a zero has two signs, and what is no number equals
//! nothing.

use vstd::prelude::*;

verus! {

/// A single-precision number.
#[derive(Clone, Copy, Debug)]
pub struct Real32 {
    pub bits: u32,
}

/// A double-precision number.
#[derive(Clone, Copy, Debug)]
pub struct Real64 {
    pub bits: u64,
}

/// The bits without the sign.
pub open spec fn magnitude32(bits: u32) -> int {
    bits as int % 0x8000_0000
}

/// The bits without the sign.
pub open spec fn magnitude64(bits: u64) -> int {
    bits as int % 0x8000_0000_0000_0000
}

/// Whether single-precision bits stand for the same number. Above the infinite
/// there are no numbers.
pub open spec fn same_real32(a: u32, b: u32) -> bool {
    &&& magnitude32(a) <= 0x7f80_0000
    &&& magnitude32(b) <= 0x7f80_0000
    &&& a == b || (magnitude32(a) == 0 && magnitude32(b) == 0)
}

/// Whether double-precision bits stand for the same number. Above the infinite
/// there are no numbers.
pub open spec fn same_real64(a: u64, b: u64) -> bool {
    &&& magnitude64(a) <= 0x7ff0_0000_0000_0000
    &&& magnitude64(b) <= 0x7ff0_0000_0000_0000
    &&& a == b || (magnitude64(a) == 0 && magnitude64(b) == 0)
}

/// Whether double-precision bits stand for the same number.
pub fn equal_real64(a: u64, b: u64) -> (r: bool)
    ensures
        r == same_real64(a, b),
{
    let x: u64 = a % 0x8000_0000_0000_0000;
    let y: u64 = b % 0x8000_0000_0000_0000;
    x <= 0x7ff0_0000_0000_0000 && y <= 0x7ff0_0000_0000_0000 && (a == b || (x == 0 && y == 0))
}

/// Whether single-precision bits stand for the same number.
pub fn equal_real32(a: u32, b: u32) -> (r: bool)
    ensures
        r == same_real32(a, b),
{
    let x: u32 = a % 0x8000_0000;
    let y: u32 = b % 0x8000_0000;
    x <= 0x7f80_0000 && y <= 0x7f80_0000 && (a == b || (x == 0 && y == 0))
}

impl PartialEq for Real32 {
    fn eq(&self, other: &Real32) -> (r: bool) {
        equal_real32(self.bits, other.bits)
    }
}

impl vstd::std_specs::cmp::PartialEqSpecImpl for Real32 {
    open spec fn obeys_eq_spec() -> bool {
        true
    }

    open spec fn eq_spec(&self, other: &Real32) -> bool {
        same_real32(self.bits, other.bits)
    }
}

impl PartialEq for Real64 {
    fn eq(&self, other: &Real64) -> (r: bool) {
        equal_real64(self.bits, other.bits)
    }
}

impl vstd::std_specs::cmp::PartialEqSpecImpl for Real64 {
    open spec fn obeys_eq_spec() -> bool {
        true
    }

    open spec fn eq_spec(&self, other: &Real64) -> bool {
        same_real64(self.bits, other.bits)
    }
}

/// A number equals itself and nothing that has other bits, but for the two zeros, which
/// are equal. What is no number, with all bits of the exponent set and some behind them,
/// equals nothing.
pub proof fn law_numbers_are_equal_by_value(a: u64, b: u64, c: u32, d: u32)
    ensures
        same_real64(a, b) == same_real64(b, a),
        same_real32(c, d) == same_real32(d, c),
        a <= 0x7ff0_0000_0000_0000 ==> same_real64(a, a),
        0x7ff0_0000_0000_0000 < a <= 0x7fff_ffff_ffff_ffff ==> !same_real64(a, b),
        0x8000_0000_0000_0000 <= a <= 0xfff0_0000_0000_0000 ==> same_real64(a, a),
        a > 0xfff0_0000_0000_0000 ==> !same_real64(a, b),
        same_real64(0, 0x8000_0000_0000_0000),
        a != b && a != 0 && a != 0x8000_0000_0000_0000 ==> !same_real64(a, b),
        c <= 0x7f80_0000 ==> same_real32(c, c),
        0x7f80_0000 < c <= 0x7fff_ffff ==> !same_real32(c, d),
        0x8000_0000 <= c <= 0xff80_0000 ==> same_real32(c, c),
        c > 0xff80_0000 ==> !same_real32(c, d),
        same_real32(0, 0x8000_0000),
        c != d && c != 0 && c != 0x8000_0000 ==> !same_real32(c, d),
{
}

} // verus!
