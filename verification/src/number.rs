//! Single-precision numbers, carried as their bits.
//!
//! A gain, a tempo or a grid's amplitude is only ever stored, moved and compared
//! here; what is computed with it is computed outside.

use vstd::prelude::*;

verus! {

/// The bits of 1.0.
pub const ONE: u32 = 0x3f80_0000;

/// The bits of 120.0.
pub const ONE_HUNDRED_TWENTY: u32 = 0x42f0_0000;

/// The bits of 0.0.
pub const ZERO: u32 = 0;

/// Whether bits stand for no number at all.
pub open spec fn not_a_number(bits: u32) -> bool {
    bits % 0x8000_0000 > 0x7f80_0000
}

/// Whether bits stand for zero, of either sign.
pub open spec fn is_zero(bits: u32) -> bool {
    bits % 0x8000_0000 == 0
}

/// Whether two bit patterns stand for equal numbers: the same bits, or zeros of
/// either sign, and never where one is not a number.
pub open spec fn equal_numbers(a: u32, b: u32) -> bool {
    &&& !not_a_number(a)
    &&& !not_a_number(b)
    &&& a == b || (is_zero(a) && is_zero(b))
}

/// Whether every number of two rows of them is equal, place by place.
pub open spec fn equal_rows(a: Seq<u32>, b: Seq<u32>) -> bool {
    &&& a.len() == b.len()
    &&& forall|i: int| 0 <= i < a.len() ==> equal_numbers(#[trigger] a[i], b[i])
}

/// Whether two numbers are equal.
pub fn same_number(a: u32, b: u32) -> (r: bool)
    ensures
        r == equal_numbers(a, b),
{
    let x: u32 = a % 0x8000_0000;
    let y: u32 = b % 0x8000_0000;
    x <= 0x7f80_0000 && y <= 0x7f80_0000 && (a == b || (x == 0 && y == 0))
}

/// Whether two rows of numbers are equal, place by place.
pub fn same_numbers(a: &Vec<u32>, b: &Vec<u32>) -> (r: bool)
    ensures
        r == equal_rows(a@, b@),
{
    if a.len() != b.len() {
        return false;
    }
    let mut i: usize = 0;
    while i < a.len()
        invariant
            i <= a.len(),
            a.len() == b.len(),
            forall|k: int| 0 <= k < i ==> equal_numbers(#[trigger] a@[k], b@[k]),
        decreases a.len() - i,
    {
        if !same_number(a[i], b[i]) {
            assert(!equal_numbers(a@[i as int], b@[i as int]));
            return false;
        }
        i += 1;
    }
    true
}

/// Where a number stands among all numbers: of two, the greater has the greater
/// place, and zeros of either sign have the same.
pub open spec fn place_of(bits: u32) -> int {
    if bits < 0x8000_0000 {
        bits as int
    } else {
        0x8000_0000 - bits
    }
}

/// Whether one number is no less than another, and both are numbers.
pub open spec fn no_less(a: u32, b: u32) -> bool {
    !not_a_number(a) && !not_a_number(b) && place_of(a) >= place_of(b)
}

/// Whether one number is greater than another, and both are numbers.
pub open spec fn greater(a: u32, b: u32) -> bool {
    !not_a_number(a) && !not_a_number(b) && place_of(a) > place_of(b)
}

/// Where a number stands among all numbers.
pub(crate) fn place(bits: u32) -> (r: i64)
    ensures
        r == place_of(bits),
{
    if bits < 0x8000_0000 {
        bits as i64
    } else {
        0x8000_0000 - bits as i64
    }
}

/// Whether one number is no less than another.
pub fn is_no_less(a: u32, b: u32) -> (r: bool)
    ensures
        r == no_less(a, b),
{
    a % 0x8000_0000 <= 0x7f80_0000 && b % 0x8000_0000 <= 0x7f80_0000 && place(a) >= place(b)
}

/// Whether one number is greater than another.
pub fn is_greater(a: u32, b: u32) -> (r: bool)
    ensures
        r == greater(a, b),
{
    a % 0x8000_0000 <= 0x7f80_0000 && b % 0x8000_0000 <= 0x7f80_0000 && place(a) > place(b)
}

/// Numbers that are no less than each other are equal, and no other ones.
pub proof fn law_order_agrees_with_equality(a: u32, b: u32)
    ensures
        no_less(a, b) && no_less(b, a) <==> equal_numbers(a, b),
        greater(a, b) <==> no_less(a, b) && !equal_numbers(a, b),
{
}

/// Whether bits stand for a number of at least one.
pub open spec fn at_least_one(bits: u32) -> bool {
    ONE <= bits <= 0x7f80_0000
}

/// A number, or one where it is less than that or not a number at all.
pub open spec fn one_or_more(bits: u32) -> u32 {
    if at_least_one(bits) {
        bits
    } else {
        ONE
    }
}

/// A number, or one where it is less than that or not a number at all.
pub fn raised_to_one(bits: u32) -> (r: u32)
    ensures
        r == one_or_more(bits),
{
    if ONE <= bits && bits <= 0x7f80_0000 {
        bits
    } else {
        ONE
    }
}

/// Of numbers that are not negative the greater has the greater bits, of negative
/// ones the smaller, and what is not a number is neither greater nor less than
/// anything.
pub proof fn law_the_order_of_numbers(a: u32, b: u32)
    ensures
        a <= 0x7f80_0000 && b <= 0x7f80_0000 ==> (no_less(a, b) <==> a >= b),
        0x8000_0000 <= a <= 0xff80_0000 && 0x8000_0000 <= b <= 0xff80_0000 ==> (no_less(a, b)
            <==> a <= b),
        a <= 0x7f80_0000 && 0x8000_0000 <= b <= 0xff80_0000 ==> no_less(a, b),
        0x8000_0000 < a <= 0xff80_0000 && 0 < b <= 0x7f80_0000 ==> !no_less(a, b),
        0x7f80_0000 < a < 0x8000_0000 || a > 0xff80_0000 ==> !no_less(a, b) && !no_less(b, a)
            && !equal_numbers(a, b),
        equal_numbers(0, 0x8000_0000),
        equal_numbers(a, b) && a != b ==> a % 0x8000_0000 == 0 && b % 0x8000_0000 == 0,
{
}

/// Raising to one leaves what is at least one alone, and gives one for the rest.
pub proof fn law_raising_to_one(bits: u32)
    ensures
        0x3f80_0000 <= bits <= 0x7f80_0000 ==> one_or_more(bits) == bits,
        bits < 0x3f80_0000 || bits > 0x7f80_0000 ==> one_or_more(bits) == 0x3f80_0000,
        at_least_one(one_or_more(bits)),
{
}

} // verus!
