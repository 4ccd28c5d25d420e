//! Singles by their bits: which are equal, and which is less.

use vstd::prelude::*;

verus! {

/// The bits of a single without its sign.
pub open spec fn magnitude(a: u32) -> int {
    if a >= 0x8000_0000 {
        a - 0x8000_0000
    } else {
        a as int
    }
}

/// The single is a number: finite, or beyond every finite one.
pub open spec fn is_number(a: u32) -> bool {
    magnitude(a) <= 0x7f80_0000
}

/// Where a number stands among the others; both zeros stand at 0.
pub open spec fn rank(a: u32) -> int {
    if a >= 0x8000_0000 {
        -magnitude(a)
    } else {
        magnitude(a)
    }
}

/// Two singles are equal: both are numbers, and they stand in one place.
pub open spec fn same_value(a: u32, b: u32) -> bool {
    is_number(a) && is_number(b) && rank(a) == rank(b)
}

/// The one is less than the other: both are numbers, and it stands before it.
pub open spec fn less(a: u32, b: u32) -> bool {
    is_number(a) && is_number(b) && rank(a) < rank(b)
}

/// 1, as a single.
pub const ONE: u32 = 0x3f80_0000;

/// 0.5, as a single.
pub const HALF: u32 = 0x3f00_0000;

/// The single is a number from 0 to 1.
pub open spec fn in_unit(a: u32) -> bool {
    is_number(a) && 0 <= rank(a) <= rank(ONE)
}

/// The single that lies in the range from 0 to 1 and is nearest; what is no number
/// stays what it is.
pub open spec fn clamped(a: u32) -> u32 {
    if less(a, 0) {
        0
    } else if less(ONE, a) {
        ONE
    } else {
        a
    }
}

fn place(a: u32) -> (r: i64)
    ensures
        r == rank(a),
{
    if a >= 0x8000_0000 {
        -((a - 0x8000_0000) as i64)
    } else {
        a as i64
    }
}

fn counts(a: u32) -> (r: bool)
    ensures
        r == is_number(a),
{
    if a >= 0x8000_0000 {
        a - 0x8000_0000 <= 0x7f80_0000
    } else {
        a <= 0x7f80_0000
    }
}

/// Whether two singles are equal.
pub fn is_same(a: u32, b: u32) -> (r: bool)
    ensures
        r == same_value(a, b),
{
    counts(a) && counts(b) && place(a) == place(b)
}

/// Whether the one is less than the other.
pub fn is_less(a: u32, b: u32) -> (r: bool)
    ensures
        r == less(a, b),
{
    counts(a) && counts(b) && place(a) < place(b)
}

/// The single, held in the range from 0 to 1.
pub fn clamp(a: u32) -> (r: u32)
    ensures
        r == clamped(a),
{
    if is_less(a, 0) {
        0
    } else if is_less(ONE, a) {
        ONE
    } else {
        a
    }
}

/// A number that is held in the range from 0 to 1 lies there; one that lies there stays
/// as it is; and of two numbers the one that is not less than the other never becomes
/// less.
pub proof fn law_clamping(a: u32, b: u32)
    requires
        is_number(a),
        is_number(b),
    ensures
        in_unit(clamped(a)),
        in_unit(a) ==> clamped(a) == a,
        !less(a, b) ==> !less(clamped(a), clamped(b)),
{
}

/// Of two numbers one is less, or they are equal, and never both; what is no number is
/// neither less than nor equal to anything.
pub proof fn law_numbers_are_ordered(a: u32, b: u32, c: u32)
    ensures
        is_number(a) && is_number(b) ==> less(a, b) || less(b, a) || same_value(a, b),
        !(less(a, b) && less(b, a)),
        !(less(a, b) && same_value(a, b)),
        less(a, b) && less(b, c) ==> less(a, c),
        !is_number(a) ==> !less(a, b) && !less(b, a) && !same_value(a, b),
{
}

/// Numbers stand in the order of their bits as long as they are not below 0, and in the
/// reverse of it where they are; those below 0 stand before the others, but both zeros stand
/// in one place. Held in the range from 0 to 1, those below 0 become 0, those above 1 become
/// 1, and everything else stays, bit by bit.
pub proof fn law_bits_tell_the_order(a: u32, b: u32)
    ensures
        is_number(a) <==> a <= 0x7f80_0000 || 0x8000_0000 <= a <= 0xff80_0000,
        a <= 0x7f80_0000 && b <= 0x7f80_0000 ==> (less(a, b) <==> a < b) && (same_value(a, b) <==> a
            == b),
        0x8000_0000 <= a <= 0xff80_0000 && 0x8000_0000 <= b <= 0xff80_0000 ==> (less(a, b) <==> b < a)
            && (same_value(a, b) <==> a == b),
        0x8000_0000 <= a <= 0xff80_0000 && b <= 0x7f80_0000 ==> {
            &&& less(a, b) <==> a > 0x8000_0000 || b > 0
            &&& same_value(a, b) <==> a == 0x8000_0000 && b == 0
            &&& !less(b, a)
        },
        clamped(a) == if 0x8000_0000 < a <= 0xff80_0000 {
            0
        } else if 0x3f80_0000 < a <= 0x7f80_0000 {
            0x3f80_0000
        } else {
            a
        },
        in_unit(a) <==> a <= 0x3f80_0000 || a == 0x8000_0000,
{
}

} // verus!
