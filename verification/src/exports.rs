//! Small items that bridged packages export to native callers.

use vstd::prelude::*;

verus! {

/// The constant that native callers compare against.
pub const MAGIC_NUMBER: u64 = 0xABCD_EFAB;

/// A point with wrapping coordinates, laid out for native callers.
#[derive(Debug)]
pub struct Point {
    pub x: u64,
    pub y: u64,
}

/// The sum of two coordinates modulo 2^64.
pub open spec fn wrapped_sum(a: u64, b: u64) -> u64 {
    ((a as int + b as int) % 0x1_0000_0000_0000_0000) as u64
}

impl Point {
    /// Adds `rhs` to this point, each coordinate wrapping around at 2^64.
    pub fn add(&mut self, rhs: &Point)
        ensures
            final(self).x == wrapped_sum(old(self).x, rhs.x),
            final(self).y == wrapped_sum(old(self).y, rhs.y),
    {
        self.x = self.x.wrapping_add(rhs.x);
        self.y = self.y.wrapping_add(rhs.y);
    }
}

/// Adds `rhs` to `lhs` if both are there, and says whether it did. A caller
/// from native code hands over null for a point that is not there.
pub fn add_point(lhs: Option<&mut Point>, rhs: Option<&Point>) -> (added: bool)
    ensures
        added == (lhs is Some && rhs is Some),
        lhs matches Some(p) ==> (if rhs is Some {
            final(p).x == wrapped_sum(p.x, rhs->Some_0.x) && final(p).y == wrapped_sum(
                p.y,
                rhs->Some_0.y,
            )
        } else {
            *final(p) == *p
        }),
{
    match lhs {
        Some(left) => match rhs {
            Some(right) => {
                left.add(right);
                true
            },
            None => false,
        },
        None => false,
    }
}

/// The value a dependency hands to the package that links it.
pub fn some_function() -> (r: u32)
    ensures
        r == 42,
{
    42
}

/// Whether `num` is the exported constant.
pub fn is_magic_number(num: u64) -> (r: bool)
    ensures
        r == (num == MAGIC_NUMBER),
{
    num == MAGIC_NUMBER
}

} // verus!
