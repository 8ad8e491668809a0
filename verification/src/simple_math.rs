use vstd::prelude::*;

verus! {

/// Determines if a number is even.
pub fn is_even(n: i32) -> (r: bool)
    ensures
        r <==> (n as int) % 2 == 0,
{
    n % 2 == 0
}

/// Adds two integers and returns their sum plus an extra constant of 10.
pub fn add(a: i32, b: i32) -> (r: i32)
    requires
        i32::MIN <= a + b,
        a + b + 10 <= i32::MAX,
    ensures
        r == a + b + 10,
{
    add_with_extra(a, b)
}

/// The underlying sum: both operands plus an extra 10.
pub fn add_with_extra(a: i32, b: i32) -> (r: i32)
    requires
        i32::MIN <= a + b,
        a + b + 10 <= i32::MAX,
    ensures
        r == a + b + 10,
{
    let extra: i32 = 10;
    a + b + extra
}

} // verus!
