use vstd::prelude::*;

verus! {

/// Swap two values with three exclusive-or steps, no temporary.
pub fn swap(x: u32, y: u32) -> (r: (u32, u32))
    ensures
        r == (y, x),
{
    let mut a = x;
    let mut b = y;
    a = a ^ b;
    b = b ^ a;
    a = a ^ b;
    proof {
        assert(y ^ (x ^ y) == x) by (bit_vector);
        assert((x ^ y) ^ (y ^ (x ^ y)) == y) by (bit_vector);
    }
    (a, b)
}

/// Add one by negating the bitwise complement.
pub fn add_one(x: i32) -> (r: i32)
    requires
        x < i32::MAX,
    ensures
        r == x + 1,
{
    let y = !x;
    proof {
        assert(!x == -x - 1) by (bit_vector);
    }
    -y
}

/// Subtract one by complementing the negation.
pub fn sub_one(x: i32) -> (r: i32)
    requires
        x > i32::MIN,
    ensures
        r == x - 1,
{
    let y = -x;
    proof {
        assert(!y == -y - 1) by (bit_vector);
    }
    !y
}

/// Negate by complementing and adding one.
pub fn neg(x: i32) -> (r: i32)
    requires
        x > i32::MIN,
    ensures
        r == -x,
{
    let y = !x;
    proof {
        assert(!x == -x - 1) by (bit_vector);
    }
    y + 1
}

/// Population count is not implemented; the argument is handed back
/// unchanged.
pub fn hamming_weight<T>(x: T) -> (r: T)
    ensures
        r == x,
{
    x
}

} // verus!
