//! Powers of two.

use vstd::prelude::*;

verus! {

/// Whether `value` is a power of two.
pub fn is_power_of_two(value: u64) -> (yes: bool)
    ensures
        yes == vstd::arithmetic::power2::is_pow2(value as int),
{
    if value == 0 {
        proof {
            reveal(vstd::arithmetic::power2::is_pow2);
        }
        return false;
    }
    let mut rest: u64 = value;
    while rest % 2 == 0
        invariant
            rest > 0,
            vstd::arithmetic::power2::is_pow2(rest as int)
                == vstd::arithmetic::power2::is_pow2(value as int),
        decreases rest,
    {
        proof {
            reveal(vstd::arithmetic::power2::is_pow2);
        }
        rest = rest / 2;
    }
    proof {
        reveal(vstd::arithmetic::power2::is_pow2);
    }
    rest == 1
}

} // verus!
