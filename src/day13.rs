use vstd::prelude::*;
use vstd::arithmetic::div_mod::lemma_fundamental_div_mod;

verus! {

/// Greatest common divisor, by Euclid's rule.
pub open spec fn gcd_spec(a: nat, b: nat) -> nat
    decreases b,
{
    if b == 0 {
        a
    } else {
        gcd_spec(b, a % b)
    }
}

pub open spec fn divides(d: int, x: int) -> bool {
    exists|k: int| x == #[trigger] (d * k)
}

/// The greatest common divisor divides both numbers, and every common
/// divisor of the two divides it.
pub proof fn lemma_gcd_common_divisor(a: nat, b: nat)
    ensures
        divides(gcd_spec(a, b) as int, a as int),
        divides(gcd_spec(a, b) as int, b as int),
        forall|d: int| divides(d, a as int) && divides(d, b as int) ==> #[trigger] divides(d, gcd_spec(a, b) as int),
    decreases b,
{
    if b == 0 {
        assert(a as int == (a as int) * 1);
        assert(0 == (a as int) * 0);
    } else {
        let r = a % b;
        let q = a / b;
        lemma_fundamental_div_mod(a as int, b as int);
        lemma_gcd_common_divisor(b, r);
        let g = gcd_spec(b, r) as int;
        let kb = choose|k: int| b as int == #[trigger] (g * k);
        let kr = choose|k: int| r as int == #[trigger] (g * k);
        assert(a as int == g * (kb * q + kr)) by (nonlinear_arith)
            requires a as int == b * q + r, b as int == g * kb, r as int == g * kr;
        assert forall|d: int| divides(d, a as int) && divides(d, b as int) implies #[trigger] divides(d, g) by {
            let ka = choose|k: int| a as int == #[trigger] (d * k);
            let kb2 = choose|k: int| b as int == #[trigger] (d * k);
            assert(r as int == d * (ka - kb2 * q)) by (nonlinear_arith)
                requires a as int == b * q + r, a as int == d * ka, b as int == d * kb2;
        }
    }
}

/// Greatest common divisor of two non-negative numbers.
pub fn calculate_gcd(a: i64, b: i64) -> (r: i64)
    requires
        a >= 0,
        b >= 0,
    ensures
        r == gcd_spec(a as nat, b as nat),
{
    let mut x = a;
    let mut y = b;
    while y != 0
        invariant
            x >= 0,
            y >= 0,
            gcd_spec(x as nat, y as nat) == gcd_spec(a as nat, b as nat),
        decreases y,
    {
        let t = y;
        y = x % y;
        x = t;
    }
    x
}

} // verus!
