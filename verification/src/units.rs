//! Fixed-point arithmetic: fractions are counted in millionths.

use vstd::arithmetic::div_mod::{lemma_fundamental_div_mod, lemma_fundamental_div_mod_converse};
use vstd::prelude::*;

verus! {

/// How many millionths make one.
pub const MILLION: u64 = 1_000_000;

/// The quotient of `a` by a positive `b`, rounded down.
pub fn div_floor(a: i128, b: i128) -> (q: i128)
    requires
        b > 0,
        a > i128::MIN,
    ensures
        q == a / b,
{
    if a >= 0 {
        a / b
    } else {
        let whole = (-a) / b;
        let rest = (-a) % b;
        proof {
            lemma_fundamental_div_mod(-a as int, b as int);
            assert(b * whole == whole * b) by (nonlinear_arith);
        }
        if rest == 0 {
            proof {
                assert(a == (-whole) * b + 0) by (nonlinear_arith)
                    requires
                        -a == whole * b + rest,
                        rest == 0,
                ;
                lemma_fundamental_div_mod_converse(a as int, b as int, -whole as int, 0);
            }
            -whole
        } else {
            proof {
                assert(a == (-whole - 1) * b + (b - rest)) by (nonlinear_arith)
                    requires
                        -a == whole * b + rest,
                ;
                lemma_fundamental_div_mod_converse(
                    a as int,
                    b as int,
                    -whole - 1,
                    b - rest,
                );
            }
            -whole - 1
        }
    }
}

} // verus!
