//! Exact fractions. Every statistic of the engine that is not an integer is
//! returned as an exact numerator/denominator pair, so results are
//! deterministic and contracts can speak about the precise value.

use vstd::prelude::*;

verus! {

/// An exact non-negative fraction. `den` is never 0 in a well-formed value.
#[derive(Clone, Copy, Debug, PartialEq, Eq, Structural)]
pub struct Ratio {
    pub num: u128,
    pub den: u128,
}

impl Ratio {
    pub open spec fn wf(self) -> bool {
        self.den > 0
    }

    pub fn new(num: u128, den: u128) -> (r: Ratio)
        requires
            den > 0,
        ensures
            r.num == num && r.den == den && r.wf(),
    {
        Ratio { num, den }
    }

    /// The zero value with denominator 1.
    pub fn zero() -> (r: Ratio)
        ensures
            r.num == 0 && r.den == 1 && r.wf(),
    {
        Ratio { num: 0, den: 1 }
    }
}

/// Does `d` divide `x` exactly?
pub open spec fn divides(d: int, x: int) -> bool {
    exists|k: int| x == #[trigger] (d * k)
}

/// Greatest common divisor of two positive values by Euclid's algorithm
/// (here only its divisor property is needed, not maximality).
fn gcd_u128(a: u128, b: u128) -> (g: u128)
    requires
        a >= 1,
        b >= 1,
    ensures
        g >= 1,
        divides(g as int, a as int),
        divides(g as int, b as int),
{
    let mut x = a;
    let mut y = b;
    while y != 0
        invariant
            x >= 1,
            forall|d: int|
                d >= 1 && #[trigger] divides(d, x as int) && divides(d, y as int) ==> divides(
                    d,
                    a as int,
                ) && divides(d, b as int),
        decreases y,
    {
        let t = x % y;
        proof {
            vstd::arithmetic::div_mod::lemma_fundamental_div_mod(x as int, y as int);
            let q = x as int / y as int;
            assert forall|d: int|
                d >= 1 && #[trigger] divides(d, y as int) && divides(d, t as int) implies divides(
                d,
                a as int,
            ) && divides(d, b as int) by {
                let k1 = choose|k1: int| y as int == #[trigger] (d * k1);
                let k2 = choose|k2: int| t as int == #[trigger] (d * k2);
                assert(x as int == d * (k1 * q + k2)) by (nonlinear_arith)
                    requires
                        x as int == (y as int) * q + t as int,
                        y as int == d * k1,
                        t as int == d * k2,
                ;
                assert(divides(d, x as int));
            }
        }
        x = y;
        y = t;
    }
    proof {
        assert(x as int == x as int * 1);
        assert(divides(x as int, x as int));
        assert(0int == x as int * 0);
        assert(divides(x as int, 0int));
    }
    x
}

/// Exact addition of two fractions, with the denominators reduced by their
/// greatest common divisor. The result represents exactly the sum; it is
/// None only when an intermediate product leaves the 128-bit range, and is
/// always produced when even the unreduced products fit.
pub fn ratio_add(x: Ratio, y: Ratio) -> (r: Option<Ratio>)
    requires
        x.wf(),
        y.wf(),
    ensures
        r matches Some(z) ==> {
            &&& z.wf()
            &&& z.num * (x.den * y.den) == (x.num * y.den + y.num * x.den) * z.den
            &&& z.den <= x.den * y.den
        },
        (x.num * y.den + y.num * x.den <= u128::MAX && x.den * y.den <= u128::MAX) ==> r is Some,
{
    let g = gcd_u128(x.den, y.den);
    let b1 = x.den / g;
    let d1 = y.den / g;
    proof {
        vstd::arithmetic::div_mod::lemma_fundamental_div_mod(x.den as int, g as int);
        vstd::arithmetic::div_mod::lemma_fundamental_div_mod(y.den as int, g as int);
        let kb = choose|k: int| x.den as int == #[trigger] (g as int * k);
        assert(x.den as int % g as int == 0) by (nonlinear_arith)
            requires
                x.den as int == g as int * kb,
                g >= 1,
                x.den >= 1,
                kb >= 0 || kb < 0,
        ;
        let kd = choose|k: int| y.den as int == #[trigger] (g as int * k);
        assert(y.den as int % g as int == 0) by (nonlinear_arith)
            requires
                y.den as int == g as int * kd,
                g >= 1,
                y.den >= 1,
        ;
        assert(x.den as int == g as int * b1 as int);
        assert(y.den as int == g as int * d1 as int);
        assert(b1 >= 1 && d1 >= 1) by (nonlinear_arith)
            requires
                x.den as int == g as int * b1 as int,
                y.den as int == g as int * d1 as int,
                x.den >= 1,
                y.den >= 1,
                g >= 1,
        ;
        assert(d1 <= y.den && b1 <= x.den) by (nonlinear_arith)
            requires
                x.den as int == g as int * b1 as int,
                y.den as int == g as int * d1 as int,
                b1 >= 1,
                d1 >= 1,
                g >= 1,
        ;
    }
    let t1 = match x.num.checked_mul(d1) {
        Some(v) => v,
        None => {
            proof {
                assert(!(x.num * y.den + y.num * x.den <= u128::MAX && x.den * y.den
                    <= u128::MAX)) by (nonlinear_arith)
                    requires
                        x.num * (d1 as int) > u128::MAX,
                        d1 <= y.den,
                        x.num >= 0,
                        y.num >= 0,
                        x.den >= 1,
                        y.den >= 1,
                ;
            }
            return None;
        },
    };
    let t2 = match y.num.checked_mul(b1) {
        Some(v) => v,
        None => {
            proof {
                assert(!(x.num * y.den + y.num * x.den <= u128::MAX && x.den * y.den
                    <= u128::MAX)) by (nonlinear_arith)
                    requires
                        y.num * (b1 as int) > u128::MAX,
                        b1 <= x.den,
                        x.num >= 0,
                        y.num >= 0,
                        x.den >= 1,
                        y.den >= 1,
                ;
            }
            return None;
        },
    };
    let num = match t1.checked_add(t2) {
        Some(v) => v,
        None => {
            proof {
                assert(!(x.num * y.den + y.num * x.den <= u128::MAX && x.den * y.den
                    <= u128::MAX)) by (nonlinear_arith)
                    requires
                        x.num * (d1 as int) + y.num * (b1 as int) > u128::MAX,
                        d1 <= y.den,
                        b1 <= x.den,
                        x.num >= 0,
                        y.num >= 0,
                        x.den >= 1,
                        y.den >= 1,
                ;
            }
            return None;
        },
    };
    let den = match b1.checked_mul(y.den) {
        Some(v) => v,
        None => {
            proof {
                assert(!(x.num * y.den + y.num * x.den <= u128::MAX && x.den * y.den
                    <= u128::MAX)) by (nonlinear_arith)
                    requires
                        (b1 as int) * y.den > u128::MAX,
                        b1 <= x.den,
                        x.den >= 1,
                        y.den >= 1,
                ;
            }
            return None;
        },
    };
    proof {
        assert(den >= 1) by (nonlinear_arith)
            requires
                den == (b1 as int) * y.den,
                b1 >= 1,
                y.den >= 1,
        ;
        assert(num * (x.den * y.den) == (x.num * y.den + y.num * x.den) * den)
            by (nonlinear_arith)
            requires
                num == x.num * (d1 as int) + y.num * (b1 as int),
                den == (b1 as int) * y.den,
                x.den as int == g as int * b1 as int,
                y.den as int == g as int * d1 as int,
        ;
        assert(den <= x.den * y.den) by (nonlinear_arith)
            requires
                den == (b1 as int) * y.den,
                b1 <= x.den,
                y.den >= 1,
        ;
    }
    Some(Ratio { num, den })
}

} // verus!
