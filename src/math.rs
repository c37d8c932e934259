use vstd::prelude::*;
use vstd::arithmetic::div_mod::{lemma_add_mod_noop, lemma_mod_self_0, lemma_small_mod};

verus! {

/// The absolute value of an integer.
pub open spec fn abs_int(x: int) -> int {
    if x < 0 { -x } else { x }
}

/// The greatest common divisor, by Euclid's algorithm.
pub open spec fn gcd_nat(a: nat, b: nat) -> nat
    decreases b,
{
    if b == 0 {
        a
    } else {
        gcd_nat(b, a % b)
    }
}

/// Division rounding toward zero, for a positive divisor.
pub open spec fn div_toward_zero(x: int, d: int) -> int {
    if x >= 0 { x / d } else { -((-x) / d) }
}

/// Arithmetic helpers shared by the grid kernels.
pub trait MathExt: Sized {
    /// The value with the larger magnitude, `self` on equal magnitudes; a
    /// signed minimum counts as the largest magnitude.
    spec fn spec_max_abs(self, other: Self) -> Self;

    /// The greatest common divisor.
    spec fn spec_gcd(self, other: Self) -> Self;

    /// The least common multiple.
    spec fn spec_lcm(self, other: Self) -> Self;

    /// Whether `gcd` can be computed without overflow.
    spec fn gcd_defined(self, other: Self) -> bool;

    /// Whether `lcm` can be computed without overflow or division by zero.
    spec fn lcm_defined(self, other: Self) -> bool;

    /// Get the value with the largest absolute value, favouring `self` on ties.
    fn max_abs(self, other: Self) -> (r: Self)
        ensures
            r == self.spec_max_abs(other),
    ;

    /// Compute the greatest common divisor of two numbers.
    fn gcd(self, other: Self) -> (r: Self)
        requires
            self.gcd_defined(other),
        ensures
            r == self.spec_gcd(other),
    ;

    /// Compute the least common multiple of two numbers.
    fn lcm(self, other: Self) -> (r: Self)
        requires
            self.lcm_defined(other),
        ensures
            r == self.spec_lcm(other),
    ;
}

fn gcd_u32(a: u32, b: u32) -> (r: u32)
    ensures
        r == gcd_nat(a as nat, b as nat),
{
    let mut x = a;
    let mut y = b;
    while y != 0
        invariant
            gcd_nat(x as nat, y as nat) == gcd_nat(a as nat, b as nat),
        decreases y,
    {
        let t = x % y;
        x = y;
        y = t;
    }
    x
}

fn gcd_usize(a: usize, b: usize) -> (r: usize)
    ensures
        r == gcd_nat(a as nat, b as nat),
{
    let mut x = a;
    let mut y = b;
    while y != 0
        invariant
            gcd_nat(x as nat, y as nat) == gcd_nat(a as nat, b as nat),
        decreases y,
    {
        let t = x % y;
        x = y;
        y = t;
    }
    x
}

proof fn lemma_gcd_bound(a: nat, b: nat)
    ensures
        b > 0 ==> gcd_nat(a, b) <= b,
        b == 0 ==> gcd_nat(a, b) == a,
        a > 0 || b > 0 ==> gcd_nat(a, b) > 0,
    decreases b,
{
    if b > 0 {
        lemma_gcd_bound(b, a % b);
    }
}

impl MathExt for i16 {
    open spec fn spec_max_abs(self, other: i16) -> i16 {
        if self == i16::MIN {
            self
        } else if other == i16::MIN {
            other
        } else if abs_int(self as int) >= abs_int(other as int) {
            self
        } else {
            other
        }
    }

    open spec fn spec_gcd(self, other: i16) -> i16 {
        gcd_nat(abs_int(self as int) as nat, abs_int(other as int) as nat) as i16
    }

    open spec fn spec_lcm(self, other: i16) -> i16 {
        div_toward_zero(self * other, self.spec_gcd(other) as int) as i16
    }

    open spec fn gcd_defined(self, other: i16) -> bool {
        self != i16::MIN && other != i16::MIN
    }

    open spec fn lcm_defined(self, other: i16) -> bool {
        &&& self.gcd_defined(other)
        &&& (self != 0 || other != 0)
        &&& i16::MIN <= self * other <= i16::MAX
    }

    fn max_abs(self, other: i16) -> (r: i16) {
        if self == i16::MIN {
            self
        } else if other == i16::MIN {
            other
        } else if (if self < 0 { -self } else { self }) >= (if other < 0 { -other } else { other }) {
            self
        } else {
            other
        }
    }

    fn gcd(self, other: i16) -> (r: i16) {
        let a = if self < 0 { -(self as i32) } else { self as i32 };
        let b = if other < 0 { -(other as i32) } else { other as i32 };
        let g = gcd_u32(a as u32, b as u32);
        proof {
            lemma_gcd_bound(a as nat, b as nat);
        }
        g as i16
    }

    fn lcm(self, other: i16) -> (r: i16) {
        let g = self.gcd(other) as i32;
        proof {
            lemma_gcd_bound(abs_int(self as int) as nat, abs_int(other as int) as nat);
        }
        let p = self as i32 * other as i32;
        let q = if p >= 0 { p / g } else { -((-p) / g) };
        q as i16
    }
}

impl MathExt for usize {
    open spec fn spec_max_abs(self, other: usize) -> usize {
        if self >= other { self } else { other }
    }

    open spec fn spec_gcd(self, other: usize) -> usize {
        gcd_nat(self as nat, other as nat) as usize
    }

    open spec fn spec_lcm(self, other: usize) -> usize {
        ((self * other) / (gcd_nat(self as nat, other as nat) as int)) as usize
    }

    open spec fn gcd_defined(self, other: usize) -> bool {
        true
    }

    open spec fn lcm_defined(self, other: usize) -> bool {
        (self != 0 || other != 0) && self * other <= usize::MAX
    }

    fn max_abs(self, other: usize) -> (r: usize) {
        if self >= other { self } else { other }
    }

    fn gcd(self, other: usize) -> (r: usize) {
        gcd_usize(self, other)
    }

    fn lcm(self, other: usize) -> (r: usize) {
        let g = gcd_usize(self, other);
        proof {
            lemma_gcd_bound(self as nat, other as nat);
        }
        (self * other) / g
    }
}

/// Stepping a value by one moves its remainder by one, wrapping at `w`.
pub proof fn lemma_mod_succ(x: int, w: int)
    requires
        x >= 0,
        w > 0,
    ensures
        (x + 1) % w == if x % w + 1 == w { 0 } else { x % w + 1 },
{
    lemma_add_mod_noop(x, 1, w);
    if w == 1 {
        lemma_mod_self_0(1);
    } else {
        lemma_small_mod(1, w as nat);
        lemma_mod_self_0(w);
        if x % w + 1 < w {
            lemma_small_mod((x % w + 1) as nat, w as nat);
        }
    }
}

} // verus!
