//! Exact rational phases, always reduced and normalized modulo 2.
//!
//! A phase is a multiple of pi, held as a fraction `num / den` in lowest
//! terms with `0 <= num/den < 2`.  Phase arithmetic is total on the values
//! this type can hold: addition wraps modulo 2, as phases are defined
//! modulo 2 pi.

use vstd::arithmetic::div_mod::{lemma_fundamental_div_mod, lemma_div_multiples_vanish};
use vstd::prelude::*;

verus! {

/// Greatest common divisor, by Euclid's algorithm.
pub open spec fn gcd(a: nat, b: nat) -> nat
    decreases b,
{
    if b == 0 {
        a
    } else {
        gcd(b, a % b)
    }
}

/// `d` divides `a`.
pub open spec fn divides(d: nat, a: nat) -> bool {
    exists|k: nat| a == #[trigger] (d * k)
}

/// One congruence witness: `n1/d1` and `n2/d2` differ by the even integer `2k`.
pub open spec fn cong_witness(n1: int, d1: int, n2: int, d2: int, k: int) -> bool {
    n1 * d2 - n2 * d1 == 2 * k * (d1 * d2)
}

/// The rationals `n1/d1` and `n2/d2` are congruent modulo 2.
pub open spec fn congruent(n1: int, d1: int, n2: int, d2: int) -> bool {
    exists|k: int| #[trigger] cong_witness(n1, d1, n2, d2, k)
}

pub proof fn lemma_gcd_divides(a: nat, b: nat)
    ensures
        divides(gcd(a, b), a),
        divides(gcd(a, b), b),
    decreases b,
{
    if b == 0 {
        assert(a == gcd(a, b) * 1) by (nonlinear_arith)
            requires gcd(a, b) == a;
        assert(b == gcd(a, b) * 0) by (nonlinear_arith)
            requires b == 0;
    } else {
        lemma_gcd_divides(b, a % b);
        let g = gcd(b, a % b);
        let k1 = choose|k: nat| b == #[trigger] (g * k);
        let k2 = choose|k: nat| (a % b) == #[trigger] (g * k);
        lemma_fundamental_div_mod(a as int, b as int);
        let q = a as int / b as int;
        assert(a as int == g * k1 * q + g * k2);
        assert(q >= 0) by (nonlinear_arith)
            requires a as int == b * q + (a % b), b >= 1, 0 <= (a % b) < b, a >= 0;
        assert(a as int == g * (k1 * q + k2)) by (nonlinear_arith)
            requires a as int == g * k1 * q + g * k2;
        assert(a == g * ((k1 * q + k2) as nat));
    }
}

pub proof fn lemma_gcd_pos(a: nat, b: nat)
    requires
        a > 0 || b > 0,
    ensures
        gcd(a, b) > 0,
    decreases b,
{
    if b != 0 {
        lemma_gcd_pos(b, a % b);
    }
}

pub proof fn lemma_divides_gcd(d: nat, a: nat, b: nat)
    requires
        divides(d, a),
        divides(d, b),
    ensures
        divides(d, gcd(a, b)),
    decreases b,
{
    if b == 0 {
    } else {
        let k1 = choose|k: nat| a == #[trigger] (d * k);
        let k2 = choose|k: nat| b == #[trigger] (d * k);
        if d == 0 {
            assert(b == 0) by (nonlinear_arith)
                requires b == d * k2, d == 0;
        }
        lemma_fundamental_div_mod(a as int, b as int);
        let q = a as int / b as int;
        let t = k1 - k2 * q;
        assert(a % b == d * t) by (nonlinear_arith)
            requires a % b == a - b * q, a == d * k1, b == d * k2, t == k1 - k2 * q;
        assert(t >= 0) by (nonlinear_arith)
            requires d * t == a % b, a % b >= 0, d >= 1;
        assert((a % b) == d * (t as nat));
        lemma_divides_gcd(d, b, a % b);
    }
}

pub proof fn lemma_divides_le(d: nat, a: nat)
    requires
        divides(d, a),
        a > 0,
    ensures
        1 <= d <= a,
{
    let k = choose|k: nat| a == #[trigger] (d * k);
    assert(1 <= d && d <= a) by (nonlinear_arith)
        requires a == d * k, a > 0;
}

/// Dividing both sides of a fraction by their gcd leaves a coprime pair.
pub proof fn lemma_coprime_quotients(a: nat, b: nat)
    requires
        b > 0,
    ensures
        gcd(a, b) > 0,
        divides(gcd(a, b), a),
        divides(gcd(a, b), b),
        a == gcd(a, b) * (a / gcd(a, b)),
        b == gcd(a, b) * (b / gcd(a, b)),
        gcd(a / gcd(a, b), b / gcd(a, b)) == 1,
{
    let g = gcd(a, b);
    lemma_gcd_pos(a, b);
    lemma_gcd_divides(a, b);
    let k1 = choose|k: nat| a == #[trigger] (g * k);
    let k2 = choose|k: nat| b == #[trigger] (g * k);
    lemma_div_multiples_vanish(k1 as int, g as int);
    lemma_div_multiples_vanish(k2 as int, g as int);
    assert(a / g == k1);
    assert(b / g == k2);
    let g2 = gcd(k1, k2);
    assert(k2 > 0) by (nonlinear_arith)
        requires b == g * k2, b > 0;
    lemma_gcd_pos(k1, k2);
    lemma_gcd_divides(k1, k2);
    let m1 = choose|k: nat| k1 == #[trigger] (g2 * k);
    let m2 = choose|k: nat| k2 == #[trigger] (g2 * k);
    assert(a == (g * g2) * m1) by (nonlinear_arith)
        requires a == g * k1, k1 == g2 * m1;
    assert(b == (g * g2) * m2) by (nonlinear_arith)
        requires b == g * k2, k2 == g2 * m2;
    lemma_divides_gcd((g * g2) as nat, a, b);
    let t = choose|k: nat| g == #[trigger] (((g * g2) as nat) * k);
    assert(g2 == 1) by (nonlinear_arith)
        requires g == g * g2 * t, g > 0, g2 > 0;
}

pub proof fn lemma_mul_le(x: int, y: int, bx: int, by2: int)
    requires
        0 <= x <= bx,
        0 <= y <= by2,
    ensures
        x * y <= bx * by2,
{
    assert(x * y <= bx * by2) by (nonlinear_arith)
        requires 0 <= x <= bx, 0 <= y <= by2;
}

pub proof fn lemma_cong_intro(n1: int, d1: int, n2: int, d2: int, k: int)
    requires
        n1 * d2 - n2 * d1 == 2 * k * (d1 * d2),
    ensures
        congruent(n1, d1, n2, d2),
{
    assert(cong_witness(n1, d1, n2, d2, k));
}

/// Congruence modulo 2 is transitive across a shared middle fraction.
#[verifier::rlimit(50)]
pub proof fn lemma_cong_trans(n1: int, d1: int, n2: int, d2: int, n3: int, d3: int)
    requires
        d2 != 0,
        congruent(n1, d1, n2, d2),
        congruent(n2, d2, n3, d3),
    ensures
        congruent(n1, d1, n3, d3),
{
    let k1 = choose|k: int| #[trigger] cong_witness(n1, d1, n2, d2, k);
    let k2 = choose|k: int| #[trigger] cong_witness(n2, d2, n3, d3, k);
    let lhs = n1 * d3 - n3 * d1;
    let rhs = 2 * (k1 + k2) * (d1 * d3);
    assert(d2 * lhs == d3 * (n1 * d2 - n2 * d1) + d1 * (n2 * d3 - n3 * d2)) by (nonlinear_arith)
        requires lhs == n1 * d3 - n3 * d1;
    assert(d3 * (n1 * d2 - n2 * d1) == d3 * (2 * k1 * (d1 * d2))) by (nonlinear_arith)
        requires n1 * d2 - n2 * d1 == 2 * k1 * (d1 * d2);
    assert(d1 * (n2 * d3 - n3 * d2) == d1 * (2 * k2 * (d2 * d3))) by (nonlinear_arith)
        requires n2 * d3 - n3 * d2 == 2 * k2 * (d2 * d3);
    assert(d3 * (2 * k1 * (d1 * d2)) + d1 * (2 * k2 * (d2 * d3)) == d2 * rhs) by (nonlinear_arith)
        requires rhs == 2 * (k1 + k2) * (d1 * d3);
    assert(lhs == rhs) by (nonlinear_arith)
        requires d2 != 0, d2 * lhs == d2 * rhs;
    lemma_cong_intro(n1, d1, n3, d3, k1 + k2);
}

/// An exact rational multiple of pi, reduced and normalized to `[0, 2)`.
#[derive(Debug, Clone, Copy, PartialEq, Eq, Structural)]
pub struct Phase {
    num: u64,
    den: u64,
}

impl Phase {
    /// Numerator of the reduced fraction.
    pub closed spec fn numer(self) -> int {
        self.num as int
    }

    /// Denominator of the reduced fraction.
    pub closed spec fn denom(self) -> int {
        self.den as int
    }

    /// The stored fraction is in lowest terms, lies in `[0, 2)`, and its
    /// denominator leaves room for exact negation.
    pub open spec fn canonical(self) -> bool {
        &&& 1 <= self.denom() <= 0x8000_0000_0000_0000
        &&& self.numer() < 2 * self.denom()
        &&& gcd(self.numer() as nat, self.denom() as nat) == 1
    }

    /// The phase negated modulo 2: `0` stays `0`, otherwise `2 - num/den`.
    pub closed spec fn neg_spec(self) -> Phase {
        if self.num == 0 {
            self
        } else {
            Phase { num: (2 * self.denom() - self.numer()) as u64, den: self.den }
        }
    }

    pub proof fn lemma_neg_facts(self)
        requires
            self.canonical(),
        ensures
            self.neg_spec().canonical(),
            self.neg_spec().denom() == self.denom(),
            self.neg_spec().numer() == if self.numer() == 0 { 0int } else { 2 * self.denom() - self.numer() },
            self.neg_spec().neg_spec() == self,
            congruent(-self.numer(), self.denom(), self.neg_spec().numer(), self.neg_spec().denom()),
    {
        let n = self.numer() as nat;
        let d = self.denom() as nat;
        if self.num == 0 {
            lemma_cong_intro(0, d as int, 0, d as int, 0);
        } else {
            let n2 = (2 * d - n) as nat;
            // coprimality is preserved: a common divisor of n2 and d divides n
            let g = gcd(n2, d);
            lemma_gcd_pos(n2, d);
            lemma_gcd_divides(n2, d);
            let k1 = choose|k: nat| n2 == #[trigger] (g * k);
            let k2 = choose|k: nat| d == #[trigger] (g * k);
            let t = 2 * k2 - k1;
            assert(n == g * t) by (nonlinear_arith)
                requires n2 == g * k1, d == g * k2, n2 == 2 * d - n, t == 2 * k2 - k1;
            assert(t >= 0) by (nonlinear_arith)
                requires n == g * t, n > 0, g >= 1;
            assert(n == g * (t as nat));
            lemma_divides_gcd(g, n, d);
            lemma_divides_le(g, gcd(n, d));
            assert(g == 1);
            // the involution: 2d - (2d - n) == n
            assert(self.neg_spec().neg_spec() == self);
            // -n/d differs from (2d - n)/d by exactly -2
            assert((-(n as int)) * (d as int) - (n2 as int) * (d as int) == 2 * (-1) * ((d as int) * (d as int))) by (nonlinear_arith)
                requires n2 == 2 * d - n;
            lemma_cong_intro(-(n as int), d as int, n2 as int, d as int, -1);
        }
    }
}

/// Euclid's algorithm.
fn gcd_exec(a0: u64, b0: u64) -> (g: u64)
    ensures
        g as nat == gcd(a0 as nat, b0 as nat),
{
    let mut a = a0;
    let mut b = b0;
    while b != 0
        invariant
            gcd(a as nat, b as nat) == gcd(a0 as nat, b0 as nat),
        decreases b,
    {
        let t: u64 = a % b;
        a = b;
        b = t;
    }
    a
}

/// Reduce `m / d` (with `m < 2 d`) to canonical form.
fn make_canonical(m: u64, d: u64) -> (r: Phase)
    requires
        1 <= d <= 0x8000_0000_0000_0000u64,
        m < 2 * d,
    ensures
        r.canonical(),
        congruent(m as int, d as int, r.numer(), r.denom()),
{
    proof {
        lemma_coprime_quotients(m as nat, d as nat);
    }
    let g = gcd_exec(m, d);
    let num = m / g;
    let den = d / g;
    proof {
        let gn = gcd(m as nat, d as nat);
        assert(den >= 1) by (nonlinear_arith)
            requires d as nat == gn * (den as nat), d >= 1, g == gn;
        assert(num < 2 * den) by (nonlinear_arith)
            requires
                m as nat == gn * (num as nat),
                d as nat == gn * (den as nat),
                m < 2 * d,
                gn >= 1,
                g == gn;
        assert(den <= d) by (nonlinear_arith)
            requires d as nat == gn * (den as nat), gn >= 1, den >= 1, g == gn;
        assert((m as int) * (den as int) - (num as int) * (d as int) == 2 * 0 * ((d as int) * (den as int))) by (nonlinear_arith)
            requires
                m as nat == gn * (num as nat),
                d as nat == gn * (den as nat),
                g == gn;
        lemma_cong_intro(m as int, d as int, num as int, den as int, 0);
    }
    Phase { num, den }
}

impl Phase {
    /// Construct a phase from the rational `n / d`, reducing it and
    /// normalizing it into `[0, 2)` on construction.
    pub fn new(n: i64, d: i64) -> (r: Phase)
        requires
            d != 0,
        ensures
            r.canonical(),
            congruent(n as int, d as int, r.numer(), r.denom()),
    {
        // flip signs so the denominator is positive; n/d == n1/d1
        let n1: i128 = if d < 0 { -(n as i128) } else { n as i128 };
        let d1: i128 = if d < 0 { -(d as i128) } else { d as i128 };
        proof {
            assert((n as int) * (d1 as int) - (n1 as int) * (d as int) == 2 * 0 * ((d as int) * (d1 as int))) by (nonlinear_arith)
                requires
                    (d < 0 ==> n1 as int == -(n as int) && d1 as int == -(d as int)),
                    (d >= 0 ==> n1 as int == n as int && d1 as int == d as int);
            lemma_cong_intro(n as int, d as int, n1 as int, d1 as int, 0);
        }
        // take |n1| and remember its sign; reduce modulo 2 d1
        let neg: bool = n1 < 0;
        let a: u128 = if n1 < 0 { (-n1) as u128 } else { n1 as u128 };
        let td: u128 = 2 * (d1 as u128);
        let m0: u128 = a % td;
        let m: u128 = if neg && m0 != 0 { td - m0 } else { m0 };
        proof {
            lemma_fundamental_div_mod(a as int, td as int);
            let q = a as int / td as int;
            let sn: int = n1 as int;
            let k: int = if !neg { q } else if m0 == 0 { -q } else { -q - 1 };
            assert(sn - m == 2 * k * (d1 as int)) by (nonlinear_arith)
                requires
                    a as int == td * q + m0,
                    td == 2 * (d1 as int),
                    sn == if neg { -(a as int) } else { a as int },
                    m == if neg && m0 != 0 { td - m0 } else { m0 as int },
                    k == if !neg { q } else if m0 == 0 { -q } else { -q - 1 };
            assert(sn * (d1 as int) - (m as int) * (d1 as int) == 2 * k * ((d1 as int) * (d1 as int))) by (nonlinear_arith)
                requires sn - m == 2 * k * (d1 as int);
            lemma_cong_intro(sn, d1 as int, m as int, d1 as int, k);
        }
        let r = make_canonical(m as u64, d1 as u64);
        proof {
            lemma_cong_trans(n as int, d as int, n1 as int, d1 as int, m as int, d1 as int);
            lemma_cong_trans(n as int, d as int, m as int, d1 as int, r.numer(), r.denom());
        }
        r
    }

    /// The spec-level phase `0`.
    pub closed spec fn zero_spec() -> Phase {
        Phase { num: 0, den: 1 }
    }

    pub proof fn lemma_zero_spec()
        ensures
            Phase::zero_spec().canonical(),
            Phase::zero_spec().numer() == 0,
            Phase::zero_spec().denom() == 1,
    {
        assert(gcd(1, 0) == 1);
        assert(gcd(0, 1) == 1);
    }

    /// The phase `0`.
    pub fn zero() -> (r: Phase)
        ensures
            r == Phase::zero_spec(),
            r.canonical(),
            r.numer() == 0,
            r.denom() == 1,
    {
        proof {
            assert(gcd(1, 0) == 1);
            assert(gcd(0, 1) == 1);
        }
        Phase { num: 0, den: 1 }
    }

    /// Add two phases, wrapping modulo 2.
    pub fn add(self, other: Phase) -> (r: Phase)
        requires
            self.canonical(),
            other.canonical(),
            self.denom() * other.denom() <= i64::MAX,
        ensures
            r.canonical(),
            congruent(
                self.numer() * other.denom() + other.numer() * self.denom(),
                self.denom() * other.denom(),
                r.numer(),
                r.denom(),
            ),
    {
        proof {
            assert((self.numer()) * (other.denom()) <= 2 * (self.denom() * other.denom())
                && (other.numer()) * (self.denom()) <= 2 * (self.denom() * other.denom())) by (nonlinear_arith)
                requires
                    self.numer() < 2 * self.denom(),
                    other.numer() < 2 * other.denom(),
                    self.denom() >= 1,
                    other.denom() >= 1;
            assert(self.denom() * other.denom() >= 1) by (nonlinear_arith)
                requires self.denom() >= 1, other.denom() >= 1;
        }
        let s: u128 = (self.num as u128) * (other.den as u128)
            + (other.num as u128) * (self.den as u128);
        let dd: u128 = (self.den as u128) * (other.den as u128);
        let td: u128 = 2 * dd;
        let m: u128 = s % td;
        proof {
            lemma_fundamental_div_mod(s as int, td as int);
            let q = s as int / td as int;
            assert((s as int) * (dd as int) - (m as int) * (dd as int) == 2 * q * ((dd as int) * (dd as int))) by (nonlinear_arith)
                requires s as int == td * q + m, td == 2 * (dd as int);
            lemma_cong_intro(s as int, dd as int, m as int, dd as int, q);
        }
        let r = make_canonical(m as u64, dd as u64);
        proof {
            lemma_cong_trans(s as int, dd as int, m as int, dd as int, r.numer(), r.denom());
        }
        r
    }

    /// Numerator of the reduced fraction.
    pub fn numerator(&self) -> (n: u64)
        ensures
            n == self.numer(),
    {
        self.num
    }

    /// Denominator of the reduced fraction.
    pub fn denominator(&self) -> (d: u64)
        ensures
            d == self.denom(),
    {
        self.den
    }

    /// Negate the phase modulo 2.
    pub fn neg(self) -> (r: Phase)
        requires
            self.canonical(),
        ensures
            r == self.neg_spec(),
            r.canonical(),
    {
        proof {
            self.lemma_neg_facts();
        }
        if self.num == 0 {
            self
        } else {
            let n2: u64 = ((2 * (self.den as u128) - (self.num as u128)) as u64);
            Phase { num: n2, den: self.den }
        }
    }
}

impl Default for Phase {
    /// The default phase is `0`.
    fn default() -> (r: Phase)
        ensures
            r == Phase::zero_spec(),
            r.canonical(),
            r.numer() == 0,
            r.denom() == 1,
    {
        proof {
            assert(gcd(1, 0) == 1);
            assert(gcd(0, 1) == 1);
        }
        Phase { num: 0, den: 1 }
    }
}

impl PartialOrd for Phase {
    /// Order phases by their rational value.
    fn partial_cmp(&self, other: &Phase) -> (r: Option<core::cmp::Ordering>) {
        proof {
            lemma_mul_le(self.num as int, other.den as int, u64::MAX as int, u64::MAX as int);
            lemma_mul_le(other.num as int, self.den as int, u64::MAX as int, u64::MAX as int);
        }
        let a: u128 = (self.num as u128) * (other.den as u128);
        let b: u128 = (other.num as u128) * (self.den as u128);
        if a < b {
            Some(core::cmp::Ordering::Less)
        } else if a == b {
            Some(core::cmp::Ordering::Equal)
        } else {
            Some(core::cmp::Ordering::Greater)
        }
    }
}

impl vstd::std_specs::cmp::PartialOrdSpecImpl for Phase {
    open spec fn obeys_partial_cmp_spec() -> bool {
        true
    }

    open spec fn partial_cmp_spec(&self, other: &Phase) -> Option<core::cmp::Ordering> {
        if self.numer() * other.denom() < other.numer() * self.denom() {
            Some(core::cmp::Ordering::Less)
        } else if self.numer() * other.denom() == other.numer() * self.denom() {
            Some(core::cmp::Ordering::Equal)
        } else {
            Some(core::cmp::Ordering::Greater)
        }
    }
}

} // verus!
