//! Polynomials over GF(2), encoded as natural numbers whose binary digits are
//! the coefficients (least significant bit = constant term).
use vstd::prelude::*;
use vstd::arithmetic::power2::{pow2, lemma2_to64, lemma_pow2_unfold, lemma_pow2_pos};

verus! {

/// Sum of two polynomials: bitwise exclusive or.
pub open spec fn xor(a: nat, b: nat) -> nat
    decreases a + b,
{
    if a == 0 && b == 0 {
        0
    } else {
        2 * xor(a / 2, b / 2) + (a % 2 + b % 2) % 2
    }
}

/// One more than the degree of `a` (the 1-based position of its highest set
/// bit), and 0 for the zero polynomial.
pub open spec fn lead(a: nat) -> nat
    decreases a,
{
    if a == 0 {
        0
    } else {
        1 + lead(a / 2)
    }
}

/// Whether the coefficient of `x^i` in `a` is 1.
pub open spec fn bit_at(a: nat, i: nat) -> bool {
    (a / pow2(i)) % 2 == 1
}

/// Carry-less product of two polynomials, without any reduction.
pub open spec fn clmul(a: nat, b: nat) -> nat
    decreases a,
{
    if a == 0 {
        0
    } else {
        xor(2 * clmul(a / 2, b), if a % 2 == 1 { b } else { 0 })
    }
}

pub proof fn lemma_xor_unfold(a: nat, b: nat)
    ensures
        xor(a, b) == 2 * xor(a / 2, b / 2) + (a % 2 + b % 2) % 2,
{
    if a == 0 && b == 0 {
        assert(xor(0, 0) == 0);
    }
}

pub proof fn lemma_xor_zero(a: nat)
    ensures
        xor(a, 0) == a,
        xor(0, a) == a,
    decreases a,
{
    if a != 0 {
        lemma_xor_zero(a / 2);
        lemma_xor_unfold(a, 0);
        lemma_xor_unfold(0, a);
    }
}

pub proof fn lemma_xor_self(a: nat)
    ensures
        xor(a, a) == 0,
    decreases a,
{
    if a != 0 {
        lemma_xor_self(a / 2);
    }
}

pub proof fn lemma_xor_comm(a: nat, b: nat)
    ensures
        xor(a, b) == xor(b, a),
    decreases a + b,
{
    if a != 0 || b != 0 {
        lemma_xor_comm(a / 2, b / 2);
    }
}

pub proof fn lemma_xor_assoc(a: nat, b: nat, c: nat)
    ensures
        xor(xor(a, b), c) == xor(a, xor(b, c)),
    decreases a + b + c,
{
    if a != 0 || b != 0 || c != 0 {
        lemma_xor_assoc(a / 2, b / 2, c / 2);
        lemma_xor_unfold(a, b);
        lemma_xor_unfold(b, c);
        lemma_xor_unfold(xor(a, b), c);
        lemma_xor_unfold(a, xor(b, c));
    } else {
        lemma_xor_zero(0);
    }
}

/// Rearranges a sum of four terms.
pub proof fn lemma_xor_swap(a: nat, b: nat, c: nat, d: nat)
    ensures
        xor(xor(a, b), xor(c, d)) == xor(xor(a, c), xor(b, d)),
{
    lemma_xor_assoc(a, b, xor(c, d));
    lemma_xor_assoc(b, c, d);
    lemma_xor_comm(b, c);
    lemma_xor_assoc(c, b, d);
    lemma_xor_assoc(a, c, xor(b, d));
}

/// Adding `a` cancels it: `xor(a, b) == c` determines `b`.
pub proof fn lemma_xor_cancel(a: nat, b: nat, c: nat)
    requires
        xor(a, b) == c,
    ensures
        b == xor(a, c),
{
    lemma_xor_assoc(a, a, b);
    lemma_xor_self(a);
    lemma_xor_zero(b);
}

pub proof fn lemma_xor_double(a: nat, b: nat)
    ensures
        xor(2 * a, 2 * b) == 2 * xor(a, b),
{
    lemma_xor_unfold(2 * a, 2 * b);
}

/// Sum of a polynomial and a disjoint higher-order part is plain addition.
pub proof fn lemma_xor_disjoint(a: nat, b: nat, k: nat)
    requires
        a < pow2(k),
    ensures
        xor(a, b * pow2(k)) == a + b * pow2(k),
    decreases k,
{
    if k == 0 {
        lemma2_to64();
        assert(a == 0);
        lemma_xor_zero(b);
    } else {
        lemma_pow2_unfold(k);
        let m = pow2((k - 1) as nat);
        assert(b * pow2(k) == 2 * (b * m)) by (nonlinear_arith)
            requires pow2(k) == 2 * m;
        lemma_xor_disjoint(a / 2, b, (k - 1) as nat);
        lemma_xor_unfold(a, b * pow2(k));
    }
}

/// Truncation to the low `k` coefficients commutes with addition.
pub proof fn lemma_xor_mod(a: nat, b: nat, k: nat)
    ensures
        xor(a, b) % pow2(k) == xor(a % pow2(k), b % pow2(k)),
    decreases k,
{
    if k == 0 {
        lemma2_to64();
        assert(xor(0, 0) == 0);
    } else {
        lemma_pow2_unfold(k);
        let m = pow2((k - 1) as nat);
        lemma_pow2_pos((k - 1) as nat);
        lemma_xor_mod(a / 2, b / 2, (k - 1) as nat);
        lemma_xor_unfold(a, b);
        lemma_xor_unfold(a % pow2(k), b % pow2(k));
        lemma_mod_split(a, m);
        lemma_mod_split(b, m);
        lemma_mod_split(xor(a, b), m);
    }
}

proof fn lemma_mod_split(x: nat, m: nat)
    requires
        m > 0,
    ensures
        x % (2 * m) == 2 * ((x / 2) % m) + x % 2,
        (x % (2 * m)) / 2 == (x / 2) % m,
        (x % (2 * m)) % 2 == x % 2,
{
    vstd::arithmetic::div_mod::lemma_mod_breakdown(x as int, 2, m as int);
}

/// `a` fits below `x^k` exactly when its degree is below `k`.
pub proof fn lemma_lead_bound(a: nat, k: nat)
    ensures
        a < pow2(k) <==> lead(a) <= k,
    decreases k,
{
    lemma_pow2_pos(k);
    if k == 0 {
        lemma2_to64();
    } else if a != 0 {
        lemma_pow2_unfold(k);
        lemma_lead_bound(a / 2, (k - 1) as nat);
    }
}

/// A polynomial of lower degree is a smaller number.
pub proof fn lemma_lead_lt(a: nat, b: nat)
    requires
        lead(a) < lead(b),
    ensures
        a < b,
{
    let n = (lead(b) - 1) as nat;
    lemma_lead_bound(a, n);
    lemma_lead_bound(b, n);
}

pub proof fn lemma_lead_xor_le(a: nat, b: nat)
    ensures
        lead(xor(a, b)) <= if lead(a) < lead(b) { lead(b) } else { lead(a) },
    decreases a + b,
{
    if a != 0 || b != 0 {
        lemma_lead_xor_le(a / 2, b / 2);
        lemma_xor_unfold(a, b);
    }
}

/// Adding a polynomial of lower degree keeps the degree.
pub proof fn lemma_lead_xor_lt(a: nat, b: nat)
    requires
        lead(a) < lead(b),
    ensures
        lead(xor(a, b)) == lead(b),
    decreases b,
{
    lemma_xor_unfold(a, b);
    if b / 2 != 0 {
        lemma_lead_xor_lt(a / 2, b / 2);
    } else {
        assert(lead(0) == 0);
        assert(b != 0);
        assert(lead(b) == 1 + lead(b / 2));
        assert(a != 0 ==> lead(a) == 1 + lead(a / 2));
        assert(a == 0);
        lemma_xor_zero(b);
    }
}

/// Adding two polynomials of one degree cancels the leading term.
pub proof fn lemma_lead_xor_eq(a: nat, b: nat)
    requires
        lead(a) == lead(b),
        a != 0,
    ensures
        lead(xor(a, b)) < lead(a),
    decreases a,
{
    lemma_xor_unfold(a, b);
    if a / 2 != 0 {
        lemma_lead_xor_eq(a / 2, b / 2);
    } else {
        assert(lead(a) == 1 + lead(a / 2));
        assert(lead(0) == 0);
        assert(b != 0 && lead(b) == 1 + lead(b / 2));
        assert(b / 2 != 0 ==> lead(b / 2) == 1 + lead(b / 4));
        assert(a == 1 && b == 1);
        lemma_xor_self(1);
    }
}

/// Multiplying by `x^k` raises the degree by `k`.
pub proof fn lemma_lead_shift(a: nat, k: nat)
    requires
        a != 0,
    ensures
        lead(a * pow2(k)) == lead(a) + k,
        a * pow2(k) != 0,
    decreases k,
{
    lemma_pow2_pos(k);
    if k == 0 {
        lemma2_to64();
    } else {
        lemma_pow2_unfold(k);
        let m = pow2((k - 1) as nat);
        assert(a * pow2(k) == 2 * (a * m)) by (nonlinear_arith)
            requires pow2(k) == 2 * m;
        lemma_lead_shift(a, (k - 1) as nat);
    }
}

pub proof fn lemma_clmul_unfold(a: nat, b: nat)
    ensures
        clmul(a, b) == xor(2 * clmul(a / 2, b), if a % 2 == 1 { b } else { 0 }),
{
    if a == 0 {
        assert(xor(0, 0) == 0);
    }
}

pub proof fn lemma_clmul_basics(a: nat, b: nat)
    ensures
        clmul(0, b) == 0,
        clmul(1, b) == b,
        clmul(2 * a, b) == 2 * clmul(a, b),
        clmul(2 * a + 1, b) == xor(2 * clmul(a, b), b),
{
    lemma_xor_zero(b);
    lemma_xor_zero(2 * clmul(a, b));
    lemma_clmul_unfold(2 * a, b);
    lemma_clmul_unfold(1, b);
}

pub proof fn lemma_clmul_zero_right(a: nat)
    ensures
        clmul(a, 0) == 0,
    decreases a,
{
    if a != 0 {
        lemma_clmul_zero_right(a / 2);
        lemma_xor_zero(0);
    }
}

pub proof fn lemma_clmul_one_right(a: nat)
    ensures
        clmul(a, 1) == a,
    decreases a,
{
    if a != 0 {
        lemma_clmul_one_right(a / 2);
        lemma2_to64();
        lemma_xor_disjoint(a % 2, a / 2, 1);
        lemma_xor_comm(a % 2, 2 * (a / 2));
        lemma_clmul_unfold(a, 1);
    }
}

pub proof fn lemma_clmul_double_right(a: nat, b: nat)
    ensures
        clmul(a, 2 * b) == 2 * clmul(a, b),
    decreases a,
{
    if a != 0 {
        lemma_clmul_double_right(a / 2, b);
        lemma_xor_double(2 * clmul(a / 2, b), if a % 2 == 1 { b } else { 0 });
    }
}

/// Multiplication distributes over addition in its first argument.
pub proof fn lemma_clmul_distrib_left(x: nat, y: nat, b: nat)
    ensures
        clmul(xor(x, y), b) == xor(clmul(x, b), clmul(y, b)),
    decreases x + y,
{
    let u = xor(x, y);
    lemma_xor_unfold(x, y);
    lemma_clmul_unfold(u, b);
    lemma_clmul_unfold(x, b);
    lemma_clmul_unfold(y, b);
    if x == 0 && y == 0 {
        lemma_xor_zero(0);
    } else {
        lemma_clmul_distrib_left(x / 2, y / 2, b);
        assert(u / 2 == xor(x / 2, y / 2));
        let (c1, c2) = (clmul(x / 2, b), clmul(y / 2, b));
        lemma_xor_double(c1, c2);
        let sx: nat = if x % 2 == 1 { b } else { 0 };
        let sy: nat = if y % 2 == 1 { b } else { 0 };
        let su: nat = if u % 2 == 1 { b } else { 0 };
        assert(su == xor(sx, sy)) by {
            lemma_xor_zero(b);
            lemma_xor_self(b);
            lemma_xor_zero(0);
        }
        lemma_xor_swap(2 * c1, 2 * c2, sx, sy);
    }
}

/// Multiplication distributes over addition in its second argument.
pub proof fn lemma_clmul_distrib_right(a: nat, b: nat, c: nat)
    ensures
        clmul(a, xor(b, c)) == xor(clmul(a, b), clmul(a, c)),
    decreases a,
{
    if a == 0 {
        lemma_xor_zero(0);
    } else {
        lemma_clmul_distrib_right(a / 2, b, c);
        lemma_xor_double(clmul(a / 2, b), clmul(a / 2, c));
        let (c1, c2) = (2 * clmul(a / 2, b), 2 * clmul(a / 2, c));
        if a % 2 == 1 {
            lemma_xor_swap(c1, c2, b, c);
        } else {
            lemma_xor_zero(xor(c1, c2));
            lemma_xor_zero(c1);
            lemma_xor_zero(c2);
        }
    }
}

/// Carry-less multiplication is commutative.
pub proof fn lemma_clmul_comm(a: nat, b: nat)
    ensures
        clmul(a, b) == clmul(b, a),
    decreases a,
{
    if a == 0 {
        lemma_clmul_zero_right(b);
    } else {
        lemma_clmul_comm(a / 2, b);
        lemma_clmul_double_right(b, a / 2);
        let s: nat = a % 2;
        lemma2_to64();
        lemma_xor_disjoint(s, a / 2, 1);
        lemma_xor_comm(s, 2 * (a / 2));
        lemma_clmul_distrib_right(b, 2 * (a / 2), s);
        if s == 1 {
            lemma_clmul_one_right(b);
        } else {
            lemma_clmul_zero_right(b);
        }
    }
}

pub proof fn lemma_clmul_pow2(i: nat, b: nat)
    ensures
        clmul(pow2(i), b) == b * pow2(i),
    decreases i,
{
    if i == 0 {
        lemma2_to64();
        lemma_clmul_basics(0, b);
    } else {
        lemma_pow2_unfold(i);
        let m = pow2((i - 1) as nat);
        lemma_clmul_pow2((i - 1) as nat, b);
        lemma_clmul_basics(m, b);
        assert(b * pow2(i) == 2 * (b * m)) by (nonlinear_arith)
            requires pow2(i) == 2 * m;
    }
}

/// The degree of a product is the sum of the degrees.
pub proof fn lemma_clmul_lead(a: nat, b: nat)
    requires
        a != 0,
        b != 0,
    ensures
        lead(clmul(a, b)) == lead(a) + lead(b) - 1,
    decreases a,
{
    lemma_clmul_unfold(a, b);
    if a == 1 {
        lemma_clmul_basics(0, b);
    } else {
        lemma_clmul_lead(a / 2, b);
        let c = clmul(a / 2, b);
        assert(lead(2 * c) == 1 + lead(c));
        let s: nat = if a % 2 == 1 { b } else { 0 };
        lemma_xor_comm(2 * c, s);
        lemma_lead_xor_lt(s, 2 * c);
    }
}

/// `q` and `r` are the quotient and remainder of dividing `a` by `b`:
/// `a == q * b + r` with `r` of lower degree than `b`.
pub open spec fn is_division(a: nat, b: nat, q: nat, r: nat) -> bool {
    &&& xor(clmul(q, b), r) == a
    &&& lead(r) < lead(b)
}

/// Quotient and remainder of polynomial division of `a` by `b`.
pub open spec fn poly_divmod(a: nat, b: nat) -> (nat, nat) {
    choose|qr: (nat, nat)| #[trigger] is_division(a, b, qr.0, qr.1)
}

/// Quotient of polynomial division of `a` by `b`.
pub open spec fn poly_quot(a: nat, b: nat) -> nat {
    poly_divmod(a, b).0
}

/// Remainder of polynomial division of `a` by `b`: `a` reduced modulo `b`.
pub open spec fn poly_rem(a: nat, b: nat) -> nat {
    poly_divmod(a, b).1
}

/// Division by a nonzero polynomial has exactly one quotient and remainder,
/// and they are `poly_quot` and `poly_rem`.
pub proof fn lemma_division_unique(a: nat, b: nat, q: nat, r: nat)
    requires
        b != 0,
        is_division(a, b, q, r),
    ensures
        q == poly_quot(a, b),
        r == poly_rem(a, b),
{
    assert(is_division(a, b, (q, r).0, (q, r).1));
    let qr = poly_divmod(a, b);
    lemma_division_unique_pair(a, b, q, r, qr.0, qr.1);
}

proof fn lemma_division_unique_pair(a: nat, b: nat, q1: nat, r1: nat, q2: nat, r2: nat)
    requires
        b != 0,
        is_division(a, b, q1, r1),
        is_division(a, b, q2, r2),
    ensures
        q1 == q2,
        r1 == r2,
{
    let (p1, p2) = (clmul(q1, b), clmul(q2, b));
    // p1 + p2 == r1 + r2
    lemma_xor_swap(p1, r1, p2, r2);
    lemma_xor_self(a);
    assert(xor(xor(p1, p2), xor(r1, r2)) == 0);
    lemma_xor_cancel(xor(p1, p2), xor(r1, r2), 0);
    lemma_xor_zero(xor(p1, p2));
    let d = xor(q1, q2);
    lemma_clmul_distrib_left(q1, q2, b);
    lemma_lead_xor_le(r1, r2);
    if d != 0 {
        lemma_clmul_lead(d, b);
        assert(false);
    }
    lemma_xor_cancel(q1, q2, 0);
    lemma_xor_zero(q1);
    lemma_xor_cancel(p1, r1, a);
    lemma_xor_cancel(p2, r2, a);
}

/// Carry-less multiplication is associative.
pub proof fn lemma_clmul_assoc(a: nat, b: nat, c: nat)
    ensures
        clmul(clmul(a, b), c) == clmul(a, clmul(b, c)),
    decreases a,
{
    if a == 0 {
        lemma_clmul_basics(0, c);
    } else {
        lemma_clmul_assoc(a / 2, b, c);
        let s: nat = if a % 2 == 1 { b } else { 0 };
        lemma_clmul_distrib_left(2 * clmul(a / 2, b), s, c);
        lemma_clmul_basics(clmul(a / 2, b), c);
        lemma_clmul_basics(0, c);
    }
}

/// Every polynomial can be divided by a nonzero one.
pub proof fn lemma_division_exists(a: nat, b: nat)
    requires
        b != 0,
    ensures
        is_division(a, b, poly_quot(a, b), poly_rem(a, b)),
    decreases a,
{
    if lead(a) < lead(b) {
        lemma_clmul_basics(0, b);
        lemma_xor_zero(a);
        lemma_division_unique(a, b, 0, a);
    } else {
        let k = (lead(a) - lead(b)) as nat;
        let d = b * pow2(k);
        lemma_lead_shift(b, k);
        assert(a != 0);
        lemma_lead_xor_eq(a, d);
        let a2 = xor(a, d);
        lemma_lead_lt(a2, a);
        lemma_division_exists(a2, b);
        let (q2, r2) = (poly_quot(a2, b), poly_rem(a2, b));
        // a == a2 + d == q2 * b + r2 + x^k * b
        assert(a == xor(a2, d)) by {
            lemma_xor_comm(a, d);
            lemma_xor_cancel(d, a, a2);
            lemma_xor_comm(d, a2);
        }
        lemma_clmul_pow2(k, b);
        lemma_clmul_distrib_left(q2, pow2(k), b);
        lemma_xor_assoc(clmul(q2, b), r2, d);
        lemma_xor_comm(r2, d);
        lemma_xor_assoc(clmul(q2, b), d, r2);
        lemma_division_unique(a, b, xor(q2, pow2(k)), r2);
    }
}

/// Reduction modulo `b` commutes with addition.
pub proof fn lemma_rem_xor(x: nat, y: nat, b: nat)
    requires
        b != 0,
    ensures
        poly_rem(xor(x, y), b) == xor(poly_rem(x, b), poly_rem(y, b)),
{
    lemma_division_exists(x, b);
    lemma_division_exists(y, b);
    let (qx, rx, qy, ry) = (poly_quot(x, b), poly_rem(x, b), poly_quot(y, b), poly_rem(y, b));
    lemma_xor_swap(clmul(qx, b), rx, clmul(qy, b), ry);
    lemma_clmul_distrib_left(qx, qy, b);
    lemma_lead_xor_le(rx, ry);
    lemma_division_unique(xor(x, y), b, xor(qx, qy), xor(rx, ry));
}

/// A multiple of `b` reduces to zero.
pub proof fn lemma_rem_multiple(k: nat, b: nat)
    requires
        b != 0,
    ensures
        poly_rem(clmul(k, b), b) == 0,
{
    lemma_xor_zero(clmul(k, b));
    lemma_division_unique(clmul(k, b), b, k, 0);
}

/// A factor of a product may be reduced modulo `b` first.
pub proof fn lemma_rem_mul(x: nat, y: nat, b: nat)
    requires
        b != 0,
    ensures
        poly_rem(clmul(x, y), b) == poly_rem(clmul(poly_rem(x, b), y), b),
{
    lemma_division_exists(x, b);
    let (q, r) = (poly_quot(x, b), poly_rem(x, b));
    lemma_clmul_distrib_left(clmul(q, b), r, y);
    lemma_clmul_assoc(q, b, y);
    lemma_clmul_comm(b, y);
    lemma_clmul_assoc(q, y, b);
    lemma_rem_xor(clmul(clmul(q, y), b), clmul(r, y), b);
    lemma_rem_multiple(clmul(q, y), b);
    lemma_xor_zero(poly_rem(clmul(r, y), b));
}

/// The quotient has no higher degree than the dividend, and the remainder
/// is below the divisor.
pub proof fn lemma_quot_lead(a: nat, b: nat)
    requires
        b != 0,
    ensures
        lead(poly_quot(a, b)) <= lead(a),
        lead(poly_rem(a, b)) < lead(b),
{
    lemma_division_exists(a, b);
    let (q, r) = (poly_quot(a, b), poly_rem(a, b));
    if q != 0 {
        lemma_clmul_lead(q, b);
        lemma_xor_comm(clmul(q, b), r);
        lemma_lead_xor_lt(r, clmul(q, b));
    }
}

} // verus!
