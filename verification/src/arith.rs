//! Number theory behind the batch GCD: the Euclidean greatest common
//! divisor, divisibility, and the congruence facts that carry the remainder
//! tree from the root product down to the per-modulus results.

use vstd::prelude::*;
use vstd::arithmetic::div_mod::{
    lemma_fundamental_div_mod, lemma_fundamental_div_mod_converse, lemma_mod_multiples_vanish,
    lemma_mod_self_0, lemma_small_mod,
};

verus! {

/// The greatest common divisor by Euclid's rule, with `gcd_nat(a, 0) == a`.
pub open spec fn gcd_nat(a: nat, b: nat) -> nat
    decreases b,
{
    if b == 0 {
        a
    } else {
        gcd_nat(b, a % b)
    }
}

/// `d` divides `n`.
pub open spec fn divides(d: nat, n: nat) -> bool {
    exists|k: nat| n == #[trigger] (k * d)
}

/// `a` and `b` leave the same remainder by `m`.
pub open spec fn cong(a: int, b: int, m: int) -> bool {
    (a - b) % m == 0
}

pub proof fn lemma_divides_mod(d: nat, n: nat)
    requires
        d >= 1,
    ensures
        divides(d, n) <==> n % d == 0,
{
    if n % d == 0 {
        lemma_fundamental_div_mod(n as int, d as int);
        assert(n == d * (n as int / d as int));
        let k = (n as int / d as int) as nat;
        assert(n == k * d) by (nonlinear_arith)
            requires
                n == d * (n as int / d as int),
                k == n as int / d as int,
        ;
    }
    if divides(d, n) {
        let k = choose|k: nat| n == #[trigger] (k * d);
        assert(((k * d) as int) % (d as int) == 0) by {
            lemma_mod_multiples_vanish(k as int, 0, d as int);
        }
    }
}

/// The gcd divides both of its arguments.
pub proof fn lemma_gcd_divides(a: nat, b: nat)
    ensures
        divides(gcd_nat(a, b), a),
        divides(gcd_nat(a, b), b),
    decreases b,
{
    if b == 0 {
        assert(a == 1 * a) by (nonlinear_arith);
        assert(0 * gcd_nat(a, b) == 0) by (nonlinear_arith);
    } else {
        lemma_gcd_divides(b, a % b);
        let g = gcd_nat(b, a % b);
        let k1 = choose|k: nat| b == #[trigger] (k * g);
        let k2 = choose|k: nat| a % b == #[trigger] (k * g);
        lemma_fundamental_div_mod(a as int, b as int);
        assert(a == b * (a as int / b as int) + a % b);
        let q = (a as int / b as int) as nat;
        assert(a == (q * k1 + k2) * g) by (nonlinear_arith)
            requires
                a == b * q + a % b,
                b == k1 * g,
                a % b == k2 * g,
        ;
    }
}

/// Any common divisor of the arguments divides the gcd.
pub proof fn lemma_divides_gcd(d: nat, a: nat, b: nat)
    requires
        divides(d, a),
        divides(d, b),
    ensures
        divides(d, gcd_nat(a, b)),
    decreases b,
{
    if b == 0 {
    } else {
        let ka = choose|k: nat| a == #[trigger] (k * d);
        let kb = choose|k: nat| b == #[trigger] (k * d);
        lemma_fundamental_div_mod(a as int, b as int);
        let q = a as int / b as int;
        assert(a % b == a - b * q);
        assert(a % b == (ka - q * kb) * d) by (nonlinear_arith)
            requires
                a % b == a - b * q,
                a == ka * d,
                b == kb * d,
        ;
        if d == 0 {
            assert(a % b == 0 * d) by (nonlinear_arith)
                requires
                    a % b == (ka - q * kb) * d,
                    d == 0,
            ;
        } else {
            assert(a % b >= 0);
            assert(ka - q * kb >= 0) by (nonlinear_arith)
                requires
                    a % b == (ka - q * kb) * d,
                    a % b >= 0,
                    d >= 1,
            ;
            let km = (ka - q * kb) as nat;
            assert(a % b == km * d) by (nonlinear_arith)
                requires
                    a % b == (ka - q * kb) * d,
                    km == ka - q * kb,
            ;
        }
        lemma_divides_gcd(d, b, a % b);
    }
}

/// Mutual divisibility is equality on the non-negative integers.
pub proof fn lemma_divides_antisym(a: nat, b: nat)
    requires
        divides(a, b),
        divides(b, a),
    ensures
        a == b,
{
    let k1 = choose|k: nat| b == #[trigger] (k * a);
    let k2 = choose|k: nat| a == #[trigger] (k * b);
    assert(a == b) by (nonlinear_arith)
        requires
            b == k1 * a,
            a == k2 * b,
    ;
}

/// The gcd is symmetric in its arguments.
pub proof fn lemma_gcd_sym(a: nat, b: nat)
    ensures
        gcd_nat(a, b) == gcd_nat(b, a),
{
    lemma_gcd_divides(a, b);
    lemma_gcd_divides(b, a);
    lemma_divides_gcd(gcd_nat(a, b), b, a);
    lemma_divides_gcd(gcd_nat(b, a), a, b);
    lemma_divides_antisym(gcd_nat(a, b), gcd_nat(b, a));
}

/// Arguments congruent by the modulus have the same gcd with it.
pub proof fn lemma_gcd_same_mod(a1: nat, a2: nat, m: nat)
    requires
        m >= 1,
        a1 % m == a2 % m,
    ensures
        gcd_nat(a1, m) == gcd_nat(a2, m),
{
}

/// One is coprime to everything.
pub proof fn lemma_gcd_with_one(x: nat)
    ensures
        gcd_nat(x, 1) == 1,
        gcd_nat(1, x) == 1,
{
    assert(gcd_nat(x, 1) == gcd_nat(1, x % 1));
    assert(x % 1 == 0) by {
        lemma_mod_self_0(1);
        lemma_mod_multiples_vanish(x as int, 0, 1);
    }
    if x == 0 {
    } else if x == 1 {
        lemma_small_mod(0, 1);
    } else {
        assert(1nat % x == 1) by {
            lemma_small_mod(1, x);
        }
        assert(gcd_nat(1, x) == gcd_nat(x, 1));
    }
}

/// The gcd with a positive number is positive.
pub proof fn lemma_gcd_pos(a: nat, m: nat)
    requires
        m >= 1,
    ensures
        gcd_nat(a, m) >= 1,
{
    lemma_gcd_divides(a, m);
    let g = gcd_nat(a, m);
    if g == 0 {
        let k = choose|k: nat| m == #[trigger] (k * g);
        assert(m == 0) by (nonlinear_arith)
            requires
                m == k * g,
                g == 0,
        ;
    }
}

/// Extended Euclid: witnesses of the gcd as an integer combination of the
/// arguments.
pub proof fn lemma_bezout(a: nat, b: nat) -> (r: (int, int))
    ensures
        a as int * r.0 + b as int * r.1 == gcd_nat(a, b),
    decreases b,
{
    if b == 0 {
        (1, 0)
    } else {
        let (x, y) = lemma_bezout(b, a % b);
        lemma_fundamental_div_mod(a as int, b as int);
        let q = a as int / b as int;
        assert(a % b == a - b * q);
        let rx = y;
        let ry = x - q * y;
        assert(a as int * rx + b as int * ry == gcd_nat(a, b)) by (nonlinear_arith)
            requires
                b as int * x + (a % b) as int * y == gcd_nat(a, b),
                (a % b) as int == a as int - b as int * q,
                rx == y,
                ry == x - q * y,
        ;
        (rx, ry)
    }
}

/// Coprimality multiplies: what is coprime to two numbers is coprime to
/// their product.
#[verifier::rlimit(100)]
pub proof fn lemma_coprime_mul(a: nat, b: nat, c: nat)
    requires
        gcd_nat(a, b) == 1,
        gcd_nat(a, c) == 1,
    ensures
        gcd_nat(a, b * c) == 1,
{
    let (x1, y1) = lemma_bezout(a, b);
    let (x2, y2) = lemma_bezout(a, c);
    let g = gcd_nat(a, b * c);
    lemma_gcd_divides(a, b * c);
    let ka = choose|k: nat| a == #[trigger] (k * g);
    let kb = choose|k: nat| b * c == #[trigger] (k * g);
    let ai = a as int;
    let bi = b as int;
    let ci = c as int;
    let t1 = ai * x1;
    let t2 = bi * y1;
    let t3 = ai * x2;
    let t4 = ci * y2;
    let bigx = x1 * ai * x2 + x1 * ci * y2 + bi * y1 * x2;
    let bigy = y1 * y2;
    assert(t1 + t2 == 1);
    assert(t3 + t4 == 1);
    assert((t1 + t2) * (t3 + t4) == t1 * t3 + t1 * t4 + t2 * t3 + t2 * t4) by (nonlinear_arith);
    assert(t1 * t3 + t1 * t4 + t2 * t3 + t2 * t4 == 1);
    assert(t1 * t3 == ai * (x1 * ai * x2)) by (nonlinear_arith)
        requires
            t1 == ai * x1,
            t3 == ai * x2,
    ;
    assert(t1 * t4 == ai * (x1 * ci * y2)) by (nonlinear_arith)
        requires
            t1 == ai * x1,
            t4 == ci * y2,
    ;
    assert(t2 * t3 == ai * (bi * y1 * x2)) by (nonlinear_arith)
        requires
            t2 == bi * y1,
            t3 == ai * x2,
    ;
    assert(t2 * t4 == (bi * ci) * bigy) by (nonlinear_arith)
        requires
            t2 == bi * y1,
            t4 == ci * y2,
            bigy == y1 * y2,
    ;
    assert((b * c) as int == bi * ci) by (nonlinear_arith)
        requires
            ai == a as int,
            bi == b as int,
            ci == c as int,
    ;
    assert(ai * bigx == ai * (x1 * ai * x2) + ai * (x1 * ci * y2) + ai * (bi * y1 * x2))
        by (nonlinear_arith)
        requires
            bigx == x1 * ai * x2 + x1 * ci * y2 + bi * y1 * x2,
    ;
    assert(a as int * bigx + (b * c) as int * bigy == 1);
    assert(g as int * (ka as int * bigx + kb as int * bigy) == 1) by (nonlinear_arith)
        requires
            a as int * bigx + (b * c) as int * bigy == 1,
            a == ka * g,
            b * c == kb * g,
    ;
    assert(g == 1) by (nonlinear_arith)
        requires
            g as int * (ka as int * bigx + kb as int * bigy) == 1,
            g >= 0,
    ;
}

/// What is coprime to every entry of a list is coprime to its product.
pub proof fn lemma_coprime_prod(a: nat, vs: Seq<nat>)
    requires
        forall|j: int| 0 <= j < vs.len() ==> gcd_nat(a, #[trigger] vs[j]) == 1,
    ensures
        gcd_nat(a, crate::tree::prod(vs)) == 1,
    decreases vs.len(),
{
    if vs.len() == 0 {
        lemma_gcd_with_one(a);
    } else {
        assert forall|j: int| 0 <= j < vs.drop_last().len() implies gcd_nat(
            a,
            #[trigger] vs.drop_last()[j],
        ) == 1 by {
            assert(vs.drop_last()[j] == vs[j]);
        }
        lemma_coprime_prod(a, vs.drop_last());
        assert(gcd_nat(a, vs[vs.len() - 1]) == 1);
        lemma_coprime_mul(a, crate::tree::prod(vs.drop_last()), vs.last());
    }
}

/// A factor of the modulus transfers a congruence downward, even between
/// the squares: whatever is congruent modulo `mm * mm` is congruent modulo
/// `dd * dd` when `dd` divides `mm`.
pub proof fn lemma_cong_transfer_sq(a: int, b: int, dd: nat, mm: nat)
    requires
        dd >= 1,
        mm >= 1,
        divides(dd, mm),
        cong(a, b, (mm * mm) as int),
    ensures
        cong(a, b, (dd * dd) as int),
{
    let t = choose|k: nat| mm == #[trigger] (k * dd);
    assert(mm * mm >= 1) by (nonlinear_arith)
        requires
            mm >= 1,
    ;
    lemma_fundamental_div_mod(a - b, (mm * mm) as int);
    let s = (a - b) / ((mm * mm) as int);
    assert(a - b == (mm * mm) * s);
    assert(dd * dd >= 1) by (nonlinear_arith)
        requires
            dd >= 1,
    ;
    assert(a - b == (dd * dd) * (t * t * s)) by (nonlinear_arith)
        requires
            a - b == (mm * mm) * s,
            mm == t * dd,
    ;
    lemma_mod_multiples_vanish(t * t * s, 0, (dd * dd) as int);
    lemma_mod_self_0((dd * dd) as int);
}

/// Reducing by the modulus keeps the congruence class.
pub proof fn lemma_cong_of_mod(a: int, m: int)
    requires
        m >= 1,
    ensures
        cong(a % m, a, m),
{
    lemma_fundamental_div_mod(a, m);
    let q = a / m;
    assert(a % m - a == m * (-q)) by (nonlinear_arith)
        requires
            a == m * q + a % m,
    ;
    lemma_mod_multiples_vanish(-q, 0, m);
    lemma_mod_self_0(m);
}

/// Congruence is transitive.
pub proof fn lemma_cong_trans(a: int, b: int, c: int, m: int)
    requires
        m >= 1,
        cong(a, b, m),
        cong(b, c, m),
    ensures
        cong(a, c, m),
{
    lemma_fundamental_div_mod(a - b, m);
    lemma_fundamental_div_mod(b - c, m);
    let q1 = (a - b) / m;
    let q2 = (b - c) / m;
    assert(a - c == m * (q1 + q2)) by (nonlinear_arith)
        requires
            a - b == m * q1,
            b - c == m * q2,
    ;
    lemma_mod_multiples_vanish(q1 + q2, 0, m);
    lemma_mod_self_0(m);
}

/// The finalisation step of the batch GCD. A remainder `rr` congruent to the
/// full product `pp` modulo the square of the modulus `m` yields, after the
/// exact division by `m`, the same gcd with `m` as the true cofactor
/// `pp / m` does.
pub proof fn lemma_gcd_finalize(rr: nat, pp: nat, m: nat)
    requires
        m >= 1,
        pp as int % (m as int) == 0,
        cong(rr as int, pp as int, (m * m) as int),
    ensures
        rr as int % (m as int) == 0,
        gcd_nat((rr as int / m as int) as nat, m) == gcd_nat((pp as int / m as int) as nat, m),
{
    let im = m as int;
    assert(m * m >= 1) by (nonlinear_arith)
        requires
            m >= 1,
    ;
    lemma_fundamental_div_mod(rr as int - pp as int, (m * m) as int);
    let k = (rr as int - pp as int) / ((m * m) as int);
    assert(rr as int - pp as int == ((m * m) as int) * k);
    // rr is a multiple of m because pp and k * m * m are.
    lemma_fundamental_div_mod(pp as int, im);
    let qp = pp as int / im;
    assert(pp as int == im * qp);
    assert(rr as int == im * (qp + im * k)) by (nonlinear_arith)
        requires
            rr as int - pp as int == ((m * m) as int) * k,
            pp as int == im * qp,
            im == m as int,
    ;
    let qr = qp + im * k;
    assert(qr >= 0) by (nonlinear_arith)
        requires
            rr as int == im * qr,
            im >= 1,
            rr >= 0,
    ;
    lemma_fundamental_div_mod_converse(rr as int, im, qr, 0);
    assert(rr as int % im == 0);
    assert(rr as int / im == qr);
    assert(qp >= 0) by (nonlinear_arith)
        requires
            pp as int == im * qp,
            im >= 1,
            pp >= 0,
    ;
    // The two quotients differ by a multiple of m.
    assert(qr % im == qp % im) by {
        lemma_mod_multiples_vanish(k, qp, im);
        assert(im * k + qp == qr);
    }
    assert(qr as nat % m == qp as nat % m);
    lemma_gcd_same_mod(qr as nat, qp as nat, m);
}

} // verus!
