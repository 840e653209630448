//! The extended Euclidean algorithm and modular inverses on `i64` values.
use vstd::prelude::*;

verus! {

/// The greatest common divisor, by Euclid's recursion.
/// `gcd(0, 0) == 0`; otherwise the result is positive.
pub open spec fn gcd(a: nat, b: nat) -> nat
    decreases a,
{
    if a == 0 {
        b
    } else {
        gcd(b % a, a)
    }
}

/// `v` is the canonical modular inverse of `a` modulo `m`:
/// it lies in `[0, m)` and `a * v` leaves the same remainder as `1`.
pub open spec fn is_mod_inverse(a: int, v: int, m: int) -> bool {
    &&& 0 <= v < m
    &&& (a * v) % m == 1int % m
}

/// The canonical modular inverse of `a` modulo `m`, where one exists.
pub open spec fn inv_mod(a: int, m: int) -> int {
    choose|v: int| is_mod_inverse(a, v, m)
}

/// The gcd of two numbers, at least one of them positive, is positive.
pub proof fn lemma_gcd_pos(a: nat, b: nat)
    requires
        a >= 1 || b >= 1,
    ensures
        gcd(a, b) >= 1,
    decreases a,
{
    if a != 0 {
        if b % a == 0 {
            lemma_gcd_pos(0, a);
        } else {
            lemma_gcd_pos(b % a, a);
        }
    }
}

/// The gcd divides both of its arguments.
pub proof fn lemma_gcd_divides(a: nat, b: nat)
    requires
        a >= 1 || b >= 1,
    ensures
        a % gcd(a, b) == 0,
        b % gcd(a, b) == 0,
    decreases a,
{
    lemma_gcd_pos(a, b);
    if a == 0 {
        assert(b % b == 0) by {
            vstd::arithmetic::div_mod::lemma_mod_self_0(b as int);
        }
    } else {
        let g = gcd(b % a, a);
        if b % a == 0 {
            lemma_gcd_divides(0, a);
        } else {
            lemma_gcd_divides(b % a, a);
        }
        // b == a * (b / a) + b % a, and g divides both summands.
        let q = b as int / a as int;
        let r = (b % a) as int;
        vstd::arithmetic::div_mod::lemma_fundamental_div_mod(b as int, a as int);
        assert(a as int % g as int == 0 && r % g as int == 0);
        let ka = a as int / g as int;
        let kr = r / g as int;
        vstd::arithmetic::div_mod::lemma_fundamental_div_mod(a as int, g as int);
        vstd::arithmetic::div_mod::lemma_fundamental_div_mod(r, g as int);
        assert(b as int == g as int * (ka * q + kr)) by (nonlinear_arith)
            requires
                b as int == a as int * q + r,
                a as int == g as int * ka,
                r == g as int * kr,
        ;
        assert((g as int * (ka * q + kr)) % g as int == 0) by {
            vstd::arithmetic::div_mod::lemma_mod_multiples_basic(ka * q + kr, g as int);
        }
    }
}

/// Any common divisor of `a` and `b` divides `gcd(a, b)`.
pub proof fn lemma_gcd_greatest(a: nat, b: nat, c: nat)
    requires
        c >= 1,
        a % c == 0,
        b % c == 0,
    ensures
        gcd(a, b) % c == 0,
    decreases a,
{
    if a == 0 {
    } else {
        // c divides b - a * (b / a) == b % a.
        let q = b as int / a as int;
        let r = (b % a) as int;
        vstd::arithmetic::div_mod::lemma_fundamental_div_mod(b as int, a as int);
        let ka = a as int / c as int;
        let kb = b as int / c as int;
        vstd::arithmetic::div_mod::lemma_fundamental_div_mod(a as int, c as int);
        vstd::arithmetic::div_mod::lemma_fundamental_div_mod(b as int, c as int);
        assert(r == c as int * (kb - ka * q)) by (nonlinear_arith)
            requires
                b as int == a as int * q + r,
                a as int == c as int * ka,
                b as int == c as int * kb,
        ;
        assert((c as int * (kb - ka * q)) % c as int == 0) by {
            vstd::arithmetic::div_mod::lemma_mod_multiples_basic(kb - ka * q, c as int);
        }
        lemma_gcd_greatest(b % a, a, c);
    }
}

/// A shared factor greater than one rules the inverse out:
/// the gcd cannot be one, so no modular inverse exists.
pub proof fn lemma_common_factor_blocks_inverse(a: nat, m: nat, c: nat)
    requires
        m >= 1,
        c > 1,
        a % c == 0,
        m % c == 0,
    ensures
        gcd(a, m) != 1,
{
    lemma_gcd_greatest(a, m, c);
    if gcd(a, m) == 1 {
        assert(1nat % c == 1) by {
            vstd::arithmetic::div_mod::lemma_small_mod(1, c);
        }
    }
}

/// `(x, y)` are Bezout coefficients for `(a, b)`.
pub open spec fn is_bezout_pair(a: nat, b: nat, x: int, y: int) -> bool {
    a * x + b * y == gcd(a, b)
}

/// Bezout's identity: some integer combination of `a` and `b` equals
/// their gcd.
pub proof fn lemma_bezout(a: nat, b: nat)
    ensures
        exists|x: int, y: int| #[trigger] is_bezout_pair(a, b, x, y),
    decreases a,
{
    if a == 0 {
        assert(is_bezout_pair(a, b, 0, 1)) by {
            assert(a * 0 + b * 1 == b) by (nonlinear_arith)
                requires
                    a == 0,
            ;
        }
    } else {
        lemma_bezout(b % a, a);
        let (x1, y1) = choose|x1: int, y1: int| #[trigger] is_bezout_pair(b % a, a, x1, y1);
        let q = b as int / a as int;
        vstd::arithmetic::div_mod::lemma_fundamental_div_mod(b as int, a as int);
        assert(is_bezout_pair(a, b, y1 - q * x1, x1)) by {
            assert(a * (y1 - q * x1) + b * x1 == gcd(b % a, a)) by (nonlinear_arith)
                requires
                    (b % a) * x1 + a * y1 == gcd(b % a, a),
                    b as int == a as int * q + (b % a),
            ;
        }
    }
}

/// `gcd(m, 1) == 1`.
pub proof fn lemma_gcd_one(m: nat)
    ensures
        gcd(m, 1) == 1,
{
    reveal_with_fuel(gcd, 4);
    if m >= 2 {
        assert(1nat % m == 1) by {
            vstd::arithmetic::div_mod::lemma_small_mod(1, m);
        }
    }
}

/// The gcd is symmetric in its arguments.
pub proof fn lemma_gcd_symmetric(a: nat, b: nat)
    ensures
        gcd(a, b) == gcd(b, a),
{
    reveal_with_fuel(gcd, 3);
    if a == 0 {
        if b != 0 {
            assert(a % b == 0) by {
                vstd::arithmetic::div_mod::lemma_small_mod(0, b);
            }
        }
    } else if b == 0 {
        assert(b % a == 0) by {
            vstd::arithmetic::div_mod::lemma_small_mod(0, a);
        }
    } else if a == b {
        assert(b % a == 0) by {
            vstd::arithmetic::div_mod::lemma_mod_self_0(a as int);
        }
    } else if a < b {
        assert(a % b == a) by {
            vstd::arithmetic::div_mod::lemma_small_mod(a, b);
        }
    } else {
        assert(b % a == b) by {
            vstd::arithmetic::div_mod::lemma_small_mod(b, a);
        }
    }
}

/// A number coprime to two factors is coprime to their product.
pub proof fn lemma_coprime_mult(a: nat, b: nat, c: nat)
    requires
        gcd(a, b) == 1,
        gcd(a, c) == 1,
    ensures
        gcd(a, b * c) == 1,
{
    lemma_bezout(a, b);
    lemma_bezout(a, c);
    let (x1, y1) = choose|x1: int, y1: int| #[trigger] is_bezout_pair(a, b, x1, y1);
    let (x2, y2) = choose|x2: int, y2: int| #[trigger] is_bezout_pair(a, c, x2, y2);
    // Multiplying the two identities gives 1 as a combination of a and b * c.
    let ai = a as int;
    let bi = b as int;
    let ci = c as int;
    let s = x1 * (ai * x2) + x1 * (ci * y2) + (bi * y1) * x2;
    let t = y1 * y2;
    let p1 = ai * x1;
    let q1 = bi * y1;
    let p2 = ai * x2;
    let q2 = ci * y2;
    assert((p1 + q1) * (p2 + q2) == p1 * p2 + p1 * q2 + q1 * p2 + q1 * q2) by (nonlinear_arith);
    assert(p1 * p2 == ai * (x1 * (ai * x2))) by (nonlinear_arith)
        requires
            p1 == ai * x1,
            p2 == ai * x2,
    ;
    assert(p1 * q2 == ai * (x1 * (ci * y2))) by (nonlinear_arith)
        requires
            p1 == ai * x1,
            q2 == ci * y2,
    ;
    assert(q1 * p2 == ai * ((bi * y1) * x2)) by (nonlinear_arith)
        requires
            q1 == bi * y1,
            p2 == ai * x2,
    ;
    assert(q1 * q2 == (bi * ci) * (y1 * y2)) by (nonlinear_arith)
        requires
            q1 == bi * y1,
            q2 == ci * y2,
    ;
    assert(ai * s == ai * (x1 * (ai * x2)) + ai * (x1 * (ci * y2)) + ai * ((bi * y1) * x2))
        by (nonlinear_arith)
        requires
            s == x1 * (ai * x2) + x1 * (ci * y2) + (bi * y1) * x2,
    ;
    assert((p1 + q1) * (p2 + q2) == 1) by (nonlinear_arith)
        requires
            p1 + q1 == 1,
            p2 + q2 == 1,
    ;
    assert(a * s + (b * c) * t == 1);
    // A zero factor would force a == 1, since gcd(a, 0) == a.
    assert(b >= 1 && c >= 1 || a == 1) by {
        reveal_with_fuel(gcd, 3);
        if a >= 1 {
            assert(0nat % a == 0) by {
                vstd::arithmetic::div_mod::lemma_small_mod(0, a);
            }
        }
    }
    if a == 1 {
        lemma_gcd_symmetric(1, b * c);
        lemma_gcd_one(b * c);
    } else {
        assert(b * c >= 1) by (nonlinear_arith)
            requires
                b >= 1,
                c >= 1,
        ;
        let g = gcd(a, b * c);
        lemma_gcd_pos(a, b * c);
        lemma_gcd_divides(a, b * c);
        let ka = a as int / g as int;
        let kbc = (b * c) as int / g as int;
        vstd::arithmetic::div_mod::lemma_fundamental_div_mod(a as int, g as int);
        vstd::arithmetic::div_mod::lemma_fundamental_div_mod((b * c) as int, g as int);
        assert(1int == g as int * (ka * s + kbc * t)) by (nonlinear_arith)
            requires
                a as int == g as int * ka,
                (b * c) as int == g as int * kbc,
                a * s + (b * c) * t == 1,
        ;
        assert(g as int * (ka * s + kbc * t) >= 2 || g as int * (ka * s + kbc * t) <= 0 || g == 1)
            by (nonlinear_arith)
            requires
                g >= 1,
        ;
    }
}

/// Computes `(g, x, y)` with `g == gcd(a, b)` and `a * x + b * y == g`
/// (Bezout coefficients), by the extended Euclidean algorithm.
/// The coefficients are bounded by the inputs, so nothing overflows.
pub fn extended_gcd(a: i64, b: i64) -> (r: (i64, i64, i64))
    requires
        0 <= a,
        0 <= b,
    ensures
        r.0 == gcd(a as nat, b as nat),
        a * r.1 + b * r.2 == r.0,
        a == 0 ==> r.1 == 0 && r.2 == 1,
        a >= 1 && b == 0 ==> r.1 == 1 && r.2 == 0,
        a >= 1 && b >= 1 ==> -b <= r.1 <= b && -a <= r.2 <= a,
    decreases a,
{
    if a == 0 {
        return (b, 0, 1);
    }
    let q = b / a;
    let rem = b % a;
    let (g, x1, y1) = extended_gcd(rem, a);
    proof {
        assert(q * x1 <= b - rem && -(b - rem) <= q * x1 && q * a == b - rem) by (nonlinear_arith)
            requires
                1 <= a <= i64::MAX,
                0 <= b <= i64::MAX,
                q == b as int / a as int,
                rem == b as int % a as int,
                rem == 0 ==> x1 == 0,
                rem >= 1 ==> -a <= x1 <= a,
        ;
    }
    let x = y1 - q * x1;
    let y = x1;
    proof {
        assert(a * x + b * y == g) by (nonlinear_arith)
            requires
                x == y1 - q * x1,
                y == x1,
                rem == b - q * a,
                rem * x1 + a * y1 == g,
        ;
    }
    (g, x, y)
}

/// Computes the modular inverse of `a` modulo `m`, normalized into
/// `[0, m)`, or `None` when `a` and `m` are not coprime.
/// The result is `Some` exactly when `gcd(a, m) == 1`.
pub fn mod_inverse(a: i64, m: i64) -> (r: Option<i64>)
    requires
        0 <= a,
        1 <= m,
    ensures
        r is Some <==> gcd(a as nat, m as nat) == 1,
        r matches Some(v) ==> is_mod_inverse(a as int, v as int, m as int),
        r matches Some(v) ==> v == inv_mod(a as int, m as int),
{
    let (g, x, _y) = extended_gcd(a, m);
    if g != 1 {
        None
    } else {
        let v = if x < 0 {
            x + m
        } else {
            x % m
        };
        proof {
            lemma_normalized_bezout_is_inverse(a as int, m as int, x as int, _y as int, v as int);
            lemma_mod_inverse_unique(
                a as int,
                m as int,
                v as int,
                inv_mod(a as int, m as int),
            );
        }
        Some(v)
    }
}

/// Normalizing the first Bezout coefficient of `(a, m)` into `[0, m)`
/// yields the canonical modular inverse of `a` modulo `m`.
proof fn lemma_normalized_bezout_is_inverse(a: int, m: int, x: int, y: int, v: int)
    requires
        0 <= a,
        1 <= m,
        a * x + m * y == 1,
        v == if x < 0 { x + m } else { x % m },
        -m <= x <= m,
    ensures
        is_mod_inverse(a, v, m),
{
    assert(0 <= v < m) by {
        if x >= 0 {
            vstd::arithmetic::div_mod::lemma_mod_pos_bound(x, m);
        }
    }
    // a * v and a * x agree modulo m.
    if x < 0 {
        assert(a * (x + m) == m * a + a * x) by (nonlinear_arith);
        assert((m * a + a * x) % m == (a * x) % m) by {
            vstd::arithmetic::div_mod::lemma_mod_multiples_vanish(a, a * x, m);
        }
    } else {
        assert((a * (x % m)) % m == (a * x) % m) by {
            vstd::arithmetic::div_mod::lemma_mul_mod_noop_right(a, x, m);
        }
    }
    // a * x == 1 - m * y, and subtracting the multiple m * y keeps the remainder.
    assert((m * (-y) + 1) % m == 1int % m) by {
        vstd::arithmetic::div_mod::lemma_mod_multiples_vanish(-y, 1, m);
    }
    assert(a * x == m * (-y) + 1) by (nonlinear_arith)
        requires
            a * x + m * y == 1,
    ;
}

/// The canonical modular inverse is unique: two values in `[0, m)` that
/// both invert `a` modulo `m` are equal.
pub proof fn lemma_mod_inverse_unique(a: int, m: int, v1: int, v2: int)
    requires
        1 <= m,
        is_mod_inverse(a, v1, m),
        is_mod_inverse(a, v2, m),
    ensures
        v1 == v2,
{
    lemma_mul_by_inverse_identity(a, v1, v2, m);
    lemma_mul_by_inverse_identity(a, v2, v1, m);
    assert(v1 * (a * v2) == v2 * (a * v1)) by (nonlinear_arith);
}

/// Multiplying any `w` in `[0, m)` by `a * v` with `(a * v) % m == 1 % m`
/// gives `w` back modulo `m`.
proof fn lemma_mul_by_inverse_identity(a: int, v: int, w: int, m: int)
    requires
        1 <= m,
        (a * v) % m == 1int % m,
        0 <= w < m,
    ensures
        (w * (a * v)) % m == w,
{
    assert((w * (a * v)) % m == (w * ((a * v) % m)) % m) by {
        vstd::arithmetic::div_mod::lemma_mul_mod_noop_right(w, a * v, m);
    }
    assert((w * (1int % m)) % m == (w * 1) % m) by {
        vstd::arithmetic::div_mod::lemma_mul_mod_noop_right(w, 1, m);
    }
    assert(w % m == w) by {
        vstd::arithmetic::div_mod::lemma_small_mod(w as nat, m as nat);
    }
}

} // verus!
