//! The Chinese remainder theorem combiner: folds a system of congruences
//! into one solution modulo the product of the moduli.
use vstd::prelude::*;

use crate::euclid::gcd;
use crate::euclid::inv_mod;
use crate::euclid::is_mod_inverse;
use crate::euclid::mod_inverse;

verus! {

/// The product of all elements of `s`; `1` for the empty sequence.
pub open spec fn product_of(s: Seq<i64>) -> int
    decreases s.len(),
{
    if s.len() == 0 {
        1
    } else {
        product_of(s.drop_last()) * s.last()
    }
}

/// The product of all moduli but `ms[i]`.
pub open spec fn cofactor(ms: Seq<i64>, i: int) -> int {
    product_of(ms) / (ms[i] as int)
}

/// The contribution of congruence `i` before the inverse is applied.
pub open spec fn raw_term(rs: Seq<i64>, ms: Seq<i64>, i: int) -> int {
    rs[i] * cofactor(ms, i)
}

/// The contribution of congruence `i` to the combined sum.
pub open spec fn term(rs: Seq<i64>, ms: Seq<i64>, i: int) -> int {
    raw_term(rs, ms, i) * inv_mod(cofactor(ms, i), ms[i] as int)
}

/// The sum of the first `n` contributions.
pub open spec fn partial_sum(rs: Seq<i64>, ms: Seq<i64>, n: int) -> int
    decreases n,
{
    if n <= 0 {
        0
    } else {
        partial_sum(rs, ms, n - 1) + term(rs, ms, n - 1)
    }
}

/// Every element is at least one.
pub open spec fn all_positive(ms: Seq<i64>) -> bool {
    forall|i: int| 0 <= i < ms.len() ==> 1 <= #[trigger] ms[i]
}

/// Each modulus is coprime to the product of the others, which for
/// positive moduli is the same as the moduli being pairwise coprime.
pub open spec fn coprime_cofactors(ms: Seq<i64>) -> bool {
    forall|i: int|
        0 <= i < ms.len() ==> #[trigger] gcd(cofactor(ms, i) as nat, ms[i] as nat) == 1
}

/// Every two distinct moduli are coprime.
pub open spec fn pairwise_coprime(ms: Seq<i64>) -> bool {
    forall|i: int, j: int|
        0 <= i < ms.len() && 0 <= j < ms.len() && i != j ==> #[trigger] gcd(
            ms[i] as nat,
            ms[j] as nat,
        ) == 1
}

/// `x` is representable as an `i64`.
pub open spec fn fits_i64(x: int) -> bool {
    i64::MIN <= x <= i64::MAX
}

/// Every intermediate value of the combination stays within the `i64`
/// range: the product of the moduli, each contribution (with and without
/// the inverse applied), and each partial sum.
pub open spec fn within_bounds(rs: Seq<i64>, ms: Seq<i64>) -> bool {
    &&& product_of(ms) <= i64::MAX
    &&& forall|i: int| 0 <= i < ms.len() ==> fits_i64(#[trigger] raw_term(rs, ms, i))
    &&& forall|i: int| 0 <= i < ms.len() ==> fits_i64(#[trigger] term(rs, ms, i))
    &&& forall|n: int| 0 <= n <= ms.len() ==> fits_i64(#[trigger] partial_sum(rs, ms, n))
}

/// The combination succeeds exactly on these inputs: pairwise-coprime
/// moduli and no intermediate value out of the `i64` range.
pub open spec fn crt_solvable(rs: Seq<i64>, ms: Seq<i64>) -> bool {
    coprime_cofactors(ms) && within_bounds(rs, ms)
}

/// A product of elements that are all at least one is at least one.
proof fn lemma_product_positive(s: Seq<i64>)
    requires
        all_positive(s),
    ensures
        product_of(s) >= 1,
    decreases s.len(),
{
    if s.len() > 0 {
        assert(all_positive(s.drop_last()));
        lemma_product_positive(s.drop_last());
        assert(product_of(s.drop_last()) * s.last() >= 1) by (nonlinear_arith)
            requires
                product_of(s.drop_last()) >= 1,
                s.last() >= 1,
        ;
    }
}

/// Extending a prefix by one element multiplies its product by that element.
proof fn lemma_product_take_step(s: Seq<i64>, i: int)
    requires
        0 <= i < s.len(),
    ensures
        product_of(s.take(i + 1)) == product_of(s.take(i)) * s[i],
{
    assert(s.take(i + 1).drop_last() =~= s.take(i));
    assert(s.take(i + 1).last() == s[i]);
}

/// The product of a prefix of positive elements never exceeds the
/// product of the whole sequence.
proof fn lemma_product_take_bound(s: Seq<i64>, i: int)
    requires
        all_positive(s),
        0 <= i <= s.len(),
    ensures
        1 <= product_of(s.take(i)) <= product_of(s),
    decreases s.len() - i,
{
    assert(all_positive(s.take(i)));
    lemma_product_positive(s.take(i));
    if i == s.len() {
        assert(s.take(i) =~= s);
    } else {
        lemma_product_take_step(s, i);
        assert(product_of(s.take(i)) <= product_of(s.take(i + 1))) by (nonlinear_arith)
            requires
                product_of(s.take(i + 1)) == product_of(s.take(i)) * s[i],
                product_of(s.take(i)) >= 1,
                s[i] >= 1,
        ;
        lemma_product_take_bound(s, i + 1);
    }
}

/// Splitting out one element: the product of the whole sequence is that
/// element times the product of the rest.
proof fn lemma_product_remove(s: Seq<i64>, i: int)
    requires
        0 <= i < s.len(),
    ensures
        product_of(s) == s[i] * product_of(s.remove(i)),
    decreases s.len(),
{
    if i == s.len() - 1 {
        assert(s.remove(i) =~= s.drop_last());
        assert(product_of(s.drop_last()) * s.last() == s[i] * product_of(s.remove(i)))
            by (nonlinear_arith)
            requires
                product_of(s.drop_last()) == product_of(s.remove(i)),
                s.last() == s[i],
        ;
    } else {
        lemma_product_remove(s.drop_last(), i);
        assert(s.remove(i).drop_last() =~= s.drop_last().remove(i));
        assert(s.remove(i).last() == s.last());
        assert(product_of(s.drop_last()) * s.last() == s[i] * (product_of(
            s.drop_last().remove(i),
        ) * s.last())) by (nonlinear_arith)
            requires
                product_of(s.drop_last()) == s[i] * product_of(s.drop_last().remove(i)),
        ;
    }
}

/// The cofactor of modulus `i` is the product of the other moduli.
proof fn lemma_cofactor_of_rest(ms: Seq<i64>, i: int)
    requires
        all_positive(ms),
        0 <= i < ms.len(),
    ensures
        cofactor(ms, i) == product_of(ms.remove(i)),
        cofactor(ms, i) >= 1,
        ms[i] * cofactor(ms, i) == product_of(ms),
{
    lemma_product_remove(ms, i);
    assert(all_positive(ms.remove(i)));
    lemma_product_positive(ms.remove(i));
    assert((ms[i] as int * product_of(ms.remove(i))) / (ms[i] as int) == product_of(
        ms.remove(i),
    )) by {
        vstd::arithmetic::div_mod::lemma_div_multiples_vanish(
            product_of(ms.remove(i)),
            ms[i] as int,
        );
    }
}

/// Every other modulus divides the cofactor of modulus `j`.
proof fn lemma_modulus_divides_other_cofactor(ms: Seq<i64>, i: int, j: int)
    requires
        all_positive(ms),
        0 <= i < ms.len(),
        0 <= j < ms.len(),
        i != j,
    ensures
        cofactor(ms, j) % (ms[i] as int) == 0,
{
    lemma_cofactor_of_rest(ms, j);
    let rest = ms.remove(j);
    let k = if i < j {
        i
    } else {
        i - 1
    };
    assert(rest[k] == ms[i]);
    lemma_product_remove(rest, k);
    assert((product_of(rest.remove(k)) * (ms[i] as int)) % (ms[i] as int) == 0) by {
        vstd::arithmetic::div_mod::lemma_mod_multiples_basic(
            product_of(rest.remove(k)),
            ms[i] as int,
        );
    }
    assert(ms[i] * product_of(rest.remove(k)) == product_of(rest.remove(k)) * (ms[i] as int));
}

/// Sums of multiples of `m` stay multiples of `m`.
proof fn lemma_zero_mod_add(x: int, y: int, m: int)
    requires
        1 <= m,
        x % m == 0,
        y % m == 0,
    ensures
        (x + y) % m == 0,
{
    vstd::arithmetic::div_mod::lemma_fundamental_div_mod(x, m);
    vstd::arithmetic::div_mod::lemma_fundamental_div_mod(y, m);
    assert(x + y == ((x / m) + (y / m)) * m) by (nonlinear_arith)
        requires
            x == m * (x / m) + x % m,
            y == m * (y / m) + y % m,
            x % m == 0,
            y % m == 0,
    ;
    vstd::arithmetic::div_mod::lemma_mod_multiples_basic((x / m) + (y / m), m);
}

/// Modulo `ms[i]`, the sum of the first `k` contributions is zero while
/// `k` stays at or below `i`, and equals `rs[i]` once `k` has passed `i`:
/// each contribution vanishes except the one for congruence `i` itself.
proof fn lemma_partial_sum_congruent(rs: Seq<i64>, ms: Seq<i64>, i: int, k: int)
    requires
        rs.len() == ms.len(),
        all_positive(ms),
        0 <= i < ms.len(),
        0 <= k <= ms.len(),
        forall|j: int|
            0 <= j < ms.len() ==> is_mod_inverse(
                cofactor(ms, j),
                #[trigger] inv_mod(cofactor(ms, j), ms[j] as int),
                ms[j] as int,
            ),
    ensures
        k <= i ==> partial_sum(rs, ms, k) % (ms[i] as int) == 0,
        k > i ==> (partial_sum(rs, ms, k) - rs[i]) % (ms[i] as int) == 0,
    decreases k,
{
    let m = ms[i] as int;
    if k == 0 {
        assert(0int % m == 0) by {
            vstd::arithmetic::div_mod::lemma_small_mod(0, m as nat);
        }
    } else {
        lemma_partial_sum_congruent(rs, ms, i, k - 1);
        let j = k - 1;
        let inv = inv_mod(cofactor(ms, j), ms[j] as int);
        if j != i {
            lemma_modulus_divides_other_cofactor(ms, i, j);
            vstd::arithmetic::div_mod::lemma_fundamental_div_mod(cofactor(ms, j), m);
            let quo = cofactor(ms, j) / m;
            assert(term(rs, ms, j) == (rs[j] * quo * inv) * m) by (nonlinear_arith)
                requires
                    term(rs, ms, j) == (rs[j] * cofactor(ms, j)) * inv,
                    cofactor(ms, j) == m * quo,
            ;
            assert(term(rs, ms, j) % m == 0) by {
                vstd::arithmetic::div_mod::lemma_mod_multiples_basic(rs[j] * quo * inv, m);
            }
            if k <= i {
                lemma_zero_mod_add(partial_sum(rs, ms, j), term(rs, ms, j), m);
            } else {
                lemma_zero_mod_add(partial_sum(rs, ms, j) - rs[i], term(rs, ms, j), m);
            }
        } else {
            // The contribution of congruence i is congruent to rs[i] itself.
            let c = cofactor(ms, i);
            assert((c * inv) % m == 1int % m);
            assert((rs[i] * (c * inv)) % m == (rs[i] * ((c * inv) % m)) % m) by {
                vstd::arithmetic::div_mod::lemma_mul_mod_noop_right(rs[i] as int, c * inv, m);
            }
            assert((rs[i] * (1int % m)) % m == (rs[i] * 1) % m) by {
                vstd::arithmetic::div_mod::lemma_mul_mod_noop_right(rs[i] as int, 1, m);
            }
            assert(term(rs, ms, i) == rs[i] * (c * inv)) by (nonlinear_arith)
                requires
                    term(rs, ms, i) == (rs[i] * c) * inv,
            ;
            assert((term(rs, ms, i) - rs[i]) % m == 0) by {
                vstd::arithmetic::div_mod::lemma_mod_equivalence(term(rs, ms, i), rs[i] as int, m);
            }
            lemma_zero_mod_add(partial_sum(rs, ms, i), term(rs, ms, i) - rs[i], m);
        }
    }
}

/// A number coprime to every element of a sequence is coprime to the
/// product of the sequence.
proof fn lemma_coprime_to_product(m: nat, s: Seq<i64>)
    requires
        all_positive(s),
        forall|k: int| 0 <= k < s.len() ==> gcd(m, #[trigger] s[k] as nat) == 1,
    ensures
        gcd(m, product_of(s) as nat) == 1,
    decreases s.len(),
{
    if s.len() == 0 {
        crate::euclid::lemma_gcd_one(m);
    } else {
        let dl = s.drop_last();
        assert(all_positive(dl));
        assert(forall|k: int| 0 <= k < dl.len() ==> gcd(m, #[trigger] dl[k] as nat) == 1);
        lemma_coprime_to_product(m, dl);
        lemma_product_positive(dl);
        assert(gcd(m, s.last() as nat) == 1);
        crate::euclid::lemma_coprime_mult(m, product_of(dl) as nat, s.last() as nat);
    }
}

/// For positive moduli, every modulus being coprime to the product of
/// the others is the same as the moduli being pairwise coprime; the
/// first is the condition under which each cofactor has the inverse the
/// combiner needs.
pub proof fn lemma_pairwise_coprime_cofactors(ms: Seq<i64>)
    requires
        all_positive(ms),
    ensures
        coprime_cofactors(ms) <==> pairwise_coprime(ms),
{
    if coprime_cofactors(ms) {
        assert forall|i: int, j: int|
            0 <= i < ms.len() && 0 <= j < ms.len() && i != j implies #[trigger] gcd(
            ms[i] as nat,
            ms[j] as nat,
        ) == 1 by {
            let c = gcd(ms[i] as nat, ms[j] as nat);
            crate::euclid::lemma_gcd_pos(ms[i] as nat, ms[j] as nat);
            crate::euclid::lemma_gcd_divides(ms[i] as nat, ms[j] as nat);
            lemma_cofactor_of_rest(ms, i);
            lemma_modulus_divides_other_cofactor(ms, j, i);
            lemma_divides_transitive(cofactor(ms, i), ms[j] as int, c as int);
            crate::euclid::lemma_gcd_greatest(cofactor(ms, i) as nat, ms[i] as nat, c);
            if c > 1 {
                assert(1nat % c == 1) by {
                    vstd::arithmetic::div_mod::lemma_small_mod(1, c);
                }
            }
        }
    } else if pairwise_coprime(ms) {
        assert forall|i: int| 0 <= i < ms.len() implies #[trigger] gcd(
            cofactor(ms, i) as nat,
            ms[i] as nat,
        ) == 1 by {
            lemma_cofactor_of_rest(ms, i);
            let rest = ms.remove(i);
            assert forall|k: int| 0 <= k < rest.len() implies gcd(
                ms[i] as nat,
                #[trigger] rest[k] as nat,
            ) == 1 by {
                if k < i {
                    assert(rest[k] == ms[k]);
                } else {
                    assert(rest[k] == ms[k + 1]);
                }
            }
            lemma_coprime_to_product(ms[i] as nat, rest);
            crate::euclid::lemma_gcd_symmetric(ms[i] as nat, cofactor(ms, i) as nat);
        }
    }
}

/// Divisibility is transitive.
proof fn lemma_divides_transitive(a: int, b: int, c: int)
    requires
        1 <= b,
        1 <= c,
        a % b == 0,
        b % c == 0,
    ensures
        a % c == 0,
{
    vstd::arithmetic::div_mod::lemma_fundamental_div_mod(a, b);
    vstd::arithmetic::div_mod::lemma_fundamental_div_mod(b, c);
    assert(a == ((b / c) * (a / b)) * c) by (nonlinear_arith)
        requires
            a == b * (a / b),
            b == c * (b / c),
    ;
    vstd::arithmetic::div_mod::lemma_mod_multiples_basic((b / c) * (a / b), c);
}

/// Two moduli with a shared factor greater than one make the whole
/// system unsolvable: the factor also divides the cofactor of either
/// modulus, so no cofactor inverse exists and the combiner returns
/// nothing.
pub proof fn lemma_shared_factor_unsolvable(ms: Seq<i64>, i: int, j: int, c: int)
    requires
        all_positive(ms),
        0 <= i < ms.len(),
        0 <= j < ms.len(),
        i != j,
        c > 1,
        (ms[i] as int) % c == 0,
        (ms[j] as int) % c == 0,
    ensures
        !coprime_cofactors(ms),
{
    lemma_cofactor_of_rest(ms, i);
    lemma_modulus_divides_other_cofactor(ms, j, i);
    lemma_divides_transitive(cofactor(ms, i), ms[j] as int, c);
    crate::euclid::lemma_common_factor_blocks_inverse(
        cofactor(ms, i) as nat,
        ms[i] as nat,
        c as nat,
    );
}

/// The Euclidean remainder of a negative value, written so that the
/// matching executable computation never negates `x` (which could
/// overflow at the smallest `i64`).
proof fn lemma_mod_of_negative(x: int, m: int)
    requires
        1 <= m,
        x < 0,
    ensures
        x % m == m - 1 - ((-1 - x) % m),
{
    let u = -1 - x;
    vstd::arithmetic::div_mod::lemma_fundamental_div_mod(u, m);
    vstd::arithmetic::div_mod::lemma_mod_pos_bound(u, m);
    let qu = u / m;
    let ru = u % m;
    assert(x == (-qu - 1) * m + (m - 1 - ru)) by (nonlinear_arith)
        requires
            x == -1 - u,
            u == m * qu + ru,
    ;
    vstd::arithmetic::div_mod::lemma_fundamental_div_mod_converse(x, m, -qu - 1, m - 1 - ru);
}

/// Values congruent modulo the whole product are congruent modulo each
/// modulus: the difference is a multiple of the product.
proof fn lemma_congruent_through_product(s: int, big: int, ms: Seq<i64>, i: int)
    requires
        all_positive(ms),
        0 <= i < ms.len(),
        s == big % product_of(ms),
        1 <= product_of(ms),
    ensures
        (s - big) % (ms[i] as int) == 0,
{
    let m = ms[i] as int;
    let prod = product_of(ms);
    lemma_cofactor_of_rest(ms, i);
    vstd::arithmetic::div_mod::lemma_fundamental_div_mod(big, prod);
    assert(s - big == (-(cofactor(ms, i) * (big / prod))) * m) by (nonlinear_arith)
        requires
            s - big == -(prod * (big / prod)),
            prod == m * cofactor(ms, i),
    ;
    vstd::arithmetic::div_mod::lemma_mod_multiples_basic(-(cofactor(ms, i) * (big / prod)), m);
}

/// Solves the system `x = remainders[i] (mod moduli[i])` for all `i`,
/// returning the least non-negative solution modulo the product of the
/// moduli.  Returns `None` exactly when the moduli are not pairwise
/// coprime or some intermediate value falls outside the `i64` range.
#[verifier::loop_isolation(false)]
pub fn chinese_remainder_theorem(remainders: &[i64], moduli: &[i64]) -> (r: Option<i64>)
    requires
        remainders@.len() == moduli@.len(),
        all_positive(moduli@),
    ensures
        r is Some <==> crt_solvable(remainders@, moduli@),
        pairwise_coprime(moduli@) && within_bounds(remainders@, moduli@) ==> r is Some,
        r matches Some(s) ==> 0 <= s < product_of(moduli@),
        r matches Some(s) ==> forall|i: int|
            0 <= i < moduli@.len() ==> (s - remainders@[i]) % ((#[trigger] moduli@[i]) as int)
                == 0,
        r matches Some(s) ==> forall|i: int|
            0 <= i < moduli@.len() ==> (s as int) % ((#[trigger] moduli@[i]) as int) == (
            remainders@[i] as int) % (moduli@[i] as int),
{
    let n = moduli.len();
    let mut m_product: i64 = 1;
    let mut i: usize = 0;
    while i < n
        invariant
            0 <= i <= n,
            1 <= m_product,
            m_product == product_of(moduli@.take(i as int)),
        decreases n - i,
    {
        proof {
            lemma_product_take_step(moduli@, i as int);
        }
        m_product = match m_product.checked_mul(moduli[i]) {
            Some(p) => p,
            None => {
                proof {
                    assert(m_product * moduli@[i as int] >= 1) by (nonlinear_arith)
                        requires
                            m_product >= 1,
                            moduli@[i as int] >= 1,
                    ;
                    lemma_product_take_bound(moduli@, i as int + 1);
                }
                return None;
            },
        };
        proof {
            lemma_product_take_bound(moduli@, i as int + 1);
        }
        i += 1;
    }
    proof {
        assert(moduli@.take(n as int) =~= moduli@);
    }
    let mut result: i64 = 0;
    let mut i: usize = 0;
    while i < n
        invariant
            0 <= i <= n,
            result == partial_sum(remainders@, moduli@, i as int),
            forall|j: int|
                0 <= j < i ==> #[trigger] gcd(cofactor(moduli@, j) as nat, moduli@[j] as nat)
                    == 1,
            forall|j: int|
                0 <= j < i ==> is_mod_inverse(
                    cofactor(moduli@, j),
                    #[trigger] inv_mod(cofactor(moduli@, j), moduli@[j] as int),
                    moduli@[j] as int,
                ),
            forall|j: int| 0 <= j < i ==> fits_i64(#[trigger] raw_term(remainders@, moduli@, j)),
            forall|j: int| 0 <= j < i ==> fits_i64(#[trigger] term(remainders@, moduli@, j)),
            forall|k: int| 0 <= k <= i ==> fits_i64(#[trigger] partial_sum(remainders@, moduli@, k)),
        decreases n - i,
    {
        let ghost gi = i as int;
        proof {
            lemma_cofactor_of_rest(moduli@, gi);
        }
        let m_i = moduli[i];
        let m_prod_i = m_product / m_i;
        let inv = match mod_inverse(m_prod_i, m_i) {
            Some(v) => v,
            None => {
                proof {
                    assert(gcd(cofactor(moduli@, gi) as nat, moduli@[gi] as nat) != 1);
                    lemma_pairwise_coprime_cofactors(moduli@);
                }
                return None;
            },
        };
        let t1 = match remainders[i].checked_mul(m_prod_i) {
            Some(p) => p,
            None => {
                proof {
                    assert(!fits_i64(raw_term(remainders@, moduli@, gi)));
                }
                return None;
            },
        };
        let t = match t1.checked_mul(inv) {
            Some(p) => p,
            None => {
                proof {
                    assert(!fits_i64(term(remainders@, moduli@, gi)));
                }
                return None;
            },
        };
        result = match result.checked_add(t) {
            Some(sum) => sum,
            None => {
                proof {
                    assert(!fits_i64(partial_sum(remainders@, moduli@, gi + 1)));
                }
                return None;
            },
        };
        i += 1;
    }
    let ghost big = result as int;
    let ghost prod = product_of(moduli@);
    let solution = if result >= 0 {
        result % m_product
    } else {
        proof {
            lemma_mod_of_negative(big, prod);
        }
        m_product - 1 - ((-1 - result) % m_product)
    };
    proof {
        vstd::arithmetic::div_mod::lemma_mod_bound(big, prod);
        assert forall|j: int| 0 <= j < moduli@.len() implies (solution - remainders@[j]) % ((
        #[trigger] moduli@[j]) as int) == 0 && (solution as int) % (moduli@[j] as int) == (
        remainders@[j] as int) % (moduli@[j] as int) by {
            let m = moduli@[j] as int;
            lemma_partial_sum_congruent(remainders@, moduli@, j, n as int);
            lemma_congruent_through_product(solution as int, big, moduli@, j);
            lemma_zero_mod_add(big - remainders@[j], (solution as int) - big, m);
            vstd::arithmetic::div_mod::lemma_mod_equivalence(solution as int, remainders@[j] as int, m);
        }
    }
    Some(solution)
}

} // verus!
