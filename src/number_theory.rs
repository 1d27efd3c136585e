use vstd::arithmetic::div_mod::*;
use vstd::arithmetic::mul::*;
use vstd::arithmetic::power::*;
use vstd::prelude::*;
use vstd::set_lib::*;

verus! {

/// `p` is a prime number.
pub open spec fn is_prime(p: int) -> bool {
    p > 1 && forall|d: int| 1 < d < p ==> #[trigger] (p % d) != 0
}

/// The product of the elements of `s`.
pub open spec fn prod(s: Seq<int>) -> int
    decreases s.len(),
{
    if s.len() == 0 {
        1
    } else {
        prod(s.drop_last()) * s.last()
    }
}

/// `n!`
pub open spec fn fact(n: nat) -> int
    decreases n,
{
    if n == 0 {
        1
    } else {
        fact((n - 1) as nat) * n
    }
}

/// Euclid's lemma for a factor already reduced into `(0, p)`.
proof fn lemma_euclid_reduced(p: int, a: int, b: int)
    requires
        is_prime(p),
        0 < a < p,
        (a * b) % p == 0,
    ensures
        b % p == 0,
    decreases a,
{
    if a > 1 {
        let q = p / a;
        let r = p % a;
        lemma_fundamental_div_mod(p, a);
        assert(r != 0);
        let k = (a * b) / p;
        lemma_fundamental_div_mod(a * b, p);
        assert(r * b == (b - q * k) * p) by (nonlinear_arith)
            requires
                p == a * q + r,
                a * b == p * k,
        ;
        lemma_mod_multiples_basic(b - q * k, p);
        lemma_euclid_reduced(p, r, b);
    } else {
        assert(a * b == b) by (nonlinear_arith)
            requires
                a == 1,
        ;
    }
}

/// Euclid's lemma: a prime that divides a product divides one of its factors.
pub proof fn lemma_euclid(p: int, a: int, b: int)
    requires
        is_prime(p),
        (a * b) % p == 0,
    ensures
        a % p == 0 || b % p == 0,
{
    if a % p != 0 {
        lemma_mul_mod_noop_left(a, b, p);
        lemma_euclid_reduced(p, a % p, b);
    }
}

/// A nonzero value smaller than `p` in magnitude is not a multiple of `p`.
pub proof fn lemma_small_nonzero_mod(d: int, p: int)
    requires
        p > 0,
        0 < d < p || 0 < -d < p,
    ensures
        d % p != 0,
{
    if d > 0 {
        lemma_small_mod(d as nat, p as nat);
    } else {
        lemma_fundamental_div_mod_converse(d, p, -1, p + d);
    }
}

/// The negation of a multiple of `p` is a multiple of `p`.
pub proof fn lemma_neg_multiple(x: int, p: int)
    requires
        p > 0,
        x % p == 0,
    ensures
        (-x) % p == 0,
{
    let q = x / p;
    lemma_fundamental_div_mod(x, p);
    assert(-x == (-q) * p + 0) by (nonlinear_arith)
        requires
            x == p * q,
    ;
    lemma_fundamental_div_mod_converse(-x, p, -q, 0);
}

/// Two reduced values whose difference times a unit vanishes modulo a prime are equal.
pub proof fn lemma_cancel_unit(u: int, v: int, d: int, p: int)
    requires
        is_prime(p),
        0 <= u < p,
        0 <= v < p,
        d % p != 0,
        ((u - v) * d) % p == 0,
    ensures
        u == v,
{
    lemma_euclid(p, u - v, d);
    if u > v {
        lemma_small_mod((u - v) as nat, p as nat);
    } else if u < v {
        assert((v - u) * d == -((u - v) * d)) by (nonlinear_arith);
        lemma_neg_multiple((u - v) * d, p);
        lemma_euclid(p, v - u, d);
        lemma_small_mod((v - u) as nat, p as nat);
    }
}

/// Taking one element out of a product.
proof fn lemma_prod_remove(s: Seq<int>, j: int)
    requires
        0 <= j < s.len(),
    ensures
        prod(s) == s[j] * prod(s.remove(j)),
    decreases s.len(),
{
    let t = s.drop_last();
    if j == s.len() - 1 {
        assert(s.remove(j) =~= t);
        lemma_mul_is_commutative(prod(t), s.last());
    } else {
        lemma_prod_remove(t, j);
        assert(s.remove(j).drop_last() =~= t.remove(j));
        assert(s.remove(j).last() == s.last());
        lemma_mul_is_associative(s[j], prod(t.remove(j)), s.last());
    }
}

/// A sequence of `n` distinct values from `1..=n` multiplies to `n!`.
pub proof fn lemma_prod_permutation(s: Seq<int>, n: nat)
    requires
        s.len() == n,
        s.no_duplicates(),
        forall|i: int| 0 <= i < n ==> 1 <= #[trigger] s[i] <= n,
    ensures
        prod(s) == fact(n),
    decreases n,
{
    if n > 0 {
        if forall|i: int| 0 <= i < n ==> #[trigger] s[i] != n {
            assert(s.to_set().subset_of(set_int_range(1, n as int))) by {
                assert forall|v: int| #[trigger] s.to_set().contains(v) implies set_int_range(
                    1,
                    n as int,
                ).contains(v) by {
                    let i = choose|i: int| 0 <= i < s.len() && s[i] == v;
                }
            }
            lemma_int_range(1, n as int);
            s.unique_seq_to_set();
            lemma_len_subset(s.to_set(), set_int_range(1, n as int));
        }
        let j = choose|j: int| 0 <= j < n && s[j] == n;
        let t = s.remove(j);
        s.remove_ensures(j);
        assert forall|i: int| 0 <= i < n - 1 implies 1 <= #[trigger] t[i] <= n - 1 by {
            if i < j {
                assert(s[i] != s[j]);
            } else {
                assert(s[i + 1] != s[j]);
            }
        }
        assert(t.no_duplicates()) by {
            assert forall|i: int, k: int|
                0 <= i < t.len() && 0 <= k < t.len() && i != k implies t[i] != t[k] by {
                let si = if i < j {
                    i
                } else {
                    i + 1
                };
                let sk = if k < j {
                    k
                } else {
                    k + 1
                };
                assert(s[si] != s[sk]);
            }
        }
        lemma_prod_permutation(t, (n - 1) as nat);
        lemma_prod_remove(s, j);
        lemma_mul_is_commutative(fact((n - 1) as nat), n as int);
    }
}

/// A prime does not divide the factorial of a smaller number.
proof fn lemma_fact_not_divisible(p: int, n: nat)
    requires
        is_prime(p),
        n < p,
    ensures
        fact(n) % p != 0,
    decreases n,
{
    if n == 0 {
        lemma_small_mod(1, p as nat);
    } else {
        lemma_fact_not_divisible(p, (n - 1) as nat);
        lemma_small_mod(n, p as nat);
        if fact(n) % p == 0 {
            lemma_euclid(p, fact((n - 1) as nat), n as int);
        }
    }
}

/// The multiples `a * 1, ..., a * n` reduced modulo `p`.
pub open spec fn multiples(a: int, p: int, n: nat) -> Seq<int> {
    Seq::new(n, |i: int| (a * (i + 1)) % p)
}

/// `prod(a * i mod p, i = 1..=n) = a^n * n! (mod p)`.
proof fn lemma_multiples_prod(a: int, p: int, n: nat)
    requires
        p > 0,
    ensures
        prod(multiples(a, p, n)) % p == (pow(a, n) * fact(n)) % p,
    decreases n,
{
    reveal(pow);
    if n == 0 {
        assert(multiples(a, p, n) =~= Seq::<int>::empty());
    } else {
        let m = (n - 1) as nat;
        lemma_multiples_prod(a, p, m);
        assert(multiples(a, p, n).drop_last() =~= multiples(a, p, m));
        let x = prod(multiples(a, p, m));
        let y = pow(a, m) * fact(m);
        lemma_mul_mod_noop_right(x, a * n, p);
        lemma_mul_mod_noop_left(x, a * n, p);
        lemma_mul_mod_noop_left(y, a * n, p);
        assert(y * (a * n) == pow(a, n) * fact(n)) by (nonlinear_arith)
            requires
                y == pow(a, m) * fact(m),
                pow(a, n) == a * pow(a, m),
                fact(n) == fact(m) * n,
        ;
    }
}

/// Fermat's little theorem: `a^(p-1) = 1 (mod p)` for a prime `p` not dividing `a`.
pub proof fn lemma_fermat(a: int, p: int)
    requires
        is_prime(p),
        a % p != 0,
    ensures
        pow(a, (p - 1) as nat) % p == 1,
{
    let n = (p - 1) as nat;
    let t = multiples(a, p, n);
    assert forall|i: int| 0 <= i < n implies 1 <= #[trigger] t[i] <= n by {
        lemma_small_mod((i + 1) as nat, p as nat);
        if (a * (i + 1)) % p == 0 {
            lemma_euclid(p, a, i + 1);
        }
    }
    assert(t.no_duplicates()) by {
        assert forall|i: int, k: int|
            0 <= i < t.len() && 0 <= k < t.len() && i != k implies t[i] != t[k] by {
            if t[i] == t[k] {
                let u = if i > k {
                    i
                } else {
                    k
                };
                let v = if i > k {
                    k
                } else {
                    i
                };
                lemma_sub_mod_noop(a * (u + 1), a * (v + 1), p);
                assert(a * (u + 1) - a * (v + 1) == a * (u - v)) by (nonlinear_arith);
                lemma_small_mod(0, p as nat);
                lemma_euclid(p, a, u - v);
                lemma_small_mod((u - v) as nat, p as nat);
            }
        }
    }
    lemma_prod_permutation(t, n);
    lemma_multiples_prod(a, p, n);
    let x = pow(a, n);
    let f = fact(n);
    lemma_sub_mod_noop(x * f, f, p);
    assert(x * f - f == (x - 1) * f) by (nonlinear_arith);
    lemma_mod_self_0(p);
    lemma_fact_not_divisible(p, n);
    lemma_euclid(p, x - 1, f);
    lemma_add_mod_noop(x - 1, 1, p);
    lemma_small_mod(1, p as nat);
}

/// Modulo a prime, the only square roots of 1 are 1 and `p - 1`.
pub proof fn lemma_square_roots_of_one(x: int, p: int)
    requires
        is_prime(p),
        0 <= x < p,
        (x * x) % p == 1,
    ensures
        x == 1 || x == p - 1,
{
    lemma_small_mod(1, p as nat);
    lemma_small_mod(0, p as nat);
    lemma_sub_mod_noop(x * x, 1, p);
    assert(x * x - 1 == (x - 1) * (x + 1)) by (nonlinear_arith);
    lemma_euclid(p, x - 1, x + 1);
    if x != 1 && x + 1 != p {
        lemma_small_nonzero_mod(x - 1, p);
        lemma_small_nonzero_mod(x + 1, p);
    }
}

/// `(p - 1)^2 = 1 (mod p)`.
pub proof fn lemma_minus_one_squared(p: int)
    requires
        p > 1,
    ensures
        ((p - 1) * (p - 1)) % p == 1,
{
    assert((p - 1) * (p - 1) == (p - 2) * p + 1) by (nonlinear_arith);
    lemma_fundamental_div_mod_converse((p - 1) * (p - 1), p, p - 2, 1);
}

/// Index `j` holds a partner of index `i` in `s`: another element whose
/// product with `s[i]` is `c` modulo `p`.
pub open spec fn partner_at(s: Seq<int>, i: int, j: int, c: int, p: int) -> bool {
    0 <= j < s.len() && j != i && (s[i] * s[j]) % p == c % p
}

/// Some index holds a partner of index `i` in `s`.
pub open spec fn has_partner(s: Seq<int>, i: int, c: int, p: int) -> bool {
    exists|j: int| #[trigger] partner_at(s, i, j, c, p)
}

/// Modulo a prime, `a y = b y = c` with `y` a unit forces `a = b` on reduced values.
proof fn lemma_partner_unique(a: int, b: int, y: int, c: int, p: int)
    requires
        is_prime(p),
        0 <= a < p,
        0 <= b < p,
        y % p != 0,
        (a * y) % p == c % p,
        (b * y) % p == c % p,
    ensures
        a == b,
{
    lemma_sub_mod_noop(a * y, b * y, p);
    lemma_small_mod(0, p as nat);
    assert(a * y - b * y == (a - b) * y) by (nonlinear_arith);
    lemma_cancel_unit(a, b, y, p);
}

/// Distinct units that split into pairs, each multiplying to `c`, multiply to
/// `c^(n/2)` modulo `p`.
pub proof fn lemma_paired_product(s: Seq<int>, c: int, p: int)
    requires
        is_prime(p),
        s.no_duplicates(),
        forall|i: int| 0 <= i < s.len() ==> 1 <= #[trigger] s[i] < p,
        forall|i: int| 0 <= i < s.len() ==> #[trigger] has_partner(s, i, c, p),
    ensures
        s.len() % 2 == 0,
        prod(s) % p == pow(c, s.len() / 2) % p,
    decreases s.len(),
{
    reveal(pow);
    if s.len() == 0 {
        lemma_small_mod(1, p as nat);
    } else {
        let n = s.len() as int;
        let x = s[n - 1];
        assert(has_partner(s, n - 1, c, p));
        let j0 = choose|j: int| #[trigger] partner_at(s, n - 1, j, c, p);
        let y = s[j0];
        let t = s.drop_last();
        let u = t.remove(j0);
        t.remove_ensures(j0);
        lemma_small_mod(x as nat, p as nat);
        lemma_small_mod(y as nat, p as nat);
        lemma_mul_is_commutative(x, y);
        assert(u.no_duplicates()) by {
            assert forall|a: int, b: int|
                0 <= a < u.len() && 0 <= b < u.len() && a != b implies u[a] != u[b] by {
                let sa = if a < j0 {
                    a
                } else {
                    a + 1
                };
                let sb = if b < j0 {
                    b
                } else {
                    b + 1
                };
                assert(s[sa] != s[sb]);
            }
        }
        assert forall|k: int| 0 <= k < u.len() implies 1 <= #[trigger] u[k] < p by {
            let sk = if k < j0 {
                k
            } else {
                k + 1
            };
            assert(u[k] == s[sk]);
        }
        assert forall|k: int| 0 <= k < u.len() implies #[trigger] has_partner(u, k, c, p) by {
            let sk = if k < j0 {
                k
            } else {
                k + 1
            };
            assert(u[k] == s[sk]);
            assert(has_partner(s, sk, c, p));
            let jj = choose|j: int| #[trigger] partner_at(s, sk, j, c, p);
            let w = s[jj];
            lemma_small_mod(w as nat, p as nat);
            lemma_small_mod(s[sk] as nat, p as nat);
            lemma_mul_is_commutative(s[sk], w);
            if jj == n - 1 {
                lemma_partner_unique(s[sk], y, x, c, p);
                assert(s[sk] != s[j0]);
            }
            if jj == j0 {
                lemma_partner_unique(s[sk], x, y, c, p);
                assert(s[sk] != s[n - 1]);
            }
            let uj = if jj < j0 {
                jj
            } else {
                jj - 1
            };
            assert(u[uj] == s[jj]);
            assert(partner_at(u, k, uj, c, p));
        }
        lemma_paired_product(u, c, p);
        let k = u.len() / 2;
        lemma_prod_remove(t, j0);
        assert(prod(s) == (x * y) * prod(u)) by (nonlinear_arith)
            requires
                prod(s) == prod(t) * x,
                prod(t) == y * prod(u),
        ;
        lemma_mul_mod_noop(x * y, prod(u), p);
        lemma_mul_mod_noop(c, pow(c, k as nat), p);
        assert(s.len() / 2 == k + 1);
    }
}

/// The inverse of any `x` in `[2, p - 2]` lies in `[2, p - 2]` and differs from `x`.
proof fn lemma_inverse_strictly_inside(x: int, p: int)
    requires
        is_prime(p),
        2 <= x <= p - 2,
    ensures
        2 <= inv_of(x, p) <= p - 2,
        inv_of(x, p) != x,
        (x * inv_of(x, p)) % p == 1int % p,
{
    let y = inv_of(x, p);
    lemma_small_mod(x as nat, p as nat);
    lemma_small_mod(1, p as nat);
    lemma_inv_of(x, p);
    if y == 1 {
        lemma_mul_basics(x);
    }
    if y == p - 1 {
        assert(x * (p - 1) == (p - x) + (x - 1) * p) by (nonlinear_arith);
        lemma_mod_multiples_vanish(x - 1, p - x, p);
        lemma_small_mod((p - x) as nat, p as nat);
    }
    if y == x {
        lemma_square_roots_of_one(x, p);
    }
}

/// Wilson's theorem: `(p - 1)! = -1 (mod p)` for a prime `p`.
pub proof fn lemma_wilson(p: int)
    requires
        is_prime(p),
    ensures
        fact((p - 1) as nat) % p == p - 1,
{
    let n = (p - 1) as nat;
    let all = Seq::new(n, |i: int| i + 1);
    lemma_prod_permutation(all, n);
    if p == 2 {
        assert(fact(1) == fact(0) * 1);
        lemma_small_mod(1, 2);
    } else {
        // drop 1 and p - 1, the two elements that are their own inverse
        let mid = Seq::new((p - 3) as nat, |i: int| i + 2);
        assert(all.drop_last().remove(0) =~= mid);
        lemma_prod_remove(all.drop_last(), 0);
        lemma_small_mod(1, p as nat);
        assert forall|i: int| 0 <= i < mid.len() implies #[trigger] has_partner(mid, i, 1, p) by {
            let x = mid[i];
            let y = inv_of(x, p);
            lemma_inverse_strictly_inside(x, p);
            assert(mid[y - 2] == y);
            assert(partner_at(mid, i, y - 2, 1, p));
        }
        lemma_paired_product(mid, 1, p);
        lemma1_pow((mid.len() / 2) as nat);
        assert(prod(mid) % p == 1);
        assert(all.drop_last()[0] == 1);
        assert(prod(all.drop_last()) == prod(mid)) by (nonlinear_arith)
            requires
                prod(all.drop_last()) == all.drop_last()[0] * prod(all.drop_last().remove(0)),
                all.drop_last()[0] == 1,
                all.drop_last().remove(0) == mid,
        ;
        assert(all.last() == p - 1);
        assert(prod(all) == prod(mid) * (p - 1));
        lemma_mul_mod_noop(prod(mid), p - 1, p);
        lemma_small_mod((p - 1) as nat, p as nat);
        assert(((prod(mid) % p) * ((p - 1) % p)) % p == p - 1);
    }
}

/// The reduced inverse of `x` modulo `p`, by Fermat's little theorem.
pub open spec fn inv_of(x: int, p: int) -> int {
    pow(x, (p - 2) as nat) % p
}

/// For a prime `p` and `x` not divisible by it, `inv_of(x, p)` is a unit in
/// `[1, p)` and `x * inv_of(x, p) = 1 (mod p)`.
pub proof fn lemma_inv_of(x: int, p: int)
    requires
        is_prime(p),
        x % p != 0,
    ensures
        1 <= inv_of(x, p) < p,
        (x * inv_of(x, p)) % p == 1,
{
    lemma_fermat(x, p);
    lemma_mul_mod_noop_right(x, pow(x, (p - 2) as nat), p);
    lemma_pow_adds(x, 1, (p - 2) as nat);
    lemma_pow1(x);
    if inv_of(x, p) == 0 {
        lemma_small_mod(0, p as nat);
    }
}

} // verus!
