use vstd::arithmetic::div_mod::*;
use vstd::prelude::*;

use crate::curve::{on_curve, Point};
use crate::error::EcError;
use crate::field::{add_mod, mul_mod, valid_modulus};

verus! {

/// The largest modulus whose curves are listed point by point.
pub const MAX_ENUMERATION_MODULUS: u128 = 65536;

/// `(x^3 + A x + B) mod p`.
pub open spec fn rhs_spec(x: int, a: int, b: int, p: int) -> int {
    (x * x * x + a * x + b) % p
}

/// The values `y < n`, ascending, with `y^2 = z (mod p)`.
pub open spec fn roots_below(z: int, p: int, n: nat) -> Seq<u128>
    decreases n,
{
    if n == 0 {
        Seq::empty()
    } else {
        let prev = roots_below(z, p, (n - 1) as nat);
        let y = n - 1;
        if (y * y) % p == z {
            prev.push(y as u128)
        } else {
            prev
        }
    }
}

/// The curve points `(x, y)` with `y < n`, by ascending `y`.
pub open spec fn column(x: int, a: int, b: int, p: int, n: nat) -> Seq<Point>
    decreases n,
{
    if n == 0 {
        Seq::empty()
    } else {
        let prev = column(x, a, b, p, (n - 1) as nat);
        let y = n - 1;
        if on_curve(x, y, a, b, p) {
            prev.push(Point::Affine(x as u128, y as u128))
        } else {
            prev
        }
    }
}

/// The affine curve points with `x < n` and `y < p`, ordered by `x`, then `y`.
pub open spec fn points_below(a: int, b: int, p: int, n: nat) -> Seq<Point>
    decreases n,
{
    if n == 0 {
        Seq::empty()
    } else {
        points_below(a, b, p, (n - 1) as nat) + column((n - 1) as int, a, b, p, p as nat)
    }
}

/// Every affine point of `y^2 = x^3 + A x + B` over `F_p`, ordered by `x`, then `y`.
pub open spec fn curve_points(a: int, b: int, p: int) -> Seq<Point> {
    points_below(a, b, p, p as nat)
}

/// `(x^3 + A x + B) mod p`, the value that `y^2` must take at `x`.
pub fn curve_rhs(x: u128, a: u128, b: u128, p: u128) -> (r: u128)
    requires
        p > 0,
    ensures
        r == rhs_spec(x as int, a as int, b as int, p as int),
        r < p,
{
    let ghost pi = p as int;
    let x3 = mul_mod(mul_mod(x, x, p), x, p);
    let ax = mul_mod(a, x, p);
    let r = add_mod(add_mod(x3, ax, p), b % p, p);
    proof {
        lemma_mul_mod_noop_left(x * x, x as int, pi);
        lemma_add_mod_noop(x * x * x, a * x, pi);
        lemma_add_mod_noop(x * x * x + a * x, b as int, pi);
    }
    r
}

/// The map `y -> (x, y)`.
pub open spec fn at_x(x: u128) -> spec_fn(u128) -> Point {
    |y: u128| Point::Affine(x, y)
}

/// A column of the curve is the table row of its right-hand side, paired with `x`.
proof fn lemma_column_from_roots(x: int, a: int, b: int, p: int, n: nat)
    requires
        p > 0,
        0 <= x <= u128::MAX,
        n <= p <= u128::MAX,
    ensures
        column(x, a, b, p, n) == roots_below(rhs_spec(x, a, b, p), p, n).map_values(
            at_x(x as u128),
        ),
    decreases n,
{
    if n > 0 {
        lemma_column_from_roots(x, a, b, p, (n - 1) as nat);
        let f = at_x(x as u128);
        let prev = roots_below(rhs_spec(x, a, b, p), p, (n - 1) as nat);
        let y = n - 1;
        if (y * y) % p == rhs_spec(x, a, b, p) {
            assert(prev.push(y as u128).map_values(f) =~= prev.map_values(f).push(f(y as u128)));
        }
    }
}

/// Lists every affine point of `y^2 = x^3 + A x + B` over `F_p`, ordered by `x`,
/// then `y`, from a table of the square roots of each residue.
pub fn get_curve(a: u128, b: u128, p: u128) -> (r: Result<Vec<Point>, EcError>)
    requires
        valid_modulus(p as int),
    ensures
        p > MAX_ENUMERATION_MODULUS ==> r == Err::<Vec<Point>, EcError>(EcError::ResourceExceeded),
        p <= MAX_ENUMERATION_MODULUS ==> (r matches Ok(v) && v@ == curve_points(
            a as int,
            b as int,
            p as int,
        )),
{
    if p > MAX_ENUMERATION_MODULUS {
        return Err(EcError::ResourceExceeded);
    }
    let n: usize = p as usize;
    let mut table: Vec<Vec<u128>> = Vec::new();
    let mut i: usize = 0;
    while i < n
        invariant
            n == p,
            i <= n,
            table.len() == i,
            forall|z: int| 0 <= z < i ==> (#[trigger] table@[z])@ == Seq::<u128>::empty(),
        decreases n - i,
    {
        table.push(Vec::new());
        i = i + 1;
    }
    let mut y: u128 = 0;
    while y < p
        invariant
            n == p,
            p <= MAX_ENUMERATION_MODULUS,
            valid_modulus(p as int),
            y <= p,
            table.len() == n,
            forall|z: int| 0 <= z < n ==> (#[trigger] table@[z])@ == roots_below(z, p as int, y as nat),
        decreases p - y,
    {
        let sq = mul_mod(y, y, p);
        let k = sq as usize;
        let mut row = table[k].clone();
        assert(row@ =~= table@[k as int]@);
        row.push(y);
        table.set(k, row);
        y = y + 1;
        assert forall|z: int| 0 <= z < n implies (#[trigger] table@[z])@ == roots_below(
            z,
            p as int,
            y as nat,
        ) by {
            lemma_small_mod(z as nat, p as nat);
        }
    }
    let mut out: Vec<Point> = Vec::new();
    let mut x: u128 = 0;
    while x < p
        invariant
            n == p,
            p <= MAX_ENUMERATION_MODULUS,
            valid_modulus(p as int),
            x <= p,
            table.len() == n,
            forall|z: int| 0 <= z < n ==> (#[trigger] table@[z])@ == roots_below(z, p as int, p as nat),
            out@ == points_below(a as int, b as int, p as int, x as nat),
        decreases p - x,
    {
        let z = curve_rhs(x, a, b, p);
        let ys = &table[z as usize];
        let ghost start = out@;
        let ghost f = at_x(x);
        let mut j: usize = 0;
        while j < ys.len()
            invariant
                j <= ys.len(),
                f == at_x(x),
                out@ == start + ys@.take(j as int).map_values(f),
            decreases ys.len() - j,
        {
            out.push(Point::Affine(x, ys[j]));
            j = j + 1;
            assert(ys@.take(j as int) =~= ys@.take(j - 1).push(ys@[j - 1]));
            assert(ys@.take(j as int).map_values(f) =~= ys@.take(j - 1).map_values(f).push(
                f(ys@[j - 1]),
            ));
            assert(out@ =~= start + ys@.take(j as int).map_values(f));
        }
        proof {
            lemma_column_from_roots(x as int, a as int, b as int, p as int, p as nat);
            assert(ys@.take(ys@.len() as int) =~= ys@);
        }
        x = x + 1;
    }
    Ok(out)
}


/// `pt` is an affine point of the curve with reduced coordinates.
pub open spec fn is_listed_point(pt: Point, a: int, b: int, p: int) -> bool {
    match pt {
        Point::Infinity => false,
        Point::Affine(x, y) => x < p && y < p && on_curve(x as int, y as int, a, b, p),
    }
}

/// A column holds exactly the curve points `(x, y)` with `y < n`.
proof fn lemma_column_sound_complete(x: int, a: int, b: int, p: int, n: nat)
    requires
        0 <= x < p <= u128::MAX,
        n <= p,
    ensures
        forall|i: int|
            0 <= i < column(x, a, b, p, n).len() ==> is_listed_point(
                #[trigger] column(x, a, b, p, n)[i],
                a,
                b,
                p,
            ),
        forall|y: int|
            0 <= y < n && on_curve(x, y, a, b, p) ==> column(x, a, b, p, n).contains(
                Point::Affine(x as u128, y as u128),
            ),
    decreases n,
{
    if n > 0 {
        let m = (n - 1) as nat;
        lemma_column_sound_complete(x, a, b, p, m);
        let prev = column(x, a, b, p, m);
        assert forall|y: int| 0 <= y < n && on_curve(x, y, a, b, p) implies column(
            x,
            a,
            b,
            p,
            n,
        ).contains(Point::Affine(x as u128, y as u128)) by {
            if y < m {
                let k = choose|k: int|
                    0 <= k < prev.len() && prev[k] == Point::Affine(x as u128, y as u128);
                assert(column(x, a, b, p, n)[k] == prev[k]);
            } else {
                assert(column(x, a, b, p, n).last() == Point::Affine(x as u128, y as u128));
            }
        }
    }
}

/// The listing up to `n` holds exactly the curve points with `x < n`.
proof fn lemma_points_below_sound_complete(a: int, b: int, p: int, n: nat)
    requires
        0 < p <= u128::MAX,
        n <= p,
    ensures
        forall|i: int|
            0 <= i < points_below(a, b, p, n).len() ==> is_listed_point(
                #[trigger] points_below(a, b, p, n)[i],
                a,
                b,
                p,
            ),
        forall|x: int, y: int|
            0 <= x < n && 0 <= y < p && on_curve(x, y, a, b, p) ==> points_below(
                a,
                b,
                p,
                n,
            ).contains(Point::Affine(x as u128, y as u128)),
    decreases n,
{
    if n > 0 {
        let m = (n - 1) as nat;
        lemma_points_below_sound_complete(a, b, p, m);
        lemma_column_sound_complete(m as int, a, b, p, p as nat);
        let prev = points_below(a, b, p, m);
        let col = column(m as int, a, b, p, p as nat);
        let all = points_below(a, b, p, n);
        assert(all == prev + col);
        assert forall|i: int| 0 <= i < all.len() implies is_listed_point(
            #[trigger] all[i],
            a,
            b,
            p,
        ) by {
            if i >= prev.len() {
                assert(all[i] == col[i - prev.len()]);
            }
        }
        assert forall|x: int, y: int|
            0 <= x < n && 0 <= y < p && on_curve(x, y, a, b, p) implies all.contains(
            Point::Affine(x as u128, y as u128),
        ) by {
            let pt = Point::Affine(x as u128, y as u128);
            if x < m {
                let k = choose|k: int| 0 <= k < prev.len() && prev[k] == pt;
                assert(all[k] == pt);
            } else {
                let k = choose|k: int| 0 <= k < col.len() && col[k] == pt;
                assert(all[prev.len() + k] == pt);
            }
        }
    }
}

/// Every listed point lies on the curve with reduced coordinates, and every
/// such point is listed.
pub proof fn lemma_curve_points_exact(a: int, b: int, p: int)
    requires
        0 < p <= u128::MAX,
    ensures
        forall|i: int|
            0 <= i < curve_points(a, b, p).len() ==> is_listed_point(
                #[trigger] curve_points(a, b, p)[i],
                a,
                b,
                p,
            ),
        forall|x: int, y: int|
            0 <= x < p && 0 <= y < p && on_curve(x, y, a, b, p) ==> curve_points(
                a,
                b,
                p,
            ).contains(Point::Affine(x as u128, y as u128)),
{
    lemma_points_below_sound_complete(a, b, p, p as nat);
}

} // verus!
