//! Star polygons: `points` vertices on a circle, each joined to the one `skip` further round.
//!
//! Stepping `skip` at a time closes only after all `points` are visited when the two share
//! no factor, which makes one continuous star rather than a ring of smaller ones.

use crate::chars::{decimal, from_chars, push_decimal, push_str};
use vstd::prelude::*;

verus! {

/// The greatest common divisor, by Euclid's algorithm.
pub open spec fn gcd(a: nat, b: nat) -> nat
    decreases b,
{
    if b == 0 {
        a
    } else {
        gcd(b, a % b)
    }
}

/// The greatest common divisor of `a` and `b`.
pub fn gcd_of(a: u32, b: u32) -> (g: u32)
    ensures
        g == gcd(a as nat, b as nat),
    decreases b,
{
    if b == 0 {
        a
    } else {
        gcd_of(b, a % b)
    }
}

/// Whether `points` and `skip` make one star: at least five points, joined at least every
/// second one but less than half way round, and sharing no factor.
pub open spec fn single_star(points: nat, skip: nat) -> bool {
    points >= 5 && skip >= 2 && 2 * skip < points && gcd(points, skip) == 1
}

/// What is said about `points` and `skip` that make no single star.
pub open spec fn star_complaint(points: nat, skip: nat) -> Seq<char> {
    "no single star has "@ + decimal(points) + " points joined every "@ + decimal(skip)
        + ": `skip` must be at least 2, less than half of `points`, and share no factor with it"@
}

/// Reject a star whose `points` and `skip` do not make one continuous star.
pub fn check_star(points: u32, skip: u32) -> (r: Result<(), String>)
    ensures
        r is Ok <==> single_star(points as nat, skip as nat),
        r matches Err(m) ==> m@ == star_complaint(points as nat, skip as nat),
{
    let (n, k) = (points, skip);
    if n < 5 || k < 2 || 2 * (k as u64) >= n as u64 || gcd_of(n, k) != 1 {
        let mut m: Vec<char> = Vec::new();
        push_str(&mut m, "no single star has ");
        push_decimal(&mut m, n as u64);
        push_str(&mut m, " points joined every ");
        push_decimal(&mut m, k as u64);
        push_str(
            &mut m,
            ": `skip` must be at least 2, less than half of `points`, and share no factor with it",
        );
        return Err(from_chars(&m));
    }
    Ok(())
}

/// The minimum number of sides a polygon needs.
pub fn check_polygon_sides(sides: u32) -> (r: Result<(), String>)
    ensures
        r is Ok <==> sides >= 3,
        r matches Err(m) ==> m@ == "a polygon needs at least 3 `sides`, got "@ + decimal(
            sides as nat,
        ),
{
    if sides < 3 {
        let mut m: Vec<char> = Vec::new();
        push_str(&mut m, "a polygon needs at least 3 `sides`, got ");
        push_decimal(&mut m, sides as u64);
        return Err(from_chars(&m));
    }
    Ok(())
}

/// The vertex of an `n`-gon that the `i`th corner of an `{n/skip}` star sits on.
pub open spec fn star_vertex(i: int, n: int, skip: int) -> int {
    (i * skip) % n
}

/// The vertices of an `{n/skip}` star polygon, in the order they are joined, as indices
/// into the `n`-gon's vertices (counted clockwise from the first).
pub fn star_order(n: usize, skip: usize) -> (order: Vec<usize>)
    requires
        n == 0 || (n - 1) * skip <= usize::MAX,
    ensures
        order@.len() == n,
        forall|i: int| 0 <= i < n ==> #[trigger] order@[i] as int == star_vertex(i, n as int, skip as int),
{
    let mut order: Vec<usize> = Vec::new();
    let mut i: usize = 0;
    while i < n
        invariant
            n == 0 || (n - 1) * skip <= usize::MAX,
            i <= n,
            order@.len() == i,
            forall|j: int| 0 <= j < i ==> #[trigger] order@[j] as int == star_vertex(j, n as int, skip as int),
        decreases n - i,
    {
        proof {
            assert(i * skip <= (n - 1) * skip) by (nonlinear_arith)
                requires
                    i < n,
            ;
        }
        order.push((i * skip) % n);
        i += 1;
    }
    order
}

/// Whether some corner of an `{n/skip}` star sits on vertex `v`.
pub open spec fn visited(n: int, skip: int, v: int) -> bool {
    exists|i: int| 0 <= i < n && #[trigger] star_vertex(i, n, skip) == v
}

/// Bezout: some whole-number combination of `a` and `b` makes their greatest common
/// divisor.
pub proof fn lemma_bezout(a: nat, b: nat) -> (xy: (int, int))
    ensures
        a * xy.0 + b * xy.1 == gcd(a, b),
    decreases b,
{
    if b == 0 {
        (1, 0)
    } else {
        let (x, y) = lemma_bezout(b, a % b);
        let q = a / b;
        let r = a % b;
        vstd::arithmetic::div_mod::lemma_fundamental_div_mod(a as int, b as int);
        assert(a * y + b * (x - q * y) == b * x + r * y) by (nonlinear_arith)
            requires
                a == b * q + r,
        ;
        (y, x - q * y)
    }
}

/// A star whose `skip` shares no factor with `n` visits every vertex of the `n`-gon exactly
/// once: no two corners sit on the same vertex, and every vertex has a corner on it.
pub proof fn lemma_star_visits_every_vertex_once(n: nat, skip: nat)
    requires
        n >= 1,
        gcd(n, skip) == 1,
    ensures
        forall|i: int, j: int|
            0 <= i < n && 0 <= j < n && #[trigger] star_vertex(i, n as int, skip as int)
                == #[trigger] star_vertex(j, n as int, skip as int) ==> i == j,
        forall|v: int| 0 <= v < n ==> #[trigger] visited(n as int, skip as int, v),
{
    let (x, y) = lemma_bezout(n, skip);
    let (nn, k) = (n as int, skip as int);
    assert forall|i: int, j: int|
        0 <= i < n && 0 <= j < n && #[trigger] star_vertex(i, nn, k) == #[trigger] star_vertex(
            j,
            nn,
            k,
        ) implies i == j by {
        let (q1, r1) = ((i * k) / nn, (i * k) % nn);
        let (q2, r2) = ((j * k) / nn, (j * k) % nn);
        vstd::arithmetic::div_mod::lemma_fundamental_div_mod(i * k, nn);
        vstd::arithmetic::div_mod::lemma_fundamental_div_mod(j * k, nn);
        let d = i - j;
        let e = q1 - q2;
        assert(d * k == nn * e) by (nonlinear_arith)
            requires
                i * k == nn * q1 + r1,
                j * k == nn * q2 + r2,
                r1 == r2,
                d == i - j,
                e == q1 - q2,
        ;
        assert(d == d * (nn * x) + d * (k * y)) by (nonlinear_arith)
            requires
                nn * x + k * y == 1,
        ;
        assert(d * (k * y) == (nn * e) * y) by (nonlinear_arith)
            requires
                d * k == nn * e,
        ;
        let m = d * x + e * y;
        assert(d * (nn * x) + (nn * e) * y == nn * m) by (nonlinear_arith)
            requires
                m == d * x + e * y,
        ;
        assert(i - j == nn * m);
        assert(m == 0) by (nonlinear_arith)
            requires
                i - j == nn * m,
                0 <= i < nn,
                0 <= j < nn,
        ;
    }
    assert forall|v: int| 0 <= v < n implies #[trigger] visited(nn, k, v) by {
        let i = (v * y) % nn;
        let t = (v * y) / nn;
        vstd::arithmetic::div_mod::lemma_fundamental_div_mod(v * y, nn);
        let c = v * x + t * k;
        assert(i * k == v - nn * c) by (nonlinear_arith)
            requires
                v * y == nn * t + i,
                nn * x + k * y == 1,
                c == v * x + t * k,
        ;
        assert(i * k == (-c) * nn + v) by (nonlinear_arith)
            requires
                i * k == v - nn * c,
        ;
        vstd::arithmetic::div_mod::lemma_fundamental_div_mod_converse(i * k, nn, -c, v);
        assert(star_vertex(i, nn, k) == v);
        assert(0 <= i < nn);
    }
}

} // verus!
