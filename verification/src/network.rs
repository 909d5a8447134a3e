use vstd::prelude::*;
use vstd::arithmetic::div_mod::{lemma_div_pos_is_pos, lemma_fundamental_div_mod, lemma_mod_bound};
use vstd::string::StringSliceAdditionalSpecFns;

verus! {

/// The number of a node whose label starts with the three letters `label`:
/// the label read as a number in base 26, with `A` for the digit 0.
pub open spec fn node_number(label: Seq<u8>) -> int {
    ((label[0] - ('A' as u8)) * 26 + (label[1] - ('A' as u8))) * 26 + (label[2] - ('A' as u8))
}

/// The number of the node labelled `s`. Only the first three bytes count,
/// and none of them may come before `A`.
pub fn parse_node(s: &str) -> (node: usize)
    requires
        s.spec_bytes().len() >= 3,
        forall|i: int| 0 <= i < 3 ==> s.spec_bytes()[i] >= 'A' as u8,
    ensures
        node == node_number(s.spec_bytes()),
{
    let s = s.as_bytes();
    ((s[0] - 'A' as u8) as usize * 26 + (s[1] - 'A' as u8) as usize) * 26 + (s[2] - 'A' as u8) as usize
}

/// The size of a number without its sign.
pub open spec fn magnitude(n: int) -> int {
    if n < 0 {
        -n
    } else {
        n
    }
}

/// The quotient of `a` by `b`, rounded towards zero.
pub open spec fn trunc_div(a: int, b: int) -> int {
    if b > 0 {
        if a >= 0 {
            a / b
        } else {
            -((-a) / b)
        }
    } else {
        if a >= 0 {
            -(a / (-b))
        } else {
            (-a) / (-b)
        }
    }
}

/// What rounding towards zero leaves: smaller than the divisor, and never of
/// the opposite sign to the dividend.
pub proof fn lemma_trunc_div(a: int, b: int)
    requires
        b != 0,
    ensures
        magnitude(a - trunc_div(a, b) * b) < magnitude(b),
        a >= 0 ==> a - trunc_div(a, b) * b >= 0,
        a <= 0 ==> a - trunc_div(a, b) * b <= 0,
        magnitude(trunc_div(a, b)) * magnitude(b) + magnitude(a - trunc_div(a, b) * b)
            == magnitude(a),
        (a >= 0 && b > 0) || (a <= 0 && b < 0) ==> trunc_div(a, b) >= 0,
        (a >= 0 && b < 0) || (a <= 0 && b > 0) ==> trunc_div(a, b) <= 0,
{
    let big = magnitude(a);
    let small = magnitude(b);
    let q = big / small;
    lemma_fundamental_div_mod(big, small);
    lemma_mod_bound(big, small);
    lemma_div_pos_is_pos(big, small);
    assert(big == small * q + big % small);
    assert(small * q == q * small) by (nonlinear_arith);
    if b > 0 {
        if a >= 0 {
            assert(trunc_div(a, b) == q);
        } else {
            assert(trunc_div(a, b) == -q);
            assert((-q) * b == -(q * b)) by (nonlinear_arith);
        }
    } else {
        if a >= 0 {
            assert(trunc_div(a, b) == -q);
            assert((-q) * b == q * (-b)) by (nonlinear_arith);
        } else {
            assert(trunc_div(a, b) == q);
            assert(q * b == -(q * (-b))) by (nonlinear_arith);
        }
    }
}

/// The extended Euclidean algorithm on `a` and `b`: a common divisor `g` of
/// both that every common divisor divides, and coefficients `x` and `y`
/// with `a * x + b * y == g`. Quotients are rounded towards zero.
pub open spec fn bezout(a: int, b: int) -> (int, int, int)
    decreases magnitude(b),
    via bezout_decreases
{
    if b == 0 {
        (a, 1, 0)
    } else {
        let q = trunc_div(a, b);
        let inner = bezout(b, a - q * b);
        (inner.0, inner.2, inner.1 - q * inner.2)
    }
}

/// What is left of the division is smaller than the divisor.
#[via_fn]
proof fn bezout_decreases(a: int, b: int) {
    if b != 0 {
        lemma_trunc_div(a, b);
    }
}

/// The coefficients that the extended Euclidean algorithm finds combine `a`
/// and `b` to the divisor that it finds.
pub proof fn lemma_bezout_identity(a: int, b: int)
    ensures
        a * bezout(a, b).1 + b * bezout(a, b).2 == bezout(a, b).0,
    decreases magnitude(b),
{
    if b != 0 {
        lemma_trunc_div(a, b);
        let q = trunc_div(a, b);
        let r = a - q * b;
        lemma_bezout_identity(b, r);
        let inner = bezout(b, r);
        assert(a * inner.2 + b * (inner.1 - q * inner.2) == b * inner.1 + (a - q * b) * inner.2)
            by (nonlinear_arith);
    }
}

/// `n` is `k` times `d`.
pub open spec fn is_multiple(n: int, k: int, d: int) -> bool {
    n == k * d
}

/// `d` divides `n`.
pub open spec fn divides(d: int, n: int) -> bool {
    exists|k: int| #[trigger] is_multiple(n, k, d)
}

/// The divisor that the extended Euclidean algorithm finds divides both
/// numbers.
pub proof fn lemma_bezout_divides(a: int, b: int)
    ensures
        divides(bezout(a, b).0, a),
        divides(bezout(a, b).0, b),
    decreases magnitude(b),
{
    let g = bezout(a, b).0;
    if b == 0 {
        assert(is_multiple(a, 1, g));
        assert(is_multiple(b, 0, g));
    } else {
        lemma_trunc_div(a, b);
        let q = trunc_div(a, b);
        let r = a - q * b;
        lemma_bezout_divides(b, r);
        let kb = choose|k: int| #[trigger] is_multiple(b, k, g);
        let kr = choose|k: int| #[trigger] is_multiple(r, k, g);
        assert(a == (kr + q * kb) * g) by (nonlinear_arith)
            requires
                a - q * b == kr * g,
                b == kb * g,
        ;
        assert(is_multiple(a, kr + q * kb, g));
    }
}

/// Every common divisor of two numbers divides the divisor that the
/// extended Euclidean algorithm finds for them.
pub proof fn lemma_bezout_greatest(a: int, b: int, d: int)
    requires
        divides(d, a),
        divides(d, b),
    ensures
        divides(d, bezout(a, b).0),
{
    lemma_bezout_identity(a, b);
    let x = bezout(a, b).1;
    let y = bezout(a, b).2;
    let ka = choose|k: int| #[trigger] is_multiple(a, k, d);
    let kb = choose|k: int| #[trigger] is_multiple(b, k, d);
    assert((ka * d) * x + (kb * d) * y == (ka * x + kb * y) * d) by (nonlinear_arith);
    assert(is_multiple(bezout(a, b).0, ka * x + kb * y, d));
}

/// Two numbers that are both at least zero or both at most zero (`same`),
/// or else one at least and the other at most zero.
spec fn signs_agree(same: bool, p: int, q: int) -> bool {
    if same {
        (p >= 0 && q >= 0) || (p <= 0 && q <= 0)
    } else {
        (p >= 0 && q <= 0) || (p <= 0 && q >= 0)
    }
}

/// The size and the sign of a product.
proof fn lemma_product(p: int, q: int)
    ensures
        magnitude(p * q) == magnitude(p) * magnitude(q),
        (p >= 0 && q >= 0) || (p <= 0 && q <= 0) ==> p * q >= 0,
        (p >= 0 && q <= 0) || (p <= 0 && q >= 0) ==> p * q <= 0,
{
    if p >= 0 && q >= 0 {
        assert(p * q >= 0) by (nonlinear_arith)
            requires
                p >= 0,
                q >= 0,
        ;
    }
    if p <= 0 && q <= 0 {
        assert(p * q >= 0 && p * q == (-p) * (-q)) by (nonlinear_arith)
            requires
                p <= 0,
                q <= 0,
        ;
    }
    if p >= 0 && q <= 0 {
        assert(p * q <= 0 && -(p * q) == p * (-q)) by (nonlinear_arith)
            requires
                p >= 0,
                q <= 0,
        ;
    }
    if p <= 0 && q >= 0 {
        assert(p * q <= 0 && -(p * q) == (-p) * q) by (nonlinear_arith)
            requires
                p <= 0,
                q >= 0,
        ;
    }
}

/// One round of the algorithm on one pair of coefficients: the new
/// coefficient is no larger than the starting number it is bounded by, nor
/// is the product that it is computed from.
proof fn lemma_coefficient_step(same: bool, a: int, b: int, x: int, x1: int, limit: int)
    requires
        b != 0,
        signs_agree(same, a, b),
        signs_agree(!same, x, x1),
        magnitude(x1) * magnitude(a) + magnitude(x) * magnitude(b) == limit,
    ensures
        ({
            let q = trunc_div(a, b);
            let r = a - q * b;
            let next = x - q * x1;
            &&& signs_agree(same, b, r)
            &&& signs_agree(!same, x1, next)
            &&& magnitude(next) * magnitude(b) + magnitude(x1) * magnitude(r) == limit
            &&& magnitude(q * x1) <= limit
            &&& magnitude(next) <= limit
            &&& magnitude(q * b) <= magnitude(a)
        }),
{
    lemma_trunc_div(a, b);
    let q = trunc_div(a, b);
    let r = a - q * b;
    let next = x - q * x1;
    let mq = magnitude(q);
    let mx = magnitude(x);
    let mx1 = magnitude(x1);
    let ma = magnitude(a);
    let mb = magnitude(b);
    let mr = magnitude(r);
    lemma_product(q, x1);
    lemma_product(q, b);
    assert(same ==> q >= 0);
    assert(!same ==> q <= 0);
    assert(magnitude(next) == mx + mq * mx1);
    assert((mx + mq * mx1) * mb + mx1 * mr == mx1 * ma + mx * mb) by (nonlinear_arith)
        requires
            mq * mb + mr == ma,
    ;
    assert(mx + mq * mx1 <= (mx + mq * mx1) * mb) by (nonlinear_arith)
        requires
            mb >= 1,
            mx + mq * mx1 >= 0,
    ;
    assert(mx1 * mr >= 0) by (nonlinear_arith)
        requires
            mx1 >= 0,
            mr >= 0,
    ;
}

/// What the division of one machine integer by another gives: the quotient
/// rounded towards zero.
proof fn lemma_machine_division(a: int, b: int)
    requires
        b != 0,
    ensures
        a >= 0 ==> a / b == trunc_div(a, b),
        a < 0 ==> -((-a) / b) == trunc_div(a, b),
        magnitude(trunc_div(a, b)) <= magnitude(a),
{
    if b < 0 {
        assert(a / b == -(a / (-b))) by (nonlinear_arith)
            requires
                b < 0,
        ;
        assert((-a) / b == -((-a) / (-b))) by (nonlinear_arith)
            requires
                b < 0,
        ;
    }
    lemma_trunc_div(a, b);
    lemma_product(trunc_div(a, b), b);
    let mq = magnitude(trunc_div(a, b));
    let mb = magnitude(b);
    assert(mq <= mq * mb) by (nonlinear_arith)
        requires
            mq >= 0,
            mb >= 1,
    ;
}

/// The extended Euclidean algorithm: a divisor `g` of `a` and `b` that
/// every common divisor divides, with coefficients `x` and `y` such that
/// `a * x + b * y == g`, as the triple `(g, x, y)`.
pub fn ext_gcd(a: i64, b: i64) -> (found: (i64, i64, i64))
    requires
        a > i64::MIN,
        b > i64::MIN,
    ensures
        (found.0 as int, found.1 as int, found.2 as int) == bezout(a as int, b as int),
        magnitude(found.1 as int) <= magnitude(b as int) || found.1 == 1,
        magnitude(found.2 as int) <= magnitude(a as int) || found.2 == 1,
{
    let ghost first_a = a as int;
    let ghost first_b = b as int;
    let ghost same = (a >= 0 && b >= 0) || (a <= 0 && b <= 0);
    let mut a = a;
    let mut b = b;
    let mut x: i64 = 1;
    let mut y: i64 = 0;
    let mut x1: i64 = 0;
    let mut y1: i64 = 1;
    assert(magnitude(0) * magnitude(first_a) + magnitude(1) * magnitude(first_b) == magnitude(
        first_b,
    )) by (nonlinear_arith);
    assert(magnitude(1) * magnitude(first_a) + magnitude(0) * magnitude(first_b) == magnitude(
        first_a,
    )) by (nonlinear_arith);
    assert(bezout(first_a, first_b).1 == bezout(first_a, first_b).1 * 1 + bezout(first_a, first_b).2 * 0);
    assert(bezout(first_a, first_b).2 == bezout(first_a, first_b).1 * 0 + bezout(first_a, first_b).2 * 1);
    while b != 0
        invariant
            i64::MIN < first_a <= i64::MAX,
            i64::MIN < first_b <= i64::MAX,
            a > i64::MIN,
            b > i64::MIN,
            signs_agree(same, a as int, b as int),
            signs_agree(!same, x as int, x1 as int),
            signs_agree(!same, y as int, y1 as int),
            magnitude(x1 as int) <= magnitude(first_b),
            magnitude(y1 as int) <= magnitude(first_a) || (y1 == 1 && b == first_b),
            magnitude(x as int) <= magnitude(first_b) || x == 1,
            magnitude(y as int) <= magnitude(first_a) || y == 1,
            magnitude(x1 as int) * magnitude(a as int) + magnitude(x as int) * magnitude(b as int)
                == magnitude(first_b),
            magnitude(y1 as int) * magnitude(a as int) + magnitude(y as int) * magnitude(b as int)
                == magnitude(first_a),
            bezout(first_a, first_b).0 == bezout(a as int, b as int).0,
            bezout(first_a, first_b).1 == bezout(a as int, b as int).1 * x + bezout(
                a as int,
                b as int,
            ).2 * x1,
            bezout(first_a, first_b).2 == bezout(a as int, b as int).1 * y + bezout(
                a as int,
                b as int,
            ).2 * y1,
        decreases magnitude(b as int),
    {
        proof {
            lemma_trunc_div(a as int, b as int);
            lemma_machine_division(a as int, b as int);
            lemma_product(trunc_div(a as int, b as int), b as int);
            lemma_coefficient_step(
                same,
                a as int,
                b as int,
                x as int,
                x1 as int,
                magnitude(first_b),
            );
            lemma_coefficient_step(
                same,
                a as int,
                b as int,
                y as int,
                y1 as int,
                magnitude(first_a),
            );
        }
        let t = a / b;
        assert(t == trunc_div(a as int, b as int));
        let ghost inner = bezout(b as int, a - t * b);
        proof {
            let outer = bezout(a as int, b as int);
            assert(outer.1 == inner.2);
            assert(outer.2 == inner.1 - t * inner.2);
            assert(inner.2 * x + (inner.1 - t * inner.2) * x1 == inner.1 * x1 + inner.2 * (x - t
                * x1)) by (nonlinear_arith);
            assert(inner.2 * y + (inner.1 - t * inner.2) * y1 == inner.1 * y1 + inner.2 * (y - t
                * y1)) by (nonlinear_arith);
        }
        let next_x = x - t * x1;
        let next_y = y - t * y1;
        let next_b = a - t * b;
        x = x1;
        x1 = next_x;
        y = y1;
        y1 = next_y;
        a = b;
        b = next_b;
    }
    proof {
        let all = bezout(first_a, first_b);
        let last = bezout(a as int, b as int);
        assert(last == (a as int, 1int, 0int));
        assert(last.1 * x + last.2 * x1 == x) by (nonlinear_arith)
            requires
                last.1 == 1,
                last.2 == 0,
        ;
        assert(last.1 * y + last.2 * y1 == y) by (nonlinear_arith)
            requires
                last.1 == 1,
                last.2 == 0,
        ;
        assert(all == (all.0, all.1, all.2));
    }
    (a, x, y)
}

/// What rounding towards zero leaves of `a` divided by `b`.
pub open spec fn trunc_rem(a: int, b: int) -> int {
    a - trunc_div(a, b) * b
}

/// What the remainder of one machine integer by another gives: what
/// rounding the quotient towards zero leaves.
proof fn lemma_machine_remainder(a: int, b: int)
    requires
        b != 0,
    ensures
        a >= 0 ==> a % b == trunc_rem(a, b),
        a < 0 ==> -((-a) % b) == trunc_rem(a, b),
{
    let size = magnitude(b);
    if b < 0 {
        assert(a / b == -(a / (-b)) && a % b == a % (-b)) by (nonlinear_arith)
            requires
                b < 0,
        ;
        assert((-a) / b == -((-a) / (-b)) && (-a) % b == (-a) % (-b)) by (nonlinear_arith)
            requires
                b < 0,
        ;
    }
    lemma_fundamental_div_mod(a, size);
    lemma_fundamental_div_mod(-a, size);
    let q = trunc_div(a, b);
    if a >= 0 {
        assert(q * b == size * (a / size)) by (nonlinear_arith)
            requires
                (b > 0 && q == a / size && size == b) || (b < 0 && q == -(a / size) && size == -b),
        ;
    } else {
        assert(q * b == -(size * ((-a) / size))) by (nonlinear_arith)
            requires
                (b > 0 && q == -((-a) / size) && size == b) || (b < 0 && q == (-a) / size && size
                    == -b),
        ;
    }
}

/// A divisor of two numbers divides every combination of them.
proof fn lemma_divides_combination(d: int, u: int, s: int, v: int, t: int)
    requires
        divides(d, u),
        divides(d, v),
    ensures
        divides(d, u * s + v * t),
{
    let ku = choose|k: int| #[trigger] is_multiple(u, k, d);
    let kv = choose|k: int| #[trigger] is_multiple(v, k, d);
    assert(u * s + v * t == (ku * s + kv * t) * d) by (nonlinear_arith)
        requires
            u == ku * d,
            v == kv * d,
    ;
    assert(is_multiple(u * s + v * t, ku * s + kv * t, d));
}

/// Rounding towards zero leaves nothing exactly when the divisor divides.
proof fn lemma_exact_division(n: int, d: int)
    requires
        d != 0,
    ensures
        divides(d, n) <==> trunc_rem(n, d) == 0,
        divides(d, n) ==> n == trunc_div(n, d) * d,
{
    lemma_trunc_div(n, d);
    let q = trunc_div(n, d);
    if trunc_rem(n, d) == 0 {
        assert(is_multiple(n, q, d));
    }
    if divides(d, n) {
        let k = choose|k: int| #[trigger] is_multiple(n, k, d);
        lemma_product(k - q, d);
        assert((k - q) * d == n - q * d) by (nonlinear_arith)
            requires
                n == k * d,
        ;
        assert(k == q) by (nonlinear_arith)
            requires
                magnitude(k - q) * magnitude(d) < magnitude(d),
                magnitude(k - q) >= 0,
        ;
    }
}

/// On a positive number and one that is not negative the extended Euclidean
/// algorithm finds a positive divisor.
proof fn lemma_bezout_positive(a: int, b: int)
    requires
        a > 0,
        b >= 0,
    ensures
        bezout(a, b).0 > 0,
    decreases magnitude(b),
{
    if b != 0 {
        lemma_trunc_div(a, b);
        lemma_bezout_positive(b, a - trunc_div(a, b) * b);
    }
}

/// `c` leaves the same remainder as `a` when divided by `m`, and the same
/// as `b` when divided by `n`.
pub open spec fn solves_both(c: int, a: int, m: int, b: int, n: int) -> bool {
    divides(m, c - a) && divides(n, c - b)
}

/// `l` is the least common multiple of `m` and `n`: a positive multiple of
/// both that divides every number that both divide.
pub open spec fn is_least_common_multiple(l: int, m: int, n: int) -> bool {
    &&& l > 0
    &&& divides(m, l)
    &&& divides(n, l)
    &&& forall|k: int| divides(m, k) && divides(n, k) ==> #[trigger] divides(l, k)
}

/// From zero up to the least common multiple of the two divisors, no two
/// numbers leave the same pair of remainders.
pub proof fn lemma_solution_unique(first: int, second: int, a: int, m: int, b: int, n: int, l: int)
    requires
        is_least_common_multiple(l, m, n),
        solves_both(first, a, m, b, n),
        solves_both(second, a, m, b, n),
        0 <= first < l,
        0 <= second < l,
    ensures
        first == second,
{
    lemma_divides_combination(m, first - a, 1, second - a, -1);
    lemma_divides_combination(n, first - b, 1, second - b, -1);
    assert((first - a) * 1 + (second - a) * (-1) == first - second) by (nonlinear_arith);
    assert((first - b) * 1 + (second - b) * (-1) == first - second) by (nonlinear_arith);
    assert(divides(l, first - second));
    let k = choose|k: int| #[trigger] is_multiple(first - second, k, l);
    assert(k == 0) by (nonlinear_arith)
        requires
            first - second == k * l,
            -l < first - second < l,
    ;
}

/// With `g == m * x + n * y` a common divisor of `m` and `n`, the number
/// `m / g * n` divides everything that `m` and `n` both divide.
proof fn lemma_least_common_multiple(m: int, n: int, g: int, x: int, y: int, over: int, l: int)
    requires
        m > 0,
        n > 0,
        g > 0,
        g == m * x + n * y,
        m == over * g,
        l == over * n,
        divides(g, n),
    ensures
        is_least_common_multiple(l, m, n),
{
    let under = choose|k: int| #[trigger] is_multiple(n, k, g);
    assert(over > 0) by (nonlinear_arith)
        requires
            m == over * g,
            m > 0,
            g > 0,
    ;
    assert(l > 0) by (nonlinear_arith)
        requires
            l == over * n,
            over > 0,
            n > 0,
    ;
    assert(l == under * m) by (nonlinear_arith)
        requires
            l == over * n,
            n == under * g,
            m == over * g,
    ;
    assert(is_multiple(l, under, m));
    assert(is_multiple(l, over, n));
    assert forall|k: int| divides(m, k) && divides(n, k) implies #[trigger] divides(l, k) by {
        let s = choose|s: int| #[trigger] is_multiple(k, s, m);
        let t = choose|t: int| #[trigger] is_multiple(k, t, n);
        let both = m * n;
        assert(k * (m * x) == (t * x) * both) by (nonlinear_arith)
            requires
                k == t * n,
                both == m * n,
        ;
        assert(k * (n * y) == (s * y) * both) by (nonlinear_arith)
            requires
                k == s * m,
                both == m * n,
        ;
        assert(k * g == k * (m * x) + k * (n * y)) by (nonlinear_arith)
            requires
                g == m * x + n * y,
        ;
        assert(l * g == both) by (nonlinear_arith)
            requires
                m == over * g,
                l == over * n,
                both == m * n,
        ;
        assert(k * g == ((t * x + s * y) * l) * g) by (nonlinear_arith)
            requires
                k * g == (t * x) * both + (s * y) * both,
                l * g == both,
        ;
        assert(k == (t * x + s * y) * l) by (nonlinear_arith)
            requires
                k * g == ((t * x + s * y) * l) * g,
                g > 0,
        ;
        assert(is_multiple(k, t * x + s * y, l));
    }
}

/// The least number from zero on that leaves the same remainder as `a` when
/// divided by `m` and the same as `b` when divided by `n`, together with
/// the least common multiple of `m` and `n`, or `None` where no number
/// leaves both.
pub fn solve_crt(a: i64, m: i64, b: i64, n: i64) -> (found: Option<(i64, i64)>)
    requires
        m > 0,
        n > 0,
        m * n + m + n <= i64::MAX,
    ensures
        match found {
            Some((c, l)) => {
                &&& 0 <= c < l
                &&& solves_both(c as int, a as int, m as int, b as int, n as int)
                &&& is_least_common_multiple(l as int, m as int, n as int)
            },
            None => forall|c: int| !solves_both(c, a as int, m as int, b as int, n as int),
        },
    decreases
            (if n > m {
                1int
            } else {
                0int
            }),
{
    if n > m {
        let swapped = solve_crt(b, n, a, m);
        proof {
            assert(m * n == n * m) by (nonlinear_arith);
            if let Some((c, l)) = swapped {
                assert(is_least_common_multiple(l as int, m as int, n as int));
            } else {
                assert forall|c: int| !solves_both(c, a as int, m as int, b as int, n as int) by {
                    assert(!solves_both(c, b as int, n as int, a as int, m as int));
                }
            }
        }
        return swapped;
    }
    proof {
        assert(n * n <= m * n) by (nonlinear_arith)
            requires
                0 < n <= m,
        ;
        lemma_trunc_div(a as int, m as int);
        lemma_trunc_div(b as int, n as int);
        lemma_machine_remainder(a as int, m as int);
        lemma_machine_remainder(b as int, n as int);
    }
    let start = a % m;
    let other = b % n;
    let (g, x, _) = ext_gcd(m, n);
    let ghost y = bezout(m as int, n as int).2;
    proof {
        lemma_bezout_identity(m as int, n as int);
        lemma_bezout_divides(m as int, n as int);
        lemma_bezout_positive(m as int, n as int);
        assert(is_multiple(a - start, trunc_div(a as int, m as int), m as int));
        assert(is_multiple(b - other, trunc_div(b as int, n as int), n as int));
        lemma_exact_division(other - start, g as int);
        lemma_machine_remainder(other - start, g as int);
        lemma_exact_division(m as int, g as int);
        lemma_machine_division(m as int, g as int);
    }
    let gap = other - start;
    if gap % g != 0 {
        proof {
            assert forall|c: int| !solves_both(c, a as int, m as int, b as int, n as int) by {
                if solves_both(c, a as int, m as int, b as int, n as int) {
                    // the gap is (c - a) - (c - b) and what the two remainders took away
                    lemma_divides_combination(m as int, c - a, 1, a - start, 1);
                    lemma_divides_combination(n as int, c - b, 1, b - other, 1);
                    assert((c - a) * 1 + (a - start) * 1 == c - start) by (nonlinear_arith);
                    assert((c - b) * 1 + (b - other) * 1 == c - other) by (nonlinear_arith);
                    let s = choose|s: int| #[trigger] is_multiple(c - start, s, m as int);
                    let t = choose|t: int| #[trigger] is_multiple(c - other, t, n as int);
                    lemma_divides_combination(g as int, m as int, s, n as int, -t);
                    assert(m * s + n * (-t) == gap) by (nonlinear_arith)
                        requires
                            c - start == s * m,
                            c - other == t * n,
                            gap == other - start,
                    ;
                }
            }
        }
        return None;
    }
    let over = m / g;
    proof {
        assert(over == trunc_div(m as int, g as int));
        assert(m == over * g);
        assert(1 <= over <= m) by (nonlinear_arith)
            requires
                m == over * g,
                m > 0,
                g > 0,
        ;
        assert(over * n <= m * n) by (nonlinear_arith)
            requires
                1 <= over <= m,
                n > 0,
        ;
    }
    let l = over * n;
    proof {
        lemma_least_common_multiple(
            m as int,
            n as int,
            g as int,
            x as int,
            y,
            over as int,
            l as int,
        );
        lemma_trunc_div(gap as int, n as int);
        lemma_machine_remainder(gap as int, n as int);
    }
    let reduced = gap % n;
    proof {
        lemma_product(reduced as int, x as int);
        assert(magnitude(reduced as int) * magnitude(x as int) <= n * n) by (nonlinear_arith)
            requires
                0 <= magnitude(reduced as int) < n,
                0 <= magnitude(x as int) <= n,
        ;
        lemma_trunc_div(reduced * x, n as int);
        lemma_machine_remainder(reduced * x, n as int);
    }
    let turned = reduced * x % n;
    proof {
        // `turned` is the gap times `x`, up to a multiple of `n`
        let q1 = trunc_div(gap as int, n as int);
        let q2 = trunc_div(reduced * x, n as int);
        assert(turned == gap * x - (q1 * x + q2) * n) by (nonlinear_arith)
            requires
                reduced == gap - q1 * n,
                turned == reduced * x - q2 * n,
        ;
        lemma_divides_combination(g as int, gap as int, x as int, n as int, -(q1 * x + q2));
        assert(gap * x + n * (-(q1 * x + q2)) == turned) by (nonlinear_arith)
            requires
                turned == gap * x - (q1 * x + q2) * n,
        ;
        lemma_exact_division(turned as int, g as int);
        lemma_machine_division(turned as int, g as int);
        lemma_trunc_div(turned as int, g as int);
    }
    let times = turned / g;
    proof {
        assert(times == trunc_div(turned as int, g as int));
        assert(turned == times * g);
        lemma_product(times as int, g as int);
        // at most `n / g - 1` times, so the product with `m` stays below `l - m`
        let under = choose|k: int| #[trigger] is_multiple(n as int, k, g as int);
        assert(magnitude(times as int) < under) by (nonlinear_arith)
            requires
                magnitude(times as int) * g < n,
                n == under * g,
                g > 0,
        ;
        assert(l == under * m) by (nonlinear_arith)
            requires
                l == over * n,
                n == under * g,
                m == over * g,
        ;
        lemma_product(times as int, m as int);
        assert(magnitude(times as int) * m <= l - m) by (nonlinear_arith)
            requires
                0 <= magnitude(times as int) < under,
                l == under * m,
                m > 0,
        ;
    }
    let z = times * m + start;
    let c = if z < 0 {
        z + l
    } else {
        z
    };
    proof {
        let q1 = trunc_div(gap as int, n as int);
        let q2 = trunc_div(reduced * x, n as int);
        let under = choose|k: int| #[trigger] is_multiple(n as int, k, g as int);
        let whole = choose|k: int| #[trigger] is_multiple(gap as int, k, g as int);
        let qa = trunc_div(a as int, m as int);
        let qb = trunc_div(b as int, n as int);
        let carry = q1 * x + q2;
        // c - a is a multiple of m
        let lift_m = if z < 0 {
            under
        } else {
            0
        };
        assert(c - a == times * m - qa * m + lift_m * m);
        assert(c - a == (times - qa + lift_m) * m) by (nonlinear_arith)
            requires
                c - a == times * m - qa * m + lift_m * m,
        ;
        assert(is_multiple(c - a, times - qa + lift_m, m as int));
        // times * m is the gap, up to a multiple of n
        assert(times * m * g == turned * m) by (nonlinear_arith)
            requires
                turned == times * g,
        ;
        assert(turned * m == gap * (x * m) - carry * (n * m)) by (nonlinear_arith)
            requires
                turned == gap * x - carry * n,
        ;
        assert(x * m == g - n * y) by (nonlinear_arith)
            requires
                g == m * x + n * y,
        ;
        assert(gap * (x * m) == gap * g - gap * (n * y)) by (nonlinear_arith)
            requires
                x * m == g - n * y,
        ;
        assert(gap * (n * y) == (whole * y * n) * g) by (nonlinear_arith)
            requires
                gap == whole * g,
        ;
        assert(carry * (n * m) == (carry * over * n) * g) by (nonlinear_arith)
            requires
                m == over * g,
        ;
        let wraps = -(whole * y) - carry * over;
        assert((gap + wraps * n) * g == gap * g - (whole * y * n) * g - (carry * over * n) * g)
            by (nonlinear_arith)
            requires
                wraps == -(whole * y) - carry * over,
        ;
        assert(times * m == gap + wraps * n) by (nonlinear_arith)
            requires
                (times * m) * g == (gap + wraps * n) * g,
                g > 0,
        ;
        let lift_n = if z < 0 {
            over as int
        } else {
            0
        };
        assert(c - b == wraps * n - qb * n + lift_n * n);
        assert(c - b == (wraps - qb + lift_n) * n) by (nonlinear_arith)
            requires
                c - b == wraps * n - qb * n + lift_n * n,
        ;
        assert(is_multiple(c - b, wraps - qb + lift_n, n as int));
    }
    Some((c, l))
}

} // verus!
