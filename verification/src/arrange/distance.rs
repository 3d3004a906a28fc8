//! Exact comparison of distances on the integer grid.

use vstd::prelude::*;

verus! {

/// `sqrt(a) + k < sqrt(b)`, for nonnegative `a` and `b`, without the roots: one side is
/// squared at a time, after moving what may be negative to where the sign is known.
pub open spec fn shorter_by(a: int, b: int, k: int) -> bool {
    if k >= 0 {
        let rest = b - a - k * k;
        rest > 0 && (2 * k) * (2 * k) * a < rest * rest
    } else {
        let rest = a - b - k * k;
        rest < 0 || rest * rest < (2 * k) * (2 * k) * b
    }
}

/// Squared distances that [`shorter`] compares stay below this.
pub const SQUARE_REACH: i128 = 0x4000_0000_0000_0000_0000;

/// `d * d - c * c * a`, cut down to its sign.
fn square_excess(d: i128, c: i128, a: i128) -> (r: (bool, bool))
    requires
        0 <= d <= 0x1_0000_0000_0000_0000_0000_0000,
        1 <= c <= 0x200_0000_0000,
        0 <= a < SQUARE_REACH,
    ensures
        r.0 == (d * d > c * c * a),
        r.1 == (d * d == c * c * a),
{
    let q: i128 = d / c;
    let r: i128 = d % c;
    assert(d == c * q + r && 0 <= r < c && 0 <= q) by (nonlinear_arith)
        requires
            c >= 1,
            d >= 0,
            q == d / c,
            r == d % c,
    ;
    if q >= 0x80_0000_0000 {
        assert(d * d > c * c * a) by (nonlinear_arith)
            requires
                d == c * q + r,
                0 <= r,
                c >= 1,
                q >= 0x80_0000_0000,
                0 <= a < 0x4000_0000_0000_0000_0000,
        {
            assert(q * q >= 0x80_0000_0000 * 0x80_0000_0000);
            assert(q * q > a);
            assert(c * c >= 1);
            assert(c * c * (q * q) > c * c * a);
            assert(d * d >= (c * q) * (c * q));
            assert((c * q) * (c * q) == c * c * (q * q));
        }
        return (true, false);
    }
    assert(0 <= q * q <= 0x80_0000_0000 * 0x80_0000_0000) by (nonlinear_arith)
        requires
            0 <= q < 0x80_0000_0000,
    ;
    if q * q > a {
        assert(d * d > c * c * a) by (nonlinear_arith)
            requires
                d == c * q + r,
                0 <= r,
                0 <= q,
                c >= 1,
                q * q > a,
        {
            assert(c * c >= 1);
            assert(c * c * (q * q) > c * c * a);
            assert(d * d >= (c * q) * (c * q));
            assert((c * q) * (c * q) == c * c * (q * q));
        }
        return (true, false);
    }
    let next: i128 = q + 1;
    assert(0 <= next * next <= 0x80_0000_0000 * 0x80_0000_0000) by (nonlinear_arith)
        requires
            0 <= next <= 0x80_0000_0000,
    ;
    if next * next <= a {
        assert(d * d < c * c * a) by (nonlinear_arith)
            requires
                d == c * q + r,
                0 <= r < c,
                0 <= q,
                c >= 1,
                next == q + 1,
                next * next <= a,
        {
            assert(c * next == c * q + c);
            assert(0 <= d < c * next);
            assert(d * d < (c * next) * (c * next));
            assert((c * next) * (c * next) == c * c * (next * next));
            assert(c * c >= 1);
            assert(c * c * (next * next) <= c * c * a);
        }
        return (false, false);
    }
    let short: i128 = a - q * q;
    assert(0 <= short <= 0x100_0000_0000) by (nonlinear_arith)
        requires
            next == q + 1,
            next * next > a,
            q * q <= a,
            short == a - q * q,
            0 <= q < 0x80_0000_0000,
    ;
    assert(0 <= c * c <= 0x4_0000_0000_0000_0000_0000) by (nonlinear_arith)
        requires
            1 <= c <= 0x200_0000_0000,
    ;
    let cc: i128 = c * c;
    assert(0 <= cc * short <= 0x4_0000_0000_0000_0000_0000 * 0x100_0000_0000) by (nonlinear_arith)
        requires
            0 <= cc <= 0x4_0000_0000_0000_0000_0000,
            0 <= short <= 0x100_0000_0000,
    ;
    assert(0 <= q * r <= 0x80_0000_0000 * 0x200_0000_0000) by (nonlinear_arith)
        requires
            0 <= q < 0x80_0000_0000,
            0 <= r < 0x200_0000_0000,
    ;
    let qr: i128 = q * r;
    assert(0 <= c * qr <= 0x200_0000_0000 * 0x1_0000_0000_0000_0000_0000) by (nonlinear_arith)
        requires
            0 <= qr <= 0x80_0000_0000 * 0x200_0000_0000,
            1 <= c <= 0x200_0000_0000,
    ;
    assert(0 <= r * r <= 0x4_0000_0000_0000_0000_0000) by (nonlinear_arith)
        requires
            0 <= r < 0x200_0000_0000,
    ;
    let left: i128 = 2 * (c * qr) + r * r;
    let right: i128 = cc * short;
    assert(d * d - c * c * a == left - right) by (nonlinear_arith)
        requires
            d == c * q + r,
            cc == c * c,
            qr == q * r,
            short == a - q * q,
            left == 2 * (c * qr) + r * r,
            right == cc * short,
    {
        assert(d * d == (c * q) * (c * q) + 2 * ((c * q) * r) + r * r);
        assert((c * q) * (c * q) == cc * (q * q));
        assert((c * q) * r == c * qr);
        assert(cc * short == cc * a - cc * (q * q));
    }
    (left > right, left == right)
}

/// Whether the distance whose square is `a`, made longer by `k`, is shorter than the
/// distance whose square is `b`.
pub fn shorter(a: i128, b: i128, k: i64) -> (r: bool)
    requires
        0 <= a < SQUARE_REACH,
        0 <= b < SQUARE_REACH,
        -0x100_0000_0000 <= k <= 0x100_0000_0000,
    ensures
        r == shorter_by(a as int, b as int, k as int),
{
    let wide: i128 = k as i128;
    assert(0 <= k * k <= 0x1_0000_0000_0000_0000_0000) by (nonlinear_arith)
        requires
            -0x100_0000_0000 <= k <= 0x100_0000_0000,
    ;
    let square: i128 = wide * wide;
    if k >= 0 {
        let rest: i128 = b - a - square;
        if rest <= 0 {
            return false;
        }
        if k == 0 {
            assert((2 * k) * (2 * k) * a == 0) by (nonlinear_arith)
                requires
                    k == 0,
            ;
            assert(rest * rest > 0) by (nonlinear_arith)
                requires
                    rest > 0,
            ;
            return true;
        }
        square_excess(rest, 2 * wide, a).0
    } else {
        let rest: i128 = a - b - square;
        if rest < 0 {
            return true;
        }
        let double: i128 = -(2 * wide);
        assert(double * double * b == (2 * k) * (2 * k) * b) by (nonlinear_arith)
            requires
                double == -(2 * k),
        ;
        let (more, same) = square_excess(rest, double, b);
        !more && !same
    }
}

/// Distances themselves compare as their squares do.
pub proof fn shorter_by_nothing_compares_squares(a: int, b: int)
    requires
        0 <= a,
        0 <= b,
    ensures
        shorter_by(a, b, 0) == (a < b),
{
    let k: int = 0;
    let rest = b - a - k * k;
    assert(k * k == 0 && (2 * k) * (2 * k) * a == 0) by (nonlinear_arith)
        requires
            k == 0,
    ;
    if rest > 0 {
        assert(rest * rest > 0) by (nonlinear_arith)
            requires
                rest > 0,
        ;
    }
    assert(shorter_by(a, b, k) == (a < b));
}

} // verus!
