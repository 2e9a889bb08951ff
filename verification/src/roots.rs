//! Inequalities between whole numbers and multiples of square roots, stated
//! and proved without ever taking a root: `u <= a * sqrt(x)` is read as
//! `u <= 0` or `u * u <= a * a * x`.

use vstd::prelude::*;

verus! {

/// `u <= a * sqrt(x)`, for `a` and `x` that are not negative.
pub open spec fn at_most_root(u: int, a: int, x: int) -> bool {
    u <= 0 || u * u <= a * a * x
}

/// `u >= a * sqrt(x)`, for `a` and `x` that are not negative.
pub open spec fn at_least_root(u: int, a: int, x: int) -> bool {
    u >= 0 && u * u >= a * a * x
}

/// `sqrt(s) <= delta + sqrt(t)`, for `s` and `t` that are not negative.
pub open spec fn root_within(s: int, delta: int, t: int) -> bool {
    if delta >= 0 {
        at_most_root(s - delta * delta - t, 2 * delta, t)
    } else {
        at_least_root(t - delta * delta - s, -2 * delta, s)
    }
}

proof fn lemma_squares_order(a: int, b: int)
    requires
        0 <= a,
        0 <= b,
    ensures
        a <= b <==> a * a <= b * b,
        a < b <==> a * a < b * b,
{
    if a < b {
        assert(a * a < b * b) by (nonlinear_arith)
            requires
                0 <= a < b,
        ;
    } else if a > b {
        assert(b * b < a * a) by (nonlinear_arith)
            requires
                0 <= b < a,
        ;
    }
}

/// From `u*u <= a*a*x` and `v*v <= b*b*x` follows `u*v <= a*b*x`.
proof fn lemma_cross_below(u: int, v: int, a: int, b: int, x: int)
    requires
        u >= 0,
        v >= 0,
        a >= 0,
        b >= 0,
        x >= 0,
        u * u <= a * a * x,
        v * v <= b * b * x,
    ensures
        u * v <= a * b * x,
{
    let l = u * v;
    let r = a * b * x;
    assert(l >= 0) by (nonlinear_arith)
        requires
            l == u * v,
            u >= 0,
            v >= 0,
    ;
    assert(r >= 0) by (nonlinear_arith)
        requires
            r == a * b * x,
            a >= 0,
            b >= 0,
            x >= 0,
    ;
    assert(l * l == (u * u) * (v * v)) by (nonlinear_arith)
        requires
            l == u * v,
    ;
    assert(r * r == (a * a * x) * (b * b * x)) by (nonlinear_arith)
        requires
            r == a * b * x,
    ;
    let uu = u * u;
    let vv = v * v;
    let aa = a * a * x;
    let bb = b * b * x;
    assert(uu >= 0 && vv >= 0) by (nonlinear_arith)
        requires
            uu == u * u,
            vv == v * v,
    ;
    assert(uu * vv <= aa * bb) by (nonlinear_arith)
        requires
            0 <= uu <= aa,
            0 <= vv <= bb,
    ;
    lemma_squares_order(l, r);
}

/// From `u*u >= a*a*x` and `v*v >= b*b*x` follows `u*v >= a*b*x`.
proof fn lemma_cross_above(u: int, v: int, a: int, b: int, x: int)
    requires
        u >= 0,
        v >= 0,
        a >= 0,
        b >= 0,
        x >= 0,
        u * u >= a * a * x,
        v * v >= b * b * x,
    ensures
        u * v >= a * b * x,
{
    let l = u * v;
    let r = a * b * x;
    assert(l >= 0) by (nonlinear_arith)
        requires
            l == u * v,
            u >= 0,
            v >= 0,
    ;
    assert(r >= 0) by (nonlinear_arith)
        requires
            r == a * b * x,
            a >= 0,
            b >= 0,
            x >= 0,
    ;
    assert(l * l == (u * u) * (v * v)) by (nonlinear_arith)
        requires
            l == u * v,
    ;
    assert(r * r == (a * a * x) * (b * b * x)) by (nonlinear_arith)
        requires
            r == a * b * x,
    ;
    let uu = u * u;
    let vv = v * v;
    let aa = a * a * x;
    let bb = b * b * x;
    assert(aa >= 0 && bb >= 0) by (nonlinear_arith)
        requires
            aa == a * a * x,
            bb == b * b * x,
            x >= 0,
    ;
    assert(uu * vv >= aa * bb) by (nonlinear_arith)
        requires
            0 <= aa <= uu,
            0 <= bb <= vv,
    ;
    lemma_squares_order(r, l);
}

/// `u <= a*sqrt(x)` and `v <= b*sqrt(x)` give `u + v <= (a + b)*sqrt(x)`.
pub proof fn lemma_add_at_most(u: int, a: int, v: int, b: int, x: int)
    requires
        a >= 0,
        b >= 0,
        x >= 0,
        at_most_root(u, a, x),
        at_most_root(v, b, x),
    ensures
        at_most_root(u + v, a + b, x),
{
    let w = u + v;
    if w > 0 {
        if u <= 0 {
            lemma_squares_order(w, v);
            assert((a + b) * (a + b) * x >= b * b * x) by (nonlinear_arith)
                requires
                    a >= 0,
                    b >= 0,
                    x >= 0,
            ;
        } else if v <= 0 {
            lemma_squares_order(w, u);
            assert((a + b) * (a + b) * x >= a * a * x) by (nonlinear_arith)
                requires
                    a >= 0,
                    b >= 0,
                    x >= 0,
            ;
        } else {
            lemma_cross_below(u, v, a, b, x);
            assert(w * w == u * u + 2 * (u * v) + v * v) by (nonlinear_arith)
                requires
                    w == u + v,
            ;
            assert((a + b) * (a + b) * x == a * a * x + 2 * (a * b * x) + b * b * x)
                by (nonlinear_arith);
        }
    }
}

/// `u >= a*sqrt(x)` and `v >= b*sqrt(x)` give `u + v >= (a + b)*sqrt(x)`.
pub proof fn lemma_add_at_least(u: int, a: int, v: int, b: int, x: int)
    requires
        a >= 0,
        b >= 0,
        x >= 0,
        at_least_root(u, a, x),
        at_least_root(v, b, x),
    ensures
        at_least_root(u + v, a + b, x),
{
    let w = u + v;
    lemma_cross_above(u, v, a, b, x);
    assert(w * w == u * u + 2 * (u * v) + v * v) by (nonlinear_arith)
        requires
            w == u + v,
    ;
    assert((a + b) * (a + b) * x == a * a * x + 2 * (a * b * x) + b * b * x) by (nonlinear_arith);
}

/// `u > a*sqrt(x)` and `v > b*sqrt(x)` give `u + v > (a + b)*sqrt(x)`.
pub proof fn lemma_add_above(u: int, a: int, v: int, b: int, x: int)
    requires
        a >= 0,
        b >= 0,
        x >= 0,
        !at_most_root(u, a, x),
        !at_most_root(v, b, x),
    ensures
        !at_most_root(u + v, a + b, x),
{
    let w = u + v;
    lemma_cross_above(u, v, a, b, x);
    assert(w * w == u * u + 2 * (u * v) + v * v) by (nonlinear_arith)
        requires
            w == u + v,
    ;
    assert((a + b) * (a + b) * x == a * a * x + 2 * (a * b * x) + b * b * x) by (nonlinear_arith);
}

/// `u < a*sqrt(x)` and `v < b*sqrt(x)` give `u + v < (a + b)*sqrt(x)`.
pub proof fn lemma_add_below(u: int, a: int, v: int, b: int, x: int)
    requires
        a >= 0,
        b >= 0,
        x >= 0,
        !at_least_root(u, a, x),
        !at_least_root(v, b, x),
    ensures
        !at_least_root(u + v, a + b, x),
{
    let w = u + v;
    assert(a * a * x >= 0 && b * b * x >= 0) by (nonlinear_arith)
        requires
            x >= 0,
    ;
    if w >= 0 {
        assert((a + b) * (a + b) * x == a * a * x + 2 * (a * b * x) + b * b * x)
            by (nonlinear_arith);
        assert(a * b * x >= 0) by (nonlinear_arith)
            requires
                a >= 0,
                b >= 0,
                x >= 0,
        ;
        if u < 0 {
            // then v > w >= 0 and v*v < b*b*x
            lemma_squares_order(w, v);
        } else if v < 0 {
            lemma_squares_order(w, u);
        } else {
            lemma_cross_below(u, v, a, b, x);
            assert(w * w == u * u + 2 * (u * v) + v * v) by (nonlinear_arith)
                requires
                    w == u + v,
            ;
        }
    }
}

/// `u <= a*sqrt(x)` and `v >= b*sqrt(x)` with `a >= b` give
/// `u - v <= (a - b)*sqrt(x)`.
pub proof fn lemma_subtract_at_most(u: int, a: int, v: int, b: int, x: int)
    requires
        a >= b,
        b >= 0,
        x >= 0,
        at_most_root(u, a, x),
        at_least_root(v, b, x),
    ensures
        at_most_root(u - v, a - b, x),
{
    let w = u - v;
    let c = a - b;
    if w > 0 && w * w > c * c * x {
        assert(c * c * x >= 0) by (nonlinear_arith)
            requires
                x >= 0,
        ;
        lemma_cross_above(w, v, c, b, x);
        assert(u * u == w * w + 2 * (w * v) + v * v) by (nonlinear_arith)
            requires
                u == w + v,
        ;
        assert(a * a * x == c * c * x + 2 * (c * b * x) + b * b * x) by (nonlinear_arith)
            requires
                a == c + b,
        ;
        assert(false);
    }
}

/// `u <= a*sqrt(x)` and `v >= b*sqrt(x)` with `a <= b` give
/// `v - u >= (b - a)*sqrt(x)`.
pub proof fn lemma_subtract_at_least(u: int, a: int, v: int, b: int, x: int)
    requires
        0 <= a <= b,
        x >= 0,
        at_most_root(u, a, x),
        at_least_root(v, b, x),
    ensures
        at_least_root(v - u, b - a, x),
{
    let z = v - u;
    let c = b - a;
    assert(b * b * x == c * c * x + 2 * (c * a * x) + a * a * x) by (nonlinear_arith)
        requires
            b == c + a,
    ;
    assert(c * a * x >= 0 && c * c * x >= 0 && a * a * x >= 0) by (nonlinear_arith)
        requires
            c >= 0,
            a >= 0,
            x >= 0,
    ;
    if u <= 0 {
        lemma_squares_order(v, z);
    } else {
        lemma_squares_order(u, v);
        if z * z < c * c * x {
            lemma_cross_below(z, u, c, a, x);
            assert(v * v == z * z + 2 * (z * u) + u * u) by (nonlinear_arith)
                requires
                    v == z + u,
            ;
            assert(false);
        }
    }
}

/// `u <= a*sqrt(x)` and `sqrt(x) <= delta + sqrt(y)` give
/// `u - a*delta <= a*sqrt(y)`.
pub proof fn lemma_carry_at_most(u: int, a: int, x: int, delta: int, y: int)
    requires
        a >= 0,
        x >= 0,
        y >= 0,
        at_most_root(u, a, x),
        root_within(x, delta, y),
    ensures
        at_most_root(u - a * delta, a, y),
{
    let w = u - a * delta;
    if w > 0 && w * w > a * a * y {
        if a == 0 {
            assert(a * delta == 0) by (nonlinear_arith)
                requires
                    a == 0,
            ;
            assert(a * a * x == 0) by (nonlinear_arith)
                requires
                    a == 0,
            ;
            if u > 0 {
                assert(u * u > 0) by (nonlinear_arith)
                    requires
                        u > 0,
                ;
            }
            assert(false);
        }
        assert(a * a * y >= 0) by (nonlinear_arith)
            requires
                y >= 0,
        ;
        if delta >= 0 {
            let r = x - delta * delta - y;
            let m = 2 * delta;
            assert(a * delta >= 0) by (nonlinear_arith)
                requires
                    a >= 0,
                    delta >= 0,
            ;
            assert(u > 0);
            assert(u * u == w * w + m * (a * w) + a * a * (delta * delta)) by (nonlinear_arith)
                requires
                    u == w + a * delta,
                    m == 2 * delta,
            ;
            assert(a * a * x == a * a * r + a * a * (delta * delta) + a * a * y)
                by (nonlinear_arith)
                requires
                    r == x - delta * delta - y,
            ;
            assert(a * a * r == a * (a * r)) by (nonlinear_arith);
            assert(m * (a * w) < a * (a * r));
            assert(m * w < a * r) by (nonlinear_arith)
                requires
                    m * (a * w) < a * (a * r),
                    a > 0,
            ;
            assert(m * w >= 0) by (nonlinear_arith)
                requires
                    m >= 0,
                    w >= 0,
            ;
            assert(r > 0) by (nonlinear_arith)
                requires
                    a * r > 0,
                    a > 0,
            ;
            assert(r * r <= m * m * y);
            // (a r)^2 <= (m w)^2
            lemma_cross_below_squares(a, r, m, w, y);
            lemma_squares_order(a * r, m * w);
            assert(false);
        } else {
            let e = -delta;
            let r = y - e * e - x;
            assert(delta * delta == e * e) by (nonlinear_arith)
                requires
                    e == -delta,
            ;
            assert(a * delta == -(a * e)) by (nonlinear_arith)
                requires
                    e == -delta,
            ;
            assert(r >= 0 && r * r >= (2 * e) * (2 * e) * x);
            assert(a * e > 0) by (nonlinear_arith)
                requires
                    a > 0,
                    e > 0,
            ;
            assert(w == u + a * e);
            assert(a * a * y == a * a * r + a * a * (e * e) + a * a * x) by (nonlinear_arith)
                requires
                    r == y - e * e - x,
            ;
            assert(a * a * r >= 0 && a * a * x >= 0) by (nonlinear_arith)
                requires
                    r >= 0,
                    x >= 0,
            ;
            assert((a * e) * (a * e) == a * a * (e * e)) by (nonlinear_arith);
            if u <= 0 {
                lemma_squares_order(w, a * e);
                assert(false);
            } else {
                let m = 2 * e;
                assert(w * w == u * u + m * (a * u) + a * a * (e * e)) by (nonlinear_arith)
                    requires
                        w == u + a * e,
                        m == 2 * e,
                ;
                assert(a * a * r == a * (a * r)) by (nonlinear_arith);
                assert(m * (a * u) > a * (a * r));
                assert(m * u > a * r) by (nonlinear_arith)
                    requires
                        m * (a * u) > a * (a * r),
                        a > 0,
                ;
                assert(a * r >= 0) by (nonlinear_arith)
                    requires
                        a > 0,
                        r >= 0,
                ;
                // (m u)^2 <= (a r)^2 from u*u <= a*a*x and r*r >= m*m*x
                lemma_cross_below_squares(m, u, a, r, x);
                lemma_squares_order(m * u, a * r);
                assert(false);
            }
        }
    }
}

/// From `q*q <= m*m*y` or `q <= 0`, and `p*p*y <= w*w`, follows
/// `(p*q)^2 <= (m*w)^2`, that is `p*q <= m*w` for numbers that are not
/// negative.
proof fn lemma_cross_below_squares(p: int, q: int, m: int, w: int, y: int)
    requires
        p >= 0,
        q >= 0,
        m >= 0,
        w >= 0,
        y >= 0,
        q * q <= m * m * y,
        p * p * y <= w * w,
    ensures
        (p * q) * (p * q) <= (m * w) * (m * w),
{
    let pp = p * p;
    let qq = q * q;
    let mm = m * m;
    let ww = w * w;
    assert(pp >= 0 && qq >= 0 && mm >= 0 && ww >= 0) by (nonlinear_arith)
        requires
            pp == p * p,
            qq == q * q,
            mm == m * m,
            ww == w * w,
    ;
    assert((p * q) * (p * q) == pp * qq) by (nonlinear_arith)
        requires
            pp == p * p,
            qq == q * q,
    ;
    assert((m * w) * (m * w) == mm * ww) by (nonlinear_arith)
        requires
            mm == m * m,
            ww == w * w,
    ;
    assert(pp * qq <= pp * (mm * y)) by (nonlinear_arith)
        requires
            pp >= 0,
            qq <= mm * y,
    ;
    assert(pp * (mm * y) == mm * (pp * y)) by (nonlinear_arith);
    assert(mm * (pp * y) <= mm * ww) by (nonlinear_arith)
        requires
            mm >= 0,
            pp * y <= ww,
    ;
}

/// `u >= a*sqrt(y)` and `sqrt(x) <= delta + sqrt(y)` give
/// `u + a*delta >= a*sqrt(x)`.
pub proof fn lemma_carry_at_least(u: int, a: int, y: int, x: int, delta: int)
    requires
        a >= 0,
        x >= 0,
        y >= 0,
        at_least_root(u, a, y),
        root_within(x, delta, y),
    ensures
        at_least_root(u + a * delta, a, x),
{
    let w = u + a * delta;
    assert(a * a * y >= 0 && a * a * x >= 0) by (nonlinear_arith)
        requires
            x >= 0,
            y >= 0,
    ;
    if a == 0 {
        assert(a * delta == 0) by (nonlinear_arith)
            requires
                a == 0,
        ;
        assert(a * a * x == 0) by (nonlinear_arith)
            requires
                a == 0,
        ;
        assert(w * w >= 0) by (nonlinear_arith);
    } else if delta >= 0 {
        let r = x - delta * delta - y;
        let m = 2 * delta;
        assert(a * delta >= 0) by (nonlinear_arith)
            requires
                a >= 0,
                delta >= 0,
        ;
        assert(w * w == u * u + m * (a * u) + a * a * (delta * delta)) by (nonlinear_arith)
            requires
                w == u + a * delta,
                m == 2 * delta,
        ;
        assert(a * a * x == a * a * r + a * a * (delta * delta) + a * a * y) by (nonlinear_arith)
            requires
                r == x - delta * delta - y,
        ;
        assert(a * a * r == a * (a * r)) by (nonlinear_arith);
        assert(m * u >= 0) by (nonlinear_arith)
            requires
                m >= 0,
                u >= 0,
        ;
        if r <= 0 {
            assert(a * r <= 0) by (nonlinear_arith)
                requires
                    a > 0,
                    r <= 0,
            ;
        } else {
            assert(a * r >= 0) by (nonlinear_arith)
                requires
                    a > 0,
                    r > 0,
            ;
            lemma_cross_below_squares(a, r, m, u, y);
            lemma_squares_order(a * r, m * u);
        }
        assert(a * (a * r) <= m * (a * u)) by (nonlinear_arith)
            requires
                a * r <= m * u,
                a > 0,
        ;
    } else {
        let e = -delta;
        let r = y - e * e - x;
        let m = 2 * e;
        assert(delta * delta == e * e) by (nonlinear_arith)
            requires
                e == -delta,
        ;
        assert(a * delta == -(a * e)) by (nonlinear_arith)
            requires
                e == -delta,
        ;
        assert(r >= 0 && r * r >= m * m * x);
        assert(a * e > 0) by (nonlinear_arith)
            requires
                a > 0,
                e > 0,
        ;
        assert(w == u - a * e);
        assert(a * a * y == a * a * r + a * a * (e * e) + a * a * x) by (nonlinear_arith)
            requires
                r == y - e * e - x,
        ;
        assert(a * a * r >= 0) by (nonlinear_arith)
            requires
                r >= 0,
        ;
        assert((a * e) * (a * e) == a * a * (e * e)) by (nonlinear_arith);
        lemma_squares_order(a * e, u);
        assert(w >= 0);
        if w * w < a * a * x {
            assert(u * u == w * w + m * (a * w) + a * a * (e * e)) by (nonlinear_arith)
                requires
                    u == w + a * e,
                    m == 2 * e,
            ;
            assert(a * a * r == a * (a * r)) by (nonlinear_arith);
            assert(a * (a * r) < m * (a * w));
            assert(a * r < m * w) by (nonlinear_arith)
                requires
                    a * (a * r) < m * (a * w),
                    a > 0,
            ;
            assert(a * r >= 0) by (nonlinear_arith)
                requires
                    a > 0,
                    r >= 0,
            ;
            // (m w)^2 <= (a r)^2 from w*w < a*a*x and r*r >= m*m*x
            lemma_cross_below_squares(m, w, a, r, x);
            lemma_squares_order(m * w, a * r);
            assert(false);
        }
    }
}

/// `a*sqrt(x) <= u` and `u <= a*delta + a*sqrt(y)` with `a > 0` give
/// `sqrt(x) <= delta + sqrt(y)`.
pub proof fn lemma_between(u: int, a: int, x: int, delta: int, y: int)
    requires
        a > 0,
        x >= 0,
        y >= 0,
        at_least_root(u, a, x),
        at_most_root(u - a * delta, a, y),
    ensures
        root_within(x, delta, y),
{
    let w = u - a * delta;
    assert(a * a * y >= 0 && a * a * x >= 0) by (nonlinear_arith)
        requires
            x >= 0,
            y >= 0,
    ;
    if delta >= 0 {
        let g = x - delta * delta - y;
        let m = 2 * delta;
        if g > 0 && g * g > m * m * y {
            assert(a * delta >= 0) by (nonlinear_arith)
                requires
                    a >= 0,
                    delta >= 0,
            ;
            assert((a * delta) * (a * delta) == a * a * (delta * delta)) by (nonlinear_arith);
            assert(a * a * g == a * a * x - a * a * (delta * delta) - a * a * y)
                by (nonlinear_arith)
                requires
                    g == x - delta * delta - y,
            ;
            assert(a * a * g > 0) by (nonlinear_arith)
                requires
                    a > 0,
                    g > 0,
            ;
            if w <= 0 {
                lemma_squares_order(u, a * delta);
                assert(false);
            } else {
                assert(u * u == w * w + m * (a * w) + a * a * (delta * delta)) by (nonlinear_arith)
                    requires
                        u == w + a * delta,
                        m == 2 * delta,
                ;
                assert(a * a * g == a * (a * g)) by (nonlinear_arith);
                assert(a * (a * g) <= m * (a * w));
                assert(a * g <= m * w) by (nonlinear_arith)
                    requires
                        a * (a * g) <= m * (a * w),
                        a > 0,
                ;
                assert(a * g > 0) by (nonlinear_arith)
                    requires
                        a > 0,
                        g > 0,
                ;
                assert(m * w > 0);
                // (m w)^2 < (a g)^2 from w*w <= a*a*y and g*g > m*m*y
                lemma_cross_strictly_below(m, w, a, g, y);
                lemma_squares_order(m * w, a * g);
                assert(false);
            }
        }
    } else {
        let e = -delta;
        let g = y - e * e - x;
        let m = 2 * e;
        assert(delta * delta == e * e) by (nonlinear_arith)
            requires
                e == -delta,
        ;
        assert(a * delta == -(a * e)) by (nonlinear_arith)
            requires
                e == -delta,
        ;
        assert(a * e > 0) by (nonlinear_arith)
            requires
                a > 0,
                e > 0,
        ;
        assert(w == u + a * e);
        assert(w > 0);
        assert(w * w <= a * a * y);
        assert(w * w == u * u + m * (a * u) + a * a * (e * e)) by (nonlinear_arith)
            requires
                w == u + a * e,
                m == 2 * e,
        ;
        assert(a * a * g == a * a * y - a * a * (e * e) - a * a * x) by (nonlinear_arith)
            requires
                g == y - e * e - x,
        ;
        assert(a * a * g == a * (a * g)) by (nonlinear_arith);
        assert(a * (a * g) >= m * (a * u));
        assert(a * g >= m * u) by (nonlinear_arith)
            requires
                a * (a * g) >= m * (a * u),
                a > 0,
        ;
        assert(m * u >= 0) by (nonlinear_arith)
            requires
                m >= 0,
                u >= 0,
        ;
        assert(g >= 0) by (nonlinear_arith)
            requires
                a * g >= 0,
                a > 0,
        ;
        // (a g)^2 >= (m u)^2 and u*u >= a*a*x give g*g >= m*m*x
        lemma_squares_order(m * u, a * g);
        lemma_divide_square(a, g, m, u, x);
    }
}

/// From `p*p <= m*m*y` and `q*q > w*w*y` follows `(w*p)^2 < (m*q)^2`.
proof fn lemma_cross_strictly_below(w: int, p: int, m: int, q: int, y: int)
    requires
        w >= 0,
        p > 0,
        m > 0,
        q > 0,
        y >= 0,
        p * p <= m * m * y,
        q * q > w * w * y,
    ensures
        (w * p) * (w * p) < (m * q) * (m * q),
{
    let pp = p * p;
    let qq = q * q;
    let mm = m * m;
    let ww = w * w;
    assert(pp > 0 && qq > 0 && mm > 0 && ww >= 0) by (nonlinear_arith)
        requires
            pp == p * p,
            qq == q * q,
            mm == m * m,
            ww == w * w,
            p > 0,
            q > 0,
            m > 0,
    ;
    assert((w * p) * (w * p) == ww * pp) by (nonlinear_arith)
        requires
            pp == p * p,
            ww == w * w,
    ;
    assert((m * q) * (m * q) == mm * qq) by (nonlinear_arith)
        requires
            mm == m * m,
            qq == q * q,
    ;
    assert(ww * pp <= ww * (mm * y)) by (nonlinear_arith)
        requires
            ww >= 0,
            pp <= mm * y,
    ;
    assert(ww * (mm * y) == mm * (ww * y)) by (nonlinear_arith);
    assert(mm * (ww * y) < mm * qq) by (nonlinear_arith)
        requires
            mm > 0,
            ww * y < qq,
    ;
}

/// From `(a*g)^2 >= (m*u)^2` and `u*u >= a*a*x` with `a > 0` follows
/// `g*g >= m*m*x`.
proof fn lemma_divide_square(a: int, g: int, m: int, u: int, x: int)
    requires
        a > 0,
        m >= 0,
        x >= 0,
        (a * g) * (a * g) >= (m * u) * (m * u),
        u * u >= a * a * x,
    ensures
        g * g >= m * m * x,
{
    let aa = a * a;
    let gg = g * g;
    let mm = m * m;
    let uu = u * u;
    assert(aa > 0 && mm >= 0) by (nonlinear_arith)
        requires
            aa == a * a,
            mm == m * m,
            a > 0,
    ;
    assert((a * g) * (a * g) == aa * gg) by (nonlinear_arith)
        requires
            aa == a * a,
            gg == g * g,
    ;
    assert((m * u) * (m * u) == mm * uu) by (nonlinear_arith)
        requires
            mm == m * m,
            uu == u * u,
    ;
    assert(mm * uu >= mm * (aa * x)) by (nonlinear_arith)
        requires
            mm >= 0,
            uu >= aa * x,
    ;
    assert(mm * (aa * x) == aa * (mm * x)) by (nonlinear_arith);
    assert(gg >= mm * x) by (nonlinear_arith)
        requires
            aa * gg >= aa * (mm * x),
            aa > 0,
    ;
}

/// `sqrt(x) <= delta + sqrt(y)` still holds for a larger `y`.
proof fn lemma_within_widens(x: int, delta: int, y: int, z: int)
    requires
        x >= 0,
        0 <= y <= z,
        root_within(x, delta, y),
    ensures
        root_within(x, delta, z),
{
    let m = 2 * delta;
    if delta >= 0 {
        let u = x - delta * delta - y;
        let v = x - delta * delta - z;
        if v > 0 {
            lemma_squares_order(v, u);
            assert(m * m * y <= m * m * z) by (nonlinear_arith)
                requires
                    y <= z,
            ;
        }
    } else {
        let u = y - delta * delta - x;
        let v = z - delta * delta - x;
        lemma_squares_order(u, v);
    }
}

/// Inequalities between roots carry over: `sqrt(x) <= d1 + sqrt(y)` and
/// `sqrt(y) <= d2 + sqrt(z)` give `sqrt(x) <= d1 + d2 + sqrt(z)`.
pub proof fn lemma_within_chain(x: int, d1: int, y: int, d2: int, z: int)
    requires
        x >= 0,
        y >= 0,
        z >= 0,
        root_within(x, d1, y),
        root_within(y, d2, z),
    ensures
        root_within(x, d1 + d2, z),
{
    let d = d1 + d2;
    assert(d * d == d1 * d1 + 2 * (d1 * d2) + d2 * d2) by (nonlinear_arith)
        requires
            d == d1 + d2,
    ;
    if d1 >= 0 && d2 >= 0 {
        let p = x - d1 * d1 - y;
        let q = y - d2 * d2 - z;
        lemma_carry_at_most(p, 2 * d1, y, d2, z);
        lemma_add_at_most(p - 2 * d1 * d2, 2 * d1, q, 2 * d2, z);
        assert(2 * d1 * d2 == 2 * (d1 * d2)) by (nonlinear_arith);
        assert(p - 2 * d1 * d2 + q == x - d * d - z);
    } else if d1 < 0 && d2 < 0 {
        let e1 = -d1;
        let e2 = -d2;
        let p = y - d1 * d1 - x;
        let q = z - d2 * d2 - y;
        lemma_carry_at_least(q, 2 * e2, y, x, d1);
        lemma_add_at_least(p, 2 * e1, q + 2 * e2 * d1, 2 * e2, x);
        assert(2 * e2 * d1 == -2 * (d1 * d2)) by (nonlinear_arith)
            requires
                e2 == -d2,
        ;
        assert(p + (q + 2 * e2 * d1) == z - d * d - x);
    } else if d1 >= 0 && d2 < 0 {
        let e2 = -d2;
        let p = x - d1 * d1 - y;
        let q = z - d2 * d2 - y;
        if d >= 0 {
            lemma_subtract_at_most(p, 2 * d1, q, 2 * e2, y);
            lemma_carry_at_most(p - q, 2 * d, y, d2, z);
            assert(2 * d * d2 == 2 * (d1 * d2) + 2 * (d2 * d2)) by (nonlinear_arith)
                requires
                    d == d1 + d2,
            ;
            assert(p - q - 2 * d * d2 == x - d * d - z);
        } else {
            lemma_subtract_at_least(p, 2 * d1, q, 2 * e2, y);
            lemma_carry_at_least(q - p, -2 * d, y, x, d1);
            assert((-2 * d) * d1 == -2 * (d1 * d1) - 2 * (d1 * d2)) by (nonlinear_arith)
                requires
                    d == d1 + d2,
            ;
            assert(q - p + (-2 * d) * d1 == z - d * d - x);
        }
    } else {
        // d1 < 0 <= d2
        let e1 = -d1;
        let p = y - d1 * d1 - x;
        let q = y - d2 * d2 - z;
        assert(at_least_root(p, 2 * e1, x));
        assert(at_most_root(q, 2 * d2, z));
        if d2 == 0 {
            assert(d2 * d2 == 0);
            assert((2 * d2) * (2 * d2) * z == 0) by (nonlinear_arith)
                requires
                    d2 == 0,
            ;
            if q > 0 {
                assert(q * q > 0) by (nonlinear_arith)
                    requires
                        q > 0,
                ;
            }
            assert(y <= z);
            lemma_within_widens(x, d1, y, z);
        } else if !root_within(x, d, z) {
            if d >= 0 {
                let g = x - d * d - z;
                assert(!at_most_root(g, 2 * d, z));
                if at_most_root(p - (2 * e1) * d, 2 * e1, z) {
                    lemma_between(p, 2 * e1, x, d, z);
                }
                lemma_add_above(p - (2 * e1) * d, 2 * e1, g, 2 * d, z);
                assert((2 * e1) * d == -2 * (d1 * d1) - 2 * (d1 * d2)) by (nonlinear_arith)
                    requires
                        e1 == -d1,
                        d == d1 + d2,
                ;
                assert(p - (2 * e1) * d + g == q);
                assert(2 * e1 + 2 * d == 2 * d2);
                assert(false);
            } else {
                let e = -d;
                let g = z - d * d - x;
                assert(!at_least_root(g, 2 * e, x));
                let u = q + (2 * d2) * d;
                if at_least_root(u, 2 * d2, x) {
                    assert(u - (2 * d2) * d == q);
                    lemma_between(u, 2 * d2, x, d, z);
                }
                lemma_add_below(u, 2 * d2, g, 2 * e, x);
                assert((2 * d2) * d == 2 * (d1 * d2) + 2 * (d2 * d2)) by (nonlinear_arith)
                    requires
                        d == d1 + d2,
                ;
                assert(u + g == p);
                assert(2 * d2 + 2 * e == 2 * e1);
                assert(false);
            }
        }
    }
}

} // verus!
