//! Decayed scores of alignment candidates and their exact comparison.
//!
//! A candidate is a similarity `n / d` at a distance `k` from the position
//! it is matched to. Lines are scored `(n / d) / (1 + k)`, words
//! `(5 + n / d) / (5 + sqrt(1 + k))`. Scores are never rounded: they are
//! compared by cross-multiplying and, for the square roots, by squaring.

use vstd::prelude::*;
use crate::bignat::{relate, BigNat, Relation};
use crate::roots::{lemma_within_chain, root_within};
use crate::similarity::Similarity;

verus! {

/// How the line score of candidate 1 stands to that of candidate 2:
/// `n1 / (d1 * (1 + k1))` against `n2 / (d2 * (1 + k2))`.
pub open spec fn line_score_relation(
    n1: nat,
    d1: nat,
    k1: nat,
    n2: nat,
    d2: nat,
    k2: nat,
) -> Relation {
    relate((n1 * d2 * (1 + k2)) as int, (n2 * d1 * (1 + k1)) as int)
}

/// How `c + sqrt(x)` stands to `sqrt(y)`. The square of the left side is
/// `c * c + x + 2 * c * sqrt(x)`; where `c * c + x` alone does not decide,
/// `2 * c * sqrt(x)` is set against what is left of `y`, again by squaring.
pub open spec fn root_relation_from(c: nat, x: nat, y: nat) -> Relation {
    let s = c * c + x;
    if s > y {
        Relation::Greater
    } else if s == y {
        if c == 0 || x == 0 {
            Relation::Equal
        } else {
            Relation::Greater
        }
    } else {
        let r = (y - s) as nat;
        relate((c * c * x * 4) as int, (r * r) as int)
    }
}

/// How `c1 + sqrt(x1)` stands to `c2 + sqrt(x2)`.
pub open spec fn root_relation(c1: nat, x1: nat, c2: nat, x2: nat) -> Relation {
    if c1 >= c2 {
        root_relation_from((c1 - c2) as nat, x1, x2)
    } else {
        root_relation_from((c2 - c1) as nat, x2, x1).flipped()
    }
}

/// How the word score of candidate 1 stands to that of candidate 2:
/// `(5 + n1 / d1) / (5 + sqrt(1 + k1))` against
/// `(5 + n2 / d2) / (5 + sqrt(1 + k2))`. With `a = (5 * d1 + n1) * d2` and
/// `b = (5 * d2 + n2) * d1` this is `a * (5 + sqrt(1 + k2))` against
/// `b * (5 + sqrt(1 + k1))`.
pub open spec fn word_score_relation(
    n1: nat,
    d1: nat,
    k1: nat,
    n2: nat,
    d2: nat,
    k2: nat,
) -> Relation {
    let a = (5 * d1 + n1) * d2;
    let b = (5 * d2 + n2) * d1;
    root_relation(5 * a, a * a * (1 + k2), 5 * b, b * b * (1 + k1))
}

/// Whether the word score `(5 + n / d) / (5 + sqrt(1 + k))` lies above one
/// half, that is whether `5 * d + 2 * n` exceeds `d * sqrt(1 + k)`.
pub open spec fn exceeds_half(n: nat, d: nat, k: nat) -> bool {
    (5 * d + 2 * n) * (5 * d + 2 * n) > d * d * (1 + k)
}

/// The tolerance within which a similarity counts as one: `1 / EPSILON_INVERSE`.
pub const EPSILON_INVERSE: u128 = 8388608;

/// Whether the similarity `n / d` is within the tolerance of one.
pub open spec fn near_one(n: nat, d: nat) -> bool {
    (d - n) * EPSILON_INVERSE <= d
}

/// Compares the line scores of two candidates.
pub fn relate_line_scores(s1: &Similarity, k1: usize, s2: &Similarity, k2: usize) -> (r: Relation)
    ensures
        r == line_score_relation(s1.num(), s1.den(), k1 as nat, s2.num(), s2.den(), k2 as nat),
{
    let n1 = BigNat::from_u128(s1.numerator());
    let d1 = BigNat::from_u128(s1.denominator());
    let n2 = BigNat::from_u128(s2.numerator());
    let d2 = BigNat::from_u128(s2.denominator());
    let w1 = BigNat::from_u128(k1 as u128 + 1);
    let w2 = BigNat::from_u128(k2 as u128 + 1);
    let left = n1.times(&d2).times(&w2);
    let right = n2.times(&d1).times(&w1);
    left.compare(&right)
}

fn relate_roots_from(c: &BigNat, x: &BigNat, y: &BigNat) -> (r: Relation)
    ensures
        r == root_relation_from(c@, x@, y@),
{
    let cc = c.times(c);
    let s = cc.plus(x);
    match s.compare(y) {
        Relation::Greater => Relation::Greater,
        Relation::Equal => {
            if c.is_zero() || x.is_zero() {
                Relation::Equal
            } else {
                Relation::Greater
            }
        },
        Relation::Less => {
            let rest = y.minus(&s).unwrap();
            let left = cc.times(x).scale_add(4, 0);
            let right = rest.times(&rest);
            left.compare(&right)
        },
    }
}

fn relate_roots(c1: &BigNat, x1: &BigNat, c2: &BigNat, x2: &BigNat) -> (r: Relation)
    ensures
        r == root_relation(c1@, x1@, c2@, x2@),
{
    match c1.minus(c2) {
        Some(c) => relate_roots_from(&c, x1, x2),
        None => {
            let c = c2.minus(c1).unwrap();
            relate_roots_from(&c, x2, x1).flip()
        },
    }
}

/// Compares the word scores of two candidates.
pub fn relate_word_scores(s1: &Similarity, k1: usize, s2: &Similarity, k2: usize) -> (r: Relation)
    ensures
        r == word_score_relation(s1.num(), s1.den(), k1 as nat, s2.num(), s2.den(), k2 as nat),
{
    let n1 = BigNat::from_u128(s1.numerator());
    let d1 = BigNat::from_u128(s1.denominator());
    let n2 = BigNat::from_u128(s2.numerator());
    let d2 = BigNat::from_u128(s2.denominator());
    let w1 = BigNat::from_u128(k1 as u128 + 1);
    let w2 = BigNat::from_u128(k2 as u128 + 1);
    let a = d1.scale_add(5, 0).plus(&n1).times(&d2);
    let b = d2.scale_add(5, 0).plus(&n2).times(&d1);
    let c1 = a.scale_add(5, 0);
    let x1 = a.times(&a).times(&w2);
    let c2 = b.scale_add(5, 0);
    let x2 = b.times(&b).times(&w1);
    relate_roots(&c1, &x1, &c2, &x2)
}

/// Whether the word score of a candidate lies above one half.
pub fn word_score_exceeds_half(s: &Similarity, k: usize) -> (b: bool)
    ensures
        b == exceeds_half(s.num(), s.den(), k as nat),
{
    let n = BigNat::from_u128(s.numerator());
    let d = BigNat::from_u128(s.denominator());
    let w = BigNat::from_u128(k as u128 + 1);
    let t = d.scale_add(5, 0).plus(&n.scale_add(2, 0));
    let left = t.times(&t);
    let right = d.times(&d).times(&w);
    match left.compare(&right) {
        Relation::Greater => true,
        _ => false,
    }
}

/// Whether a similarity is within the tolerance of one.
pub fn similarity_near_one(s: &Similarity) -> (b: bool)
    ensures
        b == near_one(s.num(), s.den()),
{
    let n = s.numerator();
    let d = s.denominator();
    let gap: u128 = d - n;
    assert(gap * EPSILON_INVERSE <= 0x1_0000_0000_0000_0000 * 8388608) by (nonlinear_arith)
        requires
            gap <= 0x1_0000_0000_0000_0000,
            EPSILON_INVERSE == 8388608,
    ;
    gap * EPSILON_INVERSE <= d
}

proof fn lemma_square_strict(a: int, b: int)
    requires
        0 <= a < b,
    ensures
        a * a < b * b,
{
    assert(a * a < b * b) by (nonlinear_arith)
        requires
            0 <= a < b,
    ;
}

proof fn lemma_square_weak(a: int, b: int)
    requires
        0 <= a <= b,
    ensures
        a * a <= b * b,
{
    assert(a * a <= b * b) by (nonlinear_arith)
        requires
            0 <= a <= b,
    ;
}

/// Comparing in one direction gives the mirror image of comparing in the
/// other.
pub proof fn lemma_root_relation_flips(c1: nat, x1: nat, c2: nat, x2: nat)
    ensures
        root_relation(c2, x2, c1, x1) == root_relation(c1, x1, c2, x2).flipped(),
{
    if c1 == c2 {
        if x1 < x2 {
            let r = (x2 - x1) as int;
            assert(r * r > 0) by (nonlinear_arith)
                requires
                    r > 0,
            ;
            assert(0 * 0 * x1 * 4 == 0) by (nonlinear_arith);
        } else if x2 < x1 {
            let r = (x1 - x2) as int;
            assert(r * r > 0) by (nonlinear_arith)
                requires
                    r > 0,
            ;
            assert(0 * 0 * x2 * 4 == 0) by (nonlinear_arith);
        }
    }
}

/// Comparing two word scores in one direction gives the mirror image of
/// comparing them in the other.
pub proof fn lemma_word_score_relation_flips(n1: nat, d1: nat, k1: nat, n2: nat, d2: nat, k2: nat)
    ensures
        word_score_relation(n2, d2, k2, n1, d1, k1) == word_score_relation(
            n1,
            d1,
            k1,
            n2,
            d2,
            k2,
        ).flipped(),
{
    let a = (5 * d1 + n1) * d2;
    let b = (5 * d2 + n2) * d1;
    lemma_root_relation_flips(5 * a, a * a * (1 + k2), 5 * b, b * b * (1 + k1));
}

/// A line that is fully similar and in place beats every candidate that is
/// out of place.
pub proof fn lemma_exact_line_match_wins(n: nat, d: nat, k: nat, one: nat)
    requires
        0 < n <= d,
        k >= 1,
        one > 0,
    ensures
        line_score_relation(n, d, k, one, one, 0) == Relation::Less,
        line_score_relation(one, one, 0, n, d, k) == Relation::Greater,
{
    let o = one as int;
    let nn = n as int;
    let dd = d as int;
    let kk = k as int;
    assert(nn * o * (1 + 0) < o * dd * (1 + kk)) by (nonlinear_arith)
        requires
            0 < nn <= dd,
            kk >= 1,
            o > 0,
    ;
    assert(o * dd * (1 + kk) > nn * o * (1 + 0)) by (nonlinear_arith)
        requires
            0 < nn <= dd,
            kk >= 1,
            o > 0,
    ;
}

/// A word that is fully similar and in place beats every candidate that is
/// out of place.
pub proof fn lemma_exact_word_match_wins(n: nat, d: nat, k: nat, one: nat)
    requires
        0 < n <= d,
        k >= 1,
        one > 0,
    ensures
        word_score_relation(n, d, k, one, one, 0) == Relation::Less,
        word_score_relation(one, one, 0, n, d, k) == Relation::Greater,
{
    let a = (5 * d + n) * one;
    let b = (5 * one + one) * d;
    let ai = a as int;
    let bi = b as int;
    let kk = k as int;
    assert(0 < ai <= bi) by (nonlinear_arith)
        requires
            ai == (5 * d + n) * one,
            bi == (5 * one + one) * d,
            0 < n <= d,
            one > 0,
    ;
    lemma_square_weak(ai, bi);
    assert(bi * bi * (1 + kk) >= 2 * (bi * bi)) by (nonlinear_arith)
        requires
            kk >= 1,
            bi * bi >= 0,
    ;
    assert(bi * bi > 0) by (nonlinear_arith)
        requires
            bi > 0,
    ;
    assert(ai * ai * (1 + 0) == ai * ai);
    let x1 = a * a * (1 + 0);
    let x2 = b * b * (1 + k);
    assert(x1 < x2);
    let first = root_relation(5 * a, x1, 5 * b, x2);
    if a == b {
        let r = (x2 - x1) as int;
        assert(r * r > 0) by (nonlinear_arith)
            requires
                r > 0,
        ;
        assert(0 * 0 * x1 * 4 == 0) by (nonlinear_arith);
        assert(first == Relation::Less);
    } else {
        let c = (5 * b - 5 * a) as nat;
        assert(c * c >= 0) by (nonlinear_arith);
        assert(root_relation_from(c, x2, x1) == Relation::Greater);
        assert(first == Relation::Less);
    }
    lemma_root_relation_flips(5 * a, x1, 5 * b, x2);
    assert(word_score_relation(n, d, k, one, one, 0) == first);
    assert(word_score_relation(one, one, 0, n, d, k) == root_relation(5 * b, x2, 5 * a, x1));
}

/// A candidate in place always scores above one half.
pub proof fn lemma_in_place_exceeds_half(n: nat, d: nat)
    requires
        0 < n,
        0 < d,
    ensures
        exceeds_half(n, d, 0),
{
    let t = (5 * d + 2 * n) as int;
    let dd = d as int;
    lemma_square_strict(dd, t);
    assert(dd * dd * (1 + 0) == dd * dd) by (nonlinear_arith);
}

/// Where `c1 + sqrt(x1)` is no more than `c2 + sqrt(x2)` and the latter
/// lies below the whole number `m`, so does the former.
proof fn lemma_root_bound(c1: nat, x1: nat, c2: nat, x2: nat, m: nat)
    requires
        root_relation(c1, x1, c2, x2) != Relation::Greater,
        m > c2,
        x2 < (m - c2) * (m - c2),
    ensures
        m > c1,
        x1 < (m - c1) * (m - c1),
{
    let mm = (m - c2) as int;
    let xx1 = x1 as int;
    let xx2 = x2 as int;
    if c1 >= c2 {
        let c = (c1 - c2) as int;
        let s = c * c + xx1;
        assert(c * c >= 0) by (nonlinear_arith);
        assert(root_relation_from(c as nat, x1, x2) != Relation::Greater);
        assert(s <= xx2);
        if c >= mm {
            lemma_square_weak(mm, c);
            assert(false);
        }
        if xx1 >= (mm - c) * (mm - c) {
            if c == 0 {
                assert(false);
            } else {
                let r = xx2 - s;
                assert(mm * mm - c * c - (mm - c) * (mm - c) == 2 * c * (mm - c)) by (nonlinear_arith);
                assert(r < 2 * c * (mm - c));
                assert((mm - c) * (mm - c) >= 1) by (nonlinear_arith)
                    requires
                        mm - c >= 1,
                ;
                if s == xx2 {
                    assert(false);
                } else {
                    lemma_square_strict(r, 2 * c * (mm - c));
                    assert((2 * c * (mm - c)) * (2 * c * (mm - c)) == c * c * ((mm - c) * (mm - c))
                        * 4) by (nonlinear_arith);
                    assert(c * c * ((mm - c) * (mm - c)) * 4 <= c * c * xx1 * 4) by (nonlinear_arith)
                        requires
                            (mm - c) * (mm - c) <= xx1,
                            c * c >= 0,
                    ;
                    assert(false);
                }
            }
        }
        assert(m - c1 == mm - c);
    } else {
        let c = (c2 - c1) as int;
        assert(root_relation_from(c as nat, x2, x1).flipped() != Relation::Greater);
        assert(root_relation_from(c as nat, x2, x1) != Relation::Less);
        assert(m - c1 == mm + c);
        if xx1 >= (mm + c) * (mm + c) {
            let s = c * c + xx2;
            assert((mm + c) * (mm + c) == mm * mm + 2 * mm * c + c * c) by (nonlinear_arith);
            assert(mm * c >= 1) by (nonlinear_arith)
                requires
                    mm >= 1,
                    c >= 1,
            ;
            assert(s < xx1);
            let r = xx1 - s;
            assert(r > 2 * mm * c);
            lemma_square_strict(2 * mm * c, r);
            assert((2 * mm * c) * (2 * mm * c) == c * c * (mm * mm) * 4) by (nonlinear_arith);
            assert(c * c * xx2 * 4 <= c * c * (mm * mm) * 4) by (nonlinear_arith)
                requires
                    xx2 <= mm * mm,
                    c * c >= 0,
            ;
            assert(c * c >= 0) by (nonlinear_arith);
            assert(false);
        }
    }
}

/// A candidate that scores no less than one whose score lies above one half
/// has a score above one half as well.
pub proof fn lemma_half_is_upward_closed(n1: nat, d1: nat, k1: nat, n2: nat, d2: nat, k2: nat)
    requires
        0 < n1,
        0 < d1,
        0 < n2,
        0 < d2,
        exceeds_half(n1, d1, k1),
        word_score_relation(n1, d1, k1, n2, d2, k2) != Relation::Greater,
    ensures
        exceeds_half(n2, d2, k2),
{
    let t1 = (5 * d1 + n1) as int;
    let t2 = (5 * d2 + n2) as int;
    let h1 = (5 * d1 + 2 * n1) as int;
    let h2 = (5 * d2 + 2 * n2) as int;
    let a = (5 * d1 + n1) * d2;
    let b = (5 * d2 + n2) * d1;
    let a1 = (1 + k1) as int;
    let a2 = (1 + k2) as int;
    let e1 = d1 as int;
    let e2 = d2 as int;
    let m = (2 * t1 * t2) as nat;
    let x1 = a * a * (1 + k2);
    let x2 = b * b * (1 + k1);
    assert(a == t1 * e2);
    assert(b == t2 * e1);
    assert(h1 == 2 * t1 - 5 * e1);
    assert(h2 == 2 * t2 - 5 * e2);
    assert(m - 5 * b == t2 * h1) by (nonlinear_arith)
        requires
            m == 2 * t1 * t2,
            b == t2 * e1,
            h1 == 2 * t1 - 5 * e1,
    ;
    assert(m - 5 * a == t1 * h2) by (nonlinear_arith)
        requires
            m == 2 * t1 * t2,
            a == t1 * e2,
            h2 == 2 * t2 - 5 * e2,
    ;
    assert(t2 * h1 > 0) by (nonlinear_arith)
        requires
            t2 > 0,
            h1 > 0,
    ;
    assert(x2 == (t2 * t2) * (e1 * e1 * a1)) by (nonlinear_arith)
        requires
            x2 == b * b * a1,
            b == t2 * e1,
    ;
    assert((t2 * h1) * (t2 * h1) == (t2 * t2) * (h1 * h1)) by (nonlinear_arith);
    assert((t2 * t2) * (e1 * e1 * a1) < (t2 * t2) * (h1 * h1)) by (nonlinear_arith)
        requires
            t2 > 0,
            e1 * e1 * a1 < h1 * h1,
    ;
    lemma_root_bound(5 * a, x1, 5 * b, x2, m);
    assert(x1 == (t1 * t1) * (e2 * e2 * a2)) by (nonlinear_arith)
        requires
            x1 == a * a * a2,
            a == t1 * e2,
    ;
    assert((t1 * h2) * (t1 * h2) == (t1 * t1) * (h2 * h2)) by (nonlinear_arith);
    assert(e2 * e2 * a2 < h2 * h2) by (nonlinear_arith)
        requires
            t1 > 0,
            (t1 * t1) * (e2 * e2 * a2) < (t1 * t1) * (h2 * h2),
    ;
}

/// Comparing two line scores in one direction gives the mirror image of
/// comparing them in the other.
pub proof fn lemma_line_score_relation_flips(n1: nat, d1: nat, k1: nat, n2: nat, d2: nat, k2: nat)
    ensures
        line_score_relation(n2, d2, k2, n1, d1, k1) == line_score_relation(
            n1,
            d1,
            k1,
            n2,
            d2,
            k2,
        ).flipped(),
{
}

/// Line scores are ordered: a score that is no more than a second one,
/// which is no more than a third, is no more than the third.
pub proof fn lemma_line_scores_are_transitive(
    n1: nat,
    d1: nat,
    k1: nat,
    n2: nat,
    d2: nat,
    k2: nat,
    n3: nat,
    d3: nat,
    k3: nat,
)
    requires
        d1 > 0,
        d2 > 0,
        d3 > 0,
        line_score_relation(n1, d1, k1, n2, d2, k2) != Relation::Greater,
        line_score_relation(n2, d2, k2, n3, d3, k3) != Relation::Greater,
    ensures
        line_score_relation(n1, d1, k1, n3, d3, k3) != Relation::Greater,
{
    let h1 = n1 as int;
    let h2 = n2 as int;
    let h3 = n3 as int;
    let q1 = (d1 * (1 + k1)) as int;
    let q2 = (d2 * (1 + k2)) as int;
    let q3 = (d3 * (1 + k3)) as int;
    assert(q1 > 0 && q2 > 0 && q3 > 0) by (nonlinear_arith)
        requires
            d1 > 0,
            d2 > 0,
            d3 > 0,
            q1 == d1 * (1 + k1),
            q2 == d2 * (1 + k2),
            q3 == d3 * (1 + k3),
    ;
    assert(n1 * d2 * (1 + k2) == h1 * q2) by (nonlinear_arith)
        requires
            q2 == d2 * (1 + k2),
            h1 == n1,
    ;
    assert(n2 * d1 * (1 + k1) == h2 * q1) by (nonlinear_arith)
        requires
            q1 == d1 * (1 + k1),
            h2 == n2,
    ;
    assert(n2 * d3 * (1 + k3) == h2 * q3) by (nonlinear_arith)
        requires
            q3 == d3 * (1 + k3),
            h2 == n2,
    ;
    assert(n3 * d2 * (1 + k2) == h3 * q2) by (nonlinear_arith)
        requires
            q2 == d2 * (1 + k2),
            h3 == n3,
    ;
    assert(n1 * d3 * (1 + k3) == h1 * q3) by (nonlinear_arith)
        requires
            q3 == d3 * (1 + k3),
            h1 == n1,
    ;
    assert(n3 * d1 * (1 + k1) == h3 * q1) by (nonlinear_arith)
        requires
            q1 == d1 * (1 + k1),
            h3 == n3,
    ;
    assert(h1 * q2 <= h2 * q1);
    assert(h2 * q3 <= h3 * q2);
    assert((h1 * q3) * q2 <= (h3 * q1) * q2) by (nonlinear_arith)
        requires
            h1 * q2 <= h2 * q1,
            h2 * q3 <= h3 * q2,
            q1 > 0,
            q2 > 0,
            q3 > 0,
            h1 >= 0,
            h2 >= 0,
            h3 >= 0,
    ;
    assert(h1 * q3 <= h3 * q1) by (nonlinear_arith)
        requires
            (h1 * q3) * q2 <= (h3 * q1) * q2,
            q2 > 0,
    ;
}

/// `c1 + sqrt(x1)` is no more than `c2 + sqrt(x2)` exactly when `sqrt(x1)`
/// is no more than `c2 - c1 + sqrt(x2)`.
pub proof fn lemma_root_relation_as_within(c1: nat, x1: nat, c2: nat, x2: nat)
    ensures
        (root_relation(c1, x1, c2, x2) != Relation::Greater) == root_within(
            x1 as int,
            c2 - c1,
            x2 as int,
        ),
{
    let a = x1 as int;
    let b = x2 as int;
    if c1 >= c2 {
        let c = (c1 - c2) as int;
        let s = c * c + a;
        assert(c * c >= 0) by (nonlinear_arith);
        assert((c2 - c1) * (c2 - c1) == c * c) by (nonlinear_arith)
            requires
                c == c1 - c2,
        ;
        if c == 0 {
            assert(c * c == 0) by (nonlinear_arith)
                requires
                    c == 0,
            ;
            assert(c * c * a * 4 == 0) by (nonlinear_arith)
                requires
                    c == 0,
            ;
            assert((2 * 0) * (2 * 0) * b == 0) by (nonlinear_arith);
            if a < b {
                let r = b - a;
                assert(r * r > 0) by (nonlinear_arith)
                    requires
                        r > 0,
                ;
            }
            if a > b {
                let r = a - b;
                assert(r * r > 0) by (nonlinear_arith)
                    requires
                        r > 0,
                ;
            }
        } else {
            let r = b - s;
            assert((-2 * (c2 - c1)) * (-2 * (c2 - c1)) * a == c * c * a * 4) by (nonlinear_arith)
                requires
                    c == c1 - c2,
            ;
            if s == b {
                assert(r * r == 0) by (nonlinear_arith)
                    requires
                        r == 0,
                ;
                if a > 0 {
                    assert(c * c * a * 4 > 0) by (nonlinear_arith)
                        requires
                            c > 0,
                            a > 0,
                    ;
                } else {
                    assert(c * c * a * 4 == 0) by (nonlinear_arith)
                        requires
                            a == 0,
                    ;
                }
            }
        }
    } else {
        let c = (c2 - c1) as int;
        let s = c * c + b;
        assert(c * c >= 0) by (nonlinear_arith);
        let r = a - s;
        assert((2 * c) * (2 * c) * b == c * c * b * 4) by (nonlinear_arith);
        assert(c * c * b * 4 >= 0) by (nonlinear_arith)
            requires
                b >= 0,
        ;
        if s == a {
            assert(r * r == 0) by (nonlinear_arith)
                requires
                    r == 0,
            ;
        }
        if r < 0 {
            assert(r * r > 0) by (nonlinear_arith)
                requires
                    r < 0,
            ;
        }
    }
}

/// The comparison of numbers of the form `c + sqrt(x)` is an order: what is
/// no more than a second number that is no more than a third is no more
/// than the third.
pub proof fn lemma_root_relation_is_transitive(
    c1: nat,
    x1: nat,
    c2: nat,
    x2: nat,
    c3: nat,
    x3: nat,
)
    requires
        root_relation(c1, x1, c2, x2) != Relation::Greater,
        root_relation(c2, x2, c3, x3) != Relation::Greater,
    ensures
        root_relation(c1, x1, c3, x3) != Relation::Greater,
{
    lemma_root_relation_as_within(c1, x1, c2, x2);
    lemma_root_relation_as_within(c2, x2, c3, x3);
    lemma_root_relation_as_within(c1, x1, c3, x3);
    lemma_within_chain(x1 as int, c2 - c1, x2 as int, c3 - c2, x3 as int);
}

/// Multiplying both sides of `sqrt(s) <= delta + sqrt(t)` by a positive
/// number changes nothing.
proof fn lemma_within_scales(s: int, delta: int, t: int, k: int)
    requires
        k > 0,
        s >= 0,
        t >= 0,
    ensures
        root_within(k * k * s, k * delta, k * k * t) == root_within(s, delta, t),
{
    let kk = k * k;
    assert(kk > 0) by (nonlinear_arith)
        requires
            kk == k * k,
            k > 0,
    ;
    let d = k * delta;
    assert(d * d == kk * (delta * delta)) by (nonlinear_arith)
        requires
            d == k * delta,
            kk == k * k,
    ;
    assert((d >= 0) == (delta >= 0)) by (nonlinear_arith)
        requires
            d == k * delta,
            k > 0,
    ;
    if delta >= 0 {
        let u = s - delta * delta - t;
        let v = kk * s - d * d - kk * t;
        assert(v == kk * u) by (nonlinear_arith)
            requires
                v == kk * s - kk * (delta * delta) - kk * t,
                u == s - delta * delta - t,
        ;
        assert((v <= 0) == (u <= 0)) by (nonlinear_arith)
            requires
                v == kk * u,
                kk > 0,
        ;
        let m = (2 * delta) * (2 * delta) * t;
        assert((2 * d) * (2 * d) * (kk * t) == (kk * kk) * m) by (nonlinear_arith)
            requires
                d * d == kk * (delta * delta),
                m == (2 * delta) * (2 * delta) * t,
        ;
        assert(v * v == (kk * kk) * (u * u)) by (nonlinear_arith)
            requires
                v == kk * u,
        ;
        assert(((kk * kk) * (u * u) <= (kk * kk) * m) == (u * u <= m)) by (nonlinear_arith)
            requires
                kk > 0,
        ;
    } else {
        let u = t - delta * delta - s;
        let v = kk * t - d * d - kk * s;
        assert(v == kk * u) by (nonlinear_arith)
            requires
                v == kk * t - kk * (delta * delta) - kk * s,
                u == t - delta * delta - s,
        ;
        assert((v >= 0) == (u >= 0)) by (nonlinear_arith)
            requires
                v == kk * u,
                kk > 0,
        ;
        let m = (-2 * delta) * (-2 * delta) * s;
        assert((-2 * d) * (-2 * d) * (kk * s) == (kk * kk) * m) by (nonlinear_arith)
            requires
                d * d == kk * (delta * delta),
                m == (-2 * delta) * (-2 * delta) * s,
        ;
        assert(v * v == (kk * kk) * (u * u)) by (nonlinear_arith)
            requires
                v == kk * u,
        ;
        assert(((kk * kk) * (u * u) >= (kk * kk) * m) == (u * u >= m)) by (nonlinear_arith)
            requires
                kk > 0,
        ;
    }
}

/// The word score of candidate 1 is no more than that of candidate 2
/// exactly when, with both sides multiplied by `k`, the root of
/// `(k*a)^2 * (1 + k2)` is no more than `5*k*b - 5*k*a` plus the root of
/// `(k*b)^2 * (1 + k1)`, where `a = (5*d1 + n1) * d2` and
/// `b = (5*d2 + n2) * d1`.
proof fn lemma_word_score_as_within(n1: nat, d1: nat, k1: nat, n2: nat, d2: nat, k2: nat, k: int)
    requires
        k > 0,
    ensures
        (word_score_relation(n1, d1, k1, n2, d2, k2) != Relation::Greater) == root_within(
            (k * ((5 * d1 + n1) * d2)) * (k * ((5 * d1 + n1) * d2)) * (1 + k2),
            5 * (k * ((5 * d2 + n2) * d1)) - 5 * (k * ((5 * d1 + n1) * d2)),
            (k * ((5 * d2 + n2) * d1)) * (k * ((5 * d2 + n2) * d1)) * (1 + k1),
        ),
{
    let a = (5 * d1 + n1) * d2;
    let b = (5 * d2 + n2) * d1;
    let x1 = a * a * (1 + k2);
    let x2 = b * b * (1 + k1);
    lemma_root_relation_as_within(5 * a, x1, 5 * b, x2);
    lemma_within_scales(x1 as int, 5 * b - 5 * a, x2 as int, k);
    let ai = a as int;
    let bi = b as int;
    assert((k * ai) * (k * ai) * (1 + k2) == k * k * (ai * ai * (1 + k2))) by (nonlinear_arith);
    assert((k * bi) * (k * bi) * (1 + k1) == k * k * (bi * bi * (1 + k1))) by (nonlinear_arith);
    assert(5 * (k * bi) - 5 * (k * ai) == k * (5 * bi - 5 * ai)) by (nonlinear_arith);
}

/// Word scores are ordered: a score that is no more than a second one,
/// which is no more than a third, is no more than the third.
pub proof fn lemma_word_scores_are_transitive(
    n1: nat,
    d1: nat,
    k1: nat,
    n2: nat,
    d2: nat,
    k2: nat,
    n3: nat,
    d3: nat,
    k3: nat,
)
    requires
        0 < n1,
        0 < d1,
        0 < n2,
        0 < d2,
        0 < n3,
        0 < d3,
        word_score_relation(n1, d1, k1, n2, d2, k2) != Relation::Greater,
        word_score_relation(n2, d2, k2, n3, d3, k3) != Relation::Greater,
    ensures
        word_score_relation(n1, d1, k1, n3, d3, k3) != Relation::Greater,
{
    let t1 = (5 * d1 + n1) as int;
    let t2 = (5 * d2 + n2) as int;
    let t3 = (5 * d3 + n3) as int;
    let e1 = d1 as int;
    let e2 = d2 as int;
    let e3 = d3 as int;
    // every candidate on one scale
    let c1 = t2 * t3 * e1;
    let c2 = t1 * t3 * e2;
    let c3 = t1 * t2 * e3;
    lemma_word_score_as_within(n1, d1, k1, n2, d2, k2, t3);
    lemma_word_score_as_within(n2, d2, k2, n3, d3, k3, t1);
    lemma_word_score_as_within(n1, d1, k1, n3, d3, k3, t2);
    assert(t3 * (t1 * e2) == c2) by (nonlinear_arith)
        requires
            c2 == t1 * t3 * e2,
    ;
    assert(t3 * (t2 * e1) == c1) by (nonlinear_arith)
        requires
            c1 == t2 * t3 * e1,
    ;
    assert(t1 * (t2 * e3) == c3) by (nonlinear_arith)
        requires
            c3 == t1 * t2 * e3,
    ;
    assert(t1 * (t3 * e2) == c2) by (nonlinear_arith)
        requires
            c2 == t1 * t3 * e2,
    ;
    assert(t2 * (t1 * e3) == c3) by (nonlinear_arith)
        requires
            c3 == t1 * t2 * e3,
    ;
    assert(t2 * (t3 * e1) == c1) by (nonlinear_arith)
        requires
            c1 == t2 * t3 * e1,
    ;
    let y1 = c1 * c1 * (1 + k1);
    let y2 = c2 * c2 * (1 + k2);
    let y3 = c3 * c3 * (1 + k3);
    assert(y1 >= 0 && y2 >= 0 && y3 >= 0) by (nonlinear_arith)
        requires
            y1 == c1 * c1 * (1 + k1),
            y2 == c2 * c2 * (1 + k2),
            y3 == c3 * c3 * (1 + k3),
    ;
    // score 1 <= score 2: sqrt(y2) <= 5*c1 - 5*c2 + sqrt(y1)
    assert(root_within(y2, 5 * c1 - 5 * c2, y1));
    // score 2 <= score 3: sqrt(y3) <= 5*c2 - 5*c3 + sqrt(y2)
    assert(root_within(y3, 5 * c2 - 5 * c3, y2));
    lemma_within_chain(y3, 5 * c2 - 5 * c3, y2, 5 * c1 - 5 * c2, y1);
    assert(root_within(y3, 5 * c1 - 5 * c3, y1));
}

} // verus!
