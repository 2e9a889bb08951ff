//! Finding a number inside a word and telling which of two numbers is larger.
//!
//! A word's number is read from the text that starts at its first digit and
//! stops before its last one. In base ten that text is a decimal literal with
//! an optional fraction and exponent; in any other base it is a plain
//! unsigned integer. Values are kept exactly, as a mantissa and a power of
//! ten.

use vstd::prelude::*;
use crate::bignat::{weight, BigNat, Relation, BASE};
use crate::text::{chars_of, copy_range};

verus! {

/// The value of a character as a digit in bases up to 36.
pub open spec fn digit_of(c: char) -> Option<nat> {
    let u = c as u32;
    if 48 <= u <= 57 {
        Some((u - 48) as nat)
    } else if 97 <= u <= 122 {
        Some((u - 87) as nat)
    } else if 65 <= u <= 90 {
        Some((u - 55) as nat)
    } else {
        None
    }
}

/// Whether `c` is a digit in base `radix`.
pub open spec fn is_digit(c: char, radix: nat) -> bool {
    match digit_of(c) {
        Some(d) => d < radix,
        None => false,
    }
}

/// Whether some character of `s` is a digit in base `radix`.
pub open spec fn has_digit(s: Seq<char>, radix: nat) -> bool {
    exists|i: int| 0 <= i < s.len() && is_digit(#[trigger] s[i], radix)
}

/// Whether `start` and `end` are the positions of the first and the last
/// digit of `s`.
pub open spec fn is_digit_span(s: Seq<char>, radix: nat, start: int, end: int) -> bool {
    &&& 0 <= start <= end < s.len()
    &&& is_digit(s[start], radix)
    &&& is_digit(s[end], radix)
    &&& forall|j: int| 0 <= j < start ==> !is_digit(#[trigger] s[j], radix)
    &&& forall|j: int| end < j < s.len() ==> !is_digit(#[trigger] s[j], radix)
}

/// The text a number is read from: from the first digit up to, and not
/// including, the last digit. `None` where `s` holds no digit.
pub open spec fn literal_of(s: Seq<char>, radix: nat) -> Option<Seq<char>> {
    if has_digit(s, radix) {
        let (start, end) = choose|start: int, end: int| is_digit_span(s, radix, start, end);
        Some(s.subrange(start, end))
    } else {
        None
    }
}

/// The first and last digit of a text are determined by the text.
pub proof fn lemma_span_unique(s: Seq<char>, radix: nat, a: int, b: int, c: int, d: int)
    requires
        is_digit_span(s, radix, a, b),
        is_digit_span(s, radix, c, d),
    ensures
        a == c,
        b == d,
{
    if a < c {
        assert(!is_digit(s[a], radix));
    }
    if c < a {
        assert(!is_digit(s[c], radix));
    }
    if b < d {
        assert(!is_digit(s[d], radix));
    }
    if d < b {
        assert(!is_digit(s[b], radix));
    }
}

/// The number that a string of digits in base `radix` stands for.
pub open spec fn digits_value(s: Seq<char>, radix: nat) -> nat
    decreases s.len(),
{
    if s.len() == 0 {
        0
    } else {
        digits_value(s.drop_last(), radix) * radix + match digit_of(s.last()) {
            Some(d) => d,
            None => 0,
        }
    }
}

/// Whether every character of `s` is a digit in base `radix`.
pub open spec fn all_digits(s: Seq<char>, radix: nat) -> bool {
    forall|i: int| 0 <= i < s.len() ==> is_digit(#[trigger] s[i], radix)
}

/// The first position at or after `from` that holds no decimal digit.
pub open spec fn digits_end(s: Seq<char>, from: int) -> int
    decreases s.len() - from,
{
    if 0 <= from < s.len() && is_digit(s[from], 10) {
        digits_end(s, from + 1)
    } else {
        from
    }
}

/// Ten to the power `n`.
pub open spec fn pow10(n: nat) -> nat
    decreases n,
{
    if n == 0 {
        1
    } else {
        10 * pow10((n - 1) as nat)
    }
}

/// Reads a decimal literal that begins with a digit: digits, then
/// optionally a point and more digits, then optionally `e` or `E`, an
/// optional sign and at least one digit. The result is the mantissa made of
/// all digits before the exponent, and the power of ten it is scaled by.
pub open spec fn parse_decimal(s: Seq<char>) -> Option<(nat, int)> {
    let i1 = digits_end(s, 0);
    let dotted = i1 < s.len() && s[i1] == '.';
    let f0 = if dotted {
        i1 + 1
    } else {
        i1
    };
    let f1 = if dotted {
        digits_end(s, f0)
    } else {
        i1
    };
    let mantissa = digits_value(s.subrange(0, i1) + s.subrange(f0, f1), 10);
    let frac = f1 - f0;
    if i1 == 0 {
        None
    } else if f1 == s.len() {
        Some((mantissa, -frac))
    } else if s[f1] == 'e' || s[f1] == 'E' {
        let minus = f1 + 1 < s.len() && s[f1 + 1] == '-';
        let plus = f1 + 1 < s.len() && s[f1 + 1] == '+';
        let e0 = if minus || plus {
            f1 + 2
        } else {
            f1 + 1
        };
        let e1 = digits_end(s, e0);
        let e = digits_value(s.subrange(e0, e1), 10);
        if e0 < e1 && e1 == s.len() {
            Some(
                (
                    mantissa,
                    if minus {
                        -e - frac
                    } else {
                        e - frac
                    },
                ),
            )
        } else {
            None
        }
    } else {
        None
    }
}

/// Reads an unsigned integer in base `radix` that fits in 32 bits.
pub open spec fn parse_radix(s: Seq<char>, radix: nat) -> Option<(nat, int)> {
    if s.len() > 0 && all_digits(s, radix) && digits_value(s, radix) <= u32::MAX {
        Some((digits_value(s, radix), 0int))
    } else {
        None
    }
}

/// The number found in `s`: the literal between its first and last digit,
/// read as a decimal literal in base ten and as an unsigned integer in any
/// other base. The pair is a mantissa and the power of ten that scales it.
pub open spec fn numeric_of(s: Seq<char>, radix: nat) -> Option<(nat, int)> {
    match literal_of(s, radix) {
        Some(lit) => if radix == 10 {
            parse_decimal(lit)
        } else {
            parse_radix(lit, radix)
        },
        None => None,
    }
}

/// Whether `a.0 * 10^a.1` is larger than `b.0 * 10^b.1`.
pub open spec fn quantity_exceeds(a: (nat, int), b: (nat, int)) -> bool {
    if a.1 >= b.1 {
        a.0 * pow10((a.1 - b.1) as nat) > b.0
    } else {
        a.0 > b.0 * pow10((b.1 - a.1) as nat)
    }
}

/// The value of `c` as a digit in bases up to 36.
pub fn digit_value(c: char) -> (r: Option<u32>)
    ensures
        match r {
            Some(d) => digit_of(c) == Some(d as nat) && d < 36,
            None => digit_of(c) is None,
        },
{
    let u: u32 = c as u32;
    if 48 <= u && u <= 57 {
        Some(u - 48)
    } else if 97 <= u && u <= 122 {
        Some(u - 87)
    } else if 65 <= u && u <= 90 {
        Some(u - 55)
    } else {
        None
    }
}

/// Whether `c` is a digit in base `radix`.
pub fn char_is_digit(c: char, radix: u32) -> (b: bool)
    ensures
        b == is_digit(c, radix as nat),
{
    match digit_value(c) {
        Some(d) => d < radix,
        None => false,
    }
}

/// The positions of the first and the last digit of `text`.
pub fn digit_span(text: &Vec<char>, radix: u32) -> (r: Option<(usize, usize)>)
    ensures
        match r {
            Some((start, end)) => is_digit_span(text@, radix as nat, start as int, end as int),
            None => !has_digit(text@, radix as nat),
        },
{
    let n = text.len();
    let mut start: usize = 0;
    while start < n && !char_is_digit(text[start], radix)
        invariant
            start <= n,
            n == text@.len(),
            forall|j: int| 0 <= j < start ==> !is_digit(#[trigger] text@[j], radix as nat),
        decreases n - start,
    {
        start += 1;
    }
    if start == n {
        return None;
    }
    let mut end: usize = n - 1;
    while !char_is_digit(text[end], radix)
        invariant
            start <= end < n,
            n == text@.len(),
            is_digit(text@[start as int], radix as nat),
            forall|j: int| end < j < n ==> !is_digit(#[trigger] text@[j], radix as nat),
        decreases end,
    {
        end -= 1;
    }
    Some((start, end))
}

/// A number found in a word, kept exactly: a mantissa scaled by a power of
/// ten.
#[derive(Debug)]
pub struct Numeric {
    mantissa: BigNat,
    up: BigNat,
    down: BigNat,
}

impl View for Numeric {
    type V = (nat, int);

    /// The mantissa and the power of ten that scales it.
    closed spec fn view(&self) -> (nat, int) {
        (self.mantissa@, self.up@ - self.down@)
    }
}

proof fn lemma_pow10_add(a: nat, b: nat)
    ensures
        pow10(a + b) == pow10(a) * pow10(b),
    decreases a,
{
    if a == 0 {
        assert(pow10(0) == 1);
        assert(1 * pow10(b) == pow10(b));
    } else {
        lemma_pow10_add((a - 1) as nat, b);
        let x = pow10((a - 1) as nat) as int;
        let y = pow10(b) as int;
        assert(10 * (x * y) == (10 * x) * y) by (nonlinear_arith);
        assert(pow10(a + b) == 10 * pow10((a + b - 1) as nat));
    }
}

proof fn lemma_pow10_positive(n: nat)
    ensures
        pow10(n) >= 1,
    decreases n,
{
    if n > 0 {
        lemma_pow10_positive((n - 1) as nat);
    }
}

proof fn lemma_pow10_monotone(a: nat, b: nat)
    requires
        a <= b,
    ensures
        pow10(a) <= pow10(b),
{
    lemma_pow10_add(a, (b - a) as nat);
    lemma_pow10_positive((b - a) as nat);
    lemma_pow10_positive(a);
    let x = pow10(a) as int;
    let y = pow10((b - a) as nat) as int;
    assert(x * y >= x) by (nonlinear_arith)
        requires
            x >= 1,
            y >= 1,
    ;
}

proof fn lemma_weight_below_pow10(n: nat)
    ensures
        weight(n) <= pow10(10 * n),
    decreases n,
{
    if n > 0 {
        lemma_weight_below_pow10((n - 1) as nat);
        lemma_pow10_add(10, (10 * (n - 1)) as nat);
        assert(pow10(10) == 10_000_000_000) by {
            reveal_with_fuel(pow10, 11);
        }
        let w = weight((n - 1) as nat) as int;
        let p = pow10((10 * (n - 1)) as nat) as int;
        assert((BASE as int) * w <= 10_000_000_000 * p) by (nonlinear_arith)
            requires
                0 <= w <= p,
                BASE == 0x1_0000_0000,
        ;
    }
}

/// How `m1 * 10^d` stands to `m2`.
fn relate_scaled(m1: &BigNat, d: &BigNat, m2: &BigNat) -> (r: Relation)
    ensures
        r == crate::bignat::relate((m1@ * pow10(d@)) as int, m2@ as int),
{
    if m1.is_zero() {
        assert(m1@ * pow10(d@) == 0) by (nonlinear_arith)
            requires
                m1@ == 0,
        ;
        return m1.compare(m2);
    }
    let count = m2.limb_count();
    let cap = BigNat::from_u128(10 * (count as u128));
    match d.compare(&cap) {
        Relation::Less => {},
        _ => {
            proof {
                lemma_weight_below_pow10(count as nat);
                lemma_pow10_monotone(10 * (count as nat), d@);
                let a = m1@ as int;
                let p = pow10(d@) as int;
                assert(a * p >= p) by (nonlinear_arith)
                    requires
                        a >= 1,
                        p >= 0,
                ;
            }
            return Relation::Greater;
        },
    }
    let mut acc = m1.scale_add(1, 0);
    let mut done = BigNat::from_u128(0);
    assert(m1@ * 1 + 0 == m1@ * pow10(0)) by (nonlinear_arith)
        requires
            pow10(0) == 1,
    ;
    loop
        invariant
            done@ <= d@,
            acc@ == m1@ * pow10(done@),
        ensures
            done@ == d@,
            acc@ == m1@ * pow10(d@),
        decreases d@ - done@,
    {
        match done.compare(d) {
            Relation::Less => {},
            _ => {
                break ;
            },
        }
        proof {
            let a = m1@ as int;
            let p = pow10(done@) as int;
            assert((a * p) * 10 + 0 == a * (10 * p)) by (nonlinear_arith);
        }
        acc = acc.scale_add(10, 0);
        done = done.scale_add(1, 1);
    }
    acc.compare(m2)
}

impl Numeric {
    /// The whole number `v`.
    pub fn from_u32(v: u32) -> (n: Numeric)
        ensures
            n@ == (v as nat, 0int),
    {
        Numeric {
            mantissa: BigNat::from_u128(v as u128),
            up: BigNat::from_u128(0),
            down: BigNat::from_u128(0),
        }
    }

    /// How this number stands to `other`.
    fn relate_to(&self, other: &Numeric) -> (r: Relation)
        ensures
            (r == Relation::Greater) == quantity_exceeds(self@, other@),
            (r == Relation::Less) == quantity_exceeds(other@, self@),
    {
        let x = self.up.plus(&other.down);
        let y = other.up.plus(&self.down);
        match x.minus(&y) {
            Some(d) => {
                let r = relate_scaled(&self.mantissa, &d, &other.mantissa);
                proof {
                    if d@ == 0 {
                        assert(pow10(0) == 1);
                        assert(self.mantissa@ * 1 == self.mantissa@);
                        assert(other.mantissa@ * 1 == other.mantissa@);
                    }
                }
                r
            },
            None => {
                let d = y.minus(&x).unwrap();
                relate_scaled(&other.mantissa, &d, &self.mantissa).flip()
            },
        }
    }

    /// Whether this number is larger than `other`.
    pub fn exceeds(&self, other: &Numeric) -> (b: bool)
        ensures
            b == quantity_exceeds(self@, other@),
    {
        match self.relate_to(other) {
            Relation::Greater => true,
            _ => false,
        }
    }

    /// Whether the two numbers have the same value.
    pub fn same_value(&self, other: &Numeric) -> (b: bool)
        ensures
            b == (!quantity_exceeds(self@, other@) && !quantity_exceeds(other@, self@)),
    {
        match self.relate_to(other) {
            Relation::Equal => true,
            _ => false,
        }
    }
}

proof fn lemma_digits_value_grows(s: Seq<char>, i: int, radix: nat)
    requires
        0 <= i <= s.len(),
        radix >= 1,
    ensures
        digits_value(s.take(i), radix) <= digits_value(s, radix),
    decreases s.len(),
{
    if i == s.len() {
        assert(s.take(i) =~= s);
    } else {
        lemma_digits_value_grows(s.drop_last(), i, radix);
        assert(s.drop_last().take(i) =~= s.take(i));
        let v = digits_value(s.drop_last(), radix) as int;
        let r = radix as int;
        assert(v * r >= v) by (nonlinear_arith)
            requires
                v >= 0,
                r >= 1,
        ;
    }
}

/// Reads the run of decimal digits that starts at `from`, continuing the
/// number `acc` that the digits `seen` have given so far.
fn scan_digits(lit: &Vec<char>, from: usize, acc: BigNat, Ghost(seen): Ghost<Seq<char>>) -> (r: (
    usize,
    BigNat,
))
    requires
        from <= lit@.len(),
        acc@ == digits_value(seen, 10),
    ensures
        r.0 == digits_end(lit@, from as int),
        from <= r.0 <= lit@.len(),
        r.1@ == digits_value(seen + lit@.subrange(from as int, r.0 as int), 10),
{
    let n = lit.len();
    let mut i: usize = from;
    let mut acc = acc;
    assert(seen + lit@.subrange(from as int, from as int) =~= seen);
    while i < n
        invariant
            from <= i <= n,
            n == lit@.len(),
            digits_end(lit@, from as int) == digits_end(lit@, i as int),
            acc@ == digits_value(seen + lit@.subrange(from as int, i as int), 10),
        ensures
            digits_end(lit@, i as int) == i,
        decreases n - i,
    {
        let d = match digit_value(lit[i]) {
            Some(d) => d,
            None => {
                break ;
            },
        };
        if d >= 10 {
            break ;
        }
        proof {
            let before = seen + lit@.subrange(from as int, i as int);
            let after = seen + lit@.subrange(from as int, i + 1);
            assert(after.drop_last() =~= before);
            assert(after.last() == lit@[i as int]);
        }
        acc = acc.scale_add(10, d);
        i += 1;
    }
    (i, acc)
}

/// Reads a decimal literal.
fn parse_decimal_literal(lit: &Vec<char>) -> (r: Option<Numeric>)
    ensures
        match r {
            Some(n) => parse_decimal(lit@) == Some(n@),
            None => parse_decimal(lit@) is None,
        },
{
    let n = lit.len();
    let ghost s = lit@;
    let (i1, whole) = scan_digits(lit, 0, BigNat::from_u128(0), Ghost(Seq::empty()));
    assert(Seq::<char>::empty() + s.subrange(0, i1 as int) =~= s.subrange(0, i1 as int));
    if i1 == 0 {
        return None;
    }
    let dotted = i1 < n && lit[i1] == '.';
    let f0: usize = if dotted {
        i1 + 1
    } else {
        i1
    };
    let (f1, mantissa) = if dotted {
        scan_digits(lit, f0, whole, Ghost(s.subrange(0, i1 as int)))
    } else {
        assert(s.subrange(0, i1 as int) + s.subrange(f0 as int, i1 as int) =~= s.subrange(
            0,
            i1 as int,
        ));
        (i1, whole)
    };
    let frac = BigNat::from_u128((f1 - f0) as u128);
    if f1 == n {
        return Some(Numeric { mantissa, up: BigNat::from_u128(0), down: frac });
    }
    if lit[f1] != 'e' && lit[f1] != 'E' {
        return None;
    }
    let minus = f1 + 1 < n && lit[f1 + 1] == '-';
    let plus = f1 + 1 < n && lit[f1 + 1] == '+';
    let e0: usize = if minus || plus {
        f1 + 2
    } else {
        f1 + 1
    };
    let (e1, e) = scan_digits(lit, e0, BigNat::from_u128(0), Ghost(Seq::empty()));
    assert(Seq::<char>::empty() + s.subrange(e0 as int, e1 as int) =~= s.subrange(
        e0 as int,
        e1 as int,
    ));
    if e0 < e1 && e1 == n {
        if minus {
            Some(Numeric { mantissa, up: BigNat::from_u128(0), down: e.plus(&frac) })
        } else {
            Some(Numeric { mantissa, up: e, down: frac })
        }
    } else {
        None
    }
}

/// Reads an unsigned integer of at most 32 bits, written in base `radix`
/// with nothing but digits.
pub fn read_radix(lit: &Vec<char>, radix: u32) -> (r: Option<u32>)
    requires
        2 <= radix <= 36,
    ensures
        match r {
            Some(v) => parse_radix(lit@, radix as nat) == Some((v as nat, 0int)),
            None => parse_radix(lit@, radix as nat) is None,
        },
{
    let n = lit.len();
    if n == 0 {
        return None;
    }
    let mut acc: u64 = 0;
    let mut i: usize = 0;
    assert(lit@.take(0) =~= Seq::<char>::empty());
    while i < n
        invariant
            i <= n,
            n == lit@.len(),
            2 <= radix <= 36,
            all_digits(lit@.take(i as int), radix as nat),
            acc == digits_value(lit@.take(i as int), radix as nat),
            acc <= u32::MAX,
        decreases n - i,
    {
        let d = match digit_value(lit[i]) {
            Some(d) => d,
            None => {
                return None;
            },
        };
        if d >= radix {
            return None;
        }
        proof {
            assert(lit@.take(i + 1).drop_last() =~= lit@.take(i as int));
            assert(lit@.take(i + 1).last() == lit@[i as int]);
            assert forall|j: int| 0 <= j < i + 1 implies is_digit(
                #[trigger] lit@.take(i + 1)[j],
                radix as nat,
            ) by {
                if j < i {
                    assert(lit@.take(i as int)[j] == lit@.take(i + 1)[j]);
                }
            }
            lemma_digits_value_grows(lit@, i + 1, radix as nat);
        }
        assert(acc * (radix as u64) <= 0xffff_ffff * 36) by (nonlinear_arith)
            requires
                acc <= 0xffff_ffff,
                radix <= 36,
        ;
        let next: u64 = acc * (radix as u64) + d as u64;
        if next > 0xffff_ffff {
            return None;
        }
        acc = next;
        i += 1;
    }
    assert(lit@.take(n as int) =~= lit@);
    Some(acc as u32)
}

/// Reads an unsigned integer in base `radix`.
fn parse_radix_literal(lit: &Vec<char>, radix: u32) -> (r: Option<Numeric>)
    requires
        2 <= radix <= 36,
    ensures
        match r {
            Some(n) => parse_radix(lit@, radix as nat) == Some(n@),
            None => parse_radix(lit@, radix as nat) is None,
        },
{
    match read_radix(lit, radix) {
        Some(v) => Some(Numeric::from_u32(v)),
        None => None,
    }
}

/// The number found in a sequence of characters; see [`find_numeric`].
pub fn find_numeric_chars(text: &Vec<char>, radix: u32) -> (r: Option<Numeric>)
    requires
        2 <= radix <= 36,
    ensures
        match r {
            Some(n) => numeric_of(text@, radix as nat) == Some(n@),
            None => numeric_of(text@, radix as nat) is None,
        },
{
    match digit_span(text, radix) {
        None => None,
        Some((start, end)) => {
            proof {
                let s = text@;
                let rx = radix as nat;
                assert(is_digit(s[start as int], rx));
                assert(has_digit(s, rx));
                let (a, b) = choose|a: int, b: int| is_digit_span(s, rx, a, b);
                assert(is_digit_span(s, rx, a, b));
                lemma_span_unique(s, rx, a, b, start as int, end as int);
            }
            let lit = copy_range(text, start, end);
            if radix == 10 {
                parse_decimal_literal(&lit)
            } else {
                parse_radix_literal(&lit, radix)
            }
        },
    }
}

/// Finds the number in a word. The text from the first digit up to, but
/// not including, the last digit is read: in base ten as a decimal literal
/// that may hold a fraction and an exponent, in any other base as an
/// unsigned integer of at most 32 bits. Characters that are no digits do not
/// end the search, but they make the literal unreadable when they fall
/// inside it. `None` where there is no digit or the literal cannot be read.
pub fn find_numeric(a: &str, radix: u32) -> (r: Option<Numeric>)
    requires
        2 <= radix <= 36,
    ensures
        match r {
            Some(n) => numeric_of(a@, radix as nat) == Some(n@),
            None => numeric_of(a@, radix as nat) is None,
        },
{
    let text = chars_of(a);
    find_numeric_chars(&text, radix)
}

} // verus!
