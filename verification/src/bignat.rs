//! Natural numbers of unbounded size, used to compare scores exactly.

use vstd::prelude::*;

verus! {

/// The radix of one limb.
pub const BASE: u64 = 0x1_0000_0000;

/// How two quantities stand to each other.
#[derive(Clone, Copy, Debug, PartialEq, Eq, Structural)]
pub enum Relation {
    Less,
    Equal,
    Greater,
}

impl Relation {
    /// The relation seen from the other side.
    pub open spec fn flipped(self) -> Relation {
        match self {
            Relation::Less => Relation::Greater,
            Relation::Equal => Relation::Equal,
            Relation::Greater => Relation::Less,
        }
    }

    /// Exchanges `Less` and `Greater`.
    pub fn flip(self) -> (r: Relation)
        ensures
            r == self.flipped(),
    {
        match self {
            Relation::Less => Relation::Greater,
            Relation::Equal => Relation::Equal,
            Relation::Greater => Relation::Less,
        }
    }
}

/// How two integers stand to each other.
pub open spec fn relate(a: int, b: int) -> Relation {
    if a < b {
        Relation::Less
    } else if a == b {
        Relation::Equal
    } else {
        Relation::Greater
    }
}

/// `BASE` raised to the power `n`.
pub open spec fn weight(n: nat) -> nat
    decreases n,
{
    if n == 0 {
        1
    } else {
        (BASE as nat) * weight((n - 1) as nat)
    }
}

/// The number that little-endian limbs stand for.
pub open spec fn limbs_value(s: Seq<u32>) -> nat
    decreases s.len(),
{
    if s.len() == 0 {
        0
    } else {
        s[0] as nat + (BASE as nat) * limbs_value(s.drop_first())
    }
}

/// The limb at position `i`, zero beyond the end.
pub open spec fn limb(s: Seq<u32>, i: int) -> nat {
    if 0 <= i < s.len() {
        s[i] as nat
    } else {
        0
    }
}

/// The number held by the lowest `i` limbs.
pub open spec fn prefix(s: Seq<u32>, i: int) -> nat {
    if i < s.len() {
        limbs_value(s.take(i))
    } else {
        limbs_value(s)
    }
}

proof fn lemma_push(s: Seq<u32>, d: u32)
    ensures
        limbs_value(s.push(d)) == limbs_value(s) + d * weight(s.len()),
    decreases s.len(),
{
    if s.len() == 0 {
        assert(s.push(d).drop_first() =~= Seq::<u32>::empty());
        assert(limbs_value(s.push(d).drop_first()) == 0);
        assert(s.push(d)[0] == d);
        assert(limbs_value(s.push(d)) == d as nat + (BASE as nat) * 0);
        assert(weight(0) == 1);
        assert(d * 1 == d);
    } else {
        let t = s.drop_first();
        assert(s.push(d).drop_first() =~= t.push(d));
        lemma_push(t, d);
        let b = BASE as int;
        let v = limbs_value(t) as int;
        let w = weight(t.len()) as int;
        let dd = d as int;
        assert(b * (v + dd * w) == b * v + dd * (b * w)) by (nonlinear_arith);
        assert(weight(s.len()) == b * w);
        assert(s.push(d)[0] == s[0]);
        assert(limbs_value(s.push(d)) == s[0] as nat + (BASE as nat) * limbs_value(t.push(d)));
        assert(limbs_value(s) == s[0] as nat + (BASE as nat) * limbs_value(t));
    }
}

proof fn lemma_bound(s: Seq<u32>)
    ensures
        limbs_value(s) < weight(s.len()),
    decreases s.len(),
{
    if s.len() > 0 {
        let t = s.drop_first();
        lemma_bound(t);
        let b = BASE as int;
        let v = limbs_value(t) as int;
        let w = weight(t.len()) as int;
        assert(v + 1 <= w ==> b * v + b <= b * w) by (nonlinear_arith)
            requires
                b > 0,
        ;
    }
}

proof fn lemma_weight_positive(n: nat)
    ensures
        weight(n) >= 1,
    decreases n,
{
    if n > 0 {
        lemma_weight_positive((n - 1) as nat);
        let b = BASE as int;
        let w = weight((n - 1) as nat) as int;
        assert(w >= 1 ==> b * w >= 1) by (nonlinear_arith)
            requires
                b >= 1,
        ;
    }
}

proof fn lemma_prefix_step(s: Seq<u32>, i: int)
    requires
        0 <= i,
    ensures
        prefix(s, i + 1) == prefix(s, i) + limb(s, i) * weight(i as nat),
{
    if i < s.len() {
        assert(s.take(i + 1) =~= s.take(i).push(s[i]));
        assert(s.take(i).len() == i);
        lemma_push(s.take(i), s[i]);
        if i + 1 == s.len() {
            assert(s.take(i + 1) =~= s);
        }
    } else {
        assert(limb(s, i) * weight(i as nat) == 0) by (nonlinear_arith)
            requires
                limb(s, i) == 0,
        ;
    }
}

proof fn lemma_prefix_zero(s: Seq<u32>)
    ensures
        prefix(s, 0) == 0,
{
    if 0 < s.len() {
        assert(s.take(0) =~= Seq::<u32>::empty());
    }
}

proof fn lemma_split(t: int, w: int)
    requires
        0 <= t,
    ensures
        (t % (BASE as int)) * w + (t / (BASE as int)) * ((BASE as int) * w) == t * w,
{
    let b = BASE as int;
    let q = t / b;
    let r = t % b;
    assert(t == q * b + r);
    assert(r * w + q * (b * w) == (q * b + r) * w) by (nonlinear_arith);
}

proof fn lemma_zero_limbs(s: Seq<u32>)
    requires
        forall|i: int| 0 <= i < s.len() ==> s[i] == 0,
    ensures
        limbs_value(s) == 0,
    decreases s.len(),
{
    if s.len() > 0 {
        lemma_zero_limbs(s.drop_first());
    }
}

proof fn lemma_nonzero_limb(s: Seq<u32>, i: int)
    requires
        0 <= i < s.len(),
        s[i] > 0,
    ensures
        limbs_value(s) >= weight(i as nat),
    decreases s.len(),
{
    if i > 0 {
        let t = s.drop_first();
        lemma_nonzero_limb(t, i - 1);
        let b = BASE as int;
        let v = limbs_value(t) as int;
        let w = weight((i - 1) as nat) as int;
        assert(v >= w ==> b * v >= b * w) by (nonlinear_arith)
            requires
                b >= 0,
        ;
    } else {
        let b = BASE as int;
        let v = limbs_value(s.drop_first()) as int;
        assert(b * v >= 0) by (nonlinear_arith)
            requires
                b >= 0,
                v >= 0,
        ;
    }
}

fn limb_or_zero(v: &Vec<u32>, i: usize) -> (r: u32)
    ensures
        r as nat == limb(v@, i as int),
{
    if i < v.len() {
        v[i]
    } else {
        0
    }
}

/// A natural number of any size.
#[derive(Debug)]
pub struct BigNat {
    limbs: Vec<u32>,
}

impl View for BigNat {
    type V = nat;

    closed spec fn view(&self) -> nat {
        limbs_value(self.limbs@)
    }
}

impl BigNat {
    /// The number `x`.
    pub fn from_u128(x: u128) -> (n: BigNat)
        ensures
            n@ == x,
    {
        let b: u128 = 0x1_0000_0000;
        let l0: u32 = (x % b) as u32;
        let x1: u128 = x / b;
        let l1: u32 = (x1 % b) as u32;
        let x2: u128 = x1 / b;
        let l2: u32 = (x2 % b) as u32;
        let x3: u128 = x2 / b;
        let l3: u32 = x3 as u32;
        let mut limbs: Vec<u32> = Vec::new();
        limbs.push(l0);
        limbs.push(l1);
        limbs.push(l2);
        limbs.push(l3);
        proof {
            let s0 = Seq::<u32>::empty();
            lemma_push(s0, l0);
            lemma_push(s0.push(l0), l1);
            lemma_push(s0.push(l0).push(l1), l2);
            lemma_push(s0.push(l0).push(l1).push(l2), l3);
            assert(limbs@ =~= s0.push(l0).push(l1).push(l2).push(l3));
            assert(weight(0) == 1);
            assert(weight(1) == 0x1_0000_0000);
            assert(weight(2) == 0x1_0000_0000_0000_0000) by {
                reveal_with_fuel(weight, 3);
            }
            assert(weight(3) == 0x1_0000_0000_0000_0000_0000_0000) by {
                reveal_with_fuel(weight, 4);
            }
            assert(x == l0 + 0x1_0000_0000 * x1);
            assert(x1 == l1 + 0x1_0000_0000 * x2);
            assert(x2 == l2 + 0x1_0000_0000 * x3);
            assert(x3 == l3);
            assert(limbs_value(s0) == 0);
            assert(limbs_value(limbs@) == l0 * 1 + l1 * 0x1_0000_0000 + l2
                * 0x1_0000_0000_0000_0000 + l3 * 0x1_0000_0000_0000_0000_0000_0000);
        }
        BigNat { limbs }
    }

    /// A count `n` such that the number lies below `BASE` to the power `n`.
    pub(crate) fn limb_count(&self) -> (n: usize)
        ensures
            self@ < weight(n as nat),
    {
        proof {
            lemma_bound(self.limbs@);
        }
        self.limbs.len()
    }

    /// The sum of the two numbers.
    pub fn plus(&self, other: &BigNat) -> (sum: BigNat)
        ensures
            sum@ == self@ + other@,
    {
        let n = if self.limbs.len() > other.limbs.len() {
            self.limbs.len()
        } else {
            other.limbs.len()
        };
        let mut out: Vec<u32> = Vec::new();
        let mut carry: u64 = 0;
        let mut i: usize = 0;
        proof {
            lemma_prefix_zero(self.limbs@);
            lemma_prefix_zero(other.limbs@);
        }
        while i < n
            invariant
                i <= n,
                out@.len() == i,
                carry <= 1,
                limbs_value(out@) + carry * weight(i as nat) == prefix(self.limbs@, i as int)
                    + prefix(other.limbs@, i as int),
            decreases n - i,
        {
            let x: u64 = limb_or_zero(&self.limbs, i) as u64;
            let y: u64 = limb_or_zero(&other.limbs, i) as u64;
            let t: u64 = x + y + carry;
            let lo: u32 = (t % BASE) as u32;
            let hi: u64 = t / BASE;
            proof {
                lemma_push(out@, lo);
                lemma_prefix_step(self.limbs@, i as int);
                lemma_prefix_step(other.limbs@, i as int);
                lemma_split(t as int, weight(i as nat) as int);
                let w = weight(i as nat) as int;
                assert((x + y + carry) * w == x * w + y * w + carry * w) by (nonlinear_arith);
            }
            out.push(lo);
            carry = hi;
            i += 1;
        }
        proof {
            lemma_push(out@, carry as u32);
        }
        out.push(carry as u32);
        BigNat { limbs: out }
    }

    /// The number `self * k + c`.
    pub fn scale_add(&self, k: u32, c: u32) -> (r: BigNat)
        ensures
            r@ == self@ * k + c,
    {
        let n = self.limbs.len();
        let mut out: Vec<u32> = Vec::new();
        let mut carry: u64 = c as u64;
        let mut i: usize = 0;
        proof {
            lemma_prefix_zero(self.limbs@);
            assert(limbs_value(out@) == 0);
            assert(weight(0) == 1);
            assert(0 * (k as int) == 0);
            assert(carry * 1 == c);
        }
        while i < n
            invariant
                i <= n,
                n == self.limbs@.len(),
                out@.len() == i,
                carry < BASE,
                limbs_value(out@) + carry * weight(i as nat) == prefix(self.limbs@, i as int) * k
                    + c,
            decreases n - i,
        {
            let x: u64 = self.limbs[i] as u64;
            assert(x * (k as u64) <= 0xffff_ffff * 0xffff_ffff) by (nonlinear_arith)
                requires
                    x <= 0xffff_ffff,
                    k <= 0xffff_ffff,
            ;
            let t: u64 = x * (k as u64) + carry;
            let lo: u32 = (t % BASE) as u32;
            let hi: u64 = t / BASE;
            proof {
                lemma_push(out@, lo);
                lemma_prefix_step(self.limbs@, i as int);
                lemma_split(t as int, weight(i as nat) as int);
                let w = weight(i as nat) as int;
                let p = prefix(self.limbs@, i as int) as int;
                assert((x * k + carry) * w == (x * w) * k + carry * w) by (nonlinear_arith);
                assert((p + x * w) * k == p * k + (x * w) * k) by (nonlinear_arith);
            }
            out.push(lo);
            carry = hi;
            i += 1;
        }
        proof {
            lemma_push(out@, carry as u32);
        }
        out.push(carry as u32);
        BigNat { limbs: out }
    }

    /// The number `self * BASE`.
    fn shifted(&self) -> (r: BigNat)
        ensures
            r@ == self@ * BASE,
    {
        let mut out: Vec<u32> = Vec::new();
        out.push(0);
        let n = self.limbs.len();
        let mut i: usize = 0;
        while i < n
            invariant
                i <= n,
                n == self.limbs@.len(),
                out@ =~= seq![0u32] + self.limbs@.take(i as int),
            decreases n - i,
        {
            out.push(self.limbs[i]);
            assert(self.limbs@.take(i + 1) =~= self.limbs@.take(i as int).push(self.limbs@[i as int]));
            i += 1;
        }
        proof {
            assert(self.limbs@.take(n as int) =~= self.limbs@);
            assert(out@.drop_first() =~= self.limbs@);
            assert((BASE as nat) * limbs_value(self.limbs@) == limbs_value(self.limbs@) * BASE)
                by (nonlinear_arith);
        }
        BigNat { limbs: out }
    }

    /// The product of the two numbers.
    pub fn times(&self, other: &BigNat) -> (r: BigNat)
        ensures
            r@ == self@ * other@,
    {
        let mut acc = BigNat { limbs: Vec::new() };
        let mut j: usize = other.limbs.len();
        proof {
            assert(other.limbs@.skip(j as int) =~= Seq::<u32>::empty());
            assert(self@ * 0 == 0) by (nonlinear_arith);
        }
        while j > 0
            invariant
                j <= other.limbs@.len(),
                acc@ == self@ * limbs_value(other.limbs@.skip(j as int)),
            decreases j,
        {
            j -= 1;
            let part = self.scale_add(other.limbs[j], 0);
            let lifted = acc.shifted();
            proof {
                let rest = other.limbs@.skip(j + 1);
                let cur = other.limbs@.skip(j as int);
                assert(cur.drop_first() =~= rest);
                assert(cur[0] == other.limbs@[j as int]);
                let a = self@ as int;
                let d = other.limbs@[j as int] as int;
                let v = limbs_value(rest) as int;
                let b = BASE as int;
                assert((a * v) * b + a * d == a * (d + b * v)) by (nonlinear_arith);
            }
            acc = lifted.plus(&part);
        }
        proof {
            assert(other.limbs@.skip(0) =~= other.limbs@);
        }
        acc
    }

    /// Whether the number is zero.
    pub fn is_zero(&self) -> (z: bool)
        ensures
            z == (self@ == 0),
    {
        let n = self.limbs.len();
        let mut i: usize = 0;
        while i < n
            invariant
                i <= n,
                n == self.limbs@.len(),
                forall|j: int| 0 <= j < i ==> self.limbs@[j] == 0,
            decreases n - i,
        {
            if self.limbs[i] != 0 {
                proof {
                    lemma_nonzero_limb(self.limbs@, i as int);
                    lemma_weight_positive(i as nat);
                }
                return false;
            }
            i += 1;
        }
        proof {
            lemma_zero_limbs(self.limbs@);
        }
        true
    }

    /// Subtracts limb by limb. Without a final borrow the result is
    /// `self - other`; with one, `self` is the smaller number.
    fn borrow_minus(&self, other: &BigNat) -> (r: (BigNat, bool))
        ensures
            !r.1 ==> self@ >= other@ && r.0@ == self@ - other@,
            r.1 ==> self@ < other@,
    {
        let n = if self.limbs.len() > other.limbs.len() {
            self.limbs.len()
        } else {
            other.limbs.len()
        };
        let mut out: Vec<u32> = Vec::new();
        let mut borrow: u64 = 0;
        let mut i: usize = 0;
        proof {
            lemma_prefix_zero(self.limbs@);
            lemma_prefix_zero(other.limbs@);
        }
        while i < n
            invariant
                i <= n,
                out@.len() == i,
                borrow <= 1,
                limbs_value(out@) + prefix(other.limbs@, i as int) == prefix(self.limbs@, i as int)
                    + borrow * weight(i as nat),
            decreases n - i,
        {
            let x: u64 = limb_or_zero(&self.limbs, i) as u64;
            let y: u64 = limb_or_zero(&other.limbs, i) as u64 + borrow;
            let lo: u32;
            let next: u64;
            if x >= y {
                lo = (x - y) as u32;
                next = 0;
            } else {
                lo = (x + BASE - y) as u32;
                next = 1;
            }
            proof {
                lemma_push(out@, lo);
                lemma_prefix_step(self.limbs@, i as int);
                lemma_prefix_step(other.limbs@, i as int);
                let w = weight(i as nat) as int;
                let b = BASE as int;
                let yl = limb(other.limbs@, i as int) as int;
                assert(weight((i + 1) as nat) == b * w);
                assert(lo + yl + borrow == x + next * b);
                assert((lo + yl + borrow) * w == lo * w + yl * w + borrow * w) by (nonlinear_arith);
                assert((x + next * b) * w == x * w + next * (b * w)) by (nonlinear_arith);
            }
            out.push(lo);
            borrow = next;
            i += 1;
        }
        proof {
            lemma_bound(out@);
        }
        (BigNat { limbs: out }, borrow == 1)
    }

    /// How `self` stands to `other`.
    pub fn compare(&self, other: &BigNat) -> (r: Relation)
        ensures
            r == relate(self@ as int, other@ as int),
    {
        let (d, borrowed) = self.borrow_minus(other);
        if borrowed {
            Relation::Less
        } else if d.is_zero() {
            Relation::Equal
        } else {
            Relation::Greater
        }
    }

    /// `self - other` where that is not negative, `None` where it is.
    pub fn minus(&self, other: &BigNat) -> (r: Option<BigNat>)
        ensures
            self@ >= other@ ==> r.is_some() && r.unwrap()@ == self@ - other@,
            self@ < other@ ==> r.is_none(),
    {
        let (d, borrowed) = self.borrow_minus(other);
        if borrowed {
            None
        } else {
            Some(d)
        }
    }
}

} // verus!
