//! The similarity of two short strings: the share of agreeing positions over
//! their common prefix, with one added above and below.

use vstd::prelude::*;
use crate::text::chars_of;

verus! {

/// How many of the first `n` positions hold the same character in `a` and `b`.
pub open spec fn agreeing(a: Seq<char>, b: Seq<char>, n: nat) -> nat
    decreases n,
{
    if n == 0 {
        0
    } else {
        agreeing(a, b, (n - 1) as nat) + if a[n - 1] == b[n - 1] {
            1nat
        } else {
            0nat
        }
    }
}

/// The number of positions that both strings have.
pub open spec fn overlap(a: Seq<char>, b: Seq<char>) -> nat {
    if a.len() <= b.len() {
        a.len()
    } else {
        b.len()
    }
}

/// Numerator of the similarity of `a` and `b`: one more than the agreeing
/// positions of their common prefix.
pub open spec fn similarity_num(a: Seq<char>, b: Seq<char>) -> nat {
    1 + agreeing(a, b, overlap(a, b))
}

/// Denominator of the similarity of `a` and `b`: one more than the length of
/// their common prefix.
pub open spec fn similarity_den(a: Seq<char>, b: Seq<char>) -> nat {
    1 + overlap(a, b)
}

/// No more positions agree than were looked at.
pub proof fn lemma_agreeing_bound(a: Seq<char>, b: Seq<char>, n: nat)
    ensures
        agreeing(a, b, n) <= n,
    decreases n,
{
    if n > 0 {
        lemma_agreeing_bound(a, b, (n - 1) as nat);
    }
}

/// Every position of a string agrees with itself.
pub proof fn lemma_agreeing_self(a: Seq<char>, n: nat)
    ensures
        agreeing(a, a, n) == n,
    decreases n,
{
    if n > 0 {
        lemma_agreeing_self(a, (n - 1) as nat);
    }
}

/// The similarity of two strings does not depend on their order.
pub proof fn lemma_similarity_symmetric(a: Seq<char>, b: Seq<char>)
    ensures
        similarity_num(a, b) == similarity_num(b, a),
        similarity_den(a, b) == similarity_den(b, a),
{
    lemma_agreeing_symmetric(a, b, overlap(a, b));
}

proof fn lemma_agreeing_symmetric(a: Seq<char>, b: Seq<char>, n: nat)
    ensures
        agreeing(a, b, n) == agreeing(b, a, n),
    decreases n,
{
    if n > 0 {
        lemma_agreeing_symmetric(a, b, (n - 1) as nat);
    }
}

/// A string is fully similar to itself: numerator and denominator coincide,
/// so the score is exactly one.
pub proof fn lemma_similarity_reflexive(a: Seq<char>)
    ensures
        similarity_num(a, a) == similarity_den(a, a),
{
    lemma_agreeing_self(a, a.len());
}

/// The score lies above zero and at most at one, for all strings, empty
/// ones included.
pub proof fn lemma_similarity_bounded(a: Seq<char>, b: Seq<char>)
    ensures
        0 < similarity_num(a, b) <= similarity_den(a, b),
{
    lemma_agreeing_bound(a, b, overlap(a, b));
}

/// The score is one exactly when the shorter string is a prefix of the other.
pub proof fn lemma_similarity_one(a: Seq<char>, b: Seq<char>)
    ensures
        similarity_num(a, b) == similarity_den(a, b) <==> (forall|i: int|
            0 <= i < overlap(a, b) ==> a[i] == b[i]),
{
    lemma_agreeing_full(a, b, overlap(a, b));
}

proof fn lemma_agreeing_full(a: Seq<char>, b: Seq<char>, n: nat)
    ensures
        agreeing(a, b, n) == n <==> (forall|i: int| 0 <= i < n ==> a[i] == b[i]),
    decreases n,
{
    if n > 0 {
        lemma_agreeing_full(a, b, (n - 1) as nat);
        lemma_agreeing_bound(a, b, (n - 1) as nat);
        if agreeing(a, b, n) == n {
            assert(a[n - 1] == b[n - 1]);
            assert forall|i: int| 0 <= i < n implies a[i] == b[i] by {
                if i < n - 1 {
                }
            }
        }
    }
}

/// A similarity score, kept as an exact fraction.
#[derive(Clone, Copy, Debug)]
pub struct Similarity {
    matched: usize,
    compared: usize,
}

impl Similarity {
    #[verifier::type_invariant]
    spec fn well_formed(self) -> bool {
        self.matched <= self.compared
    }

    /// Numerator of the score.
    pub closed spec fn num(self) -> nat {
        (self.matched + 1) as nat
    }

    /// Denominator of the score.
    pub closed spec fn den(self) -> nat {
        (self.compared + 1) as nat
    }

    /// Numerator of the score.
    pub fn numerator(&self) -> (n: u128)
        ensures
            n == self.num(),
            0 < n <= self.den(),
    {
        proof {
            use_type_invariant(self);
        }
        self.matched as u128 + 1
    }

    /// Denominator of the score.
    pub fn denominator(&self) -> (d: u128)
        ensures
            d == self.den(),
            self.num() <= d <= usize::MAX + 1,
    {
        proof {
            use_type_invariant(self);
        }
        self.compared as u128 + 1
    }

    /// Whether the score is exactly one.
    pub fn is_one(&self) -> (b: bool)
        ensures
            b == (self.num() == self.den()),
    {
        self.matched == self.compared
    }
}

/// The similarity of two character sequences.
pub fn similarity_chars(a: &Vec<char>, b: &Vec<char>) -> (s: Similarity)
    ensures
        s.num() == similarity_num(a@, b@),
        s.den() == similarity_den(a@, b@),
{
    let n = if a.len() <= b.len() {
        a.len()
    } else {
        b.len()
    };
    let mut matched: usize = 0;
    let mut i: usize = 0;
    while i < n
        invariant
            i <= n,
            n == overlap(a@, b@),
            matched == agreeing(a@, b@, i as nat),
            matched <= i,
        decreases n - i,
    {
        if a[i] == b[i] {
            matched += 1;
        }
        i += 1;
    }
    Similarity { matched, compared: n }
}

/// The similarity of two strings: characters are compared position by
/// position over the shorter length; the score is the number of agreeing
/// positions plus one, over the number of compared positions plus one.
pub fn similarity(a: &str, b: &str) -> (s: Similarity)
    ensures
        s.num() == similarity_num(a@, b@),
        s.den() == similarity_den(a@, b@),
        0 < s.num() <= s.den(),
        a@ == b@ ==> s.num() == s.den(),
{
    let x = chars_of(a);
    let y = chars_of(b);
    proof {
        lemma_similarity_bounded(a@, b@);
        lemma_similarity_reflexive(a@);
    }
    similarity_chars(&x, &y)
}

} // verus!
