//! Text as sequences of characters: splitting on a delimiter and joining back.

use vstd::prelude::*;

verus! {

/// The pieces of `s` found by a scan that has reached position `i` with the
/// current piece starting at `start`.
pub open spec fn split_from(s: Seq<char>, sep: char, start: int, i: int) -> Seq<Seq<char>>
    decreases s.len() - i,
{
    if i >= s.len() {
        seq![s.subrange(start, s.len() as int)]
    } else if s[i] == sep {
        seq![s.subrange(start, i)] + split_from(s, sep, i + 1, i + 1)
    } else {
        split_from(s, sep, start, i + 1)
    }
}

/// The pieces of `s` between occurrences of `sep`. There is always at least
/// one piece; a delimiter at either end, or two in a row, gives an empty piece.
pub open spec fn split(s: Seq<char>, sep: char) -> Seq<Seq<char>> {
    split_from(s, sep, 0, 0)
}

/// The pieces put back together with `sep` between neighbours.
pub open spec fn join(pieces: Seq<Seq<char>>, sep: char) -> Seq<char>
    decreases pieces.len(),
{
    if pieces.len() == 0 {
        Seq::empty()
    } else if pieces.len() == 1 {
        pieces[0]
    } else {
        join(pieces.drop_last(), sep).push(sep) + pieces.last()
    }
}

/// The character sequences that a vector of owned pieces stands for.
pub open spec fn views(v: Seq<Vec<char>>) -> Seq<Seq<char>> {
    Seq::new(v.len(), |i: int| v[i]@)
}

pub proof fn lemma_split_from_nonempty(s: Seq<char>, sep: char, start: int, i: int)
    requires
        0 <= start <= i <= s.len(),
    ensures
        split_from(s, sep, start, i).len() >= 1,
    decreases s.len() - i,
{
    if i < s.len() {
        if s[i] == sep {
            lemma_split_from_nonempty(s, sep, i + 1, i + 1);
        } else {
            lemma_split_from_nonempty(s, sep, start, i + 1);
        }
    }
}

/// Splitting always yields at least one piece.
pub proof fn lemma_split_nonempty(s: Seq<char>, sep: char)
    ensures
        split(s, sep).len() >= 1,
{
    lemma_split_from_nonempty(s, sep, 0, 0);
}

proof fn lemma_join_cons(x: Seq<char>, rest: Seq<Seq<char>>, sep: char)
    requires
        rest.len() >= 1,
    ensures
        join(seq![x] + rest, sep) == x.push(sep) + join(rest, sep),
    decreases rest.len(),
{
    let all = seq![x] + rest;
    if rest.len() == 1 {
        assert(all.drop_last() =~= seq![x]);
        assert(all.last() == rest[0]);
        assert(join(seq![x], sep) == x);
    } else {
        assert(all.drop_last() =~= seq![x] + rest.drop_last());
        assert(all.last() == rest.last());
        lemma_join_cons(x, rest.drop_last(), sep);
        assert(join(all, sep) =~= x.push(sep) + join(rest, sep));
    }
}

proof fn lemma_join_split_from(s: Seq<char>, sep: char, start: int, i: int)
    requires
        0 <= start <= i <= s.len(),
        forall|j: int| start <= j < i ==> s[j] != sep,
    ensures
        join(split_from(s, sep, start, i), sep) == s.subrange(start, s.len() as int),
    decreases s.len() - i,
{
    if i < s.len() {
        if s[i] == sep {
            lemma_join_split_from(s, sep, i + 1, i + 1);
            lemma_split_from_nonempty(s, sep, i + 1, i + 1);
            lemma_join_cons(s.subrange(start, i), split_from(s, sep, i + 1, i + 1), sep);
            assert(s.subrange(start, i).push(sep) + s.subrange(i + 1, s.len() as int)
                =~= s.subrange(start, s.len() as int));
        } else {
            lemma_join_split_from(s, sep, start, i + 1);
        }
    }
}

/// Joining the pieces of a split with the same delimiter gives the text back.
pub proof fn lemma_join_split(s: Seq<char>, sep: char)
    ensures
        join(split(s, sep), sep) == s,
{
    lemma_join_split_from(s, sep, 0, 0);
    assert(s.subrange(0, s.len() as int) =~= s);
}

/// Joining one piece more appends a delimiter and that piece, but for the
/// first piece, which stands alone.
pub proof fn lemma_join_step(pieces: Seq<Seq<char>>, k: int, sep: char)
    requires
        0 <= k < pieces.len(),
    ensures
        join(pieces.take(k + 1), sep) == if k == 0 {
            pieces[0]
        } else {
            join(pieces.take(k), sep).push(sep) + pieces[k]
        },
{
    let p = pieces.take(k + 1);
    assert(p.last() == pieces[k]);
    assert(p.drop_last() =~= pieces.take(k));
    if k == 0 {
        assert(p[0] == pieces[0]);
    }
}

/// The characters of `text`, in order.
pub fn chars_of(text: &str) -> (v: Vec<char>)
    ensures
        v@ == text@,
{
    let mut v: Vec<char> = Vec::new();
    for c in it: text.chars()
        invariant
            it.seq() == text@,
            v@ == text@.take(it.index() as int),
    {
        v.push(c);
        assert(text@.take(it.index() + 1) =~= text@.take(it.index() as int).push(c));
    }
    assert(text@.take(text@.len() as int) =~= text@);
    v
}

/// A copy of the characters of `text` from `from` up to `to`.
pub fn copy_range(text: &Vec<char>, from: usize, to: usize) -> (v: Vec<char>)
    requires
        from <= to <= text@.len(),
    ensures
        v@ == text@.subrange(from as int, to as int),
{
    let mut v: Vec<char> = Vec::new();
    let mut i: usize = from;
    while i < to
        invariant
            from <= i <= to <= text@.len(),
            v@ == text@.subrange(from as int, i as int),
        decreases to - i,
    {
        v.push(text[i]);
        assert(text@.subrange(from as int, i + 1) =~= text@.subrange(from as int, i as int).push(
            text@[i as int],
        ));
        i += 1;
    }
    v
}

/// Splits `text` on every occurrence of `sep`.
pub fn split_text(text: &Vec<char>, sep: char) -> (pieces: Vec<Vec<char>>)
    ensures
        views(pieces@) == split(text@, sep),
        pieces@.len() >= 1,
{
    let mut pieces: Vec<Vec<char>> = Vec::new();
    let mut start: usize = 0;
    let mut i: usize = 0;
    let n = text.len();
    while i < n
        invariant
            n == text@.len(),
            0 <= start <= i <= n,
            split(text@, sep) == views(pieces@) + split_from(text@, sep, start as int, i as int),
        decreases n - i,
    {
        if text[i] == sep {
            let piece = copy_range(text, start, i);
            let ghost before = views(pieces@);
            pieces.push(piece);
            assert(views(pieces@) =~= before.push(text@.subrange(start as int, i as int)));
            assert(before + (seq![text@.subrange(start as int, i as int)] + split_from(
                text@,
                sep,
                i + 1,
                i + 1,
            )) =~= views(pieces@) + split_from(text@, sep, i + 1, i + 1));
            start = i + 1;
        }
        i += 1;
    }
    let piece = copy_range(text, start, n);
    let ghost before = views(pieces@);
    pieces.push(piece);
    assert(views(pieces@) =~= before.push(text@.subrange(start as int, n as int)));
    assert(views(pieces@) =~= split(text@, sep));
    pieces
}

/// Appends the characters of `text` to `out`.
pub fn push_str_chars(out: &mut Vec<char>, text: &str)
    ensures
        final(out)@ == old(out)@ + text@,
{
    let ghost before = out@;
    for c in it: text.chars()
        invariant
            it.seq() == text@,
            out@ == before + text@.take(it.index() as int),
    {
        out.push(c);
        assert(text@.take(it.index() + 1) =~= text@.take(it.index() as int).push(c));
    }
    assert(text@.take(text@.len() as int) =~= text@);
}

/// Appends the characters of `more` to `out`.
pub fn push_chars(out: &mut Vec<char>, more: &Vec<char>)
    ensures
        final(out)@ == old(out)@ + more@,
{
    let ghost before = out@;
    let n = more.len();
    let mut i: usize = 0;
    assert(more@.take(0) =~= Seq::<char>::empty());
    assert(before + Seq::<char>::empty() =~= before);
    while i < n
        invariant
            i <= n,
            n == more@.len(),
            out@ == before + more@.take(i as int),
        decreases n - i,
    {
        out.push(more[i]);
        assert(more@.take(i + 1) =~= more@.take(i as int).push(more@[i as int]));
        assert(before + more@.take(i + 1) =~= (before + more@.take(i as int)).push(more@[i as int]));
        i += 1;
    }
    assert(more@.take(n as int) =~= more@);
}

/// Collects characters into a `String` with std's `Iterator::collect`; the
/// string holds exactly those characters, in order.
#[verifier::external_body]
pub(crate) fn string_of(chars: &Vec<char>) -> (s: String)
    ensures
        s@ == chars@,
{
    chars.iter().collect()
}

} // verus!
