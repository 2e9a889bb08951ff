//! Aligning the lines and words of a frame with those of the previous one,
//! and classifying each word by how it changed.

use vstd::prelude::*;
use crate::bignat::Relation;
use crate::numeric::{find_numeric_chars, numeric_of, quantity_exceeds};
use crate::score::{
    exceeds_half, lemma_exact_line_match_wins, lemma_exact_word_match_wins,
    lemma_half_is_upward_closed, lemma_in_place_exceeds_half, lemma_line_score_relation_flips,
    lemma_line_scores_are_transitive, lemma_word_score_relation_flips,
    lemma_word_scores_are_transitive, line_score_relation, near_one, relate_line_scores, relate_word_scores, similarity_near_one,
    word_score_exceeds_half, word_score_relation,
};
use crate::similarity::{
    lemma_similarity_bounded, lemma_similarity_reflexive, similarity_chars, similarity_den,
    similarity_num, Similarity,
};
use crate::text::{split, split_text, views};

verus! {

/// What became of a word since the previous frame.
#[derive(Clone, Copy, Debug, PartialEq, Eq, Structural)]
pub enum WordClass {
    /// The word is as it was.
    Unchanged,
    /// The word differs from the one it was matched with.
    Changed,
    /// The word changed and its number rose.
    Increased,
    /// The word changed and its number fell or stayed.
    Decreased,
    /// The word resembles nothing in the matched line.
    New,
}

/// How the score of candidate `a` stands to that of candidate `b`.
pub open spec fn verdict(rel: spec_fn(int, int) -> Relation, a: int, b: int) -> Relation {
    rel(a, b)
}

/// The candidate that a scan from the first to the `n`-th keeps, where a
/// newcomer replaces the one kept so far unless that one scores strictly
/// higher: `rel(a, b)` tells how the score of candidate `a` stands to that
/// of `b`. Among equal best scores the last one stays.
pub open spec fn last_best(rel: spec_fn(int, int) -> Relation, n: nat) -> int
    decreases n,
{
    if n <= 1 {
        0
    } else {
        let kept = last_best(rel, (n - 1) as nat);
        if verdict(rel, kept, n - 1) == Relation::Greater {
            kept
        } else {
            n - 1
        }
    }
}

/// How far two positions are apart.
pub open spec fn distance(a: int, b: int) -> nat {
    if a >= b {
        (a - b) as nat
    } else {
        (b - a) as nat
    }
}

/// Compares two previous lines as matches for the line `line` at position
/// `at`, by similarity divided by one plus the distance.
pub open spec fn line_relation(line: Seq<char>, at: int, prev: Seq<Seq<char>>) -> spec_fn(
    int,
    int,
) -> Relation {
    |a: int, b: int|
        line_score_relation(
            similarity_num(line, prev[a]),
            similarity_den(line, prev[a]),
            distance(at, a),
            similarity_num(line, prev[b]),
            similarity_den(line, prev[b]),
            distance(at, b),
        )
}

/// Compares two previous words as matches for the word `word` at position
/// `at`, by five plus the similarity over five plus the root of one plus
/// the distance.
pub open spec fn word_relation(word: Seq<char>, at: int, prev: Seq<Seq<char>>) -> spec_fn(
    int,
    int,
) -> Relation {
    |a: int, b: int|
        word_score_relation(
            similarity_num(word, prev[a]),
            similarity_den(word, prev[a]),
            distance(at, a),
            similarity_num(word, prev[b]),
            similarity_den(word, prev[b]),
            distance(at, b),
        )
}

/// The previous line that the line `line` at position `at` is matched with.
pub open spec fn best_line(line: Seq<char>, at: int, prev: Seq<Seq<char>>) -> int {
    last_best(line_relation(line, at, prev), prev.len())
}

/// The previous word that the word `word` at position `at` is matched with.
pub open spec fn best_word(word: Seq<char>, at: int, prev: Seq<Seq<char>>) -> int {
    last_best(word_relation(word, at, prev), prev.len())
}

/// The class of the word `word` at position `at`, given the words of the
/// matched previous line. A similarity within the tolerance of one means
/// unchanged; otherwise a decayed score above one half means changed, and
/// anything else new. With `number_diff` a changed word whose old and new
/// text both hold a number is marked by direction, a tie counting as a fall.
pub open spec fn classify_word(
    word: Seq<char>,
    at: int,
    prev: Seq<Seq<char>>,
    number_diff: bool,
    radix: nat,
) -> WordClass {
    let m = best_word(word, at, prev);
    let n = similarity_num(word, prev[m]);
    let d = similarity_den(word, prev[m]);
    if near_one(n, d) {
        WordClass::Unchanged
    } else if exceeds_half(n, d, distance(at, m)) {
        if number_diff {
            match (numeric_of(word, radix), numeric_of(prev[m], radix)) {
                (Some(now), Some(before)) => if quantity_exceeds(now, before) {
                    WordClass::Increased
                } else {
                    WordClass::Decreased
                },
                _ => WordClass::Changed,
            }
        } else {
            WordClass::Changed
        }
    } else {
        WordClass::New
    }
}

/// The classes of the words of `line`, matched against the words of
/// `prev_line`.
pub open spec fn classify_line(
    line: Seq<char>,
    prev_line: Seq<char>,
    number_diff: bool,
    radix: nat,
) -> Seq<WordClass> {
    let words = split(line, ' ');
    let prev = split(prev_line, ' ');
    Seq::new(words.len(), |k: int| classify_word(words[k], k, prev, number_diff, radix))
}

/// Classifies every word of `line` against the words of `prev_line`.
pub fn classify_words(line: &Vec<char>, prev_line: &Vec<char>, number_diff: bool, radix: u32) -> (classes:
    Vec<WordClass>)
    requires
        2 <= radix <= 36,
    ensures
        classes@ == classify_line(line@, prev_line@, number_diff, radix as nat),
{
    let words = split_text(line, ' ');
    let prev = split_text(prev_line, ' ');
    let mut classes: Vec<WordClass> = Vec::new();
    let n = words.len();
    let mut k: usize = 0;
    while k < n
        invariant
            k <= n,
            n == words@.len(),
            prev@.len() >= 1,
            2 <= radix <= 36,
            views(words@) == split(line@, ' '),
            views(prev@) == split(prev_line@, ' '),
            classes@ == classify_line(line@, prev_line@, number_diff, radix as nat).take(k as int),
        decreases n - k,
    {
        let class = classify(&words[k], k, &prev, number_diff, radix);
        classes.push(class);
        assert(classes@ =~= classify_line(line@, prev_line@, number_diff, radix as nat).take(
            k + 1,
        ));
        k += 1;
    }
    assert(classes@ =~= classify_line(line@, prev_line@, number_diff, radix as nat));
    classes
}

/// The candidate kept by the scan is one of the candidates.
pub proof fn lemma_last_best_in_range(rel: spec_fn(int, int) -> Relation, n: nat)
    requires
        n >= 1,
    ensures
        0 <= last_best(rel, n) < n,
    decreases n,
{
    if n > 1 {
        lemma_last_best_in_range(rel, (n - 1) as nat);
    }
}

/// A candidate that scores strictly higher than every other one is kept.
pub proof fn lemma_dominant_is_best(rel: spec_fn(int, int) -> Relation, n: nat, k: int)
    requires
        0 <= k < n,
        forall|j: int| 0 <= j < n && j != k ==> #[trigger] verdict(rel, j, k) == Relation::Less,
        forall|j: int| 0 <= j < n && j != k ==> #[trigger] verdict(rel, k, j) == Relation::Greater,
    ensures
        last_best(rel, n) == k,
    decreases n,
{
    if n > 1 {
        if k == n - 1 {
            lemma_last_best_in_range(rel, (n - 1) as nat);
        } else {
            lemma_dominant_is_best(rel, (n - 1) as nat, k);
        }
    }
}

fn gap(a: usize, b: usize) -> (d: usize)
    ensures
        d == distance(a as int, b as int),
{
    if a >= b {
        a - b
    } else {
        b - a
    }
}

/// Finds the previous line that `line`, at position `at`, is matched with.
pub fn best_line_index(line: &Vec<char>, at: usize, prev: &Vec<Vec<char>>) -> (best: usize)
    requires
        prev@.len() >= 1,
    ensures
        best == best_line(line@, at as int, views(prev@)),
        is_last_maximum(
            line_relation(line@, at as int, views(prev@)),
            prev@.len() as nat,
            best as int,
        ),
{
    let ghost rel = line_relation(line@, at as int, views(prev@));
    proof {
        lemma_best_line_is_last_maximum(line@, at as int, views(prev@));
    }
    let mut best: usize = 0;
    let mut kept = similarity_chars(line, &prev[0]);
    let mut j: usize = 1;
    while j < prev.len()
        invariant
            1 <= j <= prev@.len(),
            best < j,
            rel == line_relation(line@, at as int, views(prev@)),
            best == last_best(rel, j as nat),
            kept.num() == similarity_num(line@, prev@[best as int]@),
            kept.den() == similarity_den(line@, prev@[best as int]@),
        decreases prev@.len() - j,
    {
        let s = similarity_chars(line, &prev[j]);
        let r = relate_line_scores(&kept, gap(at, best), &s, gap(at, j));
        assert(r == verdict(rel, best as int, j as int));
        match r {
            Relation::Greater => {},
            _ => {
                best = j;
                kept = s;
            },
        }
        j += 1;
    }
    best
}

/// Finds the previous word that `word`, at position `at`, is matched with,
/// and its similarity to `word`.
pub fn best_word_index(word: &Vec<char>, at: usize, prev: &Vec<Vec<char>>) -> (r: (
    usize,
    Similarity,
))
    requires
        prev@.len() >= 1,
    ensures
        r.0 == best_word(word@, at as int, views(prev@)),
        is_last_maximum(
            word_relation(word@, at as int, views(prev@)),
            prev@.len() as nat,
            r.0 as int,
        ),
        r.1.num() == similarity_num(word@, prev@[r.0 as int]@),
        r.1.den() == similarity_den(word@, prev@[r.0 as int]@),
{
    let ghost rel = word_relation(word@, at as int, views(prev@));
    proof {
        lemma_best_word_is_last_maximum(word@, at as int, views(prev@));
    }
    let mut best: usize = 0;
    let mut kept = similarity_chars(word, &prev[0]);
    let mut j: usize = 1;
    while j < prev.len()
        invariant
            1 <= j <= prev@.len(),
            best < j,
            rel == word_relation(word@, at as int, views(prev@)),
            best == last_best(rel, j as nat),
            kept.num() == similarity_num(word@, prev@[best as int]@),
            kept.den() == similarity_den(word@, prev@[best as int]@),
        decreases prev@.len() - j,
    {
        let s = similarity_chars(word, &prev[j]);
        let r = relate_word_scores(&kept, gap(at, best), &s, gap(at, j));
        assert(r == verdict(rel, best as int, j as int));
        match r {
            Relation::Greater => {},
            _ => {
                best = j;
                kept = s;
            },
        }
        j += 1;
    }
    (best, kept)
}

/// Classifies the word `word` at position `at` against the words of the
/// matched previous line.
pub fn classify(
    word: &Vec<char>,
    at: usize,
    prev: &Vec<Vec<char>>,
    number_diff: bool,
    radix: u32,
) -> (class: WordClass)
    requires
        prev@.len() >= 1,
        2 <= radix <= 36,
    ensures
        class == classify_word(word@, at as int, views(prev@), number_diff, radix as nat),
{
    let (m, s) = best_word_index(word, at, prev);
    if similarity_near_one(&s) {
        WordClass::Unchanged
    } else if word_score_exceeds_half(&s, gap(at, m)) {
        if number_diff {
            match (find_numeric_chars(word, radix), find_numeric_chars(&prev[m], radix)) {
                (Some(now), Some(before)) => {
                    if now.exceeds(&before) {
                        WordClass::Increased
                    } else {
                        WordClass::Decreased
                    }
                },
                _ => WordClass::Changed,
            }
        } else {
            WordClass::Changed
        }
    } else {
        WordClass::New
    }
}

/// A line that stands unchanged at its old position is matched with itself.
pub proof fn lemma_same_line_is_best(line: Seq<char>, at: int, prev: Seq<Seq<char>>)
    requires
        0 <= at < prev.len(),
        prev[at] == line,
    ensures
        best_line(line, at, prev) == at,
{
    let rel = line_relation(line, at, prev);
    let one = similarity_den(line, line);
    lemma_similarity_reflexive(line);
    assert forall|j: int| 0 <= j < prev.len() && j != at implies #[trigger] verdict(rel, j, at)
        == Relation::Less by {
        lemma_similarity_bounded(line, prev[j]);
        lemma_exact_line_match_wins(
            similarity_num(line, prev[j]),
            similarity_den(line, prev[j]),
            distance(at, j),
            one,
        );
    }
    assert forall|j: int| 0 <= j < prev.len() && j != at implies #[trigger] verdict(rel, at, j)
        == Relation::Greater by {
        lemma_similarity_bounded(line, prev[j]);
        lemma_exact_line_match_wins(
            similarity_num(line, prev[j]),
            similarity_den(line, prev[j]),
            distance(at, j),
            one,
        );
    }
    lemma_dominant_is_best(rel, prev.len(), at);
}

/// A word that stands unchanged at its old position is matched with itself
/// and classified as unchanged, whatever else the line holds.
pub proof fn lemma_same_word_is_unchanged(
    word: Seq<char>,
    at: int,
    prev: Seq<Seq<char>>,
    number_diff: bool,
    radix: nat,
)
    requires
        0 <= at < prev.len(),
        prev[at] == word,
    ensures
        best_word(word, at, prev) == at,
        classify_word(word, at, prev, number_diff, radix) == WordClass::Unchanged,
{
    let rel = word_relation(word, at, prev);
    let one = similarity_den(word, word);
    lemma_similarity_reflexive(word);
    assert forall|j: int| 0 <= j < prev.len() && j != at implies #[trigger] verdict(rel, j, at)
        == Relation::Less by {
        lemma_similarity_bounded(word, prev[j]);
        lemma_exact_word_match_wins(
            similarity_num(word, prev[j]),
            similarity_den(word, prev[j]),
            distance(at, j),
            one,
        );
    }
    assert forall|j: int| 0 <= j < prev.len() && j != at implies #[trigger] verdict(rel, at, j)
        == Relation::Greater by {
        lemma_similarity_bounded(word, prev[j]);
        lemma_exact_word_match_wins(
            similarity_num(word, prev[j]),
            similarity_den(word, prev[j]),
            distance(at, j),
            one,
        );
    }
    lemma_dominant_is_best(rel, prev.len(), at);
}

/// A word that has a previous word at its own position is never classified
/// as new: that word scores above one half, and the word it is matched
/// with scores no less.
pub proof fn lemma_word_in_place_is_not_new(
    word: Seq<char>,
    at: int,
    prev: Seq<Seq<char>>,
    number_diff: bool,
    radix: nat,
)
    requires
        0 <= at < prev.len(),
    ensures
        classify_word(word, at, prev, number_diff, radix) != WordClass::New,
{
    let rel = word_relation(word, at, prev);
    let best = best_word(word, at, prev);
    lemma_best_word_is_last_maximum(word, at, prev);
    assert(verdict(rel, at, best) != Relation::Greater);
    lemma_similarity_bounded(word, prev[at]);
    lemma_similarity_bounded(word, prev[best]);
    lemma_in_place_exceeds_half(similarity_num(word, prev[at]), similarity_den(word, prev[at]));
    lemma_half_is_upward_closed(
        similarity_num(word, prev[at]),
        similarity_den(word, prev[at]),
        distance(at, at),
        similarity_num(word, prev[best]),
        similarity_den(word, prev[best]),
        distance(at, best),
    );
}

/// In a line that differs from the matched previous line in one word only,
/// every other word is classified as unchanged. The changed word is never
/// new; it is changed, increased or decreased unless its similarity to
/// some previous word is within the tolerance of one, as it is where one of
/// the two is a prefix of the other.
pub proof fn lemma_single_changed_word(
    line: Seq<char>,
    prev_line: Seq<char>,
    c: int,
    number_diff: bool,
    radix: nat,
)
    requires
        split(line, ' ').len() == split(prev_line, ' ').len(),
        0 <= c < split(line, ' ').len(),
        forall|k: int|
            0 <= k < split(line, ' ').len() && k != c ==> split(line, ' ')[k] == split(
                prev_line,
                ' ',
            )[k],
    ensures
        classify_line(line, prev_line, number_diff, radix).len() == split(line, ' ').len(),
        forall|k: int|
            0 <= k < split(line, ' ').len() && k != c ==> classify_line(
                line,
                prev_line,
                number_diff,
                radix,
            )[k] == WordClass::Unchanged,
        classify_line(line, prev_line, number_diff, radix)[c] != WordClass::New,
        (forall|m: int|
            0 <= m < split(prev_line, ' ').len() ==> !near_one(
                similarity_num(split(line, ' ')[c], split(prev_line, ' ')[m]),
                similarity_den(split(line, ' ')[c], split(prev_line, ' ')[m]),
            )) ==> classify_line(line, prev_line, number_diff, radix)[c] != WordClass::Unchanged,
{
    let words = split(line, ' ');
    let prev = split(prev_line, ' ');
    let classes = classify_line(line, prev_line, number_diff, radix);
    assert forall|k: int| 0 <= k < words.len() && k != c implies classes[k]
        == WordClass::Unchanged by {
        lemma_same_word_is_unchanged(words[k], k, prev, number_diff, radix);
    }
    lemma_word_in_place_is_not_new(words[c], c, prev, number_diff, radix);
    lemma_last_best_in_range(word_relation(words[c], c, prev), prev.len());
}

/// Where a frame is set against itself, every line is matched with itself
/// and every word is classified as unchanged.
pub proof fn lemma_identical_lines_unchanged(
    lines: Seq<Seq<char>>,
    i: int,
    number_diff: bool,
    radix: nat,
)
    requires
        0 <= i < lines.len(),
    ensures
        best_line(lines[i], i, lines) == i,
        forall|k: int|
            0 <= k < split(lines[i], ' ').len() ==> #[trigger] classify_line(
                lines[i],
                lines[i],
                number_diff,
                radix,
            )[k] == WordClass::Unchanged,
{
    lemma_same_line_is_best(lines[i], i, lines);
    let words = split(lines[i], ' ');
    assert forall|k: int| 0 <= k < words.len() implies #[trigger] classify_line(
        lines[i],
        lines[i],
        number_diff,
        radix,
    )[k] == WordClass::Unchanged by {
        lemma_same_word_is_unchanged(words[k], k, words, number_diff, radix);
    }
}

/// Whether the comparison is one of an order on the first `n` candidates:
/// seen from the other side it gives the mirror image, and "no more than"
/// carries over.
pub open spec fn is_ordering(rel: spec_fn(int, int) -> Relation, n: nat) -> bool {
    &&& forall|a: int, b: int|
        0 <= a < n && 0 <= b < n ==> verdict(rel, b, a) == (#[trigger] verdict(rel, a, b)).flipped()
    &&& forall|a: int, b: int, c: int|
        0 <= a < n && 0 <= b < n && 0 <= c < n && #[trigger] verdict(rel, a, b)
            != Relation::Greater && #[trigger] verdict(rel, b, c) != Relation::Greater ==> verdict(
            rel,
            a,
            c,
        ) != Relation::Greater
}

/// Whether candidate `m` is the last one of the highest score among the
/// first `n`: none scores higher, and none after it scores as high.
pub open spec fn is_last_maximum(rel: spec_fn(int, int) -> Relation, n: nat, m: int) -> bool {
    &&& 0 <= m < n
    &&& forall|j: int| 0 <= j < n ==> #[trigger] verdict(rel, j, m) != Relation::Greater
    &&& forall|j: int| m < j < n ==> #[trigger] verdict(rel, j, m) == Relation::Less
}

/// Under an order the scan keeps the last candidate of the highest score.
pub proof fn lemma_last_best_is_last_maximum(rel: spec_fn(int, int) -> Relation, n: nat)
    requires
        n >= 1,
        is_ordering(rel, n),
    ensures
        is_last_maximum(rel, n, last_best(rel, n)),
    decreases n,
{
    if n == 1 {
        assert(verdict(rel, 0, 0) == verdict(rel, 0, 0).flipped());
    } else {
        let kept = last_best(rel, (n - 1) as nat);
        assert(is_ordering(rel, (n - 1) as nat));
        lemma_last_best_is_last_maximum(rel, (n - 1) as nat);
        let m = last_best(rel, n);
        assert(verdict(rel, n - 1, kept) == verdict(rel, kept, n - 1).flipped());
        if verdict(rel, kept, n - 1) == Relation::Greater {
            assert(m == kept);
        } else {
            assert(m == n - 1);
            assert(verdict(rel, n - 1, n - 1) == verdict(rel, n - 1, n - 1).flipped());
            assert forall|j: int| 0 <= j < n implies #[trigger] verdict(rel, j, m)
                != Relation::Greater by {
                if j < n - 1 {
                    assert(verdict(rel, j, kept) != Relation::Greater);
                    assert(verdict(rel, kept, m) != Relation::Greater);
                }
            }
        }
    }
}

/// The comparison of previous lines as matches for a line is an order.
pub proof fn lemma_line_relation_is_ordering(line: Seq<char>, at: int, prev: Seq<Seq<char>>)
    ensures
        is_ordering(line_relation(line, at, prev), prev.len()),
{
    let rel = line_relation(line, at, prev);
    let n = prev.len();
    assert forall|a: int, b: int| 0 <= a < n && 0 <= b < n implies verdict(rel, b, a) == (
    #[trigger] verdict(rel, a, b)).flipped() by {
        lemma_line_score_relation_flips(
            similarity_num(line, prev[a]),
            similarity_den(line, prev[a]),
            distance(at, a),
            similarity_num(line, prev[b]),
            similarity_den(line, prev[b]),
            distance(at, b),
        );
    }
    assert forall|a: int, b: int, c: int|
        0 <= a < n && 0 <= b < n && 0 <= c < n && #[trigger] verdict(rel, a, b)
            != Relation::Greater && #[trigger] verdict(rel, b, c)
            != Relation::Greater implies verdict(rel, a, c) != Relation::Greater by {
        lemma_line_scores_are_transitive(
            similarity_num(line, prev[a]),
            similarity_den(line, prev[a]),
            distance(at, a),
            similarity_num(line, prev[b]),
            similarity_den(line, prev[b]),
            distance(at, b),
            similarity_num(line, prev[c]),
            similarity_den(line, prev[c]),
            distance(at, c),
        );
    }
}

/// The previous line that a line is matched with has the highest score of
/// all, and is the last one that has it.
pub proof fn lemma_best_line_is_last_maximum(line: Seq<char>, at: int, prev: Seq<Seq<char>>)
    requires
        prev.len() >= 1,
    ensures
        is_last_maximum(line_relation(line, at, prev), prev.len(), best_line(line, at, prev)),
{
    lemma_line_relation_is_ordering(line, at, prev);
    lemma_last_best_is_last_maximum(line_relation(line, at, prev), prev.len());
}

/// The comparison of previous words as matches for a word is an order.
pub proof fn lemma_word_relation_is_ordering(word: Seq<char>, at: int, prev: Seq<Seq<char>>)
    ensures
        is_ordering(word_relation(word, at, prev), prev.len()),
{
    let rel = word_relation(word, at, prev);
    let n = prev.len();
    assert forall|a: int, b: int| 0 <= a < n && 0 <= b < n implies verdict(rel, b, a) == (
    #[trigger] verdict(rel, a, b)).flipped() by {
        lemma_word_score_relation_flips(
            similarity_num(word, prev[a]),
            similarity_den(word, prev[a]),
            distance(at, a),
            similarity_num(word, prev[b]),
            similarity_den(word, prev[b]),
            distance(at, b),
        );
    }
    assert forall|a: int, b: int, c: int|
        0 <= a < n && 0 <= b < n && 0 <= c < n && #[trigger] verdict(rel, a, b)
            != Relation::Greater && #[trigger] verdict(rel, b, c)
            != Relation::Greater implies verdict(rel, a, c) != Relation::Greater by {
        lemma_similarity_bounded(word, prev[a]);
        lemma_similarity_bounded(word, prev[b]);
        lemma_similarity_bounded(word, prev[c]);
        lemma_word_scores_are_transitive(
            similarity_num(word, prev[a]),
            similarity_den(word, prev[a]),
            distance(at, a),
            similarity_num(word, prev[b]),
            similarity_den(word, prev[b]),
            distance(at, b),
            similarity_num(word, prev[c]),
            similarity_den(word, prev[c]),
            distance(at, c),
        );
    }
}

/// The previous word that a word is matched with has the highest score of
/// all, and is the last one that has it.
pub proof fn lemma_best_word_is_last_maximum(word: Seq<char>, at: int, prev: Seq<Seq<char>>)
    requires
        prev.len() >= 1,
    ensures
        is_last_maximum(word_relation(word, at, prev), prev.len(), best_word(word, at, prev)),
{
    lemma_word_relation_is_ordering(word, at, prev);
    lemma_last_best_is_last_maximum(word_relation(word, at, prev), prev.len());
}

} // verus!
