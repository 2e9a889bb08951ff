//! Rendering a frame: every word plain where it is unchanged, wrapped in its
//! color where it is not.

use vstd::prelude::*;
use crate::align::{
    best_line, best_line_index, classify, classify_word, lemma_same_line_is_best,
    lemma_same_word_is_unchanged, WordClass,
};
use crate::args::Args;
use crate::paint::{end_color, reset_sequence, start_color, start_sequence, Paint};
use crate::text::{
    chars_of, join, lemma_join_split, lemma_join_step, push_chars, push_str_chars, split,
    split_text, string_of, views,
};

verus! {

/// The color that a class of words is shown in; unchanged words have none.
pub open spec fn paint_of(class: WordClass, args: Args) -> Option<Paint> {
    match class {
        WordClass::Unchanged => None,
        WordClass::Changed => Some(args.color_change),
        WordClass::Increased => Some(args.color_increase),
        WordClass::Decreased => Some(args.color_decrease),
        WordClass::New => Some(args.color_new),
    }
}

/// A word as it is shown: as it is, or between the sequence that starts its
/// color and the one that resets it.
pub open spec fn render_word(word: Seq<char>, class: WordClass, args: Args) -> Seq<char> {
    match paint_of(class, args) {
        None => word,
        Some(paint) => start_sequence(paint) + word + reset_sequence(),
    }
}

/// The words of a line as they are shown, each classified against the words
/// of the matched previous line.
pub open spec fn render_words(words: Seq<Seq<char>>, prev: Seq<Seq<char>>, args: Args) -> Seq<
    Seq<char>,
> {
    Seq::new(
        words.len(),
        |k: int|
            render_word(
                words[k],
                classify_word(words[k], k, prev, args.show_number_diff, args.radix as nat),
                args,
            ),
    )
}

/// A line as it is shown: its words, with single spaces between them.
pub open spec fn render_line(line: Seq<char>, prev_line: Seq<char>, args: Args) -> Seq<char> {
    join(render_words(split(line, ' '), split(prev_line, ' '), args), ' ')
}

/// The lines of a frame as they are shown, each set against the previous
/// line it is matched with.
pub open spec fn render_lines(lines: Seq<Seq<char>>, prev: Seq<Seq<char>>, args: Args) -> Seq<
    Seq<char>,
> {
    Seq::new(
        lines.len(),
        |i: int| render_line(lines[i], prev[best_line(lines[i], i, prev)], args),
    )
}

/// A frame as it is shown: its lines, with single newlines between them.
pub open spec fn render_frame(input: Seq<char>, last: Seq<char>, args: Args) -> Seq<char> {
    join(render_lines(split(input, '\n'), split(last, '\n'), args), '\n')
}

/// The color that a class of words is shown in.
pub fn paint_for(class: WordClass, args: &Args) -> (p: Option<Paint>)
    ensures
        p == paint_of(class, *args),
{
    match class {
        WordClass::Unchanged => None,
        WordClass::Changed => Some(args.color_change),
        WordClass::Increased => Some(args.color_increase),
        WordClass::Decreased => Some(args.color_decrease),
        WordClass::New => Some(args.color_new),
    }
}

/// Appends `word` to `out` as its class is shown.
fn push_word(out: &mut Vec<char>, word: &Vec<char>, class: WordClass, args: &Args)
    ensures
        final(out)@ == old(out)@ + render_word(word@, class, *args),
{
    match paint_for(class, args) {
        None => {
            push_chars(out, word);
        },
        Some(paint) => {
            let start = start_color(paint);
            push_str_chars(out, start.as_str());
            push_chars(out, word);
            let end = end_color();
            push_str_chars(out, end.as_str());
            assert(out@ =~= old(out)@ + (start_sequence(paint) + word@ + reset_sequence()));
        },
    }
}

/// Appends `line` to `out` as it is shown against `prev_line`.
fn push_line(out: &mut Vec<char>, line: &Vec<char>, prev_line: &Vec<char>, args: &Args)
    requires
        args.valid(),
    ensures
        final(out)@ == old(out)@ + render_line(line@, prev_line@, *args),
{
    let words = split_text(line, ' ');
    let prev = split_text(prev_line, ' ');
    let ghost before = out@;
    let ghost shown = render_words(views(words@), views(prev@), *args);
    let n = words.len();
    let mut k: usize = 0;
    assert(shown.take(0) =~= Seq::<Seq<char>>::empty());
    assert(before + join(shown.take(0), ' ') =~= before);
    while k < n
        invariant
            k <= n,
            n == words@.len(),
            prev@.len() >= 1,
            args.valid(),
            shown == render_words(views(words@), views(prev@), *args),
            out@ == before + join(shown.take(k as int), ' '),
        decreases n - k,
    {
        let ghost sofar = out@;
        if k > 0 {
            out.push(' ');
        }
        let class = classify(&words[k], k, &prev, args.show_number_diff, args.radix);
        push_word(out, &words[k], class, args);
        proof {
            lemma_join_step(shown, k as int, ' ');
            assert(shown[k as int] == render_word(words@[k as int]@, class, *args));
            if k > 0 {
                assert(out@ =~= before + (join(shown.take(k as int), ' ').push(' ')
                    + shown[k as int]));
            } else {
                assert(out@ =~= before + shown[0]);
            }
        }
        k += 1;
    }
    assert(shown.take(n as int) =~= shown);
}

/// Renders the frame `input` against the previous frame `last`.
///
/// Both texts are split into lines at newlines. Each line of `input` is
/// matched with the previous line of the highest score, the similarity
/// divided by one plus the distance of the two positions; the later line
/// wins a tie. The matched lines are split into words at single spaces and
/// each word is matched in the same way, by five plus the similarity over
/// five plus the root of one plus the distance. Unchanged words are written
/// as they are, all others between the sequence of their color and a reset.
/// Words are joined by single spaces and lines by single newlines.
pub fn highlight_diffs(input: &str, last: &str, args: &Args) -> (out: String)
    requires
        args.valid(),
    ensures
        out@ == render_frame(input@, last@, *args),
{
    let text = chars_of(input);
    let old_text = chars_of(last);
    let lines = split_text(&text, '\n');
    let prev = split_text(&old_text, '\n');
    let ghost shown = render_lines(views(lines@), views(prev@), *args);
    let mut out: Vec<char> = Vec::new();
    let n = lines.len();
    let mut i: usize = 0;
    assert(shown.take(0) =~= Seq::<Seq<char>>::empty());
    while i < n
        invariant
            i <= n,
            n == lines@.len(),
            prev@.len() >= 1,
            args.valid(),
            shown == render_lines(views(lines@), views(prev@), *args),
            out@ == join(shown.take(i as int), '\n'),
        decreases n - i,
    {
        if i > 0 {
            out.push('\n');
        }
        let m = best_line_index(&lines[i], i, &prev);
        push_line(&mut out, &lines[i], &prev[m], args);
        proof {
            lemma_join_step(shown, i as int, '\n');
            assert(shown[i as int] == render_line(lines@[i as int]@, prev@[m as int]@, *args));
            if i > 0 {
                assert(out@ =~= join(shown.take(i as int), '\n').push('\n') + shown[i as int]);
            } else {
                assert(out@ =~= shown[0]);
            }
        }
        i += 1;
    }
    assert(shown.take(n as int) =~= shown);
    string_of(&out)
}

/// A line set against itself is shown as it is: no word is colored.
pub proof fn lemma_same_line_is_plain(line: Seq<char>, args: Args)
    ensures
        render_line(line, line, args) == line,
{
    let words = split(line, ' ');
    let shown = render_words(words, words, args);
    assert forall|k: int| 0 <= k < words.len() implies shown[k] == words[k] by {
        lemma_same_word_is_unchanged(
            words[k],
            k,
            words,
            args.show_number_diff,
            args.radix as nat,
        );
    }
    assert(shown =~= words);
    lemma_join_split(line, ' ');
}

/// A frame that equals the previous one is shown as it is: every line is
/// matched with itself, every word is unchanged and no color is applied.
pub proof fn lemma_identical_frame_is_plain(text: Seq<char>, args: Args)
    ensures
        render_frame(text, text, args) == text,
{
    let lines = split(text, '\n');
    let shown = render_lines(lines, lines, args);
    assert forall|i: int| 0 <= i < lines.len() implies shown[i] == lines[i] by {
        lemma_same_line_is_best(lines[i], i, lines);
        lemma_same_line_is_plain(lines[i], args);
    }
    assert(shown =~= lines);
    lemma_join_split(text, '\n');
}

} // verus!
