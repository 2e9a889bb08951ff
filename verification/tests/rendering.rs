use neowatch::align::{best_line_index, best_word_index, classify, classify_words, WordClass};
use neowatch::bignat::Relation;
use neowatch::score::{relate_line_scores, relate_word_scores};
use neowatch::similarity::similarity_chars;
use neowatch::args::{Args, RawArgs};
use neowatch::render::highlight_diffs;
use neowatch::text::{chars_of, split_text};

fn settings(number_diff: bool, radix: &str) -> Args {
    let mut raw = RawArgs::default();
    raw.show_diff = true;
    raw.show_number_diff = number_diff;
    raw.radix = Some(radix.to_string());
    raw.command = Some("true".to_string());
    match Args::new(raw) {
        Ok(args) => args,
        Err(_) => panic!("settings refused"),
    }
}

fn words(line: &str) -> Vec<Vec<char>> {
    split_text(&chars_of(line), ' ')
}

fn lines(text: &str) -> Vec<Vec<char>> {
    split_text(&chars_of(text), '\n')
}

fn class_of(line: &str, prev: &str, at: usize, number_diff: bool) -> WordClass {
    let now = words(line);
    classify(&now[at], at, &words(prev), number_diff, 10)
}

const RESET: &str = "\x1b[0m";
const GREEN: &str = "\x1b[0m\x1b[32m";
const MAGENTA: &str = "\x1b[0m\x1b[35m";
const CYAN: &str = "\x1b[0m\x1b[36m";
const RED: &str = "\x1b[0m\x1b[31m";

#[test]
fn identical_frames_are_shown_without_color() {
    let args = settings(true, "10");
    for text in ["", "a", "cpu: 10%", "a  b \n\n c\n", "x\ny\nx\ny\n", " \n \n", "12 12 12"] {
        assert_eq!(highlight_diffs(text, text, &args), text);
    }
}

#[test]
fn identical_lines_classify_every_word_as_unchanged() {
    let line = "load  0.52 0.61 0.70 up 12 days";
    for at in 0..words(line).len() {
        assert_eq!(class_of(line, line, at, true), WordClass::Unchanged);
    }
}

#[test]
fn a_single_changed_word_leaves_its_neighbours_unchanged() {
    let before = "eth0 rx 1200 tx 3400 ok";
    let after = "eth0 rx 1800 tx 3400 ok";
    for at in [0, 1, 3, 4, 5] {
        assert_eq!(class_of(after, before, at, false), WordClass::Unchanged);
    }
    assert_eq!(class_of(after, before, 2, false), WordClass::Changed);
    assert_eq!(class_of(after, before, 2, true), WordClass::Increased);
    assert_eq!(class_of(before, after, 2, true), WordClass::Decreased);
}

#[test]
fn a_changed_word_that_extends_the_old_one_counts_as_unchanged() {
    // the shorter word is a prefix of the longer: their similarity is one
    assert_eq!(class_of("a abc c", "a ab c", 1, false), WordClass::Unchanged);
}

#[test]
fn rising_and_falling_numbers_are_told_apart() {
    assert_eq!(class_of("cpu: 120%", "cpu: 100%", 1, true), WordClass::Increased);
    assert_eq!(class_of("cpu: 100%", "cpu: 120%", 1, true), WordClass::Decreased);
    assert_eq!(class_of("cpu: 120%", "cpu: 100%", 1, false), WordClass::Changed);
    // equal numbers count as a fall
    assert_eq!(class_of("cpu: 121%", "cpu: 129%", 1, true), WordClass::Decreased);
    // a word without a readable number is just changed
    assert_eq!(class_of("cpu: 12a0", "cpu: 1000", 1, true), WordClass::Changed);
    assert_eq!(class_of("state: up", "state: dn", 1, true), WordClass::Changed);
}

#[test]
fn scenario_cpu_percent_with_two_digits() {
    // "10%" and "12%" both give the literal "1": the number has not risen,
    // and the word is shown as decreased.
    let args = settings(true, "10");
    let shown = highlight_diffs("cpu: 12%", "cpu: 10%", &args);
    assert_eq!(shown, format!("cpu: {}12%{}", RED, RESET));
}

#[test]
fn scenario_cpu_percent_with_three_digits() {
    let args = settings(true, "10");
    let shown = highlight_diffs("cpu: 120%", "cpu: 100%", &args);
    assert_eq!(shown, format!("cpu: {}120%{}", CYAN, RESET));
    let back = highlight_diffs("cpu: 100%", "cpu: 120%", &args);
    assert_eq!(back, format!("cpu: {}100%{}", RED, RESET));
}

#[test]
fn changed_words_are_magenta_without_number_diff() {
    let args = settings(false, "10");
    let shown = highlight_diffs("cpu: 120%\nmem: 5", "cpu: 100%\nmem: 5", &args);
    assert_eq!(shown, format!("cpu: {}120%{}\nmem: 5", MAGENTA, RESET));
}

#[test]
fn hexadecimal_numbers_are_compared_in_their_base() {
    let args = settings(true, "16");
    let shown = highlight_diffs("addr ff0", "addr a00", &args);
    assert_eq!(shown, format!("addr {}ff0{}", CYAN, RESET));
}

#[test]
fn far_words_without_resemblance_are_new() {
    // Against the single previous word "x" every "a" scores
    // 5.5 / (5 + sqrt(1 + k)), which is one half exactly at k = 35.
    let line = vec!["a"; 37].join(" ");
    assert_eq!(class_of(&line, "x", 0, false), WordClass::Changed);
    assert_eq!(class_of(&line, "x", 34, false), WordClass::Changed);
    assert_eq!(class_of(&line, "x", 35, false), WordClass::New);
    assert_eq!(class_of(&line, "x", 36, false), WordClass::New);
    let args = settings(false, "10");
    let shown = highlight_diffs(&line, "x", &args);
    let changed = format!("{}a{}", MAGENTA, RESET);
    let new = format!("{}a{}", GREEN, RESET);
    let mut expected = vec![changed; 35];
    expected.push(new.clone());
    expected.push(new);
    assert_eq!(shown, expected.join(" "));
}

#[test]
fn the_first_frame_is_set_against_one_empty_line() {
    // every word is matched with the empty word, to which all are similar
    let args = settings(true, "10");
    assert_eq!(highlight_diffs("a b\nc", "", &args), "a b\nc");
}

#[test]
fn consecutive_spaces_give_empty_words() {
    assert_eq!(words("a  b ").len(), 4);
    let args = settings(false, "10");
    let shown = highlight_diffs("a  b", "a  c", &args);
    // "b" is matched with the empty word before "c", which it equals up to
    // the shorter length
    assert_eq!(shown, "a  b");
}

#[test]
fn a_trailing_newline_gives_a_last_empty_line() {
    assert_eq!(lines("a\nb\n").len(), 3);
    assert_eq!(lines("").len(), 1);
    let args = settings(false, "10");
    assert_eq!(highlight_diffs("a\nb\n", "a\nb\n", &args), "a\nb\n");
}

#[test]
fn a_line_that_moved_is_matched_where_it_went() {
    let prev = lines("alpha beta\ngamma delta\nepsilon zeta");
    let now = chars_of("gamma delta");
    assert_eq!(best_line_index(&now, 0, &prev), 1);
    assert_eq!(best_line_index(&now, 2, &prev), 1);
    let args = settings(false, "10");
    let shown = highlight_diffs("gamma delta\nalpha beta", "alpha beta\ngamma delta", &args);
    assert_eq!(shown, "gamma delta\nalpha beta");
}

#[test]
fn the_later_line_wins_a_tie() {
    let prev = lines("ab\nzz\nab");
    assert_eq!(best_line_index(&chars_of("ab"), 1, &prev), 2);
    let prev = lines("ab\nab");
    assert_eq!(best_line_index(&chars_of("ab"), 0, &prev), 0);
    assert_eq!(best_line_index(&chars_of("ab"), 1, &prev), 1);
    let prev = lines("zz\nzz\nzz");
    assert_eq!(best_line_index(&chars_of("ab"), 1, &prev), 1);
    let prev = lines("zz\nqq\nzz\nqq\nzz");
    assert_eq!(best_line_index(&chars_of("ab"), 2, &prev), 2);
    assert_eq!(best_line_index(&chars_of("ab"), 7, &prev), 4);
}

#[test]
fn the_later_word_wins_a_tie() {
    // (5 + 1/7) / 6 for the word in place equals 6 / (5 + sqrt 4) for the
    // same word three places on
    let prev = words("uvwxyz qqqqqq qqqqqq abcdef");
    let (best, s) = best_word_index(&chars_of("abcdef"), 0, &prev);
    assert_eq!(best, 3);
    assert!(s.is_one());
    assert_eq!(class_of("abcdef", "uvwxyz qqqqqq qqqqqq abcdef", 0, false), WordClass::Unchanged);
    let prev = words("uvwxyz qqqqqq abcdef");
    let (best, _) = best_word_index(&chars_of("abcdef"), 0, &prev);
    assert_eq!(best, 2);
    let prev = words("uvwxyz qqqqqq qqqqqq qqqqqq abcdef");
    let (best, _) = best_word_index(&chars_of("abcdef"), 0, &prev);
    assert_eq!(best, 0);
}

#[test]
fn a_word_that_moved_is_unchanged() {
    assert_eq!(class_of("new alpha beta", "alpha beta", 1, false), WordClass::Unchanged);
    assert_eq!(class_of("new alpha beta", "alpha beta", 2, false), WordClass::Unchanged);
    assert_eq!(class_of("new alpha beta", "alpha beta", 0, false), WordClass::Changed);
}

#[test]
fn indexed_and_rgb_colors_are_written_in_decimal() {
    let mut raw = RawArgs::default();
    raw.show_diff = true;
    raw.command = Some("true".to_string());
    raw.color_change = Some("208".to_string());
    let args = Args::new(raw).ok().unwrap();
    assert_eq!(highlight_diffs("b", "a", &args), "\x1b[0m\x1b[38;5;208mb\x1b[0m");
    let mut raw = RawArgs::default();
    raw.show_diff = true;
    raw.command = Some("true".to_string());
    raw.color_change = Some("0,7,255".to_string());
    let args = Args::new(raw).ok().unwrap();
    assert_eq!(highlight_diffs("b", "a", &args), "\x1b[0m\x1b[38;2;0;7;255mb\x1b[0m");
    let mut raw = RawArgs::default();
    raw.show_diff = true;
    raw.command = Some("true".to_string());
    raw.color_change = Some("Yellow".to_string());
    let args = Args::new(raw).ok().unwrap();
    assert_eq!(highlight_diffs("b", "a", &args), "\x1b[0m\x1b[33mb\x1b[0m");
}

#[test]
fn text_beyond_ascii_is_kept() {
    let args = settings(false, "10");
    let shown = highlight_diffs("größe 5 m²", "größe 7 m²", &args);
    assert_eq!(shown, format!("größe {}5{} m²", MAGENTA, RESET));
}

#[test]
fn the_words_of_a_line_are_classified_together() {
    let classes = classify_words(&chars_of("eth0 rx 1800 tx 3400 ok"), &chars_of("eth0 rx 1200 tx 3400 ok"), true, 10);
    let same = WordClass::Unchanged;
    assert_eq!(classes, vec![same, same, WordClass::Increased, same, same, same]);
    let classes = classify_words(&chars_of(""), &chars_of("a b"), true, 10);
    assert_eq!(classes, vec![WordClass::Unchanged]);
    let classes = classify_words(&chars_of("abc xyz"), &chars_of("x"), false, 10);
    assert_eq!(classes, vec![WordClass::Changed, WordClass::Unchanged]);
}

#[test]
fn the_matched_word_is_the_last_of_the_highest_score() {
    let lines = [
        "a b c d e f",
        "uvwxyz qqqqqq qqqqqq abcdef",
        "alpha beta  gamma alpha",
        "x",
        "12 13 14 15 16 17 18 19 20 21 22 23",
        "",
    ];
    let probes = ["a", "abcdef", "alpha", "", "1", "zz", "gamma"];
    for line in lines {
        let prev = words(line);
        for probe in probes {
            let word = chars_of(probe);
            for at in 0..8 {
                let (best, _) = best_word_index(&word, at, &prev);
                let kept = similarity_chars(&word, &prev[best]);
                for j in 0..prev.len() {
                    let s = similarity_chars(&word, &prev[j]);
                    let r = relate_word_scores(&s, at.abs_diff(j), &kept, at.abs_diff(best));
                    assert_ne!(r, Relation::Greater);
                    if j > best {
                        assert_eq!(r, Relation::Less);
                    }
                }
            }
        }
    }
}

#[test]
fn the_matched_line_is_the_last_of_the_highest_score() {
    let texts = ["a\nb\na\nb", "cpu: 1\nmem: 2\ncpu: 1\n", "", "x\n\n\nx", "ab\nzz\nab"];
    let probes = ["a", "cpu: 1", "", "ab", "mem: 3"];
    for text in texts {
        let prev = lines(text);
        for probe in probes {
            let line = chars_of(probe);
            for at in 0..6 {
                let best = best_line_index(&line, at, &prev);
                let kept = similarity_chars(&line, &prev[best]);
                for j in 0..prev.len() {
                    let s = similarity_chars(&line, &prev[j]);
                    let r = relate_line_scores(&s, at.abs_diff(j), &kept, at.abs_diff(best));
                    assert_ne!(r, Relation::Greater);
                    if j > best {
                        assert_eq!(r, Relation::Less);
                    }
                }
            }
        }
    }
}
