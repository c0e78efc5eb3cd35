use cargo_spellcheck::checker::{check, is_boundary, is_whitespace_char, tokenize};
use cargo_spellcheck::{Range, Span, Suggestion, SuggestionSet};

const TEXT: &'static str = "With markdown removed, for sure.";

fn expected_tokens() -> Vec<&'static str> {
    vec!["With", "markdown", "removed", "for", "sure"]
}

#[test]
fn tokens() {
    let ranges: Vec<Range> = tokenize(TEXT);
    let expected = expected_tokens();
    for (range, expect) in ranges.into_iter().zip(expected.iter()) {
        assert_eq!(&&TEXT[range], expect);
    }
}

#[test]
fn tokens_are_all_there() {
    let ranges: Vec<Range> = tokenize(TEXT);
    assert_eq!(ranges, vec![0..4, 5..13, 14..21, 23..26, 27..31]);
}

#[test]
fn tokens_of_nothing() {
    assert_eq!(tokenize(""), Vec::<Range>::new());
    assert_eq!(tokenize(" \t\n.,;"), Vec::<Range>::new());
}

#[test]
fn token_at_the_end_is_flushed() {
    assert_eq!(tokenize("ab cd"), vec![0..2, 3..5]);
    assert_eq!(tokenize("x"), vec![0..1]);
}

#[test]
fn token_at_the_end_counts_the_bytes_of_its_last_character() {
    // the last character takes two bytes, the one before it three
    let text = "a \u{20ac}\u{e9}";
    assert_eq!(text.len(), 7);
    let ranges = tokenize(text);
    assert_eq!(ranges, vec![0..1, 2..7]);
    assert_eq!(&text[ranges[1].clone()], "\u{20ac}\u{e9}");
}

#[test]
fn tokens_count_bytes_not_characters() {
    let text = "\u{e4}\u{f6}\u{fc} \u{1f600}!ok";
    let ranges = tokenize(text);
    assert_eq!(ranges, vec![0..6, 7..11, 12..14]);
}

#[test]
fn tokens_end_at_every_mark() {
    let text = "a\"b;c:d,e.f?g!h#i(j)k{l}m[n]o-p\nq\rr/s`t";
    let ranges = tokenize(text);
    assert_eq!(ranges.len(), 20);
    for (nth, range) in ranges.iter().enumerate() {
        assert_eq!(*range, (2 * nth)..(2 * nth + 1));
    }
}

#[test]
fn tokens_keep_what_is_no_mark() {
    assert_eq!(tokenize("don't_stop@home"), vec![0..15]);
}

#[test]
fn tokens_end_at_white_space_beyond_ascii() {
    // a no-break space and an ideographic space
    let text = "a\u{a0}b\u{3000}c";
    assert_eq!(tokenize(text), vec![0..1, 3..4, 7..8]);
}

#[test]
fn tokens_are_ascending_apart_and_hold_no_boundary() {
    let text = "  Some (tokens), `here`: done! \u{e9}t\u{e9}\n";
    let ranges = tokenize(text);
    assert!(!ranges.is_empty());
    let mut previous_end = 0usize;
    for (nth, range) in ranges.iter().enumerate() {
        assert!(range.start < range.end);
        if nth > 0 {
            assert!(previous_end < range.start);
        }
        assert!(text[range.clone()].chars().all(|c| !is_boundary(c)));
        previous_end = range.end;
    }
}

#[test]
fn white_space_is_what_the_characters_say() {
    let mut code = 0u32;
    while code <= 0x10FFFF {
        if let Some(c) = char::from_u32(code) {
            assert_eq!(is_whitespace_char(c), c.is_whitespace(), "U+{:04X}", code);
        }
        code += 1;
    }
}

#[test]
fn boundaries_are_white_space_and_the_marks() {
    let marks = "\";:,.?!#(){}[]-\n\r/`";
    let mut code = 0u32;
    while code <= 0x10FFFF {
        if let Some(c) = char::from_u32(code) {
            assert_eq!(is_boundary(c), c.is_whitespace() || marks.contains(c), "U+{:04X}", code);
        }
        code += 1;
    }
}

fn suggestion(line: usize, range: Range, replacements: &[&str]) -> Suggestion {
    Suggestion::new(
        Span::new(line, range),
        replacements.iter().map(|candidate| candidate.to_string()).collect(),
    )
}

fn listing(set: &SuggestionSet) -> Vec<(String, Vec<Suggestion>)> {
    (0..set.files()).map(|nth| (set.path(nth).clone(), set.suggestions(nth).clone())).collect()
}

#[test]
fn check_without_checkers_finds_nothing() {
    let collective = check(Vec::new());
    assert_eq!(collective.files(), 0);
    assert_eq!(collective.count(), 0);
}

#[test]
fn check_leaves_out_the_checker_that_failed() {
    let mut first = SuggestionSet::new();
    first.add("a.rs", suggestion(1, 0..2, &["x"]));
    let mut second = SuggestionSet::new();
    second.add("b.rs", suggestion(3, 4..5, &[]));
    let collective = check(vec![Some(first), None, Some(second)]);
    assert_eq!(
        listing(&collective),
        vec![
            ("a.rs".to_string(), vec![suggestion(1, 0..2, &["x"])]),
            ("b.rs".to_string(), vec![suggestion(3, 4..5, &[])]),
        ]
    );
}

#[test]
fn check_merges_additively_and_keeps_each_order() {
    let mut first = SuggestionSet::new();
    first.add("a.rs", suggestion(1, 0..2, &["x"]));
    first.add("b.rs", suggestion(2, 0..2, &["y"]));
    first.add("a.rs", suggestion(5, 1..2, &["z"]));
    let mut second = SuggestionSet::new();
    second.add("c.rs", suggestion(9, 0..1, &[]));
    second.add("a.rs", suggestion(1, 0..2, &["x"]));
    let collective = check(vec![Some(first), Some(second)]);
    assert_eq!(
        listing(&collective),
        vec![
            (
                "a.rs".to_string(),
                vec![
                    suggestion(1, 0..2, &["x"]),
                    suggestion(5, 1..2, &["z"]),
                    suggestion(1, 0..2, &["x"]),
                ]
            ),
            ("b.rs".to_string(), vec![suggestion(2, 0..2, &["y"])]),
            ("c.rs".to_string(), vec![suggestion(9, 0..1, &[])]),
        ]
    );
    assert_eq!(collective.count(), 5);
}
