use cargo_spellcheck::action::interactive::{Event, KeyCode, KeyEvent};
use cargo_spellcheck::action::validate;
use cargo_spellcheck::{
    correct_lines, Action, BandAid, Failure, PatchError, Range, Span, Suggestion, SuggestionSet,
};

const TEXT: &'static str = r#"
I like unicorns every second Mondays.

"#;

const CORRECTED: &'static str = r#"
I like banana icecream every third day.

"#;

fn bandaid(line: usize, range: Range, replacement: &str) -> BandAid {
    BandAid { span: Span::new(line, range), replacement: replacement.to_owned() }
}

fn numbered(text: &str) -> Vec<(usize, String)> {
    text.lines()
        .map(|line| line.to_owned())
        .enumerate()
        .map(|(lineno, content)| (lineno + 1, content))
        .collect()
}

fn patch(bandaids: Vec<BandAid>, text: &str) -> Result<String, PatchError> {
    let mut sink: Vec<u8> = Vec::new();
    correct_lines(bandaids, numbered(text), &mut sink)?;
    Ok(String::from_utf8(sink).expect("edits between characters keep the text whole"))
}

#[test]
fn replace_unicorns() {
    let mut sink: Vec<u8> = Vec::with_capacity(1024);
    let bandaids = vec![
        BandAid { span: Span::new(2usize, 7..15), replacement: "banana icecream".to_owned() },
        BandAid { span: Span::new(2usize, 22..28), replacement: "third".to_owned() },
        BandAid { span: Span::new(2usize, 29..36), replacement: "day".to_owned() },
    ];

    let lines = TEXT
        .lines()
        .map(|line| line.to_owned())
        .enumerate()
        .map(|(lineno, content)| (lineno + 1, content));

    correct_lines(bandaids, lines.collect(), &mut sink).expect("should be able to");

    assert_eq!(String::from_utf8_lossy(sink.as_slice()), CORRECTED);
}

#[test]
fn no_bandaids_reproduce_the_content() {
    assert_eq!(patch(Vec::new(), TEXT), Ok(TEXT.to_owned()));
    assert_eq!(patch(Vec::new(), ""), Ok(String::new()));
    // the last line gets its line feed, and a carriage return goes with its line feed
    assert_eq!(patch(Vec::new(), "a\r\nb"), Ok("a\nb\n".to_owned()));
}

#[test]
fn correct_lines_appends_to_the_sink() {
    let mut sink: Vec<u8> = b"kept".to_vec();
    let done = correct_lines(vec![bandaid(1, 0..1, "B")], numbered("b"), &mut sink);
    assert_eq!(done, Ok(()));
    assert_eq!(sink, b"keptB\n".to_vec());
}

#[test]
fn untouched_lines_stay_and_the_count_of_lines_too() {
    let text = "one\ntwo\nthree\nfour\n";
    let corrected = patch(vec![bandaid(2, 0..3, "2"), bandaid(4, 1..3, "OU")], text).unwrap();
    assert_eq!(corrected, "one\n2\nthree\nfOUr\n");
    assert_eq!(corrected.lines().count(), text.lines().count());
}

#[test]
fn edits_use_the_columns_that_the_line_had() {
    // the first edit makes the line longer, the second one shorter
    let corrected = patch(
        vec![bandaid(1, 0..1, "aaaa"), bandaid(1, 2..6, "c"), bandaid(1, 6..6, "!")],
        "a bbbb",
    );
    assert_eq!(corrected, Ok("aaaa c!\n".to_owned()));
}

#[test]
fn edits_may_touch_and_may_be_empty() {
    let corrected = patch(vec![bandaid(1, 0..2, "x"), bandaid(1, 2..4, "y")], "abcd");
    assert_eq!(corrected, Ok("xy\n".to_owned()));
    let corrected = patch(vec![bandaid(1, 2..2, "-")], "abcd");
    assert_eq!(corrected, Ok("ab-cd\n".to_owned()));
    let corrected = patch(vec![bandaid(1, 0..4, "")], "abcd");
    assert_eq!(corrected, Ok("\n".to_owned()));
}

#[test]
fn patched_line_is_as_long_as_the_numbers_say() {
    let line = "I like unicorns every second Mondays.";
    let bandaids = vec![
        bandaid(1, 7..15, "banana icecream"),
        bandaid(1, 22..28, "third"),
        bandaid(1, 29..36, "day"),
    ];
    let removed: usize = bandaids.iter().map(|b| b.span.range.end - b.span.range.start).sum();
    let inserted: usize = bandaids.iter().map(|b| b.replacement.len()).sum();
    let corrected = patch(bandaids, line).unwrap();
    assert_eq!(corrected.len() - 1, line.len() - removed + inserted);
    assert_eq!(corrected.len() - 1, 37 - 21 + 23);
}

#[test]
fn edits_count_bytes() {
    let corrected = patch(vec![bandaid(1, 2..4, "ue"), bandaid(1, 4..6, "ss")], "gr\u{fc}\u{df}e");
    assert_eq!(corrected, Ok("gruesse\n".to_owned()));
    let corrected = patch(vec![bandaid(1, 4..6, "\u{1e9e}")], "gr\u{fc}\u{df}e");
    assert_eq!(corrected, Ok("gr\u{fc}\u{1e9e}e\n".to_owned()));
}

#[test]
fn edits_between_characters_leave_text() {
    let mut sink = Vec::new();
    let source = vec![(1usize, "gr\u{fc}\u{df}e \u{1f600}".to_owned())];
    let bandaids = vec![bandaid(1, 2..4, "\u{20ac}"), bandaid(1, 8..12, "")];
    assert_eq!(correct_lines(bandaids, source, &mut sink), Ok(()));
    assert_eq!(String::from_utf8(sink), Ok("gr\u{20ac}\u{df}e \n".to_owned()));
}

#[test]
fn edits_on_several_lines() {
    let text = "first\nsecond\nthird";
    let bandaids = vec![
        bandaid(1, 0..5, "1st"),
        bandaid(3, 0..1, "T"),
        bandaid(3, 3..5, "RD"),
    ];
    assert_eq!(patch(bandaids, text), Ok("1st\nsecond\nThiRD\n".to_owned()));
}

#[test]
fn line_numbers_are_those_of_the_source() {
    let source = vec![(10usize, "ten".to_owned()), (20usize, "twenty".to_owned())];
    let mut sink = Vec::new();
    assert_eq!(correct_lines(vec![bandaid(20, 0..3, "TWE")], source, &mut sink), Ok(()));
    assert_eq!(sink, b"ten\nTWEnty\n".to_vec());
}

#[test]
fn lines_out_of_order_are_refused() {
    let source = vec![(2usize, "b".to_owned()), (1usize, "a".to_owned())];
    let mut sink = b"kept".to_vec();
    assert_eq!(correct_lines(Vec::new(), source, &mut sink), Err(PatchError::Lines));
    assert_eq!(sink, b"kept".to_vec());
    let source = vec![(1usize, "a".to_owned()), (1usize, "b".to_owned())];
    assert_eq!(validate(&Vec::new(), &source), Err(PatchError::Lines));
}

#[test]
fn edits_out_of_order_are_refused() {
    // an earlier line behind a later one
    let done = patch(vec![bandaid(2, 0..1, "x"), bandaid(1, 0..1, "y")], "a\nb");
    assert_eq!(done, Err(PatchError::Unordered(1)));
    // an earlier column behind a later one
    let bandaids = vec![bandaid(1, 0..1, "x"), bandaid(1, 4..5, "y"), bandaid(1, 2..3, "z")];
    let done = patch(bandaids, "abcdef");
    assert_eq!(done, Err(PatchError::Unordered(2)));
    // one edit reaching into the next
    let done = patch(vec![bandaid(1, 0..3, "x"), bandaid(1, 2..4, "y")], "abcdef");
    assert_eq!(done, Err(PatchError::Unordered(1)));
}

#[test]
fn edits_off_the_file_are_refused() {
    // a line that the file does not have
    assert_eq!(patch(vec![bandaid(3, 0..1, "x")], "a\nb"), Err(PatchError::Misplaced(0)));
    assert_eq!(patch(vec![bandaid(0, 0..1, "x")], "a\nb"), Err(PatchError::Misplaced(0)));
    // columns that the line does not have
    assert_eq!(
        patch(vec![bandaid(1, 0..1, "x"), bandaid(2, 0..2, "y")], "a\nb"),
        Err(PatchError::Misplaced(1))
    );
    // an end before the start
    let inverted =
        BandAid { span: Span::new(1, Range { start: 1, end: 0 }), replacement: String::new() };
    assert_eq!(patch(vec![inverted], "ab"), Err(PatchError::Misplaced(0)));
    // columns inside a character
    assert_eq!(patch(vec![bandaid(1, 1..2, "x")], "\u{fc}b"), Err(PatchError::Misplaced(0)));
    assert_eq!(patch(vec![bandaid(1, 0..1, "x")], "\u{fc}b"), Err(PatchError::Misplaced(0)));
}

#[test]
fn the_first_fault_is_named() {
    let bandaids = vec![bandaid(1, 0..1, "x"), bandaid(1, 0..1, "y"), bandaid(9, 0..1, "z")];
    assert_eq!(patch(bandaids, "ab"), Err(PatchError::Unordered(1)));
    let bandaids = vec![bandaid(1, 0..1, "x"), bandaid(9, 0..1, "y"), bandaid(1, 0..1, "z")];
    assert_eq!(patch(bandaids, "ab"), Err(PatchError::Misplaced(1)));
}

#[test]
fn validate_accepts_what_correct_lines_applies() {
    let bandaids = vec![bandaid(2, 7..15, "banana icecream"), bandaid(2, 22..28, "third")];
    assert_eq!(validate(&bandaids, &numbered(TEXT)), Ok(()));
}

#[test]
fn correction_counts_the_lines_from_one() {
    let lines =
        vec!["".to_owned(), "I like unicorns every second Mondays.".to_owned(), "".to_owned()];
    let bandaids = vec![
        bandaid(2, 7..15, "banana icecream"),
        bandaid(2, 22..28, "third"),
        bandaid(2, 29..36, "day"),
    ];
    let content = Action::Interactive.correction(lines, bandaids);
    assert_eq!(content, Ok(CORRECTED.as_bytes().to_vec()));
    let content = Action::Interactive.correction(vec!["a".to_owned()], vec![bandaid(0, 0..1, "b")]);
    assert_eq!(content, Err(PatchError::Misplaced(0)));
}

fn suggestions() -> SuggestionSet {
    let mut set = SuggestionSet::new();
    set.add(
        "src/lib.rs",
        Suggestion::new(Span::new(3, 4..9), vec!["hello".to_owned(), "hallo".to_owned()]),
    );
    set.add("src/lib.rs", Suggestion::new(Span::new(7, 0..2), vec!["is".to_owned()]));
    set.add("src/main.rs", Suggestion::new(Span::new(1, 1..2), Vec::new()));
    set
}

fn key(c: char) -> Event {
    Event::Key(KeyEvent { code: KeyCode::Char(c), control: false })
}

#[test]
fn fix_says_that_it_is_not_implemented() {
    let done = Action::Fix.run(suggestions(), &Vec::new());
    assert_eq!(done.err(), Some(Failure::NotImplemented));
    let done = Action::Fix.run(SuggestionSet::new(), &vec![key('y')]);
    assert_eq!(done.err(), Some(Failure::NotImplemented));
}

#[test]
fn check_fails_with_the_number_of_suggestions() {
    assert_eq!(Action::Check.check(&suggestions()), Err(Failure::Mistakes(3)));
    let done = Action::Check.run(suggestions(), &Vec::new());
    assert_eq!(done.err(), Some(Failure::Mistakes(3)));
}

#[test]
fn check_of_nothing_is_fine() {
    assert_eq!(Action::Check.check(&SuggestionSet::new()), Ok(()));
    let picked = Action::Check.run(SuggestionSet::new(), &vec![key('y')]).expect("nothing found");
    assert_eq!(picked.count(), 0);
    assert!(picked.bandaids.is_empty());
}

#[test]
fn interactive_hands_back_the_picks() {
    let events = vec![key('y'), key('n')];
    let picked = Action::Interactive.run(suggestions(), &events).expect("nobody went back");
    assert_eq!(picked.count(), 1);
    assert_eq!(
        picked.bandaids.get("src/lib.rs"),
        Some(&vec![bandaid(3, 4..9, "hello")])
    );
}

#[test]
fn interactive_fails_on_going_back() {
    let events = vec![key('y'), key('j'), key('y')];
    let done = Action::Interactive.run(suggestions(), &events);
    assert_eq!(done.err(), Some(Failure::Unsupported));
}
