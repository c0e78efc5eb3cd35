use cargo_spellcheck::markdown::{can_translate, project, translate, Markup};
use cargo_spellcheck::{PlainOverlay, Range, Span};
use indexmap::IndexMap;

#[test]
fn markdown_reduction_mapping() {
    // @todo add links
    const MARKDOWN: &str = r##"# Title number 1

## Title number 2

```rust
let x = 777;
let y = 111;
let z = x/y;
assert_eq!(z,7);
```

### Title number 3

Some **extra** _formatting_ if __anticipated__ or _*not*_ or
maybe not at all.


Extra ~pagaph~ _paragraph_.

---

And a line, or a **rule**.

"##;

    const PLAIN: &str = r##"Title number 1

Title number 2

Title number 3

Some extra formatting if anticipated or not or
maybe not at all.

Extra ~pagaph~ paragraph.


And a line, or a rule."##;
    let (reduced, mapping) = PlainOverlay::extract_plain_with_mapping(MARKDOWN);

    assert_eq!(reduced.as_str(), PLAIN);
    assert_eq!(mapping.len(), 19);
    for (reduced_range, markdown_range) in mapping.iter() {
        assert_eq!(reduced[reduced_range.clone()], MARKDOWN[markdown_range.clone()]);
    }
}

#[test]
fn markdown_reduction_mapping_leading_space() {
    const MARKDOWN: &str = r#"  Some __underlined__ **bold** text."#;
    const PLAIN: &str = r#"Some underlined bold text."#;

    let (reduced, mapping) = PlainOverlay::extract_plain_with_mapping(MARKDOWN);

    assert_eq!(reduced.as_str(), PLAIN);
    assert_eq!(mapping.len(), 5);
    for (reduced_range, markdown_range) in mapping.iter() {
        assert_eq!(
            reduced[reduced_range.clone()].to_owned(),
            MARKDOWN[markdown_range.clone()].to_owned()
        );
    }
}

#[test]
fn range_test() {
    let mut x = IndexMap::<Range, Range>::new();
    x.insert(0..2, 1..3);
    x.insert(3..4, 7..8);
    x.insert(5..12, 11..18);

    let lookmeup = 6..8;

    let plain_range = lookmeup;
    let v: Vec<_> = translate(&x, plain_range);
    assert_eq!(v.first(), Some(&(12..14)));
    assert_eq!(v.len(), 1);
}

#[test]
fn range_must_lie_within_an_entry() {
    let mut x = IndexMap::<Range, Range>::new();
    x.insert(0..2, 1..3);
    x.insert(3..4, 7..8);
    x.insert(5..12, 11..18);

    // touches the first two entries and lies in neither
    assert_eq!(translate(&x, 1..4), Vec::<Range>::new());
    // reaches beyond the last
    assert_eq!(translate(&x, 6..13), Vec::<Range>::new());
    // all of an entry
    assert_eq!(translate(&x, 5..12), vec![11..18]);
    assert_eq!(translate(&x, 0..1), vec![1..2]);
}

#[test]
fn range_in_several_entries_gives_one_range_for_each_in_their_order() {
    let mut x = IndexMap::<Range, Range>::new();
    x.insert(10..20, 110..120);
    x.insert(0..30, 40..70);
    x.insert(12..14, 2..4);
    assert_eq!(translate(&x, 12..14), vec![112..114, 52..54, 2..4]);
}

#[test]
fn empty_and_inverted_ranges_are_dropped() {
    let mut x = IndexMap::<Range, Range>::new();
    x.insert(5..12, 11..18);
    assert_eq!(translate(&x, 7..7), Vec::<Range>::new());
    let inverted = Range { start: 9, end: 7 };
    assert_eq!(translate(&x, inverted), Vec::<Range>::new());
}

#[test]
fn entries_that_do_not_shift_cannot_translate() {
    let mut x = IndexMap::<Range, Range>::new();
    x.insert(5..12, 11..18);
    // a raw range of another length
    x.insert(20..22, 30..40);
    // a raw range before the plain one
    x.insert(50..52, 10..12);
    assert!(can_translate(&x, &(6..8)));
    assert!(!can_translate(&x, &(20..21)));
    assert!(!can_translate(&x, &(50..51)));
    // no entry holds the range: nothing to go wrong
    assert!(can_translate(&x, &(100..101)));
}

fn overlay_pairs(markdown: &str) -> (String, Vec<(Range, Range)>) {
    let overlay = PlainOverlay::erase_markdown(markdown);
    (overlay.as_str().to_owned(), overlay.mapping())
}

#[test]
fn overlay_keeps_plain_text_as_it_is() {
    let (plain, mapping) = overlay_pairs("Just words.");
    assert_eq!(plain, "Just words.");
    assert_eq!(mapping, vec![(0..11, 0..11)]);
}

#[test]
fn overlay_of_nothing_is_empty() {
    let (plain, mapping) = overlay_pairs("");
    assert_eq!(plain, "");
    assert_eq!(mapping, Vec::<(Range, Range)>::new());
}

#[test]
fn overlay_leaves_out_code_blocks_inline_code_and_html() {
    let markdown = "before `code` after\n\n```\nlet x = 1;\n```\n\n<b>bold</b>\n\nend";
    let overlay = PlainOverlay::erase_markdown(markdown);
    let plain = overlay.as_str();
    assert!(!plain.contains("code"));
    assert!(!plain.contains("let x"));
    assert!(!plain.contains("<b>"));
    assert!(plain.starts_with("before  after"));
    assert!(plain.ends_with("end"));
    for (to, from) in overlay.mapping() {
        assert_eq!(plain[to], markdown[from]);
    }
}

#[test]
fn overlay_separates_by_line_feeds_that_nothing_maps() {
    let markdown = "# Head\n\nfirst\nsecond\n\n---\n\nlast\n";
    let (plain, mapping) = overlay_pairs(markdown);
    assert_eq!(plain, "Head\n\nfirst\nsecond\n\n\nlast");
    assert_eq!(mapping, vec![(0..4, 2..6), (6..11, 8..13), (12..18, 14..20), (21..25, 27..31)]);
    for (to, _) in mapping.iter() {
        assert!(!plain[to.clone()].contains('\n'));
    }
}

#[test]
fn overlay_cuts_the_line_feeds_at_its_end() {
    let (plain, mapping) = overlay_pairs("one\n\n");
    assert_eq!(plain, "one");
    assert_eq!(mapping, vec![(0..3, 0..3)]);
}

#[test]
fn overlay_translates_plain_ranges_to_the_markdown() {
    let markdown = "  Some __underlined__ **bold** text.";
    let overlay = PlainOverlay::erase_markdown(markdown);
    assert_eq!(overlay.raw(), markdown);
    assert_eq!(overlay.as_str(), "Some underlined bold text.");
    // the literal is on line 7 and begins at its column 4
    let resolver =
        |raw: Range| vec![(&markdown[raw.clone()], Span::new(7, raw.start + 4..raw.end + 4))];
    // "underlined"
    assert!(overlay.is_translatable(&(5..15)));
    let spans = overlay.linear_range_to_spans(5..15, resolver);
    assert_eq!(spans, vec![("underlined", Span::new(7, 13..23))]);
    // "bold"
    assert_eq!(
        overlay.checked_linear_range_to_spans(16..20, resolver),
        Some(vec![("bold", Span::new(7, 28..32))])
    );
    // across two entries: in none of them
    assert_eq!(overlay.checked_linear_range_to_spans(3..7, resolver), Some(Vec::new()));
}

#[test]
fn overlay_hands_on_all_that_the_resolver_gives() {
    let markdown = "one *two* three";
    let overlay = PlainOverlay::erase_markdown(markdown);
    assert_eq!(overlay.as_str(), "one two three");
    // a resolver that finds a range on two lines, and one that finds nothing
    let twice = |raw: Range| vec![Span::new(1, raw.clone()), Span::new(2, raw)];
    assert_eq!(
        overlay.linear_range_to_spans(4..7, twice),
        vec![Span::new(1, 5..8), Span::new(2, 5..8)]
    );
    let never = |_raw: Range| Vec::<Span>::new();
    assert_eq!(overlay.linear_range_to_spans(4..7, never), Vec::<Span>::new());
}

#[test]
fn overlay_with_an_entity_cannot_translate_it() {
    // the parser gives one character for the five of the entity
    let markdown = "&amp;";
    let overlay = PlainOverlay::erase_markdown(markdown);
    assert_eq!(overlay.as_str(), "&");
    assert_eq!(overlay.mapping(), vec![(0..1, 0..5)]);
    assert!(!overlay.is_translatable(&(0..1)));
    assert_eq!(overlay.checked_linear_range_to_spans(0..1, |raw| vec![raw]), None);
}

fn text(at: Range, text: &str) -> (Markup, Range) {
    (Markup::Text(text.to_owned()), at)
}

fn pairs(mapping: &IndexMap<Range, Range>) -> Vec<(Range, Range)> {
    mapping.iter().map(|(to, from)| (to.clone(), from.clone())).collect()
}

#[test]
fn project_walks_the_events() {
    let events = vec![
        text(2..6, "Head"),
        (Markup::HeadingEnd, 0..7),
        text(8..12, "some"),
        (Markup::SoftBreak, 12..13),
        text(13..17, "more"),
        (Markup::HardBreak, 17..20),
        text(20..23, "end"),
        (Markup::ParagraphEnd, 8..23),
        (Markup::Rule, 25..28),
        (Markup::Other, 0..0),
    ];
    let (plain, mapping) = project(&events);
    assert_eq!(plain, "Head\n\nsome\nmore\n\nend");
    assert_eq!(
        pairs(&mapping),
        vec![(0..4, 2..6), (6..10, 8..12), (11..15, 13..17), (17..20, 20..23)]
    );
}

#[test]
fn project_copies_titles_and_skips_code() {
    let events = vec![
        (Markup::CodeBlockStart, 0..20),
        text(4..16, "let x = 777;"),
        (Markup::CodeBlockEnd, 0..20),
        text(22..24, "a "),
        text(25..29, "link"),
        (Markup::LinkEnd("title".to_owned()), 24..50),
        (Markup::ImageEnd("image".to_owned()), 51..70),
    ];
    let (plain, mapping) = project(&events);
    assert_eq!(plain, "a linktitleimage");
    assert_eq!(
        pairs(&mapping),
        vec![(0..2, 22..24), (2..6, 25..29), (6..11, 24..50), (11..16, 51..70)]
    );
}

#[test]
fn project_cuts_the_last_range_to_the_text() {
    // the copied text ends in line feeds, which go with the others
    let events = vec![text(0..3, "one"), text(3..7, "two\n"), (Markup::ParagraphEnd, 0..7)];
    let (plain, mapping) = project(&events);
    assert_eq!(plain, "onetwo");
    assert_eq!(pairs(&mapping), vec![(0..3, 0..3), (3..6, 3..7)]);
}

#[test]
fn project_never_cuts_the_last_range_to_before_its_start() {
    // an empty title behind the end of a paragraph
    let events = vec![
        text(0..3, "abc"),
        (Markup::ParagraphEnd, 0..3),
        (Markup::ImageEnd(String::new()), 5..12),
        (Markup::ParagraphEnd, 5..12),
    ];
    let (plain, mapping) = project(&events);
    assert_eq!(plain, "abc");
    assert_eq!(pairs(&mapping), vec![(0..3, 0..3), (5..5, 5..12)]);
}

#[test]
fn project_keeps_one_entry_for_one_plain_range() {
    // two empty titles at one place: the later one takes the place of the first
    let events = vec![
        text(0..1, "a"),
        (Markup::ImageEnd(String::new()), 1..5),
        (Markup::ImageEnd(String::new()), 5..9),
        text(9..10, "b"),
    ];
    let (plain, mapping) = project(&events);
    assert_eq!(plain, "ab");
    assert_eq!(pairs(&mapping), vec![(0..1, 0..1), (1..1, 5..9), (1..2, 9..10)]);
}

#[test]
fn project_counts_bytes() {
    let events = vec![text(0..5, "\u{e4}\u{20ac}"), (Markup::SoftBreak, 5..6), text(6..7, "x")];
    let (plain, mapping) = project(&events);
    assert_eq!(plain, "\u{e4}\u{20ac}\nx");
    assert_eq!(pairs(&mapping), vec![(0..5, 0..5), (6..7, 6..7)]);
}

#[test]
fn track_and_newlines_build_the_plain_text() {
    let mut plain = String::from("ab");
    let mut mapping = IndexMap::<Range, Range>::new();
    PlainOverlay::track("cd\u{e9}", 10..14, &mut plain, &mut mapping);
    PlainOverlay::newlines(&mut plain, 2);
    PlainOverlay::newlines(&mut plain, 0);
    PlainOverlay::track("e", 20..21, &mut plain, &mut mapping);
    assert_eq!(plain, "abcd\u{e9}\n\ne");
    assert_eq!(pairs(&mapping), vec![(2..6, 10..14), (8..9, 20..21)]);
}
