//! Erase markdown syntax
//!
//! Resulting overlay is plain and can be fed into a grammer or spell checker;
//! its mapping leads from the plain text back to the bytes of the markdown.

use crate::ordered::{
    insert_range, lemma_upserted, no_ranges, pop_range, ranges, ranges_of, upserted,
};
use crate::span::Range;
use crate::text::{lemma_bytes_concat, lemma_newline_byte, push_char, truncate, NEWLINE};
use indexmap::IndexMap;
use pulldown_cmark::Tag::{CodeBlock, Heading, Image, Link, Paragraph};
use pulldown_cmark::{Event, Options, Parser};
use vstd::prelude::*;
use vstd::utf8::{
    encode_utf8, encode_utf8_valid_utf8, is_char_boundary_iff_not_is_continuation_byte,
    is_char_boundary_start_end_of_seq,
};

verus! {

/// What the markdown parser reports, as far as the overlay reads it.
#[derive(Debug, Clone, PartialEq, Eq)]
pub enum Markup {
    /// A code block begins.
    CodeBlockStart,
    /// A code block ends.
    CodeBlockEnd,
    /// A link ends; its title.
    LinkEnd(String),
    /// An image ends; its title.
    ImageEnd(String),
    /// A heading ends.
    HeadingEnd,
    /// A paragraph ends.
    ParagraphEnd,
    /// A run of text.
    Text(String),
    /// A soft line break.
    SoftBreak,
    /// A hard line break.
    HardBreak,
    /// A horizontal rule.
    Rule,
    /// Anything else: inline code, raw HTML, a reference to a footnote, the
    /// marker of a task, the begin of anything but a code block, the end of
    /// anything not named above.
    Other,
}

/// A [`Markup`] as a mathematical value.
pub enum MarkupView {
    CodeBlockStart,
    CodeBlockEnd,
    LinkEnd(Seq<char>),
    ImageEnd(Seq<char>),
    HeadingEnd,
    ParagraphEnd,
    Text(Seq<char>),
    SoftBreak,
    HardBreak,
    Rule,
    Other,
}

impl View for Markup {
    type V = MarkupView;

    open spec fn view(&self) -> MarkupView {
        match *self {
            Markup::CodeBlockStart => MarkupView::CodeBlockStart,
            Markup::CodeBlockEnd => MarkupView::CodeBlockEnd,
            Markup::LinkEnd(title) => MarkupView::LinkEnd(title@),
            Markup::ImageEnd(title) => MarkupView::ImageEnd(title@),
            Markup::HeadingEnd => MarkupView::HeadingEnd,
            Markup::ParagraphEnd => MarkupView::ParagraphEnd,
            Markup::Text(text) => MarkupView::Text(text@),
            Markup::SoftBreak => MarkupView::SoftBreak,
            Markup::HardBreak => MarkupView::HardBreak,
            Markup::Rule => MarkupView::Rule,
            Markup::Other => MarkupView::Other,
        }
    }
}

/// The events as mathematical values, each with the range of the markdown
/// that it was read from.
pub open spec fn views(events: Seq<(Markup, Range)>) -> Seq<(MarkupView, Range)> {
    events.map_values(|event: (Markup, Range)| (event.0@, event.1))
}

/// What the parser reports of `markdown`, with every extension switched on:
/// its events in their order, as far as [`MarkupView`] tells them apart, each
/// with the range of bytes of `markdown` that the parser gives for it.
pub uninterp spec fn parsed(markdown: Seq<char>) -> Seq<(MarkupView, Range)>;

/// `Parser::new_ext` with `Options::all`, then `Parser::into_offset_iter`: the
/// events of `markdown` in their order, each with the range of `markdown` that
/// the parser gives for it.
#[verifier::external_body]
pub(crate) fn parse(markdown: &str) -> (events: Vec<(Markup, Range)>)
    ensures
        views(events@) == parsed(markdown@),
{
    Parser::new_ext(markdown, Options::all()).into_offset_iter().map(|(event, at)| (match event {
        Event::Start(CodeBlock(_)) => Markup::CodeBlockStart,
        Event::End(CodeBlock(_)) => Markup::CodeBlockEnd,
        Event::End(Link(_, _, title)) => Markup::LinkEnd(title.to_string()),
        Event::End(Image(_, _, title)) => Markup::ImageEnd(title.to_string()),
        Event::End(Heading(_)) => Markup::HeadingEnd,
        Event::End(Paragraph) => Markup::ParagraphEnd,
        Event::Text(text) => Markup::Text(text.to_string()),
        Event::SoftBreak => Markup::SoftBreak,
        Event::HardBreak => Markup::HardBreak,
        Event::Rule => Markup::Rule,
        _ => Markup::Other,
    }, at)).collect()
}

/// The plain text and the mapping while the events are walked.
pub struct Projection {
    /// The bytes of the plain text.
    pub plain: Seq<u8>,
    /// From ranges of the plain text to ranges of the markdown.
    pub mapping: Seq<(Range, Range)>,
    /// Whether the walk is inside a code block.
    pub code_block: bool,
}

impl Projection {
    /// Where the walk begins: no text, no mapping, outside of code.
    pub open spec fn empty() -> Projection {
        Projection { plain: Seq::empty(), mapping: Seq::empty(), code_block: false }
    }

    /// The projection with `text` copied to the end of the plain text, and
    /// the range that it takes there mapped to `markdown`.
    pub open spec fn track(self, text: Seq<char>, markdown: Range) -> Projection {
        let bytes = encode_utf8(text);
        let to = Range {
            start: self.plain.len() as usize,
            end: (self.plain.len() + bytes.len()) as usize,
        };
        Projection {
            plain: self.plain + bytes,
            mapping: upserted(self.mapping, to, markdown),
            ..self
        }
    }

    /// The projection with `n` line feeds at the end of the plain text, which
    /// nothing maps.
    pub open spec fn newlines(self, n: nat) -> Projection {
        Projection { plain: self.plain + Seq::new(n, |i: int| NEWLINE), ..self }
    }

    /// The projection after one more event.
    ///
    /// Text outside of code and the titles of links and images are copied
    /// and mapped. The end of a heading or a paragraph and a hard break give
    /// two line feeds, a soft break and a rule one. Text in a code block and
    /// everything else leave no trace.
    pub open spec fn step(self, event: (MarkupView, Range)) -> Projection {
        match event.0 {
            MarkupView::CodeBlockStart => Projection { code_block: true, ..self },
            MarkupView::CodeBlockEnd => Projection { code_block: false, ..self },
            MarkupView::LinkEnd(title) => self.track(title, event.1),
            MarkupView::ImageEnd(title) => self.track(title, event.1),
            MarkupView::HeadingEnd => self.newlines(2),
            MarkupView::ParagraphEnd => self.newlines(2),
            MarkupView::Text(text) => if self.code_block {
                self
            } else {
                self.track(text, event.1)
            },
            MarkupView::SoftBreak => self.newlines(1),
            MarkupView::HardBreak => self.newlines(2),
            MarkupView::Rule => self.newlines(1),
            MarkupView::Other => self,
        }
    }

    /// The projection after all of `events`.
    pub open spec fn walk(events: Seq<(MarkupView, Range)>) -> Projection
        decreases events.len(),
    {
        if events.len() == 0 {
            Projection::empty()
        } else {
            Projection::walk(events.drop_last()).step(events.last())
        }
    }

    /// The plain text without the line feeds at its end, and the mapping with
    /// its last range cut to the length of that text, though not to before
    /// its own start.
    pub open spec fn finish(self) -> (Seq<u8>, Seq<(Range, Range)>) {
        let plain = self.plain.take(self.plain.len() - trailing_newlines(self.plain));
        if self.mapping.len() == 0 {
            (plain, self.mapping)
        } else {
            let (to, markdown) = self.mapping.last();
            (plain, upserted(self.mapping.drop_last(), clamped(to, plain.len()), markdown))
        }
    }
}

/// How many line feeds stand at the end of `plain`.
pub open spec fn trailing_newlines(plain: Seq<u8>) -> nat
    decreases plain.len(),
{
    if plain.len() > 0 && plain.last() == NEWLINE {
        1 + trailing_newlines(plain.drop_last())
    } else {
        0
    }
}

/// `range` with its end no later than `len`, and no earlier than its start
/// where it was later than `len`.
pub open spec fn clamped(range: Range, len: nat) -> Range {
    if range.end <= len {
        range
    } else if range.start <= len {
        Range { start: range.start, end: len as usize }
    } else {
        Range { start: range.start, end: range.start }
    }
}

/// The plain text and the mapping that `events` give.
pub open spec fn projected(events: Seq<(MarkupView, Range)>) -> (Seq<u8>, Seq<(Range, Range)>) {
    Projection::walk(events).finish()
}

/// Walks `events` and gives the plain text with its mapping, ranges mapped
/// `plain -> raw`.
pub fn project(events: &Vec<(Markup, Range)>) -> (overlay: (String, IndexMap<Range, Range>))
    ensures
        (encode_utf8(overlay.0@), ranges_of(overlay.1)) == projected(views(events@)),
        Projection::walk(views(events@)).plain.len() <= usize::MAX,
{
    let mut plain = String::new();
    let mut mapping = no_ranges(128);
    let mut code_block = false;
    let ghost all = views(events@);

    let mut i: usize = 0;
    while i < events.len()
        invariant
            i <= events.len(),
            all == views(events@),
            (Projection { plain: encode_utf8(plain@), mapping: ranges_of(mapping), code_block })
                == Projection::walk(all.take(i as int)),
        decreases events.len() - i,
    {
        proof {
            assert(all.take(i + 1).drop_last() == all.take(i as int));
        }
        let at = events[i].1.start..events[i].1.end;
        match &events[i].0 {
            Markup::CodeBlockStart => {
                code_block = true;
            },
            Markup::CodeBlockEnd => {
                code_block = false;
            },
            Markup::LinkEnd(title) => {
                PlainOverlay::track(title.as_str(), at, &mut plain, &mut mapping);
            },
            Markup::ImageEnd(title) => {
                PlainOverlay::track(title.as_str(), at, &mut plain, &mut mapping);
            },
            Markup::HeadingEnd => {
                PlainOverlay::newlines(&mut plain, 2);
            },
            Markup::ParagraphEnd => {
                PlainOverlay::newlines(&mut plain, 2);
            },
            Markup::Text(text) => {
                if !code_block {
                    PlainOverlay::track(text.as_str(), at, &mut plain, &mut mapping);
                }
            },
            Markup::SoftBreak => {
                PlainOverlay::newlines(&mut plain, 1);
            },
            Markup::HardBreak => {
                PlainOverlay::newlines(&mut plain, 2);
            },
            Markup::Rule => {
                PlainOverlay::newlines(&mut plain, 1);
            },
            Markup::Other => {},
        }
        i += 1;
    }
    proof {
        assert(all.take(events.len() as int) == all);
    }

    // the parser yields single lines as a paragraph, for which we add trailing newlines
    // which are pointless and clutter the test strings, so track and remove them
    let bytes = plain.as_str().as_bytes();
    let mut keep: usize = bytes.len();
    proof {
        assert(bytes@.take(keep as int) == bytes@);
    }
    while keep > 0 && bytes[keep - 1] == NEWLINE
        invariant
            keep <= bytes.len(),
            trailing_newlines(bytes@) == trailing_newlines(bytes@.take(keep as int)) + (bytes.len()
                - keep),
            forall|j: int| keep <= j < bytes.len() ==> bytes[j] == NEWLINE,
        decreases keep,
    {
        proof {
            assert(bytes@.take(keep as int).drop_last() == bytes@.take(keep - 1));
        }
        keep -= 1;
    }
    proof {
        let all_bytes = encode_utf8(plain@);
        encode_utf8_valid_utf8(plain@);
        if keep == all_bytes.len() {
            is_char_boundary_start_end_of_seq(all_bytes);
        } else {
            is_char_boundary_iff_not_is_continuation_byte(all_bytes, keep as int);
        }
    }
    truncate(&mut plain, keep);

    match pop_range(&mut mapping) {
        Some((to, markdown)) => {
            let end = if to.end <= keep {
                to.end
            } else if to.start <= keep {
                keep
            } else {
                to.start
            };
            insert_range(&mut mapping, to.start..end, markdown);
        },
        None => {},
    }
    (plain, mapping)
}

/// A plain representation of markdown riddled text.
pub struct PlainOverlay<'a> {
    raw: &'a str,
    plain: String,
    // key: plain string range
    // value: the corresponding areas in the full markdown
    mapping: IndexMap<Range, Range>,
}

/// A [`PlainOverlay`] as a mathematical value.
pub struct PlainOverlayView {
    /// The bytes of the markdown.
    pub raw: Seq<u8>,
    /// The bytes of the plain text.
    pub plain: Seq<u8>,
    /// From ranges of the plain text to ranges of the markdown, in the order
    /// in which the plain text holds them.
    pub mapping: Seq<(Range, Range)>,
}

impl<'a> View for PlainOverlay<'a> {
    type V = PlainOverlayView;

    closed spec fn view(&self) -> PlainOverlayView {
        PlainOverlayView {
            raw: encode_utf8(self.raw@),
            plain: encode_utf8(self.plain@),
            mapping: ranges_of(self.mapping),
        }
    }
}

/// Whether `entry` takes part in the translation of `query`: its plain range
/// holds all of `query`.
pub open spec fn selects(entry: (Range, Range), query: Range) -> bool {
    entry.0.start <= query.start && query.end <= entry.0.end
}

/// Whether `entry` maps its plain range to a raw range of the same length
/// that does not begin before it.
pub open spec fn shifts(entry: (Range, Range)) -> bool {
    entry.0.start <= entry.1.start && entry.1.start - entry.0.start == entry.1.end - entry.0.end
}

/// `query` moved by as much as `entry` moves its plain range, and cut at the
/// end of the raw range of `entry`; in whole numbers, start and end.
pub open spec fn shifted(entry: (Range, Range), query: Range) -> (int, int) {
    let offset = entry.1.start - entry.0.start;
    (
        query.start + offset,
        if entry.1.end <= query.end + offset {
            entry.1.end as int
        } else {
            query.end + offset
        },
    )
}

/// The ranges of the markdown that `query` stands for: one from each entry of
/// `mapping` that `selects` it, in the order of `mapping`, unless it is empty
/// or its end lies before its start.
pub open spec fn translated(mapping: Seq<(Range, Range)>, query: Range) -> Seq<Range>
    decreases mapping.len(),
{
    if mapping.len() == 0 {
        Seq::empty()
    } else {
        let before = translated(mapping.drop_last(), query);
        let (start, end) = shifted(mapping.last(), query);
        if selects(mapping.last(), query) && start < end {
            before.push(Range { start: start as usize, end: end as usize })
        } else {
            before
        }
    }
}

/// Whether `query` can be translated: every entry that `selects` it `shifts`.
pub open spec fn translatable(mapping: Seq<(Range, Range)>, query: Range) -> bool {
    forall|i: int|
        0 <= i < mapping.len() && selects(#[trigger] mapping[i], query) ==> shifts(mapping[i])
}

/// Whether `range` is `query` moved by as much as `entry` moves its plain
/// range, and lies in the raw range of `entry`.
pub open spec fn moved_by(entry: (Range, Range), query: Range, range: Range) -> bool {
    &&& selects(entry, query)
    &&& range.start == query.start + (entry.1.start - entry.0.start)
    &&& range.end == query.end + (entry.1.start - entry.0.start)
    &&& entry.1.start <= range.start < range.end <= entry.1.end
}

/// A translation never leads outside of what was asked for: each range that
/// it gives is the query, moved as an entry that holds the query moves it,
/// and so as long as the query and within the raw range of that entry. An
/// empty query gives nothing.
pub proof fn lemma_translated(mapping: Seq<(Range, Range)>, query: Range)
    requires
        translatable(mapping, query),
    ensures
        forall|k: int|
            0 <= k < translated(mapping, query).len() ==> exists|e: int|
                0 <= e < mapping.len() && moved_by(
                    #[trigger] mapping[e],
                    query,
                    #[trigger] translated(mapping, query)[k],
                ),
        query.start >= query.end ==> translated(mapping, query).len() == 0,
    decreases mapping.len(),
{
    if mapping.len() > 0 {
        let before = mapping.drop_last();
        assert forall|i: int| 0 <= i < before.len() && selects(
            #[trigger] before[i],
            query,
        ) implies shifts(before[i]) by {
            assert(before[i] == mapping[i]);
        }
        lemma_translated(before, query);
        let last = mapping.len() - 1;
        assert forall|k: int| 0 <= k < translated(mapping, query).len() implies exists|e: int|
            0 <= e < mapping.len() && moved_by(
                #[trigger] mapping[e],
                query,
                #[trigger] translated(mapping, query)[k],
            ) by {
            if k < translated(before, query).len() {
                let e = choose|e: int|
                    0 <= e < before.len() && moved_by(
                        #[trigger] before[e],
                        query,
                        #[trigger] translated(before, query)[k],
                    );
                assert(before[e] == mapping[e]);
                assert(translated(mapping, query)[k] == translated(before, query)[k]);
                assert(moved_by(mapping[e], query, translated(mapping, query)[k]));
            } else {
                assert(shifts(mapping[last]));
                assert(moved_by(mapping[last], query, translated(mapping, query)[k]));
            }
        }
    }
}

/// Whether `resolved` holds, for each of `raws` in turn, an answer of
/// `resolver` to it.
pub open spec fn resolves<T, F: Fn(Range) -> Vec<T>>(
    resolver: F,
    raws: Seq<Range>,
    resolved: Seq<Vec<T>>,
) -> bool {
    &&& resolved.len() == raws.len()
    &&& forall|k: int|
        0 <= k < raws.len() ==> call_ensures(resolver, (raws[k],), #[trigger] resolved[k])
}

/// The items of the lists, one list behind the other.
pub open spec fn concatenated<T>(lists: Seq<Vec<T>>) -> Seq<T>
    decreases lists.len(),
{
    if lists.len() == 0 {
        Seq::empty()
    } else {
        concatenated(lists.drop_last()) + lists.last()@
    }
}

/// Whether `plain_range` can be translated by `mapping`.
pub fn can_translate(mapping: &IndexMap<Range, Range>, plain_range: &Range) -> (yes: bool)
    ensures
        yes == translatable(ranges_of(*mapping), *plain_range),
{
    let pairs = ranges(mapping);
    let mut i: usize = 0;
    while i < pairs.len()
        invariant
            i <= pairs.len(),
            pairs@ == ranges_of(*mapping),
            forall|j: int|
                0 <= j < i && selects(#[trigger] pairs[j], *plain_range) ==> shifts(pairs[j]),
        decreases pairs.len() - i,
    {
        let plain = &pairs[i].0;
        let raw = &pairs[i].1;
        if plain.start <= plain_range.start && plain_range.end <= plain.end {
            if raw.start < plain.start || raw.end < plain.end || raw.start - plain.start != raw.end
                - plain.end {
                return false;
            }
        }
        i += 1;
    }
    true
}

/// The ranges of the markdown that `plain_range` of the plain text stands
/// for, by `mapping`.
pub fn translate(mapping: &IndexMap<Range, Range>, plain_range: Range) -> (spans: Vec<Range>)
    requires
        translatable(ranges_of(*mapping), plain_range),
    ensures
        spans@ == translated(ranges_of(*mapping), plain_range),
{
    let pairs = ranges(mapping);
    let mut spans: Vec<Range> = Vec::with_capacity(64);
    let mut i: usize = 0;
    while i < pairs.len()
        invariant
            i <= pairs.len(),
            pairs@ == ranges_of(*mapping),
            translatable(pairs@, plain_range),
            spans@ == translated(pairs@.take(i as int), plain_range),
        decreases pairs.len() - i,
    {
        proof {
            assert(pairs@.take(i + 1).drop_last() == pairs@.take(i as int));
        }
        let plain = &pairs[i].0;
        let raw = &pairs[i].1;
        if plain.start <= plain_range.start && plain_range.end <= plain.end && plain_range.start
            < plain_range.end {
            // calculate the linear shift
            let offset = raw.start - plain.start;
            let start = plain_range.start + offset;
            let end = if raw.end <= plain_range.end + offset {
                raw.end
            } else {
                plain_range.end + offset
            };
            if start < end {
                spans.push(start..end);
            }
        }
        i += 1;
    }
    proof {
        assert(pairs@.take(pairs.len() as int) == pairs@);
    }
    spans
}

impl<'a> PlainOverlay<'a> {
    /// Copies `s` to the end of `plain` and maps the range that it takes there
    /// to `markdown`.
    pub fn track(s: &str, markdown: Range, plain: &mut String, mapping: &mut IndexMap<Range, Range>)
        ensures
            encode_utf8(final(plain)@) == encode_utf8(old(plain)@) + encode_utf8(s@),
            ranges_of(*final(mapping)) == upserted(
                ranges_of(*old(mapping)),
                Range {
                    start: encode_utf8(old(plain)@).len() as usize,
                    end: (encode_utf8(old(plain)@).len() + encode_utf8(s@).len()) as usize,
                },
                markdown,
            ),
    {
        // map the range within the plain data,
        // which is fed to the checker,
        // back to the repr with markdown modifiers
        let start = plain.as_str().len();
        plain.append(s);
        let end = plain.as_str().len();
        proof {
            lemma_bytes_concat(old(plain)@, s@);
        }
        insert_range(mapping, Range { start, end }, markdown);
    }

    /// Puts `n` line feeds at the end of `plain`.
    pub fn newlines(plain: &mut String, n: usize)
        ensures
            encode_utf8(final(plain)@) == encode_utf8(old(plain)@) + Seq::new(
                n as nat,
                |i: int| NEWLINE,
            ),
    {
        let mut done: usize = 0;
        while done < n
            invariant
                done <= n,
                encode_utf8(plain@) == encode_utf8(old(plain)@) + Seq::new(
                    done as nat,
                    |i: int| NEWLINE,
                ),
            decreases n - done,
        {
            let ghost before = plain@;
            push_char(plain, '\n');
            proof {
                assert(plain@ == before + seq!['\n']);
                lemma_bytes_concat(before, seq!['\n']);
                lemma_newline_byte();
            }
            done += 1;
        }
    }

    /// The plain text of `markdown` and the mapping back to it, ranges mapped
    /// `plain -> raw`.
    pub fn extract_plain_with_mapping(markdown: &str) -> (overlay: (String, IndexMap<Range, Range>))
        ensures
            (encode_utf8(overlay.0@), ranges_of(overlay.1)) == projected(parsed(markdown@)),
            Projection::walk(parsed(markdown@)).plain.len() <= usize::MAX,
    {
        let events = parse(markdown);
        project(&events)
    }

    /// The overlay of `markdown`: its plain text, and the way back.
    pub fn erase_markdown(markdown: &'a str) -> (overlay: PlainOverlay<'a>)
        ensures
            overlay@.raw == encode_utf8(markdown@),
            (overlay@.plain, overlay@.mapping) == projected(parsed(markdown@)),
            Projection::walk(parsed(markdown@)).plain.len() <= usize::MAX,
    {
        let (plain, mapping) = Self::extract_plain_with_mapping(markdown);
        PlainOverlay { raw: markdown, plain, mapping }
    }

    /// Whether `plain_range` can be translated.
    pub fn is_translatable(&self, plain_range: &Range) -> (yes: bool)
        ensures
            yes == translatable(self@.mapping, *plain_range),
    {
        can_translate(&self.mapping, plain_range)
    }

    /// Since most checkers will operate on the plain data, an indirection to
    /// map plain to markdown and back to what `resolver` makes of a range of
    /// the markdown: literals and spans.
    ///
    /// `resolver` is asked once for each range of the markdown that
    /// `plain_range` stands for, in the order of the mapping, and what it
    /// hands back is handed on, the answers one behind the other.
    pub fn linear_range_to_spans<T, F: Fn(Range) -> Vec<T>>(
        &self,
        plain_range: Range,
        resolver: F,
    ) -> (spans: Vec<T>)
        requires
            translatable(self@.mapping, plain_range),
            forall|k: int|
                0 <= k < translated(self@.mapping, plain_range).len() ==> call_requires(
                    resolver,
                    (#[trigger] translated(self@.mapping, plain_range)[k],),
                ),
        ensures
            exists|resolved: Seq<Vec<T>>|
                resolves(resolver, translated(self@.mapping, plain_range), resolved) && spans@
                    == concatenated(resolved),
    {
        let raws = translate(&self.mapping, plain_range);
        let mut spans: Vec<T> = Vec::with_capacity(64);
        let ghost mut resolved: Seq<Vec<T>> = Seq::empty();
        let mut k: usize = 0;
        while k < raws.len()
            invariant
                k <= raws.len(),
                forall|i: int|
                    0 <= i < raws.len() ==> call_requires(resolver, (#[trigger] raws[i],)),
                resolves(resolver, raws@.take(k as int), resolved),
                spans@ == concatenated(resolved),
            decreases raws.len() - k,
        {
            let mut answer = resolver(raws[k].start..raws[k].end);
            proof {
                let before = resolved;
                resolved = resolved.push(answer);
                assert(resolved.drop_last() == before);
            }
            spans.append(&mut answer);
            k += 1;
        }
        spans
    }

    /// As [`PlainOverlay::linear_range_to_spans`], for every range: `None`,
    /// and `resolver` not asked, where `plain_range` cannot be translated.
    pub fn checked_linear_range_to_spans<T, F: Fn(Range) -> Vec<T>>(
        &self,
        plain_range: Range,
        resolver: F,
    ) -> (spans: Option<Vec<T>>)
        requires
            translatable(self@.mapping, plain_range) ==> forall|k: int|
                0 <= k < translated(self@.mapping, plain_range).len() ==> call_requires(
                    resolver,
                    (#[trigger] translated(self@.mapping, plain_range)[k],),
                ),
        ensures
            match spans {
                Some(spans) => translatable(self@.mapping, plain_range) && exists|
                    resolved: Seq<Vec<T>>,
                |
                    resolves(resolver, translated(self@.mapping, plain_range), resolved) && spans@
                        == concatenated(resolved),
                None => !translatable(self@.mapping, plain_range),
            },
    {
        if self.is_translatable(&plain_range) {
            Some(self.linear_range_to_spans(plain_range, resolver))
        } else {
            None
        }
    }

    /// The plain text.
    pub fn as_str(&self) -> (plain: &str)
        ensures
            encode_utf8(plain@) == self@.plain,
    {
        self.plain.as_str()
    }

    /// The markdown.
    pub fn raw(&self) -> (raw: &'a str)
        ensures
            encode_utf8(raw@) == self@.raw,
    {
        self.raw
    }

    /// The mapping, as pairs of a range of the plain text and the range of
    /// the markdown that it was copied from.
    pub fn mapping(&self) -> (pairs: Vec<(Range, Range)>)
        ensures
            pairs@ == self@.mapping,
    {
        ranges(&self.mapping)
    }
}

/// The text that event `i` of `events` copies to the plain text: the title of
/// a link or an image, or text outside of code.
pub open spec fn copied(events: Seq<(MarkupView, Range)>, i: int) -> Option<Seq<char>> {
    match events[i].0 {
        MarkupView::LinkEnd(title) => Some(title),
        MarkupView::ImageEnd(title) => Some(title),
        MarkupView::Text(text) => if Projection::walk(events.take(i)).code_block {
            None
        } else {
            Some(text)
        },
        _ => None,
    }
}

/// Whether every text that `events` copy stands in `raw` as it is, at the
/// range that its event names.
pub open spec fn verbatim(raw: Seq<u8>, events: Seq<(MarkupView, Range)>) -> bool {
    forall|i: int|
        0 <= i < events.len() ==> (#[trigger] copied(events, i) matches Some(text) ==> {
            &&& events[i].1.start <= events[i].1.end <= raw.len()
            &&& raw.subrange(events[i].1.start as int, events[i].1.end as int) == encode_utf8(text)
        })
}

/// Whether the line feeds that are cut from the end of the plain text of
/// `events` are none that were copied: the last range of the mapping ends
/// where the cut text ends, or before.
pub open spec fn uncut(events: Seq<(MarkupView, Range)>) -> bool {
    let walked = Projection::walk(events);
    walked.mapping.len() > 0 ==> walked.mapping.last().0.end <= walked.plain.len()
        - trailing_newlines(walked.plain)
}

/// Whether `entry` names a range of `plain` and a range of `raw` that hold
/// the same bytes.
pub open spec fn copies(raw: Seq<u8>, plain: Seq<u8>, entry: (Range, Range)) -> bool {
    &&& entry.0.start <= entry.0.end <= plain.len()
    &&& entry.1.start <= entry.1.end <= raw.len()
    &&& plain.subrange(entry.0.start as int, entry.0.end as int) == raw.subrange(
        entry.1.start as int,
        entry.1.end as int,
    )
}

/// Whether the plain ranges of `mapping` lie one behind the other, each
/// from its start to a later end, or the same.
pub open spec fn in_order(mapping: Seq<(Range, Range)>) -> bool {
    &&& forall|k: int|
        0 <= k < mapping.len() ==> (#[trigger] mapping[k]).0.start <= mapping[k].0.end
    &&& forall|i: int, j: int|
        0 <= i < j < mapping.len() ==> (#[trigger] mapping[i]).0.end <= (
        #[trigger] mapping[j]).0.start
}

/// While the events are walked, the plain ranges of the mapping lie in the
/// plain text, one behind the other.
proof fn lemma_walk_in_order(events: Seq<(MarkupView, Range)>)
    requires
        Projection::walk(events).plain.len() <= usize::MAX,
    ensures
        in_order(Projection::walk(events).mapping),
        forall|k: int|
            0 <= k < Projection::walk(events).mapping.len() ==> (#[trigger] Projection::walk(
                events,
            ).mapping[k]).0.end <= Projection::walk(events).plain.len(),
    decreases events.len(),
{
    if events.len() > 0 {
        let before = events.drop_last();
        let event = events.last();
        let old = Projection::walk(before);
        lemma_walk_in_order(before);
        let text = copied(events, events.len() - 1);
        if text is Some {
            let bytes = encode_utf8(text->0);
            let to = Range {
                start: old.plain.len() as usize,
                end: (old.plain.len() + bytes.len()) as usize,
            };
            lemma_upserted(old.mapping, to, event.1);
        }
    }
}

/// The plain ranges of a mapping lie one behind the other, in the order of
/// the mapping.
pub proof fn lemma_mapping_in_order(events: Seq<(MarkupView, Range)>)
    requires
        Projection::walk(events).plain.len() <= usize::MAX,
    ensures
        in_order(projected(events).1),
{
    let walked = Projection::walk(events);
    let (plain, mapping) = projected(events);
    lemma_walk_in_order(events);
    if walked.mapping.len() > 0 {
        let (to, markdown) = walked.mapping.last();
        let cut = clamped(to, plain.len());
        let rest = walked.mapping.drop_last();
        lemma_upserted(rest, cut, markdown);
    }
}

/// While the events are walked, every range of the mapping names bytes of
/// the plain text that stand in `raw` as they are.
proof fn lemma_walk_copies(raw: Seq<u8>, events: Seq<(MarkupView, Range)>)
    requires
        verbatim(raw, events),
        Projection::walk(events).plain.len() <= usize::MAX,
    ensures
        forall|k: int|
            0 <= k < Projection::walk(events).mapping.len() ==> copies(
                raw,
                Projection::walk(events).plain,
                #[trigger] Projection::walk(events).mapping[k],
            ),
    decreases events.len(),
{
    if events.len() > 0 {
        let before = events.drop_last();
        let event = events.last();
        let old = Projection::walk(before);
        let new = Projection::walk(events);
        assert forall|i: int| 0 <= i < before.len() implies (#[trigger] copied(
            before,
            i,
        ) matches Some(text) ==> {
            &&& before[i].1.start <= before[i].1.end <= raw.len()
            &&& raw.subrange(before[i].1.start as int, before[i].1.end as int) == encode_utf8(text)
        }) by {
            assert(before.take(i) == events.take(i));
            assert(copied(before, i) == copied(events, i));
        }
        lemma_walk_copies(raw, before);
        let text = copied(events, events.len() - 1);
        if text is Some {
            let bytes = encode_utf8(text->0);
            let to = Range {
                start: old.plain.len() as usize,
                end: (old.plain.len() + bytes.len()) as usize,
            };
            lemma_upserted(old.mapping, to, event.1);
            assert(new.plain.subrange(to.start as int, to.end as int) == bytes);
            assert forall|k: int| 0 <= k < new.mapping.len() implies copies(
                raw,
                new.plain,
                #[trigger] new.mapping[k],
            ) by {
                if new.mapping[k] != (to, event.1) {
                    let entry = old.mapping[k];
                    assert(new.plain.subrange(entry.0.start as int, entry.0.end as int)
                        == old.plain.subrange(entry.0.start as int, entry.0.end as int));
                }
            }
        } else {
            assert forall|k: int| 0 <= k < new.mapping.len() implies copies(
                raw,
                new.plain,
                #[trigger] new.mapping[k],
            ) by {
                let entry = old.mapping[k];
                assert(new.plain.subrange(entry.0.start as int, entry.0.end as int)
                    == old.plain.subrange(entry.0.start as int, entry.0.end as int));
            }
        }
    }
}

/// The way back is exact: each range of the mapping names bytes of the plain
/// text, and the range of the markdown that it leads to holds the same bytes.
///
/// This is so where the parser gives each copied text as it stands in the
/// markdown, with the range at which it stands, and where no copied line feed
/// is cut from the end of the plain text.
pub proof fn lemma_round_trip(raw: Seq<u8>, events: Seq<(MarkupView, Range)>)
    requires
        verbatim(raw, events),
        uncut(events),
        Projection::walk(events).plain.len() <= usize::MAX,
    ensures
        forall|k: int|
            0 <= k < projected(events).1.len() ==> copies(
                raw,
                projected(events).0,
                #[trigger] projected(events).1[k],
            ),
{
    let walked = Projection::walk(events);
    let (plain, mapping) = projected(events);
    lemma_walk_copies(raw, events);
    lemma_walk_in_order(events);
    if walked.mapping.len() > 0 {
        let (to, markdown) = walked.mapping.last();
        lemma_upserted(walked.mapping.drop_last(), to, markdown);
        assert forall|k: int| 0 <= k < mapping.len() implies copies(
            raw,
            plain,
            #[trigger] mapping[k],
        ) by {
            let entry = mapping[k];
            assert(plain.subrange(entry.0.start as int, entry.0.end as int)
                == walked.plain.subrange(entry.0.start as int, entry.0.end as int));
        }
    }
}

} // verus!
