//! The patch engine: approved edits go into the lines of a file, each at the
//! columns that its line had before any edit.

use crate::action::bandaid::{follows, BandAid, BandAidView};
use crate::text::{lemma_newline_is_text, lemma_slice_is_text, lemma_text_concat, NEWLINE};
use vstd::prelude::*;
use vstd::utf8::{
    encode_utf8, encode_utf8_valid_utf8, is_char_boundary, is_char_boundary_start_end_of_seq,
    valid_utf8,
};

verus! {

/// Why a set of edits cannot be applied to a file.
#[derive(Debug, Clone, Copy, PartialEq, Eq)]
pub enum PatchError {
    /// The lines of the file do not come with ascending numbers.
    Lines,
    /// The edit at this place targets the line of the edit before it at an
    /// earlier column than where that one ends, or an earlier line.
    Unordered(usize),
    /// The edit at this place targets no line of the file, or columns that
    /// its line does not have, or that lie inside a character.
    Misplaced(usize),
}

/// The lines as mathematical values: the number of each with the bytes of
/// its text.
pub open spec fn line_views(source: Seq<(usize, String)>) -> Seq<(usize, Seq<u8>)> {
    source.map_values(|line: (usize, String)| (line.0, encode_utf8(line.1@)))
}

/// The column up to which `edits` have dealt with their line: where the last
/// of them ends.
pub open spec fn column_after(edits: Seq<BandAidView>) -> int {
    if edits.len() == 0 {
        0
    } else {
        edits.last().span.range.end as int
    }
}

/// What `edits` make of `content` up to where the last of them ends: what
/// lies between two edits stays, what an edit names gives way to its
/// replacement. The columns are those of `content`, whatever the edits before
/// have changed.
pub open spec fn patched_upto(content: Seq<u8>, edits: Seq<BandAidView>) -> Seq<u8>
    decreases edits.len(),
{
    if edits.len() == 0 {
        Seq::empty()
    } else {
        patched_upto(content, edits.drop_last()) + content.subrange(
            column_after(edits.drop_last()),
            edits.last().span.range.start as int,
        ) + encode_utf8(edits.last().replacement)
    }
}

/// What `edits` make of the line `content`.
pub open spec fn patched(content: Seq<u8>, edits: Seq<BandAidView>) -> Seq<u8> {
    patched_upto(content, edits) + content.subrange(column_after(edits), content.len() as int)
}

/// Those of `bandaids` that target line `line`, in their order.
pub open spec fn edits_on(bandaids: Seq<BandAidView>, line: usize) -> Seq<BandAidView> {
    bandaids.filter(|bandaid: BandAidView| bandaid.span.line == line)
}

/// The file that `bandaids` make of `lines`: each line with the edits that
/// target it, and a line feed behind it.
pub open spec fn corrected(bandaids: Seq<BandAidView>, lines: Seq<(usize, Seq<u8>)>) -> Seq<u8>
    decreases lines.len(),
{
    if lines.len() == 0 {
        Seq::empty()
    } else {
        corrected(bandaids, lines.drop_last()) + patched(
            lines.last().1,
            edits_on(bandaids, lines.last().0),
        ) + seq![NEWLINE]
    }
}

/// Whether the numbers of `lines` ascend.
pub open spec fn ascending(lines: Seq<(usize, Seq<u8>)>) -> bool {
    forall|i: int, j: int|
        0 <= i < j < lines.len() ==> (#[trigger] lines[i]).0 < (#[trigger] lines[j]).0
}

/// Whether `bandaid` names columns of line `at` of `lines`, from one boundary
/// between characters to a later one, or the same.
pub open spec fn fits_at(bandaid: BandAidView, lines: Seq<(usize, Seq<u8>)>, at: int) -> bool {
    &&& 0 <= at < lines.len()
    &&& lines[at].0 == bandaid.span.line
    &&& bandaid.span.range.start <= bandaid.span.range.end <= lines[at].1.len()
    &&& is_char_boundary(lines[at].1, bandaid.span.range.start as int)
    &&& is_char_boundary(lines[at].1, bandaid.span.range.end as int)
}

/// Whether `bandaid` names columns of a line of `lines`.
pub open spec fn fits(bandaid: BandAidView, lines: Seq<(usize, Seq<u8>)>) -> bool {
    exists|at: int| fits_at(bandaid, lines, at)
}

/// Whether edit `i` of `bandaids` is in order: it fits a line, and follows
/// the edit before it.
pub open spec fn sound(bandaids: Seq<BandAidView>, lines: Seq<(usize, Seq<u8>)>, i: int) -> bool {
    fits(bandaids[i], lines) && (i > 0 ==> follows(bandaids[i - 1], bandaids[i]))
}

/// What the patch engine asks of its caller: lines with ascending numbers,
/// and edits sorted by line and column, none reaching into the next, each on
/// a line of the file and within it.
pub open spec fn applicable(bandaids: Seq<BandAidView>, lines: Seq<(usize, Seq<u8>)>) -> bool {
    &&& ascending(lines)
    &&& forall|i: int| 0 <= i < bandaids.len() ==> sound(bandaids, lines, i)
}

/// Whether `error` names what is wrong with `bandaids` and `lines`: the
/// order of the lines, or else the first edit that is not in order, with what
/// is wrong with it, its place among the edits first.
pub open spec fn faulty(
    bandaids: Seq<BandAidView>,
    lines: Seq<(usize, Seq<u8>)>,
    error: PatchError,
) -> bool {
    match error {
        PatchError::Lines => !ascending(lines),
        PatchError::Unordered(i) => {
            &&& ascending(lines)
            &&& 0 < i < bandaids.len()
            &&& forall|j: int| 0 <= j < i ==> sound(bandaids, lines, j)
            &&& !follows(bandaids[i - 1], bandaids[i as int])
        },
        PatchError::Misplaced(i) => {
            &&& ascending(lines)
            &&& i < bandaids.len()
            &&& forall|j: int| 0 <= j < i ==> sound(bandaids, lines, j)
            &&& i > 0 ==> follows(bandaids[i - 1], bandaids[i as int])
            &&& !fits(bandaids[i as int], lines)
        },
    }
}

/// Nothing is wrong with edits and lines that meet what the patch engine
/// asks: the engine fails on those alone that do not.
pub proof fn lemma_applicable_is_faultless(
    bandaids: Seq<BandAidView>,
    lines: Seq<(usize, Seq<u8>)>,
    error: PatchError,
)
    requires
        applicable(bandaids, lines),
    ensures
        !faulty(bandaids, lines, error),
{
    match error {
        PatchError::Lines => {},
        PatchError::Unordered(i) => {
            if 0 < i < bandaids.len() {
                assert(sound(bandaids, lines, i as int));
            }
        },
        PatchError::Misplaced(i) => {
            if i < bandaids.len() {
                assert(sound(bandaids, lines, i as int));
            }
        },
    }
}

/// Checks what the patch engine asks of its caller, and says what is wrong
/// where it is not met.
pub fn validate(bandaids: &Vec<BandAid>, source: &Vec<(usize, String)>) -> (checked: Result<
    (),
    PatchError,
>)
    ensures
        match checked {
            Ok(()) => applicable(bandaids.deep_view(), line_views(source@)),
            Err(error) => faulty(bandaids.deep_view(), line_views(source@), error),
        },
{
    let ghost edits = bandaids.deep_view();
    let ghost lines = line_views(source@);
    let mut k: usize = 1;
    while k < source.len()
        invariant
            1 <= k,
            lines == line_views(source@),
            forall|i: int, j: int|
                0 <= i < j < k && j < lines.len() ==> (#[trigger] lines[i]).0 < (
                #[trigger] lines[j]).0,
        decreases source.len() - k,
    {
        if source[k - 1].0 >= source[k].0 {
            proof {
                assert(lines[k - 1].0 >= lines[k as int].0);
            }
            return Err(PatchError::Lines);
        }
        k += 1;
    }

    let mut at: usize = 0;
    let mut i: usize = 0;
    while i < bandaids.len()
        invariant
            i <= bandaids.len(),
            at <= source.len(),
            edits == bandaids.deep_view(),
            lines == line_views(source@),
            ascending(lines),
            forall|j: int| 0 <= j < i ==> sound(edits, lines, j),
            i == 0 ==> at == 0,
            i > 0 ==> forall|k: int|
                0 <= k < at ==> (#[trigger] lines[k]).0 < edits[i - 1].span.line,
        decreases bandaids.len() - i,
    {
        let bandaid = &bandaids[i];
        if i > 0 {
            let previous = &bandaids[i - 1];
            if !(previous.span.line < bandaid.span.line || (previous.span.line == bandaid.span.line
                && previous.span.range.end <= bandaid.span.range.start)) {
                return Err(PatchError::Unordered(i));
            }
        }
        while at < source.len() && source[at].0 < bandaid.span.line
            invariant
                at <= source.len(),
                lines == line_views(source@),
                forall|k: int| 0 <= k < at ==> (#[trigger] lines[k]).0 < bandaid.span.line,
            decreases source.len() - at,
        {
            at += 1;
        }
        if at == source.len() || source[at].0 != bandaid.span.line {
            proof {
                assert forall|k: int| !fits_at(edits[i as int], lines, k) by {
                    if at <= k < lines.len() {
                        assert(lines[at as int].0 <= lines[k].0);
                    }
                }
            }
            return Err(PatchError::Misplaced(i));
        }
        let text = source[at].1.as_str();
        let start = bandaid.span.range.start;
        let end = bandaid.span.range.end;
        if !(start <= end && end <= text.as_bytes().len() && text.is_char_boundary(start)
            && text.is_char_boundary(end)) {
            return Err(PatchError::Misplaced(i));
        }
        proof {
            assert(fits_at(edits[i as int], lines, at as int));
        }
        i += 1;
    }
    Ok(())
}

/// Where `pred` holds of the items from `lo` up to `hi` and of no others,
/// those are what the filter keeps.
proof fn lemma_filter_block<A>(s: Seq<A>, pred: spec_fn(A) -> bool, lo: int, hi: int)
    requires
        0 <= lo <= hi <= s.len(),
        forall|j: int| 0 <= j < s.len() ==> (pred(#[trigger] s[j]) <==> lo <= j < hi),
    ensures
        s.filter(pred) == s.subrange(lo, hi),
    decreases s.len(),
{
    reveal(Seq::filter);
    if s.len() > 0 {
        let rest = s.drop_last();
        if hi == s.len() && lo < hi {
            lemma_filter_block(rest, pred, lo, hi - 1);
        } else if hi == s.len() {
            lemma_filter_block(rest, pred, 0, 0);
        } else {
            lemma_filter_block(rest, pred, lo, hi);
        }
    }
}

/// Edits of which each follows the one before it come line by line.
proof fn lemma_lines_ascend(bandaids: Seq<BandAidView>, i: int, j: int)
    requires
        forall|k: int| 0 < k < bandaids.len() ==> follows(bandaids[k - 1], #[trigger] bandaids[k]),
        0 <= i <= j < bandaids.len(),
    ensures
        bandaids[i].span.line <= bandaids[j].span.line,
    decreases j - i,
{
    if i < j {
        lemma_lines_ascend(bandaids, i, j - 1);
    }
}

/// Puts `bytes` at the end of `sink`.
fn write(sink: &mut Vec<u8>, bytes: &[u8])
    ensures
        final(sink)@ == old(sink)@ + bytes@,
{
    sink.extend_from_slice(bytes);
}

/// Whether the edits before `next` target lines before line `l` of `lines`,
/// and the others none of the lines before it.
spec fn aligned(edits: Seq<BandAidView>, lines: Seq<(usize, Seq<u8>)>, next: int, l: int) -> bool {
    &&& forall|j: int, k: int|
        0 <= j < next && l <= k < lines.len() ==> (#[trigger] edits[j]).span.line < (
        #[trigger] lines[k]).0
    &&& forall|j: int, k: int|
        next <= j < edits.len() && 0 <= k < l ==> (#[trigger] lines[k]).0 < (
        #[trigger] edits[j]).span.line
}

/// An edit that targets line `l` names columns of that line; and it begins
/// no earlier than where the edit before it ends, if that targets the line
/// too.
proof fn lemma_edit_fits(edits: Seq<BandAidView>, lines: Seq<(usize, Seq<u8>)>, l: int, next: int)
    requires
        applicable(edits, lines),
        0 <= l < lines.len(),
        0 <= next < edits.len(),
        edits[next].span.line == lines[l].0,
    ensures
        fits_at(edits[next], lines, l),
        next > 0 && edits[next - 1].span.line == lines[l].0 ==> edits[next - 1].span.range.end
            <= edits[next].span.range.start,
{
    assert(sound(edits, lines, next));
}

/// An edit that targets none of the lines before line `l`, nor that line,
/// targets a later one.
proof fn lemma_edit_later(edits: Seq<BandAidView>, lines: Seq<(usize, Seq<u8>)>, l: int, j: int)
    requires
        applicable(edits, lines),
        0 <= l < lines.len(),
        0 <= j < edits.len(),
        forall|k: int| 0 <= k < l ==> (#[trigger] lines[k]).0 < edits[j].span.line,
        edits[j].span.line != lines[l].0,
    ensures
        lines[l].0 < edits[j].span.line,
{
    assert(sound(edits, lines, j));
}

/// The edits that the pass applies to line `l` are those that target it, and
/// behind them come the edits of later lines.
proof fn lemma_block(
    edits: Seq<BandAidView>,
    lines: Seq<(usize, Seq<u8>)>,
    l: int,
    first: int,
    next: int,
)
    requires
        applicable(edits, lines),
        0 <= l < lines.len(),
        0 <= first <= next <= edits.len(),
        aligned(edits, lines, first, l),
        forall|j: int| first <= j < next ==> (#[trigger] edits[j]).span.line == lines[l].0,
        next < edits.len() ==> edits[next].span.line != lines[l].0,
    ensures
        edits_on(edits, lines[l].0) == edits.subrange(first, next),
        aligned(edits, lines, next, l + 1),
{
    let number = lines[l].0;
    let pred = |bandaid: BandAidView| bandaid.span.line == number;
    assert forall|k: int| 0 < k < edits.len() implies follows(
        edits[k - 1],
        #[trigger] edits[k],
    ) by {
        assert(sound(edits, lines, k));
    }
    assert forall|j: int| next <= j < edits.len() implies number < (
    #[trigger] edits[j]).span.line by {
        // none of the lines before is the line of the next edit, nor is this one
        assert(forall|k: int| 0 <= k < l ==> (#[trigger] lines[k]).0 < edits[next].span.line);
        lemma_edit_later(edits, lines, l, next);
        lemma_lines_ascend(edits, next, j);
    }
    lemma_filter_block(edits, pred, first, next);
}

/// The single forward pass of the patch engine.
fn apply(bandaids: &Vec<BandAid>, source: &Vec<(usize, String)>, sink: &mut Vec<u8>)
    requires
        applicable(bandaids.deep_view(), line_views(source@)),
    ensures
        final(sink)@ == old(sink)@ + corrected(bandaids.deep_view(), line_views(source@)),
        valid_utf8(corrected(bandaids.deep_view(), line_views(source@))),
{
    let ghost edits = bandaids.deep_view();
    let ghost lines = line_views(source@);
    let mut next: usize = 0;
    let mut l: usize = 0;
    while l < source.len()
        invariant
            l <= source.len(),
            next <= bandaids.len(),
            edits == bandaids.deep_view(),
            lines == line_views(source@),
            applicable(edits, lines),
            sink@ == old(sink)@ + corrected(edits, lines.take(l as int)),
            valid_utf8(corrected(edits, lines.take(l as int))),
            aligned(edits, lines, next as int, l as int),
        decreases source.len() - l,
    {
        let number = source[l].0;
        let content = source[l].1.as_str().as_bytes();
        let ghost first = next as int;
        let ghost before = sink@;
        let mut column: usize = 0;
        proof {
            encode_utf8_valid_utf8(source[l as int].1@);
            is_char_boundary_start_end_of_seq(content@);
        }
        while next < bandaids.len() && bandaids[next].span.covers_line(number)
            invariant
                0 <= first <= next <= bandaids.len(),
                l < source.len(),
                edits == bandaids.deep_view(),
                lines == line_views(source@),
                applicable(edits, lines),
                lines[l as int] == (number, content@),
                forall|j: int| first <= j < next ==> (#[trigger] edits[j]).span.line == number,
                column == column_after(edits.subrange(first, next as int)),
                column <= content.len(),
                valid_utf8(content@),
                is_char_boundary(content@, column as int),
                valid_utf8(patched_upto(content@, edits.subrange(first, next as int))),
                sink@ == before + patched_upto(content@, edits.subrange(first, next as int)),
            decreases bandaids.len() - next,
        {
            let bandaid = &bandaids[next];
            let start = bandaid.span.range.start;
            let end = bandaid.span.range.end;
            proof {
                lemma_edit_fits(edits, lines, l as int, next as int);
                assert(edits.subrange(first, next + 1).drop_last() == edits.subrange(
                    first,
                    next as int,
                ));
                lemma_slice_is_text(content@, column as int, start as int);
                encode_utf8_valid_utf8(edits[next as int].replacement);
                lemma_text_concat(
                    patched_upto(content@, edits.subrange(first, next as int)),
                    content@.subrange(column as int, start as int),
                );
                lemma_text_concat(
                    patched_upto(content@, edits.subrange(first, next as int)) + content@.subrange(
                        column as int,
                        start as int,
                    ),
                    encode_utf8(edits[next as int].replacement),
                );
            }
            // write prelude for this line between start or previous replacement
            if start > column {
                write(sink, &content[column..start]);
            }
            // write the replacement chunk
            write(sink, bandaid.replacement.as_str().as_bytes());
            column = end;
            next += 1;
        }
        // the last replacement may be the end of content
        if column < content.len() {
            write(sink, &content[column..content.len()]);
        }
        sink.push(NEWLINE);
        proof {
            lemma_block(edits, lines, l as int, first, next as int);
            let block = edits.subrange(first, next as int);
            assert(lines.take(l + 1).drop_last() == lines.take(l as int));
            lemma_slice_is_text(content@, column as int, content.len() as int);
            lemma_text_concat(
                patched_upto(content@, block),
                content@.subrange(column as int, content.len() as int),
            );
            lemma_newline_is_text();
            lemma_text_concat(corrected(edits, lines.take(l as int)), patched(content@, block));
            lemma_text_concat(
                corrected(edits, lines.take(l as int)) + patched(content@, block),
                seq![NEWLINE],
            );
        }
        l += 1;
    }
    proof {
        assert(lines.take(source.len() as int) == lines);
    }
}

/// Correct all lines: `bandaids` are the fixes to be applied to the lines of
/// `source`, which come with their numbers; the corrected lines go to `sink`,
/// each with a line feed behind it.
///
/// The edits of a line are applied from left to right, at the columns that
/// the line had before any of them. Where the edits are not sorted, reach
/// into one another or target what the file does not have, nothing is
/// written, and the error says what is wrong.
pub fn correct_lines(
    bandaids: Vec<BandAid>,
    source: Vec<(usize, String)>,
    sink: &mut Vec<u8>,
) -> (done: Result<(), PatchError>)
    ensures
        match done {
            Ok(()) => {
                &&& applicable(bandaids.deep_view(), line_views(source@))
                &&& final(sink)@ == old(sink)@ + corrected(
                    bandaids.deep_view(),
                    line_views(source@),
                )
                &&& valid_utf8(corrected(bandaids.deep_view(), line_views(source@)))
            },
            Err(error) => {
                &&& faulty(bandaids.deep_view(), line_views(source@), error)
                &&& final(sink)@ == old(sink)@
            },
        },
{
    match validate(&bandaids, &source) {
        Ok(()) => {
            apply(&bandaids, &source, sink);
            Ok(())
        },
        Err(error) => Err(error),
    }
}

/// A line that no edit targets stays as it is.
pub proof fn lemma_untouched(content: Seq<u8>)
    ensures
        patched(content, Seq::empty()) == content,
{
}

/// The lines one behind the other, each with a line feed behind it.
pub open spec fn unchanged(lines: Seq<(usize, Seq<u8>)>) -> Seq<u8>
    decreases lines.len(),
{
    if lines.len() == 0 {
        Seq::empty()
    } else {
        unchanged(lines.drop_last()) + lines.last().1 + seq![NEWLINE]
    }
}

/// Applying no edits reproduces the lines, each with a line feed behind it.
pub proof fn lemma_no_bandaids(lines: Seq<(usize, Seq<u8>)>)
    ensures
        corrected(Seq::empty(), lines) == unchanged(lines),
        ascending(lines) ==> applicable(Seq::empty(), lines),
    decreases lines.len(),
{
    if lines.len() > 0 {
        lemma_no_bandaids(lines.drop_last());
    }
}

/// How many bytes `edits` take out of their line.
pub open spec fn removed(edits: Seq<BandAidView>) -> int
    decreases edits.len(),
{
    if edits.len() == 0 {
        0
    } else {
        removed(edits.drop_last()) + (edits.last().span.range.end - edits.last().span.range.start)
    }
}

/// How many bytes `edits` put into their line.
pub open spec fn inserted(edits: Seq<BandAidView>) -> int
    decreases edits.len(),
{
    if edits.len() == 0 {
        0
    } else {
        inserted(edits.drop_last()) + encode_utf8(edits.last().replacement).len()
    }
}

/// Whether `edits` name columns of a line of `len` bytes, one behind the
/// other, none reaching into the next.
pub open spec fn in_line(edits: Seq<BandAidView>, len: int) -> bool {
    &&& forall|i: int|
        0 <= i < edits.len() ==> (#[trigger] edits[i]).span.range.start <= edits[i].span.range.end
            <= len
    &&& forall|i: int|
        0 < i < edits.len() ==> edits[i - 1].span.range.end <= (
        #[trigger] edits[i]).span.range.start
}

/// A patched line is as long as the line, less what the edits took out, plus
/// what they put in.
pub proof fn lemma_patched_len(content: Seq<u8>, edits: Seq<BandAidView>)
    requires
        in_line(edits, content.len() as int),
    ensures
        patched(content, edits).len() == content.len() - removed(edits) + inserted(edits),
        patched_upto(content, edits).len() == column_after(edits) - removed(edits) + inserted(
            edits,
        ),
    decreases edits.len(),
{
    if edits.len() > 0 {
        let before = edits.drop_last();
        lemma_patched_len(content, before);
    }
}

} // verus!
