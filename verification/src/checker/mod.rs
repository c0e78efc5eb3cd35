//! What the checkers share: the split of plain text into words, and the
//! merge of what the checkers found.

use crate::span::Range;
use crate::suggestion::{joined, SuggestionSet, SuggestionView};
use crate::text::lemma_bytes_concat;
use vstd::prelude::*;
use vstd::utf8::{encode_scalar, encode_utf8};

verus! {

/// Whether `c` is white space, as Unicode has it.
pub open spec fn is_whitespace(c: char) -> bool {
    let u = c as u32;
    ||| 0x09 <= u <= 0x0D
    ||| u == 0x20
    ||| u == 0x85
    ||| u == 0xA0
    ||| u == 0x1680
    ||| 0x2000 <= u <= 0x200A
    ||| u == 0x2028
    ||| u == 0x2029
    ||| u == 0x202F
    ||| u == 0x205F
    ||| u == 0x3000
}

/// Whether `c` is one of the marks that end a word.
pub open spec fn is_blacklisted(c: char) -> bool {
    ||| c == '"'
    ||| c == ';'
    ||| c == ':'
    ||| c == ','
    ||| c == '.'
    ||| c == '?'
    ||| c == '!'
    ||| c == '#'
    ||| c == '('
    ||| c == ')'
    ||| c == '{'
    ||| c == '}'
    ||| c == '['
    ||| c == ']'
    ||| c == '-'
    ||| c == '\n'
    ||| c == '\r'
    ||| c == '/'
    ||| c == '`'
}

/// Whether `c` stands between words: white space, or one of the marks.
pub open spec fn is_ignore_char(c: char) -> bool {
    is_whitespace(c) || is_blacklisted(c)
}

/// The byte at which character `i` of `chars` begins; for their number, the
/// byte length of the text.
pub open spec fn offset(chars: Seq<char>, i: int) -> int {
    encode_utf8(chars.take(i)).len() as int
}

/// Where the run of word characters begins that ends before character `end`.
pub open spec fn run_start(chars: Seq<char>, end: int) -> int
    decreases end,
{
    if end <= 0 || end > chars.len() || is_ignore_char(chars[end - 1]) {
        end
    } else {
        run_start(chars, end - 1)
    }
}

/// Whether a word ends before character `end`: a word character stands there,
/// and none behind it.
pub open spec fn word_ends(chars: Seq<char>, end: int) -> bool {
    &&& 0 < end <= chars.len()
    &&& !is_ignore_char(chars[end - 1])
    &&& end == chars.len() || is_ignore_char(chars[end])
}

/// The words that end before character `upto` or earlier, in their order,
/// each from its first character to behind its last.
pub open spec fn words(chars: Seq<char>, upto: int) -> Seq<(int, int)>
    decreases upto,
{
    if upto <= 0 {
        Seq::empty()
    } else if word_ends(chars, upto) {
        words(chars, upto - 1).push((run_start(chars, upto), upto))
    } else {
        words(chars, upto - 1)
    }
}

/// The byte range of each word.
pub open spec fn byte_ranges(chars: Seq<char>, words: Seq<(int, int)>) -> Seq<Range> {
    words.map_values(
        |word: (int, int)|
            Range { start: offset(chars, word.0) as usize, end: offset(chars, word.1) as usize },
    )
}

/// The tokens of a text: the byte ranges of its words.
pub open spec fn tokens(chars: Seq<char>) -> Seq<Range> {
    byte_ranges(chars, words(chars, chars.len() as int))
}

/// Whether `c` is white space.
pub fn is_whitespace_char(c: char) -> (white: bool)
    ensures
        white == is_whitespace(c),
{
    let u = c as u32;
    (0x09 <= u && u <= 0x0D) || u == 0x20 || u == 0x85 || u == 0xA0 || u == 0x1680 || (0x2000 <= u
        && u <= 0x200A) || u == 0x2028 || u == 0x2029 || u == 0x202F || u == 0x205F || u == 0x3000
}

/// Whether `c` stands between words.
pub fn is_boundary(c: char) -> (ignore: bool)
    ensures
        ignore == is_ignore_char(c),
{
    is_whitespace_char(c) || c == '"' || c == ';' || c == ':' || c == ',' || c == '.' || c == '?'
        || c == '!' || c == '#' || c == '(' || c == ')' || c == '{' || c == '}' || c == '['
        || c == ']' || c == '-' || c == '\n' || c == '\r' || c == '/' || c == '`'
}

/// How many bytes `c` takes.
fn width(c: char) -> (bytes: usize)
    ensures
        bytes == encode_scalar(c as u32).len(),
        1 <= bytes <= 4,
{
    let u = c as u32;
    if u <= 0x7F {
        1
    } else if u <= 0x7FF {
        2
    } else if u <= 0xFFFF {
        3
    } else {
        4
    }
}

/// The offsets grow from character to character, by the bytes of each.
proof fn lemma_offset_step(chars: Seq<char>, i: int)
    requires
        0 <= i < chars.len(),
    ensures
        offset(chars, i + 1) == offset(chars, i) + encode_scalar(chars[i] as u32).len(),
        offset(chars, i) < offset(chars, i + 1),
    decreases chars.len(),
{
    let one = seq![chars[i]];
    assert(chars.take(i + 1) == chars.take(i) + one);
    lemma_bytes_concat(chars.take(i), one);
    assert(encode_utf8(one) == encode_scalar(chars[i] as u32) + encode_utf8(one.drop_first()));
}

/// A later character begins at a later byte.
pub proof fn lemma_offset_grows(chars: Seq<char>, i: int, j: int)
    requires
        0 <= i <= j <= chars.len(),
    ensures
        offset(chars, i) <= offset(chars, j),
        i < j ==> offset(chars, i) < offset(chars, j),
        offset(chars, j) <= encode_utf8(chars).len(),
    decreases chars.len() - i,
{
    if i < j {
        lemma_offset_step(chars, i);
        lemma_offset_grows(chars, i + 1, j);
    } else if j < chars.len() {
        lemma_offset_step(chars, j);
        lemma_offset_grows(chars, j + 1, chars.len() as int);
    } else {
        assert(chars.take(j) == chars);
    }
}

/// Whether the characters from `first` up to `end` are a word: word
/// characters all, with none before and none behind.
pub open spec fn is_word(chars: Seq<char>, first: int, end: int) -> bool {
    &&& 0 <= first < end <= chars.len()
    &&& forall|i: int| first <= i < end ==> !is_ignore_char(#[trigger] chars[i])
    &&& first == 0 || is_ignore_char(chars[first - 1])
    &&& end == chars.len() || is_ignore_char(chars[end])
}

/// The run that ends before `end` holds word characters only, and none
/// stands before it.
proof fn lemma_run_start(chars: Seq<char>, end: int)
    requires
        0 <= end <= chars.len(),
    ensures
        0 <= run_start(chars, end) <= end,
        forall|i: int| run_start(chars, end) <= i < end ==> !is_ignore_char(#[trigger] chars[i]),
        run_start(chars, end) == 0 || is_ignore_char(chars[run_start(chars, end) - 1]),
    decreases end,
{
    if end > 0 && !is_ignore_char(chars[end - 1]) {
        lemma_run_start(chars, end - 1);
    }
}

/// `words` lists words, one behind the other with something between them.
pub proof fn lemma_words(chars: Seq<char>, upto: int)
    requires
        upto <= chars.len(),
    ensures
        forall|k: int|
            0 <= k < words(chars, upto).len() ==> is_word(
                chars,
                (#[trigger] words(chars, upto)[k]).0,
                words(chars, upto)[k].1,
            ) && words(chars, upto)[k].1 <= upto,
        forall|k: int|
            0 < k < words(chars, upto).len() ==> words(chars, upto)[k - 1].1 < (#[trigger] words(
                chars,
                upto,
            )[k]).0,
    decreases upto,
{
    if upto > 0 {
        lemma_words(chars, upto - 1);
        let before = words(chars, upto - 1);
        if word_ends(chars, upto) {
            lemma_run_start(chars, upto);
            assert(words(chars, upto) == before.push((run_start(chars, upto), upto)));
        } else {
            assert(words(chars, upto) == before);
        }
    }
}

/// `words` lists every word.
pub proof fn lemma_words_complete(chars: Seq<char>, first: int, end: int, upto: int)
    requires
        is_word(chars, first, end),
        end <= upto <= chars.len(),
    ensures
        words(chars, upto).contains((first, end)),
    decreases upto,
{
    if upto > end {
        lemma_words_complete(chars, first, end, upto - 1);
        let before = words(chars, upto - 1);
        let at = choose|at: int| 0 <= at < before.len() && before[at] == (first, end);
        assert(words(chars, upto)[at] == (first, end));
    } else {
        lemma_run_start(chars, end);
        assert(words(chars, upto)[words(chars, upto).len() - 1] == (first, end));
    }
}

/// The bytes between the offsets of two characters are the bytes of the
/// characters between them.
pub proof fn lemma_offset_bytes(chars: Seq<char>, first: int, end: int)
    requires
        0 <= first <= end <= chars.len(),
    ensures
        encode_utf8(chars).subrange(offset(chars, first), offset(chars, end)) == encode_utf8(
            chars.subrange(first, end),
        ),
{
    let head = chars.take(first);
    let word = chars.subrange(first, end);
    let tail = chars.skip(end);
    assert(chars.take(end) == head + word);
    assert(chars == chars.take(end) + tail);
    lemma_bytes_concat(head, word);
    lemma_bytes_concat(chars.take(end), tail);
}

/// The tokens of a text that fits in memory are ascending and apart, none is
/// empty, and each spans a word: characters that are no white space and none
/// of the marks.
pub proof fn lemma_tokens(chars: Seq<char>)
    requires
        encode_utf8(chars).len() <= usize::MAX,
    ensures
        tokens(chars).len() == words(chars, chars.len() as int).len(),
        forall|k: int|
            0 <= k < tokens(chars).len() ==> {
                let word = words(chars, chars.len() as int)[k];
                let token = #[trigger] tokens(chars)[k];
                &&& is_word(chars, word.0, word.1)
                &&& token.start == offset(chars, word.0)
                &&& token.end == offset(chars, word.1)
                &&& token.start < token.end <= encode_utf8(chars).len()
                &&& encode_utf8(chars).subrange(token.start as int, token.end as int)
                    == encode_utf8(chars.subrange(word.0, word.1))
            },
        forall|j: int, k: int|
            0 <= j < k < tokens(chars).len() ==> (#[trigger] tokens(chars)[j]).end < (
            #[trigger] tokens(chars)[k]).start,
{
    let all = words(chars, chars.len() as int);
    lemma_words(chars, chars.len() as int);
    assert forall|k: int| 0 <= k < tokens(chars).len() implies {
        let word = all[k];
        let token = #[trigger] tokens(chars)[k];
        &&& is_word(chars, word.0, word.1)
        &&& token.start == offset(chars, word.0)
        &&& token.end == offset(chars, word.1)
        &&& token.start < token.end <= encode_utf8(chars).len()
        &&& encode_utf8(chars).subrange(token.start as int, token.end as int) == encode_utf8(
            chars.subrange(word.0, word.1),
        )
    } by {
        let word = all[k];
        lemma_offset_grows(chars, word.0, word.1);
        lemma_offset_bytes(chars, word.0, word.1);
    }
    assert forall|j: int, k: int| 0 <= j < k < tokens(chars).len() implies (#[trigger] tokens(
        chars,
    )[j]).end < (#[trigger] tokens(chars)[k]).start by {
        lemma_words_apart(chars, j, k);
        lemma_offset_grows(chars, all[j].1, all[k].0);
    }
}

/// A word that `words` lists later begins behind the end of one that it
/// lists earlier.
proof fn lemma_words_apart(chars: Seq<char>, j: int, k: int)
    requires
        0 <= j < k < words(chars, chars.len() as int).len(),
    ensures
        words(chars, chars.len() as int)[j].1 < words(chars, chars.len() as int)[k].0,
    decreases k - j,
{
    lemma_words(chars, chars.len() as int);
    if j + 1 < k {
        lemma_words_apart(chars, j, k - 1);
    }
}

/// Whether `token` names the bytes of the characters of `word`, and these
/// are a word.
pub open spec fn spans_word(chars: Seq<char>, token: Range, word: (int, int)) -> bool {
    &&& is_word(chars, word.0, word.1)
    &&& token.start <= token.end <= encode_utf8(chars).len()
    &&& encode_utf8(chars).subrange(token.start as int, token.end as int) == encode_utf8(
        chars.subrange(word.0, word.1),
    )
}

/// Returns absolute offsets of the words of `s`.
///
/// Does not handle hyphenation yet or partial words at boundaries. Returns a
/// vector of ranges for the input str: one range of bytes for each longest
/// run of characters that are no white space and none of the marks, in the
/// order of the text.
pub fn tokenize(s: &str) -> (bananasplit: Vec<Range>)
    ensures
        bananasplit@ == tokens(s@),
        forall|k: int|
            0 <= k < bananasplit.len() ==> (#[trigger] bananasplit[k]).start < bananasplit[k].end
                <= encode_utf8(s@).len(),
        forall|j: int, k: int|
            0 <= j < k < bananasplit.len() ==> (#[trigger] bananasplit[j]).end < (
            #[trigger] bananasplit[k]).start,
        forall|k: int|
            0 <= k < bananasplit.len() ==> spans_word(
                s@,
                #[trigger] bananasplit[k],
                words(s@, s@.len() as int)[k],
            ),
{
    let ghost chars = s@;
    let total = s.as_bytes().len();
    let mut started = false;
    let mut linear_start = 0usize;
    let mut bananasplit: Vec<Range> = Vec::with_capacity(32);
    let mut c_idx: usize = 0;

    for c in it: s.chars()
        invariant
            it.seq() == chars,
            total == encode_utf8(chars).len(),
            c_idx == offset(chars, it.index() as int),
            bananasplit@ == byte_ranges(chars, words(chars, it.index() - 1)),
            started <==> it.index() > 0 && !is_ignore_char(chars[it.index() - 1]),
            started ==> linear_start == offset(chars, run_start(chars, it.index() as int)),
    {
        let ghost i = it.index() as int;
        proof {
            lemma_offset_step(chars, i);
            lemma_offset_grows(chars, i + 1, chars.len() as int);
        }
        if is_boundary(c) {
            if started {
                bananasplit.push(linear_start..c_idx);
            }
            started = false;
        } else {
            if !started {
                linear_start = c_idx;
                started = true;
            }
        }
        c_idx += width(c);
    }
    // at the end of string, assume word complete
    if started {
        bananasplit.push(linear_start..c_idx);
    }
    proof {
        lemma_tokens(chars);
    }
    bananasplit
}

/// What the checkers that ran have found, one after the other: the set of
/// the first that did not fail, with the set of each later one that did not
/// fail joined to it.
pub open spec fn collected(outcomes: Seq<Option<SuggestionSet>>) -> Seq<
    (Seq<char>, Seq<SuggestionView>),
>
    decreases outcomes.len(),
{
    if outcomes.len() == 0 {
        Seq::empty()
    } else {
        match outcomes.last() {
            Some(found) => joined(collected(outcomes.drop_last()), found@),
            None => collected(outcomes.drop_last()),
        }
    }
}

/// Check a full document for violations using the tools we have: `outcomes`
/// holds what each checker that is switched on has handed back, in the order
/// in which they ran, `None` for one that failed.
///
/// A checker that failed is left out, and the others still count: what they
/// found is merged, each checker's own order kept.
pub fn check(outcomes: Vec<Option<SuggestionSet>>) -> (collective: SuggestionSet)
    requires
        forall|i: int|
            0 <= i < outcomes.len() ==> (#[trigger] outcomes[i] matches Some(found)
                ==> found.wf()),
    ensures
        collective.wf(),
        collective@ == collected(outcomes@),
{
    let mut collective = SuggestionSet::new();
    let ghost all = outcomes@;
    for outcome in iter: outcomes
        invariant
            iter.seq() == all,
            forall|i: int|
                0 <= i < all.len() ==> (#[trigger] all[i] matches Some(found) ==> found.wf()),
            collective.wf(),
            collective@ == collected(all.take(iter.index() as int)),
    {
        proof {
            let done = iter.index() as int;
            assert(all.take(done + 1).drop_last() == all.take(done));
        }
        match outcome {
            Some(suggestions) => {
                collective.join(suggestions);
            },
            None => {},
        }
    }
    proof {
        assert(all.take(all.len() as int) == all);
    }
    collective
}

} // verus!
