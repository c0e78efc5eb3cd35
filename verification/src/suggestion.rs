//! What a checker reports: suggestions, grouped by the file they concern.

use crate::ordered::{added, lemma_place_is, lemma_total_added, total};
use crate::span::Span;
use vstd::prelude::*;

verus! {

/// One detected issue: where it is, and what could stand there instead.
#[derive(Debug, Clone, PartialEq, Eq)]
pub struct Suggestion {
    /// Where the issue is.
    pub span: Span,
    /// The candidates, best first; there may be none.
    pub replacements: Vec<String>,
}

/// A [`Suggestion`] as a mathematical value.
pub struct SuggestionView {
    pub span: Span,
    pub replacements: Seq<Seq<char>>,
}

impl View for Suggestion {
    type V = SuggestionView;

    open spec fn view(&self) -> SuggestionView {
        SuggestionView { span: self.span, replacements: self.replacements.deep_view() }
    }
}

impl DeepView for Suggestion {
    type V = SuggestionView;

    open spec fn deep_view(&self) -> SuggestionView {
        self@
    }
}

impl Suggestion {
    /// A suggestion at `span` with the given candidates.
    pub fn new(span: Span, replacements: Vec<String>) -> (suggestion: Suggestion)
        ensures
            suggestion.span == span,
            suggestion.replacements == replacements,
    {
        Suggestion { span, replacements }
    }
}

/// The suggestions of a run, file by file: the files in the order in which
/// each was first named, the suggestions of a file in the order in which they
/// came.
#[derive(Debug, Clone, PartialEq, Eq)]
pub struct SuggestionSet {
    files: Vec<(String, Vec<Suggestion>)>,
}

/// What [`SuggestionSet::join`] makes of two sets: the first, with each list
/// of the second added behind what its file held.
pub open spec fn joined(
    first: Seq<(Seq<char>, Seq<SuggestionView>)>,
    second: Seq<(Seq<char>, Seq<SuggestionView>)>,
) -> Seq<(Seq<char>, Seq<SuggestionView>)>
    decreases second.len(),
{
    if second.len() == 0 {
        first
    } else {
        added(joined(first, second.drop_last()), second.last().0, second.last().1)
    }
}

/// A merge loses nothing and repeats nothing: the merged set holds as many
/// suggestions as the two sets together.
pub proof fn lemma_total_joined(
    first: Seq<(Seq<char>, Seq<SuggestionView>)>,
    second: Seq<(Seq<char>, Seq<SuggestionView>)>,
)
    ensures
        total(joined(first, second)) == total(first) + total(second),
    decreases second.len(),
{
    if second.len() > 0 {
        lemma_total_joined(first, second.drop_last());
        lemma_total_added(joined(first, second.drop_last()), second.last().0, second.last().1);
    }
}

impl View for SuggestionSet {
    type V = Seq<(Seq<char>, Seq<SuggestionView>)>;

    closed spec fn view(&self) -> Seq<(Seq<char>, Seq<SuggestionView>)> {
        Seq::new(self.files.len() as nat, |i: int| (self.files[i].0@, self.files[i].1.deep_view()))
    }
}

impl SuggestionSet {
    /// No file stands twice, and the candidates of each suggestion can be
    /// counted together with one slot more.
    pub closed spec fn wf(&self) -> bool {
        &&& forall|i: int, j: int|
            0 <= i < j < self.files.len() ==> (#[trigger] self.files[i]).0@ != (
            #[trigger] self.files[j]).0@
        &&& forall|i: int, j: int|
            0 <= i < self.files.len() && 0 <= j < self.files[i].1.len() ==> (
            #[trigger] self.files[i].1[j]).replacements.len() < usize::MAX
    }

    /// What every set holds true: no file stands twice, each suggestion has
    /// fewer than `usize::MAX` candidates, and no list is longer than a list
    /// in memory can be.
    pub open spec fn valid(entries: Seq<(Seq<char>, Seq<SuggestionView>)>) -> bool {
        &&& entries.len() <= usize::MAX
        &&& forall|i: int| 0 <= i < entries.len() ==> (#[trigger] entries[i]).1.len() <= usize::MAX
        &&& forall|i: int, j: int|
            0 <= i < j < entries.len() ==> (#[trigger] entries[i]).0 != (#[trigger] entries[j]).0
        &&& forall|i: int, j: int|
            0 <= i < entries.len() && 0 <= j < entries[i].1.len() ==> (
            #[trigger] entries[i].1[j]).replacements.len() < usize::MAX
    }

    /// The set without suggestions.
    pub fn new() -> (set: SuggestionSet)
        ensures
            set.wf(),
            set@ == Seq::<(Seq<char>, Seq<SuggestionView>)>::empty(),
    {
        SuggestionSet { files: Vec::new() }
    }

    /// Every set is valid.
    pub proof fn lemma_valid(&self)
        requires
            self.wf(),
        ensures
            Self::valid(self@),
    {
        assert forall|i: int| 0 <= i < self@.len() implies (#[trigger] self@[i]).1.len()
            <= usize::MAX by {
            assert(self.files[i].1.len() <= usize::MAX);
        }
    }

    /// How many files the set names.
    pub fn files(&self) -> (n: usize)
        ensures
            n == self@.len(),
    {
        self.files.len()
    }

    /// How many suggestions the set holds in all; `usize::MAX` stands for
    /// every number that is no less.
    pub fn count(&self) -> (count: usize)
        ensures
            count == if total(self@) <= usize::MAX {
                total(self@)
            } else {
                usize::MAX as nat
            },
    {
        let mut count: usize = 0;
        let mut i: usize = 0;
        while i < self.files.len()
            invariant
                i <= self.files.len(),
                self.files.len() == self@.len(),
                count == if total(self@.take(i as int)) <= usize::MAX {
                    total(self@.take(i as int))
                } else {
                    usize::MAX as nat
                },
            decreases self.files.len() - i,
        {
            proof {
                assert(self@.take(i + 1).drop_last() == self@.take(i as int));
            }
            count = count.saturating_add(self.files[i].1.len());
            i += 1;
        }
        proof {
            assert(self@.take(self.files.len() as int) == self@);
        }
        count
    }

    /// The path of file `index`.
    pub fn path(&self, index: usize) -> (path: &String)
        requires
            index < self@.len(),
        ensures
            path@ == self@[index as int].0,
    {
        &self.files[index].0
    }

    /// The suggestions for file `index`.
    pub fn suggestions(&self, index: usize) -> (suggestions: &Vec<Suggestion>)
        requires
            index < self@.len(),
        ensures
            suggestions.deep_view() == self@[index as int].1,
    {
        &self.files[index].1
    }

    /// Adds `suggestions` behind what the set holds for `path`.
    pub fn extend(&mut self, path: &str, suggestions: Vec<Suggestion>)
        requires
            old(self).wf(),
            forall|j: int|
                0 <= j < suggestions.len() ==> (#[trigger] suggestions[j]).replacements.len()
                    < usize::MAX,
        ensures
            final(self).wf(),
            final(self)@ == added(old(self)@, path@, suggestions.deep_view()),
    {
        let wanted = path.to_owned();
        let mut suggestions = suggestions;
        let mut at: usize = 0;
        while at < self.files.len() && !(self.files[at].0 == wanted)
            invariant
                *self == *old(self),
                wanted@ == path@,
                at <= self.files.len(),
                forall|i: int| 0 <= i < at ==> (#[trigger] self.files[i]).0@ != path@,
            decreases self.files.len() - at,
        {
            at += 1;
        }
        proof {
            lemma_place_is(self@, path@, at as int);
        }
        let ghost more = suggestions.deep_view();
        if at < self.files.len() {
            let ghost before = self.files@;
            self.files[at].1.append(&mut suggestions);
            proof {
                assert(self.files[at as int].1.deep_view() =~= before[at as int].1.deep_view()
                    + more);
            }
        } else {
            self.files.push((wanted, suggestions));
        }
    }

    /// Adds `suggestion` behind what the set holds for `path`.
    pub fn add(&mut self, path: &str, suggestion: Suggestion)
        requires
            old(self).wf(),
            suggestion.replacements.len() < usize::MAX,
        ensures
            final(self).wf(),
            final(self)@ == added(old(self)@, path@, seq![suggestion@]),
    {
        let mut one: Vec<Suggestion> = Vec::new();
        one.push(suggestion);
        proof {
            assert(one.deep_view() =~= seq![suggestion@]);
        }
        self.extend(path, one);
    }

    /// Merges `other` into the set: what it holds for a file goes behind what
    /// the set held for that file; nothing is dropped, whatever it repeats.
    pub fn join(&mut self, other: SuggestionSet)
        requires
            old(self).wf(),
            other.wf(),
        ensures
            final(self).wf(),
            final(self)@ == joined(old(self)@, other@),
    {
        let ghost all = other@;
        let ghost entries = other.files@;
        for entry in iter: other.files
            invariant
                self.wf(),
                iter.seq() == entries,
                entries.len() == all.len(),
                forall|i: int|
                    0 <= i < entries.len() ==> (#[trigger] entries[i]).0@ == all[i].0
                        && entries[i].1.deep_view() == all[i].1,
                forall|i: int, j: int|
                    0 <= i < entries.len() && 0 <= j < entries[i].1.len() ==> (
                    #[trigger] entries[i].1[j]).replacements.len() < usize::MAX,
                self@ == joined(old(self)@, all.take(iter.index() as int)),
        {
            let ghost done = iter.index() as int;
            proof {
                assert(all.take(done + 1).drop_last() == all.take(done));
            }
            self.extend(entry.0.as_str(), entry.1);
        }
        proof {
            assert(all.take(all.len() as int) == all);
        }
    }
}

} // verus!
