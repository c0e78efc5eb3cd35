//! What is done with the suggestions: reporting, curating, patching.

pub mod bandaid;
pub mod interactive;
pub mod order;
pub mod patch;

pub use bandaid::{BandAid, BandAidView};
pub use patch::{correct_lines, validate, PatchError};

use crate::ordered::total;
use crate::suggestion::SuggestionSet;
use interactive::{Event, SessionView, UserPicked};
use patch::{applicable, corrected, faulty, line_views};
use vstd::prelude::*;
use vstd::utf8::valid_utf8;

verus! {

/// Mode in which the suggestions are dealt with.
#[derive(Debug, Clone, Copy, Eq, PartialEq)]
pub enum Action {
    /// Fix issues without interaction if there is sufficient information.
    Fix,
    /// Only show errors.
    Check,
    /// Interactively choose from __candidates__ provided, similar to `git add -p`.
    Interactive,
}

/// Why an action did not come to a good end.
#[derive(Debug, Clone, Copy, PartialEq, Eq)]
pub enum Failure {
    /// Unsupervised fixing is not implemented just yet.
    NotImplemented,
    /// The check found this many potential spelling mistakes; `usize::MAX`
    /// stands for every number that is no less.
    Mistakes(usize),
    /// The user asked to go back to the previous suggestion, which is not
    /// supported.
    Unsupported,
}

/// The lines of a file, numbered from one.
pub open spec fn numbered(lines: Seq<String>) -> Seq<(usize, String)> {
    Seq::new(lines.len(), |i: int| ((i + 1) as usize, lines[i]))
}

impl Action {
    /// The corrected content of a file with the lines `lines`: `bandaids`
    /// applied to them, the lines counted from one.
    ///
    /// Assumes suggestions are sorted by line number and column number and
    /// must be non overlapping; says what is wrong where they are not.
    pub fn correction(&self, lines: Vec<String>, bandaids: Vec<BandAid>) -> (content: Result<
        Vec<u8>,
        PatchError,
    >)
        ensures
            match content {
                Ok(content) => {
                    &&& applicable(bandaids.deep_view(), line_views(numbered(lines@)))
                    &&& content@ == corrected(bandaids.deep_view(), line_views(numbered(lines@)))
                    &&& valid_utf8(content@)
                },
                Err(error) => faulty(bandaids.deep_view(), line_views(numbered(lines@)), error),
            },
    {
        let ghost all = lines@;
        let count = lines.len();
        let mut source: Vec<(usize, String)> = Vec::with_capacity(count);
        for line in iter: lines
            invariant
                iter.seq() == all,
                all.len() == count,
                source@ == numbered(all.take(iter.index() as int)),
        {
            let lineno = source.len();
            source.push((lineno + 1, line));
        }
        proof {
            assert(all.take(all.len() as int) == all);
        }
        let mut sink: Vec<u8> = Vec::new();
        match correct_lines(bandaids, source, &mut sink) {
            Ok(()) => Ok(sink),
            Err(error) => Err(error),
        }
    }

    /// Purpose was to check, check complete, so say how it went: well where
    /// there is no suggestion.
    pub fn check(&self, suggestions_per_path: &SuggestionSet) -> (found: Result<(), Failure>)
        ensures
            found == if total(suggestions_per_path@) == 0 {
                Ok::<(), Failure>(())
            } else if total(suggestions_per_path@) <= usize::MAX {
                Err::<(), Failure>(Failure::Mistakes(total(suggestions_per_path@) as usize))
            } else {
                Err::<(), Failure>(Failure::Mistakes(usize::MAX))
            },
    {
        let count = suggestions_per_path.count();
        if count > 0 {
            Err(Failure::Mistakes(count))
        } else {
            Ok(())
        }
    }

    /// Run the requested action, and hand back the edits that are to be
    /// written to disk.
    ///
    /// Fixing is not implemented and says so. A check fails with the number of
    /// the suggestions unless there is none, and has no edits. Interaction
    /// curates the suggestions with `events`, and fails where these ask to go
    /// back.
    pub fn run(self, suggestions_per_path: SuggestionSet, events: &Vec<Event>) -> (picked: Result<
        UserPicked,
        Failure,
    >)
        requires
            suggestions_per_path.wf(),
        ensures
            match self {
                Action::Fix => picked matches Err(error) && error == Failure::NotImplemented,
                Action::Check => match picked {
                    Ok(picked) => total(suggestions_per_path@) == 0 && picked@.len() == 0,
                    Err(error) => total(suggestions_per_path@) > 0 && error == Failure::Mistakes(
                        if total(suggestions_per_path@) <= usize::MAX {
                            total(suggestions_per_path@) as usize
                        } else {
                            usize::MAX
                        },
                    ),
                },
                Action::Interactive => match picked {
                    Ok(picked) => SessionView::begin(suggestions_per_path@).run(events@) == Some(
                        picked@,
                    ),
                    Err(error) => SessionView::begin(suggestions_per_path@).run(events@) is None
                        && error == Failure::Unsupported,
                },
            },
    {
        match self {
            Action::Fix => Err(Failure::NotImplemented),
            Action::Check => match self.check(&suggestions_per_path) {
                Ok(()) => Ok(UserPicked::default()),
                Err(error) => Err(error),
            },
            Action::Interactive => UserPicked::select_interactive(&suggestions_per_path, events),
        }
    }
}

} // verus!
