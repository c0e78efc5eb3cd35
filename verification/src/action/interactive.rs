//! Interactive picking of replacements, contained in a suggestion.
//!
//! The result of a pick is a bandaid. Nothing here touches the terminal: a
//! [`Session`] holds where the curation stands; its caller shows what
//! [`State::rows`] lists, reads an event and hands it to [`Session::step`],
//! which says what the event has decided and what is to be done next.

use crate::action::bandaid::{BandAid, BandAidView};
use crate::action::Failure;
use crate::ordered::{added, edits_at, edits_of, held, list_of, no_edits, paths, total};
use crate::suggestion::{Suggestion, SuggestionSet, SuggestionView};
use crate::text::push_char;
use indexmap::IndexMap;
use vstd::prelude::*;

verus! {

/// The key bindings, as printed on the help key.
pub const HELP: &'static str = "y - apply this suggestion
n - do not apply the suggested correction
q - quit; do not stage this hunk or any of the remaining ones
d - do not apply this suggestion and skip the rest of the file
g - select a suggestion to go to
j - leave this hunk undecided, see next undecided hunk
J - leave this hunk undecided, see next hunk
e - manually edit the current hunk
? - print help




";

/// The key that was pressed.
#[derive(Debug, Clone, Copy, PartialEq, Eq)]
pub enum KeyCode {
    Up,
    Down,
    Enter,
    Esc,
    /// A character key.
    Char(char),
    /// Any other key.
    Other,
}

/// A key press.
#[derive(Debug, Clone, Copy, PartialEq, Eq)]
pub struct KeyEvent {
    /// The key.
    pub code: KeyCode,
    /// Whether control, and no other modifier, was held.
    pub control: bool,
}

/// What the terminal reports.
#[derive(Debug, Clone, Copy, PartialEq, Eq)]
pub enum Event {
    /// A key was pressed.
    Key(KeyEvent),
    /// The terminal changed its size.
    Resize,
}

/// The user picked something. This is the pick representation.
#[derive(Debug, Clone, PartialEq, Eq)]
pub enum Pick {
    Replacement(BandAid),
    /// Skip this suggestion and move on to the next suggestion.
    Skip,
    /// Jump to the previous suggestion.
    Previous,
    /// Print the help message and ask again.
    Help,
    /// Skip the remaining fixes for the current file.
    SkipFile,
    /// Stop execution.
    Quit,
    /// Continue as if whatever returned this was never called.
    Nop,
}

/// A [`Pick`] as a mathematical value.
pub enum PickView {
    Replacement(BandAidView),
    Skip,
    Previous,
    Help,
    SkipFile,
    Quit,
    Nop,
}

impl View for Pick {
    type V = PickView;

    open spec fn view(&self) -> PickView {
        match *self {
            Pick::Replacement(bandaid) => PickView::Replacement(bandaid@),
            Pick::Skip => PickView::Skip,
            Pick::Previous => PickView::Previous,
            Pick::Help => PickView::Help,
            Pick::SkipFile => PickView::SkipFile,
            Pick::Quit => PickView::Quit,
            Pick::Nop => PickView::Nop,
        }
    }
}

/// How a row of the list of replacements is painted.
#[derive(Debug, Clone, Copy, PartialEq, Eq)]
pub enum Style {
    /// The custom entry.
    Custom,
    /// The highlighted candidate.
    Highlight,
    /// Any other candidate.
    Others,
}

/// One row of the list of replacements.
#[derive(Debug, Clone, PartialEq, Eq)]
pub struct Row {
    /// What the row shows.
    pub text: String,
    /// How it is painted.
    pub style: Style,
    /// Whether the tick stands before it.
    pub ticked: bool,
}

/// A [`Row`] as a mathematical value.
pub struct RowView {
    pub text: Seq<char>,
    pub style: Style,
    pub ticked: bool,
}

impl View for Row {
    type V = RowView;

    open spec fn view(&self) -> RowView {
        RowView { text: self.text@, style: self.style, ticked: self.ticked }
    }
}

impl DeepView for Row {
    type V = RowView;

    open spec fn deep_view(&self) -> RowView {
        self@
    }
}

/// Statefulness for the selection process.
pub struct State<'s> {
    /// Which suggestion is operated upon.
    pub suggestion: &'s Suggestion,
    /// The content the user provided for the suggestion, if any.
    pub custom_replacement: String,
    /// Which index to show as highlighted.
    pub pick_idx: usize,
    /// Total number of pickable slots.
    pub n_items: usize,
}

/// A [`State`] as a mathematical value.
pub struct StateView {
    pub suggestion: SuggestionView,
    pub custom_replacement: Seq<char>,
    pub pick_idx: usize,
    pub n_items: usize,
}

impl StateView {
    /// The slots are the candidates and, last, the custom entry; one of them
    /// is highlighted.
    pub open spec fn wf(self) -> bool {
        &&& self.n_items == self.suggestion.replacements.len() + 1
        &&& self.pick_idx < self.n_items
    }

    /// The state with slot `idx` highlighted.
    pub open spec fn at(self, idx: int) -> StateView {
        StateView { pick_idx: idx as usize, ..self }
    }

    /// The state with the slot after the highlighted one highlighted, the
    /// first after the last.
    pub open spec fn next(self) -> StateView {
        self.at((self.pick_idx + 1) % (self.n_items as int))
    }

    /// The state with the slot before the highlighted one highlighted, the
    /// last before the first.
    pub open spec fn previous(self) -> StateView {
        self.at((self.pick_idx + self.n_items - 1) % (self.n_items as int))
    }

    /// The state with the custom entry highlighted.
    pub open spec fn custom(self) -> StateView {
        self.at(self.n_items - 1)
    }

    /// Whether the custom entry is highlighted.
    pub open spec fn is_custom_entry(self) -> bool {
        self.pick_idx + 1 == self.n_items
    }

    /// The state after `c` was typed into the custom entry.
    pub open spec fn typed(self, c: char) -> StateView {
        StateView { custom_replacement: self.custom_replacement.push(c), ..self }
    }

    /// The edit that puts what was typed at the suggestion's span.
    pub open spec fn custom_bandaid(self) -> BandAidView {
        BandAidView { span: self.suggestion.span, replacement: self.custom_replacement }
    }

    /// The row of the custom entry: what was typed, or three dots while that
    /// is nothing; ticked while the entry is highlighted.
    pub open spec fn custom_row(self) -> RowView {
        RowView {
            text: if self.custom_replacement.len() == 0 {
                "..."@
            } else {
                self.custom_replacement
            },
            style: Style::Custom,
            ticked: self.is_custom_entry(),
        }
    }

    /// The row of candidate `idx`: ticked and highlighted where it is the
    /// highlighted slot.
    pub open spec fn candidate_row(self, idx: int) -> RowView {
        RowView {
            text: self.suggestion.replacements[idx],
            style: if idx == self.pick_idx {
                Style::Highlight
            } else {
                Style::Others
            },
            ticked: idx == self.pick_idx,
        }
    }

    /// The rows from the lowest up: the custom entry, then the candidates,
    /// first to last.
    pub open spec fn rows(self) -> Seq<RowView> {
        Seq::new(
            self.n_items as nat,
            |i: int|
                if i == 0 {
                    self.custom_row()
                } else {
                    self.candidate_row(i - 1)
                },
        )
    }

    /// The edit that the highlighted slot stands for.
    pub open spec fn bandaid(self) -> BandAidView {
        if self.is_custom_entry() {
            self.custom_bandaid()
        } else {
            BandAidView {
                span: self.suggestion.span,
                replacement: self.suggestion.replacements[self.pick_idx as int],
            }
        }
    }
}

impl<'s> View for State<'s> {
    type V = StateView;

    open spec fn view(&self) -> StateView {
        StateView {
            suggestion: self.suggestion@,
            custom_replacement: self.custom_replacement@,
            pick_idx: self.pick_idx,
            n_items: self.n_items,
        }
    }
}

impl<'s> State<'s> {
    /// The state in which the user meets `suggestion`: nothing typed, the
    /// first slot highlighted.
    pub fn from(suggestion: &'s Suggestion) -> (state: State<'s>)
        requires
            suggestion.replacements.len() < usize::MAX,
        ensures
            state.suggestion == suggestion,
            state@ == (StateView {
                suggestion: suggestion@,
                custom_replacement: Seq::empty(),
                pick_idx: 0,
                n_items: (suggestion.replacements.len() + 1) as usize,
            }),
            state@.wf(),
    {
        State {
            suggestion,
            custom_replacement: String::new(),
            pick_idx: 0usize,
            // all items provided by the checkers plus the user provided
            n_items: suggestion.replacements.len() + 1,
        }
    }

    /// Highlights the slot after the highlighted one, the first after the
    /// last.
    pub fn select_next(&mut self)
        requires
            old(self)@.wf(),
        ensures
            final(self)@ == old(self)@.next(),
            final(self)@.wf(),
            final(self).suggestion == old(self).suggestion,
    {
        self.pick_idx = (self.pick_idx + 1) % self.n_items;
    }

    /// Highlights the slot before the highlighted one, the last before the
    /// first.
    pub fn select_previous(&mut self)
        requires
            old(self)@.wf(),
        ensures
            final(self)@ == old(self)@.previous(),
            final(self)@.wf(),
            final(self).suggestion == old(self).suggestion,
    {
        proof {
            let n = self.n_items as int;
            let p = self.pick_idx as int;
            if p == 0 {
                vstd::arithmetic::div_mod::lemma_small_mod((n - 1) as nat, n as nat);
            } else {
                vstd::arithmetic::div_mod::lemma_mod_add_multiples_vanish(p - 1, n);
                vstd::arithmetic::div_mod::lemma_small_mod((p - 1) as nat, n as nat);
            }
        }
        self.pick_idx = if self.pick_idx == 0 {
            self.n_items - 1
        } else {
            self.pick_idx - 1
        };
    }

    /// Highlights the custom entry.
    pub fn select_custom(&mut self)
        requires
            old(self)@.wf(),
        ensures
            final(self)@ == old(self)@.custom(),
            final(self)@.wf(),
            final(self)@.is_custom_entry(),
            final(self).suggestion == old(self).suggestion,
    {
        self.pick_idx = self.n_items - 1;
    }

    /// the last one is user input
    pub fn is_custom_entry(&self) -> (custom: bool)
        requires
            self@.wf(),
        ensures
            custom == self@.is_custom_entry(),
    {
        self.pick_idx + 1 == self.n_items
    }

    /// Only list the replacements for the user: a very simple vertical list,
    /// given from the lowest row up.
    pub fn rows(&self) -> (rows: Vec<Row>)
        requires
            self@.wf(),
        ensures
            rows.deep_view() == self@.rows(),
    {
        let mut rows: Vec<Row> = Vec::new();
        let custom_content = if self.custom_replacement.as_str().is_empty() {
            "...".to_owned()
        } else {
            self.custom_replacement.clone()
        };
        let ticked = self.is_custom_entry();
        rows.push(Row { text: custom_content, style: Style::Custom, ticked });
        let mut idx: usize = 0;
        while idx < self.suggestion.replacements.len()
            invariant
                self@.wf(),
                idx <= self.suggestion.replacements.len(),
                rows.len() == idx + 1,
                forall|i: int| 0 <= i < rows.len() ==> (#[trigger] rows[i])@ == self@.rows()[i],
            decreases self.suggestion.replacements.len() - idx,
        {
            let active = idx == self.pick_idx;
            rows.push(
                Row {
                    text: self.suggestion.replacements[idx].clone(),
                    style: if active {
                        Style::Highlight
                    } else {
                        Style::Others
                    },
                    ticked: active,
                },
            );
            idx += 1;
        }
        rows
    }

    /// The edit that the highlighted slot stands for: what was typed where
    /// that is the custom entry, else the candidate; at the span of the
    /// suggestion.
    pub fn to_bandaid(&self) -> (bandaid: BandAid)
        requires
            self@.wf(),
        ensures
            bandaid@ == self@.bandaid(),
    {
        if self.is_custom_entry() {
            BandAid::new(self.custom_replacement.as_str(), &self.suggestion.span)
        } else {
            let candidate = &self.suggestion.replacements[self.pick_idx];
            BandAid::new(candidate.as_str(), &self.suggestion.span)
        }
    }
}

/// What a key decides while a candidate is highlighted.
pub open spec fn selecting(state: StateView, key: KeyEvent) -> (StateView, PickView) {
    match key.code {
        KeyCode::Up => (state.next(), PickView::Nop),
        KeyCode::Down => (state.previous(), PickView::Nop),
        KeyCode::Enter => (state, PickView::Replacement(state.bandaid())),
        KeyCode::Esc => (state, PickView::Quit),
        KeyCode::Char(c) => if c == 'y' {
            (state, PickView::Replacement(state.bandaid()))
        } else if c == 'n' {
            (state, PickView::Skip)
        } else if c == 'j' {
            (state, PickView::Previous)
        } else if c == 'c' && key.control {
            (state, PickView::Quit)
        } else if c == 'q' {
            (state, PickView::Quit)
        } else if c == 'd' {
            (state, PickView::SkipFile)
        } else if c == 'e' {
            (state.custom(), PickView::Nop)
        } else if c == '?' {
            (state, PickView::Help)
        } else {
            (state, PickView::Nop)
        },
        KeyCode::Other => (state, PickView::Nop),
    }
}

/// What a key decides while the custom entry is highlighted.
pub open spec fn custom_entry(state: StateView, key: KeyEvent) -> (StateView, PickView) {
    match key.code {
        KeyCode::Up => (state.next(), PickView::Nop),
        KeyCode::Down => (state.previous(), PickView::Nop),
        KeyCode::Enter => (state, PickView::Replacement(state.custom_bandaid())),
        KeyCode::Esc => (state, PickView::Quit),
        KeyCode::Char(c) => if c == 'c' && key.control {
            (state, PickView::Quit)
        } else {
            (state.typed(c), PickView::Nop)
        },
        KeyCode::Other => (state, PickView::Nop),
    }
}

/// What an event decides: the state after it, and the pick. A change of the
/// terminal's size decides nothing.
pub open spec fn reaction(state: StateView, event: Event) -> (StateView, PickView) {
    match event {
        Event::Resize => (state, PickView::Nop),
        Event::Key(key) => if state.is_custom_entry() {
            custom_entry(state, key)
        } else {
            selecting(state, key)
        },
    }
}

/// The selection of used suggestion replacements.
#[derive(Debug)]
pub struct UserPicked {
    pub bandaids: IndexMap<String, Vec<BandAid>>,
}

impl View for UserPicked {
    type V = Seq<(Seq<char>, Seq<BandAidView>)>;

    /// For each path, in the order in which the paths came, the edits picked
    /// for it, in the order in which they were picked.
    open spec fn view(&self) -> Seq<(Seq<char>, Seq<BandAidView>)> {
        edits_of(self.bandaids)
    }
}

impl Default for UserPicked {
    fn default() -> (picked: UserPicked)
        ensures
            picked@ == Seq::<(Seq<char>, Seq<BandAidView>)>::empty(),
    {
        UserPicked { bandaids: no_edits() }
    }
}

impl UserPicked {
    /// Count the number of suggestions across files in total; `usize::MAX`
    /// stands for every number that is no less.
    pub fn count(&self) -> (count: usize)
        ensures
            count == if total(self@) <= usize::MAX {
                total(self@)
            } else {
                usize::MAX as nat
            },
    {
        let n = paths(&self.bandaids);
        let mut count: usize = 0;
        let mut i: usize = 0;
        while i < n
            invariant
                n == self@.len(),
                i <= n,
                count == if total(self@.take(i as int)) <= usize::MAX {
                    total(self@.take(i as int))
                } else {
                    usize::MAX as nat
                },
            decreases n - i,
        {
            proof {
                assert(self@.take(i + 1).drop_last() == self@.take(i as int));
            }
            match edits_at(&self.bandaids, i) {
                Some((_path, fixes)) => {
                    count = count.saturating_add(fixes.len());
                },
                None => {},
            }
            i += 1;
        }
        proof {
            assert(self@.take(n as int) == self@);
        }
        count
    }

    /// Apply a single bandaid: it becomes the last of `path`, which becomes
    /// the last of the paths if it was none of them.
    pub fn add_bandaid(&mut self, path: &str, fix: BandAid)
        ensures
            final(self)@ == added(old(self)@, path@, seq![fix@]),
    {
        let list = list_of(&mut self.bandaids, path);
        list.push(fix);
        proof {
            assert(list.deep_view() =~= held(old(self)@, path@) + seq![fix@]);
        }
    }

    /// Apply multiple bandaids: they go behind what `path` holds, which
    /// becomes the last of the paths if it was none of them.
    pub fn add_bandaids(&mut self, path: &str, fixes: Vec<BandAid>)
        ensures
            final(self)@ == added(old(self)@, path@, fixes.deep_view()),
    {
        let mut fixes = fixes;
        let ghost more = fixes.deep_view();
        let list = list_of(&mut self.bandaids, path);
        list.append(&mut fixes);
        proof {
            assert(list.deep_view() =~= held(old(self)@, path@) + more);
        }
    }

    /// Provide a replacement that was not provided by the backend.
    pub fn custom_replacement(&self, state: &mut State, event: KeyEvent) -> (pick: Pick)
        requires
            old(state)@.wf(),
        ensures
            (final(state)@, pick@) == custom_entry(old(state)@, event),
            final(state)@.wf(),
            final(state).suggestion == old(state).suggestion,
    {
        match event.code {
            KeyCode::Up => state.select_next(),
            KeyCode::Down => state.select_previous(),
            KeyCode::Enter => {
                let typed = state.custom_replacement.as_str();
                return Pick::Replacement(BandAid::new(typed, &state.suggestion.span));
            },
            KeyCode::Esc => return Pick::Quit,
            KeyCode::Char(c) => {
                if c == 'c' && event.control {
                    return Pick::Quit;
                }
                push_char(&mut state.custom_replacement, c);
            },
            KeyCode::Other => {},
        }
        Pick::Nop
    }

    /// Process what the terminal reported into a `Pick`; `Pick::Nop` asks for
    /// the next event on the same suggestion.
    pub fn user_input(&self, state: &mut State, event: Event) -> (pick: Pick)
        requires
            old(state)@.wf(),
        ensures
            (final(state)@, pick@) == reaction(old(state)@, event),
            final(state)@.wf(),
            final(state).suggestion == old(state).suggestion,
    {
        let key = match event {
            Event::Key(key) => key,
            Event::Resize => return Pick::Nop,
        };
        if state.is_custom_entry() {
            return self.custom_replacement(state, key);
        }
        match key.code {
            KeyCode::Up => state.select_next(),
            KeyCode::Down => state.select_previous(),
            KeyCode::Enter => return Pick::Replacement(state.to_bandaid()),
            KeyCode::Esc => return Pick::Quit,
            KeyCode::Char(c) => {
                if c == 'y' {
                    return Pick::Replacement(state.to_bandaid());
                } else if c == 'n' {
                    return Pick::Skip;
                } else if c == 'j' {
                    return Pick::Previous;
                } else if c == 'c' && key.control {
                    return Pick::Quit;
                } else if c == 'q' {
                    return Pick::Quit;
                } else if c == 'd' {
                    return Pick::SkipFile;
                } else if c == 'e' {
                    // jump to the user input entry
                    state.select_custom();
                } else if c == '?' {
                    return Pick::Help;
                }
            },
            KeyCode::Other => {},
        }
        Pick::Nop
    }
}

/// What the caller of [`Session::step`] does next.
#[derive(Debug, Clone, Copy, PartialEq, Eq)]
pub enum Step {
    /// Nothing is decided: show the list again and read on.
    Again,
    /// Print the help, then ask again.
    Help,
    /// Going back was asked for, which is not supported: say so, then ask
    /// again.
    Unsupported,
    /// Another suggestion is up: show it and ask.
    Next,
    /// The session is over.
    Finished,
}

/// Where a session stands: the suggestion that is put to the user, and how far
/// the user has got with it.
pub struct Cursor {
    pub file: int,
    pub item: int,
    pub state: StateView,
}

/// A [`Session`] as a mathematical value.
pub struct SessionView {
    /// The suggestions, file by file.
    pub files: Seq<(Seq<char>, Seq<SuggestionView>)>,
    /// The suggestion that is put to the user; none once the session is over.
    pub at: Option<Cursor>,
    /// What was picked so far.
    pub picked: Seq<(Seq<char>, Seq<BandAidView>)>,
}

/// The state in which the user meets `suggestion`.
pub open spec fn fresh(suggestion: SuggestionView) -> StateView {
    StateView {
        suggestion,
        custom_replacement: Seq::empty(),
        pick_idx: 0,
        n_items: (suggestion.replacements.len() + 1) as usize,
    }
}

/// The first suggestion with a candidate, from item `item` of file `file` on:
/// the suggestions of a file in their order, then the next file.
pub open spec fn upcoming(
    files: Seq<(Seq<char>, Seq<SuggestionView>)>,
    file: int,
    item: int,
) -> Option<(int, int)>
    decreases files.len() - file, if 0 <= file < files.len() {
        files[file].1.len() - item
    } else {
        0
    },
{
    if file < 0 || item < 0 || file >= files.len() {
        None
    } else if item >= files[file].1.len() {
        upcoming(files, file + 1, 0)
    } else if files[file].1[item].replacements.len() > 0 {
        Some((file, item))
    } else {
        upcoming(files, file, item + 1)
    }
}

/// Whether place `(file, item)` among the suggestions comes before place
/// `(later_file, later_item)`, or is the same.
pub open spec fn upto(file: int, item: int, later_file: int, later_item: int) -> bool {
    file < later_file || (file == later_file && item <= later_item)
}

/// Whether the suggestion at place `(file, item)` has no candidate, if there
/// is a suggestion at that place.
pub open spec fn is_passed(
    files: Seq<(Seq<char>, Seq<SuggestionView>)>,
    file: int,
    item: int,
) -> bool {
    0 <= file < files.len() && 0 <= item < files[file].1.len()
        ==> files[file].1[item].replacements.len() == 0
}

/// The suggestion that comes up has a candidate and lies at the place asked
/// from, or behind it; what lies between has no candidate. Where none comes
/// up, nothing from that place on has a candidate.
pub proof fn lemma_upcoming(files: Seq<(Seq<char>, Seq<SuggestionView>)>, file: int, item: int)
    requires
        0 <= file,
        0 <= item,
    ensures
        match upcoming(files, file, item) {
            Some((f, i)) => {
                &&& f < files.len()
                &&& 0 <= i < files[f].1.len()
                &&& upto(file, item, f, i)
                &&& files[f].1[i].replacements.len() > 0
                &&& forall|g: int, m: int|
                    upto(file, item, g, m) && upto(g, m, f, i) && (g, m) != (f, i)
                        ==> #[trigger] is_passed(files, g, m)
            },
            None => forall|g: int, m: int|
                upto(file, item, g, m) ==> #[trigger] is_passed(files, g, m),
        },
    decreases files.len() - file, if 0 <= file < files.len() {
        files[file].1.len() - item
    } else {
        0
    },
{
    if file < files.len() {
        if item >= files[file].1.len() {
            lemma_upcoming(files, file + 1, 0);
        } else if files[file].1[item].replacements.len() == 0 {
            lemma_upcoming(files, file, item + 1);
        }
    }
}

impl SessionView {
    /// The session, over.
    pub open spec fn over(self) -> SessionView {
        SessionView { at: None, ..self }
    }

    /// The session with the user at `state` of the same suggestion.
    pub open spec fn stay(self, state: StateView) -> SessionView {
        SessionView {
            at: Some(Cursor { file: self.at->0.file, item: self.at->0.item, state }),
            ..self
        }
    }

    /// The session moved on to the first suggestion with a candidate from
    /// item `item` of file `file` on, and what the caller does then.
    pub open spec fn seek(self, file: int, item: int) -> (SessionView, Step) {
        match upcoming(self.files, file, item) {
            Some((file, item)) => (
                SessionView {
                    at: Some(Cursor { file, item, state: fresh(self.files[file].1[item]) }),
                    ..self
                },
                Step::Next,
            ),
            None => (self.over(), Step::Finished),
        }
    }

    /// The session with `fix` recorded for the file of its suggestion.
    pub open spec fn record(self, fix: BandAidView) -> SessionView {
        SessionView {
            picked: added(self.picked, self.files[self.at->0.file].0, seq![fix]),
            ..self
        }
    }

    /// The session as it begins.
    pub open spec fn begin(files: Seq<(Seq<char>, Seq<SuggestionView>)>) -> SessionView {
        (SessionView { files, at: None, picked: Seq::empty() }).seek(0, 0).0
    }

    /// The session after `event`, and what the caller does next.
    ///
    /// A replacement is recorded under the file of its suggestion, and the
    /// next suggestion is up; so it is after a skip, with nothing recorded.
    /// Skipping the file leads to the first suggestion of the next file. A quit
    /// ends the session. Help, a request to go back and an event that decides
    /// nothing leave the session at its suggestion.
    pub open spec fn step(self, event: Event) -> (SessionView, Step) {
        match self.at {
            None => (self, Step::Finished),
            Some(cursor) => {
                let (state, pick) = reaction(cursor.state, event);
                match pick {
                    PickView::Nop => (self.stay(state), Step::Again),
                    PickView::Help => (self.stay(state), Step::Help),
                    PickView::Previous => (self.stay(state), Step::Unsupported),
                    PickView::Quit => (self.over(), Step::Finished),
                    PickView::SkipFile => self.seek(cursor.file + 1, 0),
                    PickView::Skip => self.seek(cursor.file, cursor.item + 1),
                    PickView::Replacement(fix) => self.record(fix).seek(
                        cursor.file,
                        cursor.item + 1,
                    ),
                }
            },
        }
    }

    /// What the session hands back when `events` are all it gets: the picks
    /// at its end or at the end of the events, whichever comes first; no picks
    /// but a failure once going back is asked for.
    pub open spec fn run(self, events: Seq<Event>) -> Option<Seq<(Seq<char>, Seq<BandAidView>)>>
        decreases events.len(),
    {
        if self.at is None || events.len() == 0 {
            Some(self.picked)
        } else {
            let (next, step) = self.step(events[0]);
            if step == Step::Unsupported {
                None
            } else {
                next.run(events.drop_first())
            }
        }
    }
}

/// The curation of a set of suggestions, one event at a time.
///
/// The caller shows what [`Session::current`] gives, reads an event, hands it
/// to [`Session::step`] and does what the answer says, until that is
/// [`Step::Finished`].
pub struct Session<'s> {
    suggestions: &'s SuggestionSet,
    file: usize,
    item: usize,
    state: Option<State<'s>>,
    picked: UserPicked,
}

impl<'s> View for Session<'s> {
    type V = SessionView;

    closed spec fn view(&self) -> SessionView {
        SessionView {
            files: self.suggestions@,
            at: match self.state {
                Some(state) => Some(
                    Cursor { file: self.file as int, item: self.item as int, state: state@ },
                ),
                None => None,
            },
            picked: self.picked@,
        }
    }
}

impl<'s> Session<'s> {
    /// The session stands at a suggestion of its set that has a candidate,
    /// or is over.
    pub closed spec fn wf(&self) -> bool {
        &&& self.suggestions.wf()
        &&& self.state matches Some(state) ==> {
            &&& self.file < self.suggestions@.len()
            &&& self.item < self.suggestions@[self.file as int].1.len()
            &&& state.suggestion@ == self.suggestions@[self.file as int].1[self.item as int]
            &&& state.suggestion@.replacements.len() > 0
            &&& state@.wf()
        }
    }

    /// A session on `suggestions`: the first suggestion with a candidate is
    /// up, if there is one.
    pub fn new(suggestions: &'s SuggestionSet) -> (session: Session<'s>)
        requires
            suggestions.wf(),
        ensures
            session.wf(),
            session@ == SessionView::begin(suggestions@),
    {
        let mut session = Session {
            suggestions,
            file: 0,
            item: 0,
            state: None,
            picked: UserPicked::default(),
        };
        let _ = session.seek(0, 0);
        session
    }

    /// Moves on to the first suggestion with a candidate from item `item` of
    /// file `file` on.
    fn seek(&mut self, file: usize, item: usize) -> (step: Step)
        requires
            old(self).suggestions.wf(),
            old(self).state is None,
        ensures
            final(self).wf(),
            (final(self)@, step) == old(self)@.seek(file as int, item as int),
    {
        let set: &'s SuggestionSet = self.suggestions;
        let files = set.files();
        proof {
            set.lemma_valid();
        }
        let mut f = file;
        let mut i = item;
        while f < files
            invariant
                *self == *old(self),
                set == self.suggestions,
                set.wf(),
                SuggestionSet::valid(set@),
                files == set@.len(),
                upcoming(set@, f as int, i as int) == upcoming(set@, file as int, item as int),
            decreases files - f, if f < files {
                set@[f as int].1.len() - i
            } else {
                0
            },
        {
            let suggestions: &'s Vec<Suggestion> = set.suggestions(f);
            if i >= suggestions.len() {
                f += 1;
                i = 0;
            } else {
                let suggestion: &'s Suggestion = &suggestions[i];
                if suggestion.replacements.len() > 0 {
                    self.file = f;
                    self.item = i;
                    self.state = Some(State::from(suggestion));
                    return Step::Next;
                }
                i += 1;
            }
        }
        Step::Finished
    }

    /// Whether the session is over.
    pub fn is_over(&self) -> (over: bool)
        ensures
            over == (self@.at is None),
    {
        self.state.is_none()
    }

    /// The suggestion that is put to the user, with the place it has among
    /// the suggestions of its file and the number of those, and how far the
    /// user has got with it; none once the session is over.
    pub fn current(&self) -> (current: Option<(&State<'s>, usize, usize)>)
        requires
            self.wf(),
        ensures
            match current {
                Some((state, nth, of_n)) => {
                    &&& self@.at matches Some(cursor) && state@ == cursor.state && nth
                        == cursor.item && of_n == self@.files[cursor.file].1.len()
                    &&& state@.wf()
                    &&& state@.suggestion.replacements.len() > 0
                },
                None => self@.at is None,
            },
    {
        match &self.state {
            Some(state) => Some((state, self.item, self.suggestions.suggestions(self.file).len())),
            None => None,
        }
    }

    /// The path of the file whose suggestion is put to the user; none once
    /// the session is over.
    pub fn path(&self) -> (path: Option<&'s String>)
        requires
            self.wf(),
        ensures
            match path {
                Some(path) => self@.at matches Some(cursor) && path@ == self@.files[cursor.file].0,
                None => self@.at is None,
            },
    {
        let set: &'s SuggestionSet = self.suggestions;
        match &self.state {
            Some(_) => Some(set.path(self.file)),
            None => None,
        }
    }

    /// Ends the session and hands out what was picked.
    pub fn into_picked(self) -> (picked: UserPicked)
        ensures
            picked@ == self@.picked,
    {
        self.picked
    }

    /// Takes what the terminal reported and says what the caller does next.
    pub fn step(&mut self, event: Event) -> (step: Step)
        requires
            old(self).wf(),
        ensures
            final(self).wf(),
            (final(self)@, step) == old(self)@.step(event),
    {
        proof {
            self.suggestions.lemma_valid();
        }
        let mut state = match self.state.take() {
            Some(state) => state,
            None => return Step::Finished,
        };
        let pick = self.picked.user_input(&mut state, event);
        match pick {
            Pick::Nop => {
                self.state = Some(state);
                Step::Again
            },
            Pick::Help => {
                self.state = Some(state);
                Step::Help
            },
            Pick::Previous => {
                self.state = Some(state);
                Step::Unsupported
            },
            Pick::Quit => Step::Finished,
            Pick::SkipFile => {
                let file = self.file;
                self.seek(file + 1, 0)
            },
            Pick::Skip => {
                let (file, item) = (self.file, self.item);
                self.seek(file, item + 1)
            },
            Pick::Replacement(bandaid) => {
                let set: &'s SuggestionSet = self.suggestions;
                let (file, item) = (self.file, self.item);
                self.picked.add_bandaid(set.path(file).as_str(), bandaid);
                self.seek(file, item + 1)
            },
        }
    }
}

impl UserPicked {
    /// Curates `suggestions_per_path` with the events given: file by file in
    /// the order of the set, the suggestions of a file in their order, those
    /// without a candidate left out.
    ///
    /// The picks are handed back when the suggestions or the events end, or
    /// on a quit. Going back is not supported: a request for it fails, and
    /// says so.
    pub fn select_interactive(suggestions_per_path: &SuggestionSet, events: &Vec<Event>) -> (picked:
        Result<UserPicked, Failure>)
        requires
            suggestions_per_path.wf(),
        ensures
            match picked {
                Ok(picked) => SessionView::begin(suggestions_per_path@).run(events@) == Some(
                    picked@,
                ),
                Err(error) => SessionView::begin(suggestions_per_path@).run(events@) is None
                    && error == Failure::Unsupported,
            },
    {
        let mut session = Session::new(suggestions_per_path);
        let mut read: usize = 0;
        proof {
            assert(events@.skip(0) == events@);
        }
        while read < events.len() && !session.is_over()
            invariant
                session.wf(),
                read <= events.len(),
                session@.run(events@.skip(read as int)) == SessionView::begin(
                    suggestions_per_path@,
                ).run(events@),
            decreases events.len() - read,
        {
            proof {
                assert(events@.skip(read as int).drop_first() == events@.skip(read + 1));
            }
            let step = session.step(events[read]);
            if let Step::Unsupported = step {
                return Err(Failure::Unsupported);
            }
            read += 1;
        }
        Ok(session.into_picked())
    }
}

/// The picks only grow: an event leaves them as they are, or adds one edit
/// for the file of the suggestion that is up, at the span of that suggestion.
pub proof fn lemma_picks_grow(session: SessionView, event: Event)
    ensures
        session.step(event).0.picked == session.picked || (session.at matches Some(cursor)
            && exists|replacement: Seq<char>|
            session.step(event).0.picked == added(
                session.picked,
                session.files[cursor.file].0,
                seq![BandAidView { span: cursor.state.suggestion.span, replacement }],
            )),
{
    if session.at is Some {
        let cursor = session.at->0;
        let (state, pick) = reaction(cursor.state, event);
    }
}

/// Whether `event` is a quit for a user at `state`: escape, control with c,
/// or, while a candidate is highlighted, q.
pub open spec fn quits(state: StateView, event: Event) -> bool {
    event matches Event::Key(key) && (key.code == KeyCode::Esc || (key.code == KeyCode::Char('c')
        && key.control) || (key.code == KeyCode::Char('q') && !state.is_custom_entry()))
}

/// Whether `event` confirms the highlighted slot: enter, or, while a candidate
/// is highlighted, y.
pub open spec fn confirms(state: StateView, event: Event) -> bool {
    event matches Event::Key(key) && (key.code == KeyCode::Enter || (key.code == KeyCode::Char('y')
        && !state.is_custom_entry()))
}

/// Declining a suggestion while one of its candidates is highlighted records
/// nothing and moves on to the next suggestion that has a candidate.
pub proof fn lemma_decline_advances(session: SessionView, control: bool)
    requires
        session.at matches Some(cursor) && !cursor.state.is_custom_entry(),
    ensures
        session.step(Event::Key(KeyEvent { code: KeyCode::Char('n'), control })) == session.seek(
            session.at->0.file,
            session.at->0.item + 1,
        ),
        session.step(Event::Key(KeyEvent { code: KeyCode::Char('n'), control })).0.picked
            == session.picked,
{
}

/// Confirming a suggestion as the user meets it records its first candidate
/// at its span, behind what was picked for its file, and nothing else.
pub proof fn lemma_confirm_records_first(session: SessionView, event: Event)
    requires
        session.at matches Some(cursor) && cursor.state == fresh(
            session.files[cursor.file].1[cursor.item],
        ) && 0 < cursor.state.suggestion.replacements.len() < usize::MAX,
        confirms(session.at->0.state, event),
    ensures
        session.step(event).0.picked == added(
            session.picked,
            session.files[session.at->0.file].0,
            seq![
                BandAidView {
                    span: session.at->0.state.suggestion.span,
                    replacement: session.at->0.state.suggestion.replacements[0],
                },
            ],
        ),
{
}

/// A quit ends the session with what was picked before it, and nothing for
/// the suggestion at which it comes, whatever events follow.
pub proof fn lemma_quit_keeps_picks(session: SessionView, event: Event, rest: Seq<Event>)
    requires
        session.at matches Some(cursor) && quits(cursor.state, event),
    ensures
        session.step(event) == (session.over(), Step::Finished),
        session.run(seq![event] + rest) == Some(session.picked),
{
    let events = seq![event] + rest;
    assert(session.over().run(events.drop_first()) == Some(session.picked));
}

} // verus!
