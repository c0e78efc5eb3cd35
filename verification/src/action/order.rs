//! From the order of the suggestions to the order of the edits: what a
//! session picks comes sorted to the patch engine.

use crate::action::bandaid::{follows, BandAidView};
use crate::action::interactive::{lemma_upcoming, reaction, upto, Event, PickView, SessionView};
use crate::ordered::{lemma_place, place};
use crate::span::span_follows;
use crate::suggestion::{SuggestionSet, SuggestionView};
use vstd::prelude::*;

verus! {

/// Whether the suggestions of each file lie one behind the other.
pub open spec fn suggestions_in_order(files: Seq<(Seq<char>, Seq<SuggestionView>)>) -> bool {
    forall|f: int, i: int, j: int|
        0 <= f < files.len() && 0 <= i < j < files[f].1.len() ==> span_follows(
            (#[trigger] files[f].1[i]).span,
            (#[trigger] files[f].1[j]).span,
        )
}

/// Whether the edits of each file lie one behind the other.
pub open spec fn picks_in_order(picked: Seq<(Seq<char>, Seq<BandAidView>)>) -> bool {
    forall|p: int, i: int, j: int|
        0 <= p < picked.len() && 0 <= i < j < picked[p].1.len() ==> follows(
            #[trigger] picked[p].1[i],
            #[trigger] picked[p].1[j],
        )
}

/// Whether the session stands at a suggestion of its files, or is over.
pub open spec fn on_course(session: SessionView) -> bool {
    session.at matches Some(cursor) ==> {
        &&& 0 <= cursor.file < session.files.len()
        &&& 0 <= cursor.item < session.files[cursor.file].1.len()
        &&& cursor.state.suggestion == session.files[cursor.file].1[cursor.item]
    }
}

/// How far a session has got: the place of the suggestion that is up, or
/// the end of the files.
spec fn front(session: SessionView) -> (int, int) {
    match session.at {
        Some(cursor) => (cursor.file, cursor.item),
        None => (session.files.len() as int, 0),
    }
}

/// Whether `fixes` are edits for file `f` that lie one behind the other, and
/// before every suggestion of the file from place `(file, item)` on.
spec fn trails(
    files: Seq<(Seq<char>, Seq<SuggestionView>)>,
    fixes: Seq<BandAidView>,
    f: int,
    file: int,
    item: int,
) -> bool {
    &&& 0 <= f < files.len()
    &&& f <= file
    &&& forall|i: int, j: int|
        0 <= i < j < fixes.len() ==> follows(#[trigger] fixes[i], #[trigger] fixes[j])
    &&& forall|i: int, m: int|
        0 <= i < fixes.len() && 0 <= m < files[f].1.len() && upto(file, item, f, m)
            ==> span_follows((#[trigger] fixes[i]).span, (#[trigger] files[f].1[m]).span)
}

/// Whether the picks at place `p` are those of a file, and trail the place
/// `(file, item)`.
spec fn followed(
    files: Seq<(Seq<char>, Seq<SuggestionView>)>,
    picked: Seq<(Seq<char>, Seq<BandAidView>)>,
    p: int,
    file: int,
    item: int,
) -> bool {
    exists|f: int| files[f].0 == picked[p].0 && #[trigger] trails(files, picked[p].1, f, file, item)
}

/// Whether all of `picked` trails the place `(file, item)`.
spec fn settled(
    files: Seq<(Seq<char>, Seq<SuggestionView>)>,
    picked: Seq<(Seq<char>, Seq<BandAidView>)>,
    file: int,
    item: int,
) -> bool {
    forall|p: int| 0 <= p < picked.len() ==> #[trigger] followed(files, picked, p, file, item)
}

/// What trails a place trails every later place.
proof fn lemma_settled_later(
    files: Seq<(Seq<char>, Seq<SuggestionView>)>,
    picked: Seq<(Seq<char>, Seq<BandAidView>)>,
    file: int,
    item: int,
    later_file: int,
    later_item: int,
)
    requires
        settled(files, picked, file, item),
        upto(file, item, later_file, later_item),
    ensures
        settled(files, picked, later_file, later_item),
{
    assert forall|p: int| 0 <= p < picked.len() implies #[trigger] followed(
        files,
        picked,
        p,
        later_file,
        later_item,
    ) by {
        assert(followed(files, picked, p, file, item));
        let f = choose|f: int|
            files[f].0 == picked[p].0 && #[trigger] trails(files, picked[p].1, f, file, item);
        assert(trails(files, picked[p].1, f, later_file, later_item));
    }
}

/// Picks that trail a place trail the suggestion that is up after moving on
/// from that place.
proof fn lemma_seek_keeps(session: SessionView, file: int, item: int)
    requires
        0 <= file <= session.files.len(),
        0 <= item,
        file < session.files.len() || item == 0,
        settled(session.files, session.picked, file, item),
    ensures
        on_course(session.seek(file, item).0),
        settled(
            session.files,
            session.seek(file, item).0.picked,
            front(session.seek(file, item).0).0,
            front(session.seek(file, item).0).1,
        ),
{
    let next = session.seek(file, item).0;
    lemma_upcoming(session.files, file, item);
    lemma_settled_later(session.files, session.picked, file, item, front(next).0, front(next).1);
}

/// A recorded edit comes behind the edits of its file, and before the
/// suggestions behind its own.
proof fn lemma_record_keeps(session: SessionView, fix: BandAidView)
    requires
        SuggestionSet::valid(session.files),
        suggestions_in_order(session.files),
        on_course(session),
        session.at is Some,
        settled(session.files, session.picked, session.at->0.file, session.at->0.item),
        fix.span == session.at->0.state.suggestion.span,
    ensures
        settled(
            session.files,
            session.record(fix).picked,
            session.at->0.file,
            session.at->0.item + 1,
        ),
{
    let cursor = session.at->0;
    let files = session.files;
    let own = files[cursor.file].1;
    let path = files[cursor.file].0;
    let picked = session.record(fix).picked;
    let at = place(session.picked, path);
    lemma_place(session.picked, path);
    lemma_settled_later(
        files,
        session.picked,
        cursor.file,
        cursor.item,
        cursor.file,
        cursor.item + 1,
    );
    assert forall|p: int| 0 <= p < picked.len() implies #[trigger] followed(
        files,
        picked,
        p,
        cursor.file,
        cursor.item + 1,
    ) by {
        if p < session.picked.len() && p != at {
            assert(followed(files, session.picked, p, cursor.file, cursor.item + 1));
            let f = choose|f: int|
                files[f].0 == session.picked[p].0 && #[trigger] trails(
                    files,
                    session.picked[p].1,
                    f,
                    cursor.file,
                    cursor.item + 1,
                );
            assert(picked[p] == session.picked[p]);
            assert(trails(files, picked[p].1, f, cursor.file, cursor.item + 1));
        } else if p < session.picked.len() {
            assert(followed(files, session.picked, p, cursor.file, cursor.item));
            let f = choose|f: int|
                files[f].0 == session.picked[p].0 && #[trigger] trails(
                    files,
                    session.picked[p].1,
                    f,
                    cursor.file,
                    cursor.item,
                );
            // one path, one file
            if f < cursor.file {
                assert(files[f].0 != files[cursor.file].0);
            }
            let before = session.picked[p].1;
            let fixes = picked[p].1;
            assert(fixes == before + seq![fix]);
            assert forall|i: int, j: int| 0 <= i < j < fixes.len() implies follows(
                #[trigger] fixes[i],
                #[trigger] fixes[j],
            ) by {
                if j == before.len() {
                    assert(span_follows(before[i].span, own[cursor.item].span));
                } else {
                    assert(follows(before[i], before[j]));
                }
            }
            assert forall|i: int, m: int|
                0 <= i < fixes.len() && 0 <= m < own.len() && upto(
                    cursor.file,
                    cursor.item + 1,
                    cursor.file,
                    m,
                ) implies span_follows((#[trigger] fixes[i]).span, (#[trigger] own[m]).span) by {
                if i == before.len() {
                    assert(span_follows(own[cursor.item].span, own[m].span));
                } else {
                    assert(span_follows(before[i].span, own[m].span));
                }
            }
            assert(trails(files, fixes, cursor.file, cursor.file, cursor.item + 1));
        } else {
            let fixes = picked[p].1;
            assert(fixes == seq![fix]);
            assert forall|i: int, m: int|
                0 <= i < fixes.len() && 0 <= m < own.len() && upto(
                    cursor.file,
                    cursor.item + 1,
                    cursor.file,
                    m,
                ) implies span_follows((#[trigger] fixes[i]).span, (#[trigger] own[m]).span) by {
                assert(span_follows(own[cursor.item].span, own[m].span));
            }
            assert(trails(files, fixes, cursor.file, cursor.file, cursor.item + 1));
        }
    }
}

/// One event leaves the picks of a session trailing the suggestion that is
/// up.
proof fn lemma_step_keeps(session: SessionView, event: Event)
    requires
        SuggestionSet::valid(session.files),
        suggestions_in_order(session.files),
        on_course(session),
        settled(session.files, session.picked, front(session).0, front(session).1),
    ensures
        session.step(event).0.files == session.files,
        on_course(session.step(event).0),
        settled(
            session.files,
            session.step(event).0.picked,
            front(session.step(event).0).0,
            front(session.step(event).0).1,
        ),
{
    if session.at is Some {
        let cursor = session.at->0;
        let files = session.files;
        let (state, pick) = reaction(cursor.state, event);
        assert(state.suggestion == cursor.state.suggestion);
        match pick {
            PickView::Nop | PickView::Help | PickView::Previous => {},
            PickView::Quit => {
                lemma_settled_later(
                    files,
                    session.picked,
                    cursor.file,
                    cursor.item,
                    files.len() as int,
                    0,
                );
            },
            PickView::SkipFile => {
                lemma_settled_later(
                    files,
                    session.picked,
                    cursor.file,
                    cursor.item,
                    cursor.file + 1,
                    0,
                );
                lemma_seek_keeps(session, cursor.file + 1, 0);
            },
            PickView::Skip => {
                lemma_settled_later(
                    files,
                    session.picked,
                    cursor.file,
                    cursor.item,
                    cursor.file,
                    cursor.item + 1,
                );
                lemma_seek_keeps(session, cursor.file, cursor.item + 1);
            },
            PickView::Replacement(fix) => {
                lemma_record_keeps(session, fix);
                lemma_seek_keeps(session.record(fix), cursor.file, cursor.item + 1);
            },
        }
    }
}

/// The events of a session leave its picks in order.
proof fn lemma_run_keeps(session: SessionView, events: Seq<Event>)
    requires
        SuggestionSet::valid(session.files),
        suggestions_in_order(session.files),
        on_course(session),
        settled(session.files, session.picked, front(session).0, front(session).1),
    ensures
        session.run(events) matches Some(picked) ==> picks_in_order(picked),
    decreases events.len(),
{
    if session.at is None || events.len() == 0 {
        let picked = session.picked;
        assert forall|p: int, i: int, j: int|
            0 <= p < picked.len() && 0 <= i < j < picked[p].1.len() implies follows(
            #[trigger] picked[p].1[i],
            #[trigger] picked[p].1[j],
        ) by {
            assert(followed(session.files, picked, p, front(session).0, front(session).1));
        }
    } else {
        lemma_step_keeps(session, events[0]);
        lemma_run_keeps(session.step(events[0]).0, events.drop_first());
    }
}

/// Where the suggestions of each file lie one behind the other, so do the
/// edits that a session picks for it, whatever the user does: the patch
/// engine gets its edits sorted, and none reaching into the next.
pub proof fn lemma_picks_in_order(files: Seq<(Seq<char>, Seq<SuggestionView>)>, events: Seq<Event>)
    requires
        SuggestionSet::valid(files),
        suggestions_in_order(files),
    ensures
        SessionView::begin(files).run(events) matches Some(picked) ==> picks_in_order(picked),
{
    let blank = SessionView { files, at: None, picked: Seq::empty() };
    lemma_seek_keeps(blank, 0, 0);
    lemma_run_keeps(SessionView::begin(files), events);
}

} // verus!
