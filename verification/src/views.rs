//! What is shown of the entries and of the state of the program.

use crate::app::App;
use crate::calendar::{local_text, ClockModel, LocalText};
use crate::config::{facet_name, longest_facet_name, Config};
use crate::duration::clock;
use crate::entries::{
    by_id, find_entry, has_id, lemma_by_id_entry, lemma_by_id_key, EntryModel, MyEntry, TimeEntry,
};
use crate::session::{State, Tone};
use crate::text::{decimal, decimal_text, left_aligned, left_aligned_text};
use vstd::prelude::*;

verus! {

/// How long a key has been held, while it is not held long enough.
pub fn hold_label(count: usize) -> (r: Option<String>)
    ensures
        r is Some <==> 1 <= count < 100,
        r matches Some(label) ==> label@ == "Hold button "@ + decimal(count as nat) + "%"@,
{
    if count < 1 || count >= 100 {
        return None;
    }
    Some(String::from_str("Hold button ").concat(decimal_text(count as u64).as_str()).concat("%"))
}

/// How the entries are written.
pub fn list_tone(state: &State) -> (r: Tone)
    requires
        !(state@ is Booking),
    ensures
        r == if state@ is Selecting {
            Tone::White
        } else {
            Tone::Gray
        },
{
    match state {
        State::Selecting => Tone::White,
        _ => Tone::Gray,
    }
}

/// Whether the notes have a cursor.
pub fn cursor_shown(state: &State) -> (r: bool)
    ensures
        r == (state@ is Editing),
{
    matches!(state, State::Editing)
}

/// The tab of what is shown: the entries or the bookings.
pub fn selected_tab(state: &State) -> (r: usize)
    ensures
        r == if state@ is Booking {
            1int
        } else {
            0int
        },
{
    match state {
        State::Booking { .. } => 1,
        _ => 0,
    }
}

/// The place of the entry with the id.
pub(crate) fn entry_at(app: &App, id: u32) -> (r: Option<usize>)
    requires
        app.wf(),
    ensures
        r is Some <==> by_id(app@.entries).contains_key(id),
        r matches Some(i) ==> i < app.entries@.len() && by_id(app@.entries)[id]
            == app.entries@[i as int]@ && app.entries@[i as int].entry.wf(),
{
    let found = find_entry(&app.entries, id);
    proof {
        lemma_by_id_key(app@.entries, id);
        match found {
            Some(i) => {
                assert(app@.entries[i as int] == app.entries@[i as int]@);
                lemma_by_id_entry(app@.entries, i as int);
            },
            None => {
                if has_id(app@.entries, id) {
                    let k = choose|k: int|
                        0 <= k < app@.entries.len() && #[trigger] app@.entries[k].entry.id == id;
                    assert(app.entries@[k].entry.id == id);
                }
            },
        }
    }
    found
}

/// Whether the times of an entry can be shown: it has an end that exists.
pub open spec fn has_times(entry: TimeEntry) -> bool {
    entry.time.reaches(entry.duration)
}

/// Whether some time zone can show these times of an entry.
pub open spec fn times_possible(entry: TimeEntry, start: ClockModel, end: ClockModel) -> bool {
    &&& start.possible(entry.time.secs as int)
    &&& end.possible(entry.time.plus(entry.duration).secs as int)
}

/// The local times of the start and the end of an entry, if they can be shown.
pub fn entry_times(entry: &TimeEntry) -> (r: Option<(LocalText, LocalText)>)
    requires
        entry.wf(),
    ensures
        r is Some <==> has_times(*entry),
        r matches Some((start, end)) ==> times_possible(*entry, start@, end@),
{
    match entry.time.checked_plus(&entry.duration) {
        Some(end) => Some((local_text(entry.time.secs), local_text(end.secs))),
        None => None,
    }
}

/// What is shown of an entry: the name of its side, the day, how long it took, from when to when,
/// and among invisible entries whether it is visible.
pub open spec fn entry_shown(
    entry: EntryModel,
    name: Seq<char>,
    width: nat,
    show_invisible: bool,
    start: ClockModel,
    end: ClockModel,
) -> Seq<char> {
    left_aligned(name, width) + " "@ + start.day_month + "  "@ + clock(entry.entry.duration@)
        + "  "@ + start.hour_minute + "-"@ + end.hour_minute + if show_invisible {
        if entry.visible {
            " [*]"@
        } else {
            " [ ]"@
        }
    } else {
        Seq::empty()
    }
}

/// What is shown of an entry, at the local times of its start and its end.
pub fn entry_line(
    entry: &MyEntry,
    name: &str,
    width: usize,
    show_invisible: bool,
    start: &LocalText,
    end: &LocalText,
) -> (r: String)
    requires
        entry.entry.wf(),
    ensures
        r@ == entry_shown(entry@, name@, width as nat, show_invisible, start@, end@),
{
    let line = left_aligned_text(name, width).concat(" ").concat(
        start.day_month.as_str(),
    ).concat("  ").concat(entry.entry.duration.clock_text().as_str()).concat("  ").concat(
        start.hour_minute.as_str(),
    ).concat("-").concat(end.hour_minute.as_str());
    if show_invisible {
        if entry.visible {
            line.concat(" [*]")
        } else {
            line.concat(" [ ]")
        }
    } else {
        assert(line@ + Seq::<char>::empty() =~= line@);
        line
    }
}

/// Whether an entry can be shown: its side is known, and its times can be shown.
pub open spec fn can_show(entry: EntryModel, config: Config) -> bool {
    config.knows(entry.entry.facet.index as int) && has_times(entry.entry)
}

/// Whether a text can be what is shown of an entry in some time zone.
pub open spec fn entry_line_possible(
    entry: EntryModel,
    config: Config,
    show_invisible: bool,
    text: Seq<char>,
) -> bool {
    exists|start: ClockModel, end: ClockModel|
        #[trigger] times_possible(entry.entry, start, end) && text == entry_shown(
            entry,
            config.called(entry.entry.facet.index as int),
            config.longest(config.sides@.len()),
            show_invisible,
            start,
            end,
        )
}

/// What is shown of all entries on the list, if all of them can be shown.
pub fn entry_lines(app: &App, config: &Config) -> (r: Option<Vec<String>>)
    requires
        app.wf(),
        config.wf(),
    ensures
        r is Some <==> forall|i: int|
            0 <= i < app@.items.len() ==> can_show(
                by_id(app@.entries)[#[trigger] app@.items[i]],
                *config,
            ),
        r matches Some(lines) ==> {
            &&& lines@.len() == app@.items.len()
            &&& forall|i: int|
                0 <= i < lines@.len() ==> entry_line_possible(
                    by_id(app@.entries)[app@.items[i]],
                    *config,
                    app@.show_invisible,
                    (#[trigger] lines@[i])@,
                )
        },
{
    let width: usize = longest_facet_name(config);
    let mut lines: Vec<String> = Vec::new();
    for i in 0..app.items.items.len()
        invariant
            app.wf(),
            config.wf(),
            width == config.longest(config.sides@.len()),
            lines@.len() == i,
            forall|j: int|
                0 <= j < i ==> can_show(
                    by_id(app@.entries)[#[trigger] app@.items[j]],
                    *config,
                ),
            forall|j: int|
                0 <= j < i ==> entry_line_possible(
                    by_id(app@.entries)[app@.items[j]],
                    *config,
                    app@.show_invisible,
                    (#[trigger] lines@[j])@,
                ),
    {
        let id: u32 = app.items.items[i];
        let ghost shown = by_id(app@.entries)[id];
        assert(app@.items[i as int] == id);
        assert(has_id(app@.entries, id));
        proof {
            lemma_by_id_key(app@.entries, id);
        }
        let at: usize = match entry_at(app, id) {
            Some(at) => at,
            None => {
                return None;
            },
        };
        let entry = &app.entries[at];
        if entry.entry.facet.index as usize >= config.sides.len() {
            return None;
        }
        match entry_times(&entry.entry) {
            Some((start, end)) => {
                let name = facet_name(&entry.entry.facet, config);
                lines.push(
                    entry_line(entry, name.as_str(), width, app.show_invisible, &start, &end),
                );
                proof {
                    assert(times_possible(shown.entry, start@, end@));
                    assert(entry_line_possible(
                        shown,
                        *config,
                        app@.show_invisible,
                        lines@[i as int]@,
                    ));
                }
            },
            None => {
                return None;
            },
        }
    }
    Some(lines)
}

/// What is shown of an entry in some time zone: the name of its side in the width of the longest,
/// the day and the time at which it starts, the time at which it ends, and how long it took; and a
/// mark of whether it is visible, only where the invisible entries are shown too.
pub proof fn law_entry_line(
    entry: EntryModel,
    config: Config,
    show_invisible: bool,
    text: Seq<char>,
)
    requires
        entry_line_possible(entry, config, show_invisible, text),
    ensures
        exists|start: ClockModel, end: ClockModel|
            {
                &&& #[trigger] start.possible(entry.entry.time.secs as int)
                &&& #[trigger] end.possible(entry.entry.time.plus(entry.entry.duration).secs as int)
                &&& text == left_aligned(
                    config.called(entry.entry.facet.index as int),
                    config.longest(config.sides@.len()),
                ) + " "@ + start.day_month + "  "@ + clock(
                    (entry.entry.duration.secs * 1_000_000_000 + entry.entry.duration.nanos) as nat,
                ) + "  "@ + start.hour_minute + "-"@ + end.hour_minute + (if !show_invisible {
                    Seq::empty()
                } else if entry.visible {
                    " [*]"@
                } else {
                    " [ ]"@
                })
            },
{
    let (start, end) = choose|start: ClockModel, end: ClockModel|
        #[trigger] times_possible(entry.entry, start, end) && text == entry_shown(
            entry,
            config.called(entry.entry.facet.index as int),
            config.longest(config.sides@.len()),
            show_invisible,
            start,
            end,
        );
    assert(start.possible(entry.entry.time.secs as int));
    assert(end.possible(entry.entry.time.plus(entry.entry.duration).secs as int));
}

/// An entry can be shown exactly if its side is known and its end exists.
pub proof fn law_entry_can_be_shown(entry: EntryModel, config: Config)
    ensures
        can_show(entry, config) <==> entry.entry.facet.index < config.sides@.len()
            && entry.entry.time.reaches(entry.entry.duration),
{
}

} // verus!
