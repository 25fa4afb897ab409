//! What happens on each key and on each event of the device.

use crate::app::{greatest_id, law_notes_are_read_back, merged, App, AppModel};
use crate::booking::{
    can_normalize, law_shift_changes_selected, suggested_or_worked, BookingDate, DateModel,
};
use crate::calendar::Date;
use crate::entries::{by_id, listed_ids, models, MyEntry, TimeEntry};
use crate::stateful_list::{following, preceding, with_selection, ListState, StatefulList};
use crate::text::texts;
use vstd::prelude::*;

verus! {

/// What the user is doing.
#[derive(Debug)]
pub enum State {
    Selecting,
    Editing,
    Paused,
    Booking {
        date_selection_list: StatefulList<Date>,
        booking_date: Option<BookingDate>,
        extended_info: bool,
    },
}

/// The contents of a state.
pub enum StateModel {
    Selecting,
    Editing,
    Paused,
    Booking {
        dates: Seq<Date>,
        list: ListState,
        booking_date: Option<DateModel>,
        extended_info: bool,
    },
}

impl View for State {
    type V = StateModel;

    open spec fn view(&self) -> StateModel {
        match self {
            State::Selecting => StateModel::Selecting,
            State::Editing => StateModel::Editing,
            State::Paused => StateModel::Paused,
            State::Booking { date_selection_list, booking_date, extended_info } => {
                StateModel::Booking {
                    dates: date_selection_list.items@,
                    list: date_selection_list.state,
                    booking_date: match booking_date {
                        Some(date) => Some(date@),
                        None => None,
                    },
                    extended_info: *extended_info,
                }
            },
        }
    }
}

impl State {
    /// The days exist, and the bookings are valid.
    pub open spec fn wf(&self) -> bool {
        match self {
            State::Booking { date_selection_list, booking_date, .. } => {
                &&& forall|i: int|
                    0 <= i < date_selection_list.items@.len() ==> (
                    #[trigger] date_selection_list.items@[i]).valid()
                &&& *booking_date matches Some(date) ==> date.wf()
            },
            _ => true,
        }
    }

    /// The keys that can be used.
    pub fn get_description(&self) -> (r: String)
        ensures
            r@ == match self@ {
                StateModel::Selecting =>
                    "[↑/↓] Move, [→] Edit, [p] Pause, [d] Done, [t] Toggle Visibility, [s] Sync, [q] Quit"@,
                StateModel::Editing => "[Esc] Finish editing"@,
                StateModel::Paused => "[p] Unpause"@,
                StateModel::Booking { booking_date, .. } => if booking_date is Some {
                    "[↑/↓] Move, [+/-] In/Decrease time, [e] Toggle Information, [b] Book in Jira, [Esc] Finish booking"@
                } else {
                    "[↑/↓] Move, [↵] Select, [Esc] Finish booking"@
                },
            },
    {
        match self {
            State::Selecting => String::from_str(
                "[↑/↓] Move, [→] Edit, [p] Pause, [d] Done, [t] Toggle Visibility, [s] Sync, [q] Quit",
            ),
            State::Editing => String::from_str("[Esc] Finish editing"),
            State::Paused => String::from_str("[p] Unpause"),
            State::Booking { booking_date, .. } => {
                if booking_date.is_some() {
                    String::from_str(
                        "[↑/↓] Move, [+/-] In/Decrease time, [e] Toggle Information, [b] Book in Jira, [Esc] Finish booking",
                    )
                } else {
                    String::from_str("[↑/↓] Move, [↵] Select, [Esc] Finish booking")
                }
            },
        }
    }
}

/// A key, as far as it matters.
#[derive(Clone, Copy, Debug, PartialEq, Eq, Structural)]
pub enum Key {
    Char(char),
    Esc,
    Enter,
    Up,
    Down,
    Right,
    Delete,
    Other,
}

/// What the device tells.
#[derive(Clone, Copy, Debug, PartialEq, Eq, Structural)]
pub enum DeviceEvent {
    DoubleTap { pause: bool },
    Facet,
    Other,
}

/// How the notes are written.
#[derive(Clone, Copy, Debug, PartialEq, Eq, Structural)]
pub enum Tone {
    White,
    Gray,
}

/// What is to be done outside.
#[derive(Clone, Copy, Debug, PartialEq, Eq, Structural)]
pub enum Effect {
    /// Ask for the attention of the user, or do not any more.
    Attention(i32),
    /// Let the device pause.
    PauseDevice,
    /// Set the clock of the device and let it go on.
    ResumeDevice,
    /// Save the entries.
    Persist,
    /// Read what the device has logged since the last time, and merge it.
    ReadHistory,
    /// Find out the days that can be booked, and open the bookings with them.
    ListDates,
    /// Show that something is loading.
    ShowLoading,
    /// Find out the bookings of a day, and show them.
    FetchBookings(Date),
    /// Book what is suggested.
    BookTime,
    /// Show the notes on the selected entry.
    ShowSelection,
    /// Show no notes.
    ShowBlank,
    /// Write the notes otherwise.
    WriteNotes(Tone),
    /// Hand the key to the notes.
    EditNotes,
    /// Stop reading keys.
    StopReading,
    /// Start reading keys again.
    StartReading,
    /// Leave the program.
    Quit,
}

/// How often a key must have been repeated before it counts as held.
pub const HELD: usize = 100;

/// All that the program knows between two events.
#[derive(Debug)]
pub struct Session {
    pub app: App,
    pub state: State,
    pub last_seen: u32,
    pub repetition_count: usize,
    pub reading_keys: bool,
}

/// The contents of a session.
#[verifier::ext_equal]
pub struct SessionModel {
    pub app: AppModel,
    pub state: StateModel,
    pub last_seen: u32,
    pub repetition_count: nat,
    pub reading_keys: bool,
}

impl View for Session {
    type V = SessionModel;

    open spec fn view(&self) -> SessionModel {
        SessionModel {
            app: self.app@,
            state: self.state@,
            last_seen: self.last_seen,
            repetition_count: self.repetition_count as nat,
            reading_keys: self.reading_keys,
        }
    }
}

/// A session, and what is to be done outside.
pub type Step = (SessionModel, Seq<Effect>);

impl SessionModel {
    /// One repetition more.
    pub open spec fn repeated(&self) -> SessionModel {
        SessionModel { repetition_count: self.repetition_count + 1, ..*self }
    }

    /// The key has been held long enough: keys are not read for a while.
    pub open spec fn held(&self) -> SessionModel {
        SessionModel { repetition_count: 0, reading_keys: false, ..*self }
    }

    /// What a key does while an entry is selected. Only keys that go down count.
    pub open spec fn on_selecting(&self, key: Key, pressed: bool) -> Step {
        if !pressed {
            (*self, seq![])
        } else if key == Key::Char('q') {
            (
                *self,
                seq![Effect::Attention(0), Effect::Attention(0), Effect::Persist, Effect::Quit],
            )
        } else if key == Key::Char('p') {
            if self.repetition_count <= HELD {
                (self.repeated(), seq![])
            } else {
                (
                    SessionModel { state: StateModel::Paused, ..self.held() },
                    seq![
                        Effect::StopReading,
                        Effect::Attention(1),
                        Effect::Attention(1),
                        Effect::PauseDevice,
                        Effect::Persist,
                        Effect::ShowSelection,
                    ],
                )
            }
        } else if key == Key::Char('b') {
            (*self, seq![Effect::ListDates, Effect::ShowBlank])
        } else if key == Key::Char('s') {
            (*self, seq![Effect::Persist, Effect::ReadHistory])
        } else if key == Key::Right && self.app.selected_id() is Some {
            (
                SessionModel { state: StateModel::Editing, ..*self },
                seq![Effect::WriteNotes(Tone::White), Effect::ShowSelection],
            )
        } else {
            (SessionModel { app: self.list_changed(key), ..*self }, seq![Effect::ShowSelection])
        }
    }

    /// What a key does to the list.
    pub open spec fn list_changed(&self, key: Key) -> AppModel {
        if key == Key::Char('d') {
            self.app.done_toggled()
        } else if key == Key::Delete {
            self.app.done_deleted()
        } else if key == Key::Char('t') {
            (AppModel { show_invisible: !self.app.show_invisible, ..self.app }).refreshed()
        } else if key == Key::Down {
            AppModel {
                state: with_selection(
                    self.app.state,
                    following(self.app.state.selected, self.app.items.len()),
                ),
                ..self.app
            }
        } else if key == Key::Up {
            AppModel {
                state: with_selection(
                    self.app.state,
                    preceding(self.app.state.selected, self.app.items.len()),
                ),
                ..self.app
            }
        } else {
            self.app
        }
    }

    /// What a key does while notes are edited: the notes take all keys but the one that ends
    /// editing, and then go to the entry.
    pub open spec fn on_editing(&self, key: Key, notes: Seq<Seq<char>>) -> Step {
        if key == Key::Esc {
            (
                SessionModel {
                    state: StateModel::Selecting,
                    app: self.app.described(notes),
                    ..*self
                },
                seq![Effect::WriteNotes(Tone::Gray)],
            )
        } else {
            (*self, seq![Effect::EditNotes])
        }
    }

    /// What a key does during a pause.
    pub open spec fn on_paused(&self, key: Key) -> Step {
        if key == Key::Char('p') {
            if self.repetition_count <= HELD {
                (self.repeated(), seq![])
            } else {
                (
                    SessionModel { state: StateModel::Selecting, ..self.held() },
                    seq![
                        Effect::StopReading,
                        Effect::Attention(0),
                        Effect::Attention(0),
                        Effect::ResumeDevice,
                    ],
                )
            }
        } else {
            (*self, seq![])
        }
    }

    /// What a key does while a day is chosen.
    pub open spec fn on_choosing(&self, key: Key) -> Step
        recommends
            self.state is Booking,
    {
        let dates = self.state->dates;
        let list = self.state->list;
        if key == Key::Down {
            (self.choosing(with_selection(list, following(list.selected, dates.len()))), seq![])
        } else if key == Key::Up {
            (self.choosing(with_selection(list, preceding(list.selected, dates.len()))), seq![])
        } else if key == Key::Enter {
            match list.selected {
                Some(i) if i < dates.len() => (
                    *self,
                    seq![Effect::ShowLoading, Effect::FetchBookings(dates[i as int])],
                ),
                _ => (*self, seq![Effect::ShowLoading]),
            }
        } else {
            (*self, seq![])
        }
    }

    /// The session with another day selected.
    pub open spec fn choosing(&self, list: ListState) -> SessionModel {
        SessionModel {
            state: StateModel::Booking {
                dates: self.state->dates,
                list,
                booking_date: self.state->booking_date,
                extended_info: self.state->extended_info,
            },
            ..*self
        }
    }

    /// The session with other bookings of the day.
    pub open spec fn with_bookings(&self, day: DateModel) -> SessionModel {
        SessionModel {
            state: StateModel::Booking {
                dates: self.state->dates,
                list: self.state->list,
                booking_date: Some(day),
                extended_info: self.state->extended_info,
            },
            ..*self
        }
    }

    /// What a key does to the bookings of a day.
    pub open spec fn on_booking(&self, key: Key, day: DateModel) -> Step {
        if key == Key::Char('+') {
            (self.with_bookings(day.selected_shifted(300)), seq![])
        } else if key == Key::Char('-') {
            (self.with_bookings(day.selected_shifted(-300)), seq![])
        } else if key == Key::Down {
            let state = with_selection(day.state, following(day.state.selected, day.list.len()));
            (self.with_bookings(DateModel { state, ..day }), seq![])
        } else if key == Key::Up {
            let state = with_selection(day.state, preceding(day.state.selected, day.list.len()));
            (self.with_bookings(DateModel { state, ..day }), seq![])
        } else if key == Key::Char('e') {
            (
                SessionModel {
                    state: StateModel::Booking {
                        dates: self.state->dates,
                        list: self.state->list,
                        booking_date: self.state->booking_date,
                        extended_info: !self.state->extended_info,
                    },
                    ..*self
                },
                seq![],
            )
        } else if key == Key::Char('b') {
            if self.repetition_count <= HELD {
                (self.repeated(), seq![])
            } else {
                (self.held(), seq![Effect::StopReading, Effect::BookTime])
            }
        } else {
            (*self, seq![])
        }
    }

    /// What a key does.
    pub open spec fn on_key(&self, key: Key, pressed: bool, notes: Seq<Seq<char>>) -> Step {
        match self.state {
            StateModel::Selecting => self.on_selecting(key, pressed),
            StateModel::Editing => self.on_editing(key, notes),
            StateModel::Paused => self.on_paused(key),
            StateModel::Booking { booking_date, .. } => if key == Key::Esc {
                (
                    SessionModel { state: StateModel::Selecting, ..*self },
                    if self.app.selected_id() is Some {
                        seq![Effect::ShowSelection]
                    } else {
                        seq![]
                    },
                )
            } else {
                match booking_date {
                    Some(day) => self.on_booking(key, day),
                    None => self.on_choosing(key),
                }
            },
        }
    }

    /// What the device makes of the session: it pauses and goes on with its double taps, and it
    /// goes on when it is turned.
    pub open spec fn on_device(&self, event: DeviceEvent) -> Step {
        let paused = self.state is Paused;
        if paused && (event == (DeviceEvent::DoubleTap { pause: false }) || event
            == DeviceEvent::Facet) {
            (
                SessionModel { state: StateModel::Selecting, ..*self },
                seq![Effect::Attention(0), Effect::Attention(0)],
            )
        } else if !paused && event == (DeviceEvent::DoubleTap { pause: true }) {
            (
                SessionModel { state: StateModel::Paused, ..*self },
                seq![Effect::Attention(1), Effect::Attention(1)],
            )
        } else {
            (*self, seq![])
        }
    }

    /// What a second without any event does: no key counts as held any more, and keys are read
    /// again.
    pub open spec fn on_quiet(&self) -> Step {
        (
            SessionModel { repetition_count: 0, reading_keys: true, ..*self },
            if self.reading_keys {
                seq![]
            } else {
                seq![Effect::StartReading]
            },
        )
    }
}

impl Session {
    /// The parts are valid, and no key is counted further than to when it is held.
    pub open spec fn wf(&self) -> bool {
        &&& self.app.wf()
        &&& self.state.wf()
        &&& self.repetition_count <= HELD + 1
    }

    /// A session on a saved history.
    pub fn start(last_seen: u32, entries: Vec<MyEntry>) -> (r: Session)
        requires
            forall|i: int| 0 <= i < entries@.len() ==> (#[trigger] entries@[i]).entry.wf(),
        ensures
            r.wf(),
            r@.app.items == listed_ids(models(entries@), false),
            r@.app.state == (ListState { offset: 0, selected: Some(0) }),
            by_id(r@.app.entries) == by_id(models(entries@)),
            !r@.app.show_invisible,
            r@.state is Selecting,
            r@.last_seen == last_seen,
            r@.repetition_count == 0,
            r@.reading_keys,
    {
        Session {
            app: App::new_from_entries(entries),
            state: State::Selecting,
            last_seen,
            repetition_count: 0,
            reading_keys: true,
        }
    }

    /// Counts one repetition more, and tells whether the key is held now.
    fn hold(&mut self) -> (r: bool)
        requires
            old(self).wf(),
        ensures
            final(self).wf(),
            r == (old(self)@.repetition_count > HELD),
            final(self)@ == if r {
                old(self)@.held()
            } else {
                old(self)@.repeated()
            },
            final(self).state == old(self).state,
    {
        if self.repetition_count <= HELD {
            self.repetition_count = self.repetition_count + 1;
            false
        } else {
            self.reading_keys = false;
            self.repetition_count = 0;
            true
        }
    }

    /// What a key does while an entry is selected.
    fn key_selecting(&mut self, key: Key, pressed: bool) -> (r: Vec<Effect>)
        requires
            old(self).wf(),
            old(self)@.state is Selecting,
        ensures
            final(self).wf(),
            (final(self)@, r@) == old(self)@.on_selecting(key, pressed),
    {
        if !pressed {
            return Vec::new();
        }
        match key {
            Key::Char('q') => {
                return vec![
                    Effect::Attention(0),
                    Effect::Attention(0),
                    Effect::Persist,
                    Effect::Quit,
                ];
            },
            Key::Char('p') => {
                if !self.hold() {
                    return Vec::new();
                }
                self.state = State::Paused;
                return vec![
                    Effect::StopReading,
                    Effect::Attention(1),
                    Effect::Attention(1),
                    Effect::PauseDevice,
                    Effect::Persist,
                    Effect::ShowSelection,
                ];
            },
            Key::Char('b') => {
                return vec![Effect::ListDates, Effect::ShowBlank];
            },
            Key::Char('s') => {
                return vec![Effect::Persist, Effect::ReadHistory];
            },
            Key::Char('d') => {
                self.app.toggle_done();
            },
            Key::Delete => {
                self.app.delete_done();
            },
            Key::Char('t') => {
                self.app.toggle_visibility();
            },
            Key::Right => {
                if self.app.items.selected().is_some() {
                    self.state = State::Editing;
                    return vec![Effect::WriteNotes(Tone::White), Effect::ShowSelection];
                }
            },
            Key::Down => {
                self.app.items.next();
            },
            Key::Up => {
                self.app.items.previous();
            },
            _ => {},
        }
        vec![Effect::ShowSelection]
    }

    /// What a key does.
    pub fn key(&mut self, key: Key, pressed: bool, notes: &Vec<String>) -> (r: Vec<Effect>)
        requires
            old(self).wf(),
        ensures
            final(self).wf(),
            (final(self)@, r@) == old(self)@.on_key(key, pressed, texts(notes@)),
    {
        match &self.state {
            State::Selecting => {
                return self.key_selecting(key, pressed);
            },
            State::Editing => {
                if key == Key::Esc {
                    self.state = State::Selecting;
                    self.app.describe(notes);
                    return vec![Effect::WriteNotes(Tone::Gray)];
                }
                return vec![Effect::EditNotes];
            },
            State::Paused => {
                if key == Key::Char('p') && self.hold() {
                    self.state = State::Selecting;
                    return vec![
                        Effect::StopReading,
                        Effect::Attention(0),
                        Effect::Attention(0),
                        Effect::ResumeDevice,
                    ];
                }
                return Vec::new();
            },
            State::Booking { .. } => {},
        }
        self.key_booking(key)
    }

    /// What a key does among the bookings.
    fn key_booking(&mut self, key: Key) -> (r: Vec<Effect>)
        requires
            old(self).wf(),
            old(self)@.state is Booking,
        ensures
            final(self).wf(),
            (final(self)@, r@) == old(self)@.on_key(key, true, Seq::empty()),
    {
        if key == Key::Esc {
            self.state = State::Selecting;
            if self.app.items.selected().is_some() {
                return vec![Effect::ShowSelection];
            }
            return Vec::new();
        }
        if key == Key::Char('b') {
            let booking = match &self.state {
                State::Booking { booking_date, .. } => booking_date.is_some(),
                _ => false,
            };
            if booking && self.hold() {
                return vec![Effect::StopReading, Effect::BookTime];
            }
            return Vec::new();
        }
        match &mut self.state {
            State::Booking { date_selection_list, booking_date, extended_info } => {
                match booking_date {
                    Some(day) => {
                        match key {
                            Key::Char('+') => {
                                day.modify_selected_entry(300);
                            },
                            Key::Char('-') => {
                                day.modify_selected_entry(-300);
                            },
                            Key::Down => {
                                day.booking_list.next();
                            },
                            Key::Up => {
                                day.booking_list.previous();
                            },
                            Key::Char('e') => {
                                *extended_info = !*extended_info;
                            },
                            _ => {},
                        }
                    },
                    None => {
                        match key {
                            Key::Down => {
                                date_selection_list.next();
                            },
                            Key::Up => {
                                date_selection_list.previous();
                            },
                            Key::Enter => {
                                match date_selection_list.selected() {
                                    Some(date) => {
                                        return vec![
                                            Effect::ShowLoading,
                                            Effect::FetchBookings(*date),
                                        ];
                                    },
                                    None => {
                                        return vec![Effect::ShowLoading];
                                    },
                                }
                            },
                            _ => {},
                        }
                    },
                }
            },
            _ => {},
        }
        Vec::new()
    }

    /// What the device makes of the session.
    pub fn device_event(&mut self, event: DeviceEvent) -> (r: Vec<Effect>)
        requires
            old(self).wf(),
        ensures
            final(self).wf(),
            (final(self)@, r@) == old(self)@.on_device(event),
    {
        let paused = matches!(self.state, State::Paused);
        match event {
            DeviceEvent::DoubleTap { pause } => {
                if paused && !pause {
                    self.state = State::Selecting;
                    return vec![Effect::Attention(0), Effect::Attention(0)];
                }
                if !paused && pause {
                    self.state = State::Paused;
                    return vec![Effect::Attention(1), Effect::Attention(1)];
                }
            },
            DeviceEvent::Facet => {
                if paused {
                    self.state = State::Selecting;
                    return vec![Effect::Attention(0), Effect::Attention(0)];
                }
            },
            DeviceEvent::Other => {},
        }
        Vec::new()
    }

    /// What a second without any event does.
    pub fn quiet(&mut self) -> (r: Vec<Effect>)
        requires
            old(self).wf(),
        ensures
            final(self).wf(),
            (final(self)@, r@) == old(self)@.on_quiet(),
    {
        self.repetition_count = 0;
        if self.reading_keys {
            return Vec::new();
        }
        self.reading_keys = true;
        vec![Effect::StartReading]
    }

    /// Opens the bookings, to choose one of some days.
    pub fn open_booking(&mut self, dates: Vec<Date>)
        requires
            old(self).wf(),
            forall|i: int| 0 <= i < dates@.len() ==> (#[trigger] dates@[i]).valid(),
        ensures
            final(self).wf(),
            final(self)@ == (SessionModel {
                state: StateModel::Booking {
                    dates: dates@,
                    list: ListState { offset: 0, selected: Some(0) },
                    booking_date: None,
                    extended_info: false,
                },
                ..old(self)@
            }),
    {
        self.state =
        State::Booking {
            date_selection_list: StatefulList::with_items(dates, None),
            booking_date: None,
            extended_info: false,
        };
    }

    /// Shows the bookings of a day, rounded, and tells whether they could be rounded. If a length
    /// is too long for that, nothing changes.
    pub fn show_bookings(&mut self, day: BookingDate) -> (r: bool)
        requires
            old(self).wf(),
            old(self)@.state is Booking,
            day.wf(),
        ensures
            final(self).wf(),
            r == can_normalize(day@.bookings),
            final(self)@ == if r {
                old(self)@.with_bookings(day@.normalized())
            } else {
                old(self)@
            },
    {
        let mut day = day;
        if !day.can_be_normalized() {
            return false;
        }
        day.normalize_times();
        match &mut self.state {
            State::Booking { booking_date, .. } => {
                *booking_date = Some(day);
            },
            _ => {},
        }
        true
    }

    /// Merges what the device has logged since the last time.
    pub fn merge_history(&mut self, update: Vec<TimeEntry>) -> (r: Vec<Effect>)
        requires
            old(self).wf(),
            forall|i: int| 0 <= i < update@.len() ==> (#[trigger] update@[i]).wf(),
        ensures
            final(self).wf(),
            by_id(final(self)@.app.entries) == merged(by_id(old(self)@.app.entries), update@),
            final(self)@ == (SessionModel {
                app: (AppModel { entries: final(self)@.app.entries, ..old(self)@.app }).refreshed(),
                last_seen: greatest_id(old(self)@.last_seen, update@),
                ..old(self)@
            }),
            r@ == seq![Effect::ShowSelection],
    {
        self.last_seen = self.app.merge_history(self.last_seen, update);
        self.app.update_entry_list();
        vec![Effect::ShowSelection]
    }
}

/// Some keys of one kind, one after the other.
pub open spec fn after_keys(
    session: SessionModel,
    key: Key,
    times: nat,
    notes: Seq<Seq<char>>,
) -> SessionModel
    decreases times,
{
    if times == 0 {
        session
    } else {
        after_keys(session, key, (times - 1) as nat, notes).on_key(key, true, notes).0
    }
}

/// A pause that the device begins ends with the device: with its next double tap, or when it is
/// turned. Whatever went on before, an entry is selected then, and all else is as it was.
pub proof fn law_device_pause_ends(session: SessionModel)
    requires
        !(session.state is Paused),
    ensures
        ({
            let begun = session.on_device(DeviceEvent::DoubleTap { pause: true }).0;
            let tapped = begun.on_device(DeviceEvent::DoubleTap { pause: false }).0;
            let turned = begun.on_device(DeviceEvent::Facet).0;
            &&& begun == (SessionModel { state: StateModel::Paused, ..session })
            &&& tapped == (SessionModel { state: StateModel::Selecting, ..session })
            &&& turned == tapped
        }),
{
}

/// A pause needs the key to be held: as long as it has not been repeated often enough, only the
/// repetitions are counted. One more, and the pause begins.
pub proof fn law_pause_needs_hold(session: SessionModel, times: nat, notes: Seq<Seq<char>>)
    requires
        session.state is Selecting,
        session.repetition_count == 0,
        times <= HELD + 1,
    ensures
        after_keys(session, Key::Char('p'), times, notes) == (SessionModel {
            repetition_count: times,
            ..session
        }),
        after_keys(session, Key::Char('p'), (HELD + 2) as nat, notes) == (SessionModel {
            state: StateModel::Paused,
            reading_keys: false,
            ..session
        }),
    decreases times,
{
    if times > 0 {
        law_pause_needs_hold(session, (times - 1) as nat, notes);
    } else {
        lemma_counted(session, (HELD + 1) as nat, notes);
        assert(after_keys(session, Key::Char('p'), (HELD + 2) as nat, notes) == after_keys(
            session,
            Key::Char('p'),
            (HELD + 1) as nat,
            notes,
        ).on_key(Key::Char('p'), true, notes).0);
    }
}

proof fn lemma_counted(session: SessionModel, times: nat, notes: Seq<Seq<char>>)
    requires
        session.state is Selecting,
        session.repetition_count == 0,
        times <= HELD + 1,
    ensures
        after_keys(session, Key::Char('p'), times, notes) == (SessionModel {
            repetition_count: times,
            ..session
        }),
    decreases times,
{
    if times > 0 {
        lemma_counted(session, (times - 1) as nat, notes);
    }
}

/// What holding a key began does not end with the same hold: afterwards no key counts as held
/// until it has been repeated all over again.
pub proof fn law_hold_begins_anew(session: SessionModel, notes: Seq<Seq<char>>)
    requires
        session.state is Selecting,
        session.repetition_count > HELD,
    ensures
        ({
            let paused = session.on_key(Key::Char('p'), true, notes).0;
            &&& paused.state is Paused
            &&& paused.repetition_count == 0
            &&& !paused.reading_keys
            &&& paused.on_key(Key::Char('p'), true, notes).0.state is Paused
        }),
{
}

/// A second without any event makes all keys count from the start, and a further one changes
/// nothing and asks for nothing.
pub proof fn law_quiet_twice(session: SessionModel)
    ensures
        session.on_quiet().0.on_quiet() == (session.on_quiet().0, Seq::<Effect>::empty()),
        session.on_quiet().0.repetition_count == 0,
        session.on_quiet().0.reading_keys,
{
}

/// During a pause and among the bookings no key changes an entry.
pub proof fn law_entries_safe(session: SessionModel, key: Key, pressed: bool, notes: Seq<Seq<char>>)
    requires
        session.state is Paused || session.state is Booking,
    ensures
        session.on_key(key, pressed, notes).0.app == session.app,
        session.on_key(key, pressed, notes).0.last_seen == session.last_seen,
{
}

/// Nothing is booked but by holding the key for it before the bookings of a day.
pub proof fn law_books_only_held(
    session: SessionModel,
    key: Key,
    pressed: bool,
    notes: Seq<Seq<char>>,
)
    ensures
        session.on_key(key, pressed, notes).1.contains(Effect::BookTime) ==> {
            &&& session.state is Booking
            &&& session.state->booking_date is Some
            &&& key == Key::Char('b')
            &&& session.repetition_count > HELD
        },
{
    let effects = session.on_key(key, pressed, notes).1;
    if effects.contains(Effect::BookTime) {
        let i = choose|i: int| 0 <= i < effects.len() && effects[i] == Effect::BookTime;
        assert(effects[i] == Effect::BookTime);
    }
}

/// Editing and leaving it keeps the notes: they are shown of the entry that was selected, and
/// that entry is still selected.
pub proof fn law_edited_notes_kept(session: SessionModel, notes: Seq<Seq<char>>)
    requires
        session.app.wf(),
        session.state is Selecting,
        session.app.selected_id() is Some,
    ensures
        ({
            let editing = session.on_key(Key::Right, true, notes).0;
            let left = editing.on_key(Key::Esc, true, notes).0;
            &&& editing.state is Editing
            &&& left.state is Selecting
            &&& left.app.selected_id() == session.app.selected_id()
            &&& left.app.selected_lines() == notes
        }),
{
    law_notes_are_read_back(session.app, notes);
}

/// The program is left only from where an entry is selected, and the entries are saved first.
pub proof fn law_saved_before_quit(
    session: SessionModel,
    key: Key,
    pressed: bool,
    notes: Seq<Seq<char>>,
    i: int,
)
    requires
        0 <= i < session.on_key(key, pressed, notes).1.len(),
        session.on_key(key, pressed, notes).1[i] == Effect::Quit,
    ensures
        session.state is Selecting,
        0 < i,
        session.on_key(key, pressed, notes).1[i - 1] == Effect::Persist,
{
}

/// From one state of a list of `len` items to another: one item further down, and from the last
/// one to the first.
pub open spec fn one_down(from: ListState, to: ListState, len: nat) -> bool {
    &&& len == 0 ==> to.selected is None && to.offset == 0
    &&& len > 0 ==> to.selected is Some && to.offset == from.offset && match from.selected {
        Some(i) => to.selected->0 == if i + 1 < len {
            i + 1
        } else {
            0
        },
        None => to.selected->0 == 0,
    }
}

/// From one state of a list of `len` items to another: one item further up, and from the first
/// one to the last.
pub open spec fn one_up(from: ListState, to: ListState, len: nat) -> bool {
    &&& len == 0 ==> to.selected is None && to.offset == 0
    &&& len > 0 ==> to.selected is Some && to.offset == from.offset && match from.selected {
        Some(i) => to.selected->0 == if i > 0 {
            i - 1
        } else {
            len - 1
        },
        None => to.selected->0 == 0,
    }
}

/// While an entry is selected, the arrows go through the list and change nothing else.
pub proof fn law_arrows_on_list(session: SessionModel, notes: Seq<Seq<char>>)
    requires
        session.state is Selecting,
        session.app.items.len() <= usize::MAX,
    ensures
        ({
            let (down, shown) = session.on_key(Key::Down, true, notes);
            &&& one_down(session.app.state, down.app.state, session.app.items.len())
            &&& down == (SessionModel {
                app: AppModel { state: down.app.state, ..session.app },
                ..session
            })
            &&& shown == seq![Effect::ShowSelection]
        }),
        ({
            let (up, shown) = session.on_key(Key::Up, true, notes);
            &&& one_up(session.app.state, up.app.state, session.app.items.len())
            &&& up == (SessionModel {
                app: AppModel { state: up.app.state, ..session.app },
                ..session
            })
            &&& shown == seq![Effect::ShowSelection]
        }),
{
}

/// While an entry is selected, keys that go up do nothing, and neither do those without a
/// meaning, but that the notes are shown.
pub proof fn law_other_keys_on_list(session: SessionModel, key: Key, notes: Seq<Seq<char>>)
    requires
        session.state is Selecting,
    ensures
        session.on_key(key, false, notes) == (session, Seq::<Effect>::empty()),
        key is Esc || key is Enter || key is Other || (key matches Key::Char(c) && c != 'q' && c
            != 'p' && c != 'd' && c != 'b' && c != 't' && c != 's') ==> session.on_key(
            key,
            true,
            notes,
        ) == (session, seq![Effect::ShowSelection]),
        key is Right && session.app.selected_id() is None ==> session.on_key(key, true, notes) == (
            session,
            seq![Effect::ShowSelection],
        ),
{
}

/// While an entry is selected, each key that changes the entries or their list does what it is
/// for, and changes nothing else of the session.
pub proof fn law_keys_on_entries(session: SessionModel, notes: Seq<Seq<char>>)
    requires
        session.state is Selecting,
    ensures
        session.on_key(Key::Char('d'), true, notes) == (
            SessionModel { app: session.app.done_toggled(), ..session },
            seq![Effect::ShowSelection],
        ),
        session.on_key(Key::Delete, true, notes) == (
            SessionModel { app: session.app.done_deleted(), ..session },
            seq![Effect::ShowSelection],
        ),
        ({
            let (toggled, shown) = session.on_key(Key::Char('t'), true, notes);
            &&& toggled.app.show_invisible == !session.app.show_invisible
            &&& toggled.app.items == listed_ids(session.app.entries, !session.app.show_invisible)
            &&& toggled.app.entries == session.app.entries
            &&& toggled == (SessionModel { app: toggled.app, ..session })
            &&& shown == seq![Effect::ShowSelection]
        }),
{
}

/// While an entry is selected, the keys that ask for work outside change nothing by themselves:
/// the entries are saved before the history is read, and saved before the program is left.
pub proof fn law_keys_for_work(session: SessionModel, notes: Seq<Seq<char>>)
    requires
        session.state is Selecting,
    ensures
        session.on_key(Key::Char('q'), true, notes) == (
            session,
            seq![Effect::Attention(0), Effect::Attention(0), Effect::Persist, Effect::Quit],
        ),
        session.on_key(Key::Char('s'), true, notes) == (
            session,
            seq![Effect::Persist, Effect::ReadHistory],
        ),
        session.on_key(Key::Char('b'), true, notes) == (
            session,
            seq![Effect::ListDates, Effect::ShowBlank],
        ),
{
}

/// A pause that is held for lets the device pause, saves the entries, and asks for attention.
pub proof fn law_pause_pauses_device(session: SessionModel, notes: Seq<Seq<char>>)
    requires
        session.state is Selecting,
    ensures
        session.repetition_count <= 100 ==> session.on_key(Key::Char('p'), true, notes) == (
            SessionModel { repetition_count: session.repetition_count + 1, ..session },
            Seq::<Effect>::empty(),
        ),
        session.repetition_count > 100 ==> session.on_key(Key::Char('p'), true, notes) == (
            SessionModel {
                state: StateModel::Paused,
                repetition_count: 0,
                reading_keys: false,
                ..session
            },
            seq![
                Effect::StopReading,
                Effect::Attention(1),
                Effect::Attention(1),
                Effect::PauseDevice,
                Effect::Persist,
                Effect::ShowSelection,
            ],
        ),
{
}

/// During a pause only the held key does something: the device goes on and no attention is asked
/// for any more. Whether keys go down or up makes no difference.
pub proof fn law_keys_in_pause(session: SessionModel, key: Key, pressed: bool, notes: Seq<Seq<char>>)
    requires
        session.state is Paused,
    ensures
        key != Key::Char('p') ==> session.on_key(key, pressed, notes) == (
            session,
            Seq::<Effect>::empty(),
        ),
        session.repetition_count <= 100 ==> session.on_key(Key::Char('p'), pressed, notes) == (
            SessionModel { repetition_count: session.repetition_count + 1, ..session },
            Seq::<Effect>::empty(),
        ),
        session.repetition_count > 100 ==> session.on_key(Key::Char('p'), pressed, notes) == (
            SessionModel {
                state: StateModel::Selecting,
                repetition_count: 0,
                reading_keys: false,
                ..session
            },
            seq![
                Effect::StopReading,
                Effect::Attention(0),
                Effect::Attention(0),
                Effect::ResumeDevice,
            ],
        ),
{
}

/// Editing begins where an entry is selected. The notes take every key then but the one that ends
/// it, and nothing else changes meanwhile.
pub proof fn law_keys_in_notes(session: SessionModel, key: Key, pressed: bool, notes: Seq<Seq<char>>)
    ensures
        session.state is Selecting && session.app.selected_id() is Some ==> session.on_key(
            Key::Right,
            true,
            notes,
        ) == (
            SessionModel { state: StateModel::Editing, ..session },
            seq![Effect::WriteNotes(Tone::White), Effect::ShowSelection],
        ),
        session.state is Editing && key != Key::Esc ==> session.on_key(key, pressed, notes) == (
            session,
            seq![Effect::EditNotes],
        ),
        session.state is Editing ==> session.on_key(Key::Esc, pressed, notes) == (
            SessionModel {
                state: StateModel::Selecting,
                app: session.app.described(notes),
                ..session
            },
            seq![Effect::WriteNotes(Tone::Gray)],
        ),
{
}

/// The bookings are left for where an entry is selected, with its notes shown if there is one.
pub proof fn law_bookings_are_left(session: SessionModel, pressed: bool, notes: Seq<Seq<char>>)
    requires
        session.state is Booking,
    ensures
        ({
            let (left, effects) = session.on_key(Key::Esc, pressed, notes);
            &&& left == (SessionModel { state: StateModel::Selecting, ..session })
            &&& session.app.selected_id() is Some ==> effects == seq![Effect::ShowSelection]
            &&& session.app.selected_id() is None ==> effects == Seq::<Effect>::empty()
        }),
{
}

/// While a day is chosen, the arrows go through the days, and the bookings of the one that is
/// selected are fetched. All other keys do nothing.
pub proof fn law_keys_on_days(session: SessionModel, key: Key, pressed: bool, notes: Seq<Seq<char>>)
    requires
        session.state is Booking,
        session.state->booking_date is None,
        session.state->dates.len() <= usize::MAX,
        key != Key::Esc,
    ensures
        ({
            let (after, effects) = session.on_key(key, pressed, notes);
            let list = session.state->list;
            let dates = session.state->dates;
            &&& after.state is Booking
            &&& after == (SessionModel { state: after.state, ..session })
            &&& after.state->dates == dates
            &&& after.state->booking_date is None
            &&& after.state->extended_info == session.state->extended_info
            &&& key == Key::Down ==> one_down(list, after.state->list, dates.len())
            &&& key == Key::Up ==> one_up(list, after.state->list, dates.len())
            &&& key != Key::Down && key != Key::Up ==> after.state->list == list
            &&& key != Key::Enter ==> effects == Seq::<Effect>::empty()
            &&& key == Key::Enter && list.selected is Some && list.selected->0 < dates.len()
                ==> effects == seq![
                Effect::ShowLoading,
                Effect::FetchBookings(dates[list.selected->0 as int]),
            ]
            &&& key == Key::Enter && (list.selected is None || list.selected->0 >= dates.len())
                ==> effects == seq![Effect::ShowLoading]
        }),
{
}

/// Among the bookings of a day, the arrows go through them and nothing else changes.
pub proof fn law_arrows_on_bookings(session: SessionModel, pressed: bool, notes: Seq<Seq<char>>)
    requires
        session.state is Booking,
        session.state->booking_date is Some,
        session.state->booking_date->0.list.len() <= usize::MAX,
    ensures
        ({
            let day = session.state->booking_date->0;
            let (down, effects) = session.on_key(Key::Down, pressed, notes);
            let to = down.state->booking_date->0.state;
            &&& one_down(day.state, to, day.list.len())
            &&& down.state == (StateModel::Booking {
                dates: session.state->dates,
                list: session.state->list,
                booking_date: Some(DateModel { state: to, ..day }),
                extended_info: session.state->extended_info,
            })
            &&& down == (SessionModel { state: down.state, ..session })
            &&& effects == Seq::<Effect>::empty()
        }),
        ({
            let day = session.state->booking_date->0;
            let (up, effects) = session.on_key(Key::Up, pressed, notes);
            let to = up.state->booking_date->0.state;
            &&& one_up(day.state, to, day.list.len())
            &&& up.state == (StateModel::Booking {
                dates: session.state->dates,
                list: session.state->list,
                booking_date: Some(DateModel { state: to, ..day }),
                extended_info: session.state->extended_info,
            })
            &&& up == (SessionModel { state: up.state, ..session })
            &&& effects == Seq::<Effect>::empty()
        }),
{
}

/// Among the bookings of a day, one key books five minutes more on the selected one and another
/// five minutes less, exactly, as far as there are as many.
pub proof fn law_five_minutes(session: SessionModel, pressed: bool, notes: Seq<Seq<char>>)
    requires
        session.state is Booking,
        session.state->booking_date is Some,
        session.state->booking_date->0.wf(),
        session.state->booking_date->0.selected_key() matches Some(key) && key.bookable(),
    ensures
        ({
            let day = session.state->booking_date->0;
            let (more, effects) = session.on_key(Key::Char('+'), pressed, notes);
            let i = day.state.selected->0 as int;
            let before = day.bookings[i].1;
            let after = more.state->booking_date->0.bookings[i].1;
            let length = suggested_or_worked(before.suggested_duration, before.duration);
            &&& length + 300_000_000_000 <= u64::MAX * 1_000_000_000 + 999_999_999
                ==> after.suggested_duration == Some((length + 300_000_000_000) as nat)
            &&& more == (SessionModel { state: more.state, ..session })
            &&& more.state == (StateModel::Booking {
                dates: session.state->dates,
                list: session.state->list,
                booking_date: Some(day.selected_shifted(300)),
                extended_info: session.state->extended_info,
            })
            &&& effects == Seq::<Effect>::empty()
        }),
        ({
            let day = session.state->booking_date->0;
            let (less, effects) = session.on_key(Key::Char('-'), pressed, notes);
            let i = day.state.selected->0 as int;
            let before = day.bookings[i].1;
            let after = less.state->booking_date->0.bookings[i].1;
            let length = suggested_or_worked(before.suggested_duration, before.duration);
            &&& 300_000_000_000 <= length <= u64::MAX * 1_000_000_000 + 999_999_999
                ==> after.suggested_duration == Some((length - 300_000_000_000) as nat)
            &&& length < 300_000_000_000 ==> after.suggested_duration == Some(0nat)
            &&& less == (SessionModel { state: less.state, ..session })
            &&& less.state == (StateModel::Booking {
                dates: session.state->dates,
                list: session.state->list,
                booking_date: Some(day.selected_shifted(-300)),
                extended_info: session.state->extended_info,
            })
            &&& effects == Seq::<Effect>::empty()
        }),
{
    let day = session.state->booking_date->0;
    law_shift_changes_selected(day, 300);
    law_shift_changes_selected(day, -300);
}

/// Among the bookings of a day, more information is shown or not shown any more by one key,
/// booking needs another to be held, and keys without a meaning do nothing.
pub proof fn law_keys_on_bookings(
    session: SessionModel,
    key: Key,
    pressed: bool,
    notes: Seq<Seq<char>>,
)
    requires
        session.state is Booking,
        session.state->booking_date is Some,
    ensures
        session.on_key(Key::Char('e'), pressed, notes) == (
            SessionModel {
                state: StateModel::Booking {
                    dates: session.state->dates,
                    list: session.state->list,
                    booking_date: session.state->booking_date,
                    extended_info: !session.state->extended_info,
                },
                ..session
            },
            Seq::<Effect>::empty(),
        ),
        session.repetition_count <= 100 ==> session.on_key(Key::Char('b'), pressed, notes) == (
            SessionModel { repetition_count: session.repetition_count + 1, ..session },
            Seq::<Effect>::empty(),
        ),
        session.repetition_count > 100 ==> session.on_key(Key::Char('b'), pressed, notes) == (
            SessionModel { repetition_count: 0, reading_keys: false, ..session },
            seq![Effect::StopReading, Effect::BookTime],
        ),
        key is Enter || key is Right || key is Delete || key is Other || (key matches Key::Char(c)
            && c != '+' && c != '-' && c != 'e' && c != 'b') ==> session.on_key(key, pressed, notes)
            == (session, Seq::<Effect>::empty()),
{
}

/// The device begins a pause and ends it with its double taps, and ends it when it is turned; the
/// user's attention is asked for with a pause, and not after it. All else that it tells changes
/// nothing.
pub proof fn law_device(session: SessionModel, event: DeviceEvent)
    ensures
        ({
            let (after, effects) = session.on_device(event);
            let ends = session.state is Paused && (event is Facet || (
            event matches DeviceEvent::DoubleTap { pause } && !pause));
            let begins = !(session.state is Paused) && (
            event matches DeviceEvent::DoubleTap { pause } && pause);
            &&& ends ==> after == (SessionModel { state: StateModel::Selecting, ..session })
                && effects == seq![Effect::Attention(0), Effect::Attention(0)]
            &&& begins ==> after == (SessionModel { state: StateModel::Paused, ..session })
                && effects == seq![Effect::Attention(1), Effect::Attention(1)]
            &&& !ends && !begins ==> after == session && effects == Seq::<Effect>::empty()
        }),
{
}

/// A second without any event starts the reading of keys exactly if it was stopped, and changes
/// nothing but that and the count of repetitions.
pub proof fn law_quiet(session: SessionModel)
    ensures
        session.on_quiet().0 == (SessionModel { repetition_count: 0, reading_keys: true, ..session }),
        session.reading_keys ==> session.on_quiet().1 == Seq::<Effect>::empty(),
        !session.reading_keys ==> session.on_quiet().1 == seq![Effect::StartReading],
{
}

/// Other bookings of the day come in alone.
pub proof fn law_bookings_come_in(session: SessionModel, day: DateModel)
    requires
        session.state is Booking,
    ensures
        session.with_bookings(day) == (SessionModel {
            state: StateModel::Booking {
                dates: session.state->dates,
                list: session.state->list,
                booking_date: Some(day),
                extended_info: session.state->extended_info,
            },
            ..session
        }),
{
}

} // verus!
