use timekeeper::booking::{Booking, BookingDate, BookingType};
use timekeeper::calendar::{Date, Instant};
use timekeeper::duration::Duration;
use timekeeper::entries::{Facet, MyEntry, TimeEntry};
use timekeeper::session::{DeviceEvent, Effect, Key, Session, State, Tone, HELD};
use timekeeper::stateful_list::StatefulList;

fn logged(id: u32) -> TimeEntry {
    TimeEntry {
        id,
        facet: Facet { index: 0 },
        time: Instant { secs: 1_715_774_400, nanos: 0 },
        duration: Duration::from_secs(100),
    }
}

fn noted(id: u32) -> MyEntry {
    MyEntry {
        entry: logged(id),
        description: vec![format!("note {}", id)],
        visible: true,
        deleted: false,
    }
}

fn started() -> Session {
    Session::start(2, vec![noted(1), noted(2)])
}

fn press(session: &mut Session, key: Key) -> Vec<Effect> {
    session.key(key, true, &vec![])
}

fn date(day: u32) -> Date {
    Date { year: 2024, month: 5, day }
}

fn bookings() -> BookingDate {
    let booking = |n: u64| Booking {
        based_on_entries: vec![(1, 100)],
        duration: Duration::from_secs(n),
        suggested_duration: None,
    };
    let lines = vec![
        (BookingType::Jira("A-1".to_string()), booking(620)),
        (BookingType::Unknown(Facet { index: 0 }, false), booking(2_000)),
    ];
    let keys = lines.iter().map(|line| line.0.copy()).collect();
    BookingDate {
        date: date(15),
        total_duration: Duration::from_secs(2_620),
        actual_duration: None,
        jira_data: vec![],
        suggested_bookings: lines,
        booking_list: StatefulList::with_items(keys, None),
    }
}

fn among_bookings() -> Session {
    let mut session = started();
    session.open_booking(vec![date(14), date(15)]);
    assert!(session.show_bookings(bookings()));
    session
}

fn suggested(session: &Session) -> Vec<Option<Duration>> {
    match &session.state {
        State::Booking { booking_date: Some(day), .. } => {
            day.suggested_bookings.iter().map(|line| line.1.suggested_duration).collect()
        }
        _ => panic!("there are no bookings"),
    }
}

#[test]
fn session_starts_with_the_list() {
    let session = started();
    assert_eq!(session.app.items.items, vec![1, 2]);
    assert_eq!(session.last_seen, 2);
    assert!(session.reading_keys);
    assert!(matches!(session.state, State::Selecting));
}

#[test]
fn keys_are_described() {
    let mut session = started();
    assert_eq!(
        session.state.get_description(),
        "[↑/↓] Move, [→] Edit, [p] Pause, [d] Done, [t] Toggle Visibility, [s] Sync, [q] Quit"
    );
    session.state = State::Editing;
    assert_eq!(session.state.get_description(), "[Esc] Finish editing");
    session.state = State::Paused;
    assert_eq!(session.state.get_description(), "[p] Unpause");
    session.open_booking(vec![]);
    assert_eq!(session.state.get_description(), "[↑/↓] Move, [↵] Select, [Esc] Finish booking");
    assert_eq!(
        among_bookings().state.get_description(),
        "[↑/↓] Move, [+/-] In/Decrease time, [e] Toggle Information, [b] Book in Jira, [Esc] Finish booking"
    );
}

#[test]
fn quitting_saves_first() {
    let mut session = started();
    assert_eq!(
        press(&mut session, Key::Char('q')),
        vec![Effect::Attention(0), Effect::Attention(0), Effect::Persist, Effect::Quit]
    );
}

#[test]
fn keys_that_go_up_do_not_count() {
    let mut session = started();
    assert_eq!(session.key(Key::Char('q'), false, &vec![]), vec![]);
    assert_eq!(session.key(Key::Down, false, &vec![]), vec![]);
    assert_eq!(session.app.items.selected(), Some(&1));
}

#[test]
fn moving_and_marking() {
    let mut session = started();
    assert_eq!(press(&mut session, Key::Down), vec![Effect::ShowSelection]);
    assert_eq!(session.app.items.selected(), Some(&2));
    assert_eq!(press(&mut session, Key::Up), vec![Effect::ShowSelection]);
    assert_eq!(session.app.items.selected(), Some(&1));
    assert_eq!(press(&mut session, Key::Char('d')), vec![Effect::ShowSelection]);
    assert_eq!(session.app.items.items, vec![2]);
    assert_eq!(press(&mut session, Key::Char('t')), vec![Effect::ShowSelection]);
    assert_eq!(session.app.items.items, vec![1, 2]);
    press(&mut session, Key::Up);
    assert_eq!(session.app.items.selected(), Some(&1));
    assert_eq!(press(&mut session, Key::Delete), vec![Effect::ShowSelection]);
    assert_eq!(session.app.items.items, vec![2]);
    assert!(session.app.entries[0].deleted);
    assert_eq!(press(&mut session, Key::Other), vec![Effect::ShowSelection]);
}

#[test]
fn edited_notes_are_kept() {
    let mut session = started();
    assert_eq!(
        press(&mut session, Key::Right),
        vec![Effect::WriteNotes(Tone::White), Effect::ShowSelection]
    );
    assert!(matches!(session.state, State::Editing));
    assert_eq!(press(&mut session, Key::Char('q')), vec![Effect::EditNotes]);
    assert_eq!(session.key(Key::Enter, false, &vec![]), vec![Effect::EditNotes]);
    let notes = vec!["new".to_string(), "notes".to_string()];
    assert_eq!(
        session.key(Key::Esc, true, &notes),
        vec![Effect::WriteNotes(Tone::Gray)]
    );
    assert!(matches!(session.state, State::Selecting));
    assert_eq!(session.app.selected_description(), notes);
}

#[test]
fn nothing_to_edit_without_selection() {
    let mut session = Session::start(0, vec![]);
    assert_eq!(press(&mut session, Key::Right), vec![Effect::ShowSelection]);
    assert!(matches!(session.state, State::Selecting));
}

#[test]
fn pause_needs_the_key_held() {
    let mut session = started();
    for i in 0..HELD + 1 {
        assert_eq!(press(&mut session, Key::Char('p')), vec![]);
        assert_eq!(session.repetition_count, i + 1);
        assert!(matches!(session.state, State::Selecting));
    }
    assert_eq!(
        press(&mut session, Key::Char('p')),
        vec![
            Effect::StopReading,
            Effect::Attention(1),
            Effect::Attention(1),
            Effect::PauseDevice,
            Effect::Persist,
            Effect::ShowSelection,
        ]
    );
    assert!(matches!(session.state, State::Paused));
    assert_eq!(session.repetition_count, 0);
    assert!(!session.reading_keys);
    // the same hold does not end the pause
    assert_eq!(press(&mut session, Key::Char('p')), vec![]);
    assert!(matches!(session.state, State::Paused));
}

#[test]
fn pause_ends_with_the_key_held() {
    let mut session = started();
    session.state = State::Paused;
    assert_eq!(press(&mut session, Key::Char('q')), vec![]);
    for _ in 0..HELD + 1 {
        assert_eq!(session.key(Key::Char('p'), false, &vec![]), vec![]);
    }
    assert_eq!(
        press(&mut session, Key::Char('p')),
        vec![
            Effect::StopReading,
            Effect::Attention(0),
            Effect::Attention(0),
            Effect::ResumeDevice,
        ]
    );
    assert!(matches!(session.state, State::Selecting));
}

#[test]
fn quiet_second_starts_counting_anew() {
    let mut session = started();
    for _ in 0..50 {
        press(&mut session, Key::Char('p'));
    }
    assert_eq!(session.quiet(), vec![]);
    assert_eq!(session.repetition_count, 0);
    session.reading_keys = false;
    assert_eq!(session.quiet(), vec![Effect::StartReading]);
    assert!(session.reading_keys);
    assert_eq!(session.quiet(), vec![]);
}

#[test]
fn device_pauses_and_goes_on() {
    let mut session = started();
    assert_eq!(session.device_event(DeviceEvent::Facet), vec![]);
    assert_eq!(session.device_event(DeviceEvent::DoubleTap { pause: false }), vec![]);
    assert_eq!(
        session.device_event(DeviceEvent::DoubleTap { pause: true }),
        vec![Effect::Attention(1), Effect::Attention(1)]
    );
    assert!(matches!(session.state, State::Paused));
    assert_eq!(session.device_event(DeviceEvent::DoubleTap { pause: true }), vec![]);
    assert_eq!(session.device_event(DeviceEvent::Other), vec![]);
    assert_eq!(
        session.device_event(DeviceEvent::DoubleTap { pause: false }),
        vec![Effect::Attention(0), Effect::Attention(0)]
    );
    assert!(matches!(session.state, State::Selecting));
    session.state = State::Editing;
    session.device_event(DeviceEvent::DoubleTap { pause: true });
    assert_eq!(
        session.device_event(DeviceEvent::Facet),
        vec![Effect::Attention(0), Effect::Attention(0)]
    );
    assert!(matches!(session.state, State::Selecting));
}

#[test]
fn syncing_saves_reads_and_merges() {
    let mut session = started();
    press(&mut session, Key::Down);
    assert_eq!(
        press(&mut session, Key::Char('s')),
        vec![Effect::Persist, Effect::ReadHistory]
    );
    assert_eq!(session.merge_history(vec![logged(3), logged(2)]), vec![Effect::ShowSelection]);
    assert_eq!(session.last_seen, 3);
    assert_eq!(session.app.items.items, vec![1, 2, 3]);
    assert_eq!(session.app.items.selected(), Some(&2));
    assert_eq!(session.app.selected_description(), vec!["note 2".to_string()]);
}

#[test]
fn day_is_chosen() {
    let mut session = started();
    assert_eq!(
        press(&mut session, Key::Char('b')),
        vec![Effect::ListDates, Effect::ShowBlank]
    );
    session.open_booking(vec![date(14), date(15)]);
    assert_eq!(press(&mut session, Key::Down), vec![]);
    assert_eq!(
        press(&mut session, Key::Enter),
        vec![Effect::ShowLoading, Effect::FetchBookings(date(15))]
    );
    press(&mut session, Key::Up);
    assert_eq!(
        press(&mut session, Key::Enter),
        vec![Effect::ShowLoading, Effect::FetchBookings(date(14))]
    );
    assert_eq!(press(&mut session, Key::Char('b')), vec![]);
    assert_eq!(session.repetition_count, 0);
    session.open_booking(vec![]);
    assert_eq!(press(&mut session, Key::Enter), vec![Effect::ShowLoading]);
}

#[test]
fn bookings_are_shown_rounded_and_modified() {
    let mut session = among_bookings();
    let secs = Duration::from_secs;
    assert_eq!(suggested(&session), vec![Some(secs(600)), Some(secs(2_020))]);
    assert_eq!(press(&mut session, Key::Char('+')), vec![]);
    assert_eq!(suggested(&session), vec![Some(secs(900)), Some(secs(1_720))]);
    assert_eq!(press(&mut session, Key::Char('-')), vec![]);
    assert_eq!(suggested(&session), vec![Some(secs(600)), Some(secs(2_020))]);
    press(&mut session, Key::Down);
    press(&mut session, Key::Char('+'));
    assert_eq!(suggested(&session), vec![Some(secs(600)), Some(secs(2_020))]);
    press(&mut session, Key::Up);
    press(&mut session, Key::Char('e'));
    match &session.state {
        State::Booking { extended_info, booking_date: Some(day), .. } => {
            assert!(*extended_info);
            assert_eq!(day.booking_list.state.selected, Some(0));
        }
        _ => panic!("there are no bookings"),
    }
}

#[test]
fn booking_needs_the_key_held() {
    let mut session = among_bookings();
    for _ in 0..HELD + 1 {
        assert_eq!(press(&mut session, Key::Char('b')), vec![]);
    }
    assert_eq!(
        press(&mut session, Key::Char('b')),
        vec![Effect::StopReading, Effect::BookTime]
    );
    assert_eq!(session.repetition_count, 0);
    assert!(!session.reading_keys);
    assert_eq!(suggested(&session).len(), 2);
}

#[test]
fn leaving_the_bookings_keeps_the_entries() {
    let mut session = among_bookings();
    press(&mut session, Key::Char('d'));
    press(&mut session, Key::Delete);
    assert!(session.app.entries[0].visible);
    assert_eq!(press(&mut session, Key::Esc), vec![Effect::ShowSelection]);
    assert!(matches!(session.state, State::Selecting));
    let mut empty = Session::start(0, vec![]);
    empty.open_booking(vec![]);
    assert_eq!(press(&mut empty, Key::Esc), vec![]);
}

#[test]
fn bookings_that_are_too_long_are_not_shown() {
    let mut session = started();
    session.open_booking(vec![date(15)]);
    let mut day = bookings();
    day.suggested_bookings[0].1.duration = Duration::from_secs(u64::MAX);
    assert!(!session.show_bookings(day));
    assert!(matches!(session.state, State::Booking { booking_date: None, .. }));
}
