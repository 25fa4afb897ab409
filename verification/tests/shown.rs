use ratatui::layout::{Constraint, Layout};
use timekeeper::app::App;
use timekeeper::booker::{Entry, Fields};
use timekeeper::booking::{Booking, BookingDate, BookingType};
use timekeeper::booking_view::{
    booking_lines, day_header, detail_line, issue_line, side_line, side_notes, widest_label,
};
use timekeeper::calendar::{Date, Instant, LocalText, MAX_SECS, MIN_SECS};
use timekeeper::config::{facet_name, longest_facet_name, text_bytes, Config, Side};
use timekeeper::duration::Duration;
use timekeeper::entries::{Facet, MyEntry, TimeEntry};
use timekeeper::layout::{
    booking_areas, centered_parts, centered_rect, entry_areas, popup_areas, progress_areas,
    progress_rows, screen_areas, Part, Rect,
};
use timekeeper::session::{State, Tone};
use timekeeper::stateful_list::StatefulList;
use timekeeper::views::{
    cursor_shown, entry_line, entry_lines, entry_times, hold_label, list_tone, selected_tab,
};

fn config() -> Config {
    let side = |index: u8, name: Option<&str>| Side {
        facet: Facet { index },
        name: name.map(|n| n.to_string()),
    };
    Config {
        sides: vec![side(0, Some("Büro")), side(1, None), side(2, Some("Pause"))],
        labels: vec!["Facet 1".to_string(), "Facet 2".to_string(), "Facet 3".to_string()],
    }
}

fn entry(id: u32, facet: u8, secs: u64, notes: &[&str]) -> MyEntry {
    MyEntry {
        entry: TimeEntry {
            id,
            facet: Facet { index: facet },
            time: Instant { secs: 1_715_774_400, nanos: 0 },
            duration: Duration::from_secs(secs),
        },
        description: notes.iter().map(|n| n.to_string()).collect(),
        visible: true,
        deleted: false,
    }
}

fn time(hour: u32, minute: u32) -> LocalText {
    LocalText {
        day_month: "15.05".to_string(),
        hour_minute: format!("{:02}:{:02}", hour, minute),
    }
}

fn local(secs: i64, pattern: &str) -> String {
    chrono::DateTime::<chrono::Utc>::from_timestamp(secs, 0)
        .unwrap()
        .with_timezone(&chrono::Local)
        .format(pattern)
        .to_string()
}

fn day() -> BookingDate {
    let lines = vec![
        (
            BookingType::Jira("PROJECT-1".to_string()),
            Booking {
                based_on_entries: vec![(1, 50), (2, 100)],
                duration: Duration::from_secs(3_600),
                suggested_duration: None,
            },
        ),
        (
            BookingType::Unknown(Facet { index: 0 }, true),
            Booking {
                based_on_entries: vec![(1, 100)],
                duration: Duration::from_secs(60),
                suggested_duration: Some(Duration::from_secs(300)),
            },
        ),
        (
            BookingType::Unknown(Facet { index: 2 }, false),
            Booking {
                based_on_entries: vec![(1, 100), (2, 100), (3, 100)],
                duration: Duration::from_secs(7_200),
                suggested_duration: None,
            },
        ),
    ];
    let keys = lines.iter().map(|line| line.0.copy()).collect();
    BookingDate {
        date: Date { year: 2024, month: 5, day: 15 },
        total_duration: Duration::from_secs(10_860),
        actual_duration: None,
        jira_data: vec![Entry {
            key: "PROJECT-1".to_string(),
            fields: Fields { summary: "Do it".to_string() },
        }],
        suggested_bookings: lines,
        booking_list: StatefulList::with_items(keys, None),
    }
}

fn app() -> App {
    App::new_from_entries(vec![
        entry(1, 0, 7_200, &["a", "b"]),
        entry(2, 0, 60, &[]),
        entry(3, 2, 90, &["c"]),
    ])
}

#[test]
fn facets_have_names() {
    let c = config();
    assert_eq!(facet_name(&Facet { index: 0 }, &c), "Büro");
    assert_eq!(facet_name(&Facet { index: 1 }, &c), "Facet 2");
    assert_eq!(longest_facet_name(&c), 7);
    assert_eq!(longest_facet_name(&Config { sides: vec![], labels: vec![] }), 0);
    // lengths are counted in bytes
    assert_eq!(text_bytes("Büro"), 5);
}

#[test]
fn hold_is_shown_below_the_limit() {
    assert_eq!(hold_label(0), None);
    assert_eq!(hold_label(1), Some("Hold button 1%".to_string()));
    assert_eq!(hold_label(99), Some("Hold button 99%".to_string()));
    assert_eq!(hold_label(100), None);
}

#[test]
fn state_decides_on_tones_and_tabs() {
    assert_eq!(list_tone(&State::Selecting), Tone::White);
    assert_eq!(list_tone(&State::Editing), Tone::Gray);
    assert_eq!(list_tone(&State::Paused), Tone::Gray);
    assert!(cursor_shown(&State::Editing));
    assert!(!cursor_shown(&State::Selecting));
    assert_eq!(selected_tab(&State::Paused), 0);
    let booking = State::Booking {
        date_selection_list: StatefulList::with_items(vec![], None),
        booking_date: None,
        extended_info: false,
    };
    assert_eq!(selected_tab(&booking), 1);
}

#[test]
fn entry_is_shown_on_a_line() {
    let mut e = entry(1, 0, 3_723, &[]);
    assert_eq!(
        entry_line(&e, "Büro", 7, false, &time(9, 5), &time(10, 7)),
        "Büro    15.05  01:02:03  09:05-10:07"
    );
    assert_eq!(
        entry_line(&e, "Büro", 2, true, &time(9, 5), &time(10, 7)),
        "Büro 15.05  01:02:03  09:05-10:07 [*]"
    );
    e.visible = false;
    assert_eq!(
        entry_line(&e, "", 0, true, &time(0, 0), &time(23, 59)),
        " 15.05  01:02:03  00:00-23:59 [ ]"
    );
}

#[test]
fn listed_entries_are_shown_in_local_time() {
    let lines = entry_lines(&app(), &config()).unwrap();
    assert_eq!(lines.len(), 3);
    let start: i64 = 1_715_774_400;
    assert_eq!(
        lines[2],
        format!(
            "Pause   {}  00:01:30  {}-{}",
            local(start, "%d.%m"),
            local(start, "%H:%M"),
            local(start + 90, "%H:%M")
        )
    );
}

#[test]
fn entries_that_cannot_be_shown() {
    let mut unknown = app();
    unknown.entries[0].entry.facet.index = 9;
    assert!(entry_lines(&unknown, &config()).is_none());
    let mut late = app();
    late.entries[0].entry.time.secs = MAX_SECS;
    assert!(entry_lines(&late, &config()).is_none());
    assert!(entry_times(&late.entries[0].entry).is_none());
    let mut long = app();
    long.entries[0].entry.duration = Duration::from_secs(u64::MAX);
    assert!(entry_lines(&long, &config()).is_none());
    // what is not listed does not matter
    late.items.items = vec![2, 3];
    assert_eq!(entry_lines(&late, &config()).unwrap().len(), 2);
}

#[test]
fn entries_at_the_ends_of_the_calendar_are_shown() {
    for start in [MIN_SECS, MAX_SECS - 1_000, MAX_SECS - 31] {
        let mut e = entry(1, 2, 31, &[]);
        e.entry.time.secs = start;
        let (from, to) = entry_times(&e.entry).unwrap();
        assert_eq!(from.day_month, local(start, "%d.%m"));
        assert_eq!(from.hour_minute, local(start, "%H:%M"));
        assert_eq!(to.hour_minute, local(start + 31, "%H:%M"));
        let lines = entry_lines(&App::new_from_entries(vec![e]), &config()).unwrap();
        assert_eq!(
            lines,
            vec![format!(
                "Pause   {}  00:00:31  {}-{}",
                from.day_month, from.hour_minute, to.hour_minute
            )]
        );
    }
    let mut late = app();
    late.entries[0].entry.time.secs = MAX_SECS - 7_200;
    let lines = booking_lines(&late, &day(), &config(), true).unwrap();
    assert_eq!(lines.len(), 3);
    assert!(!late.can_tell_days());
}

#[test]
fn labels_are_as_wide_as_the_widest() {
    assert_eq!(widest_label(&day(), &config()), Some(9));
    let mut d = day();
    d.suggested_bookings.remove(0);
    d.booking_list.items.remove(0);
    assert_eq!(widest_label(&d, &config()), Some(6));
    let none = Config { sides: vec![], labels: vec![] };
    assert_eq!(widest_label(&d, &none), None);
}

#[test]
fn issue_is_shown_with_its_summary() {
    let hour = Duration::from_secs(3_600);
    assert_eq!(issue_line("A-1", &hour, Some("Do it"), 5), "A-1   01:00:00  Do it");
    assert_eq!(issue_line("A-1", &hour, None, 2), "A-1 01:00:00 ");
}

#[test]
fn details_show_the_part_of_an_entry() {
    let e = entry(1, 0, 7_200, &["a", "b"]);
    assert_eq!(
        detail_line(&e, 33, 8, &time(9, 5), &time(11, 5)),
        Some("   09:05-11:05 (33% = 00:39:36): a b".to_string())
    );
    let long = entry(1, 0, u64::MAX, &[]);
    assert_eq!(detail_line(&long, 2, 8, &time(9, 5), &time(11, 5)), None);
    assert!(detail_line(&long, 1, 8, &time(9, 5), &time(11, 5)).is_some());
}

#[test]
fn side_is_shown_with_notes() {
    let notes = vec!["<a|b>".to_string(), "<c>".to_string()];
    let minute = Duration::from_secs(60);
    assert_eq!(side_line("Pause", true, &minute, &notes, 7), "Pause   00:01:00 (<a|b> <c>)\n");
    assert_eq!(side_line("Pause", false, &minute, &vec![], 7), "_Pause  00:01:00 ()\n");
    assert_eq!(
        side_notes(&app(), &vec![(1, 100), (2, 100), (3, 100)]),
        Some(notes)
    );
    assert_eq!(side_notes(&app(), &vec![(77, 100)]), None);
}

#[test]
fn day_is_summed_up() {
    let mut d = day();
    assert_eq!(
        day_header(&d).unwrap(),
        "Date: 15.05.2024\nTotal duration: 03:01:00 (==03:05:00==) (01:00:00 booked)"
    );
    d.actual_duration = Some(Duration::from_secs(61));
    assert_eq!(
        day_header(&d).unwrap(),
        "Date: 15.05.2024\nTotal duration: 03:01:00 (==03:05:00==) (01:00:00 booked) Actual time: 00:01:01"
    );
    d.suggested_bookings[0].1.duration = Duration::from_secs(u64::MAX);
    assert_eq!(day_header(&d), None);
}

#[test]
fn bookings_are_shown_line_by_line() {
    let lines = booking_lines(&app(), &day(), &config(), false).unwrap();
    assert_eq!(lines.len(), 3);
    assert_eq!(lines[0].text, "PROJECT-1 01:00:00  Do it");
    assert_eq!(lines[0].details, None);
    assert_eq!(lines[1].text, "Büro      00:05:00 (<a|b>)\n");
    assert_eq!(lines[2].text, "_Pause    02:00:00 (<a|b> <c>)\n");
}

#[test]
fn bookings_are_shown_with_details() {
    let lines = booking_lines(&app(), &day(), &config(), true).unwrap();
    let start: i64 = 1_715_774_400;
    let width: usize = 29;
    assert_eq!(
        lines[0].details,
        Some(format!(
            "{:>width$}-{} (50% = 01:00:00): a b\n{:>width$}-{} (100% = 00:01:00): ",
            local(start, "%H:%M"),
            local(start + 7_200, "%H:%M"),
            local(start, "%H:%M"),
            local(start + 60, "%H:%M"),
            width = width
        ))
    );
    assert_eq!(lines[1].details, None);
}

#[test]
fn bookings_that_cannot_be_shown() {
    let mut d = day();
    d.suggested_bookings[0].1.based_on_entries.push((77, 100));
    // an issue needs its entries only for the details
    assert!(booking_lines(&app(), &d, &config(), false).is_some());
    assert!(booking_lines(&app(), &d, &config(), true).is_none());
    let mut d = day();
    d.suggested_bookings[1].1.based_on_entries.push((77, 100));
    assert!(booking_lines(&app(), &d, &config(), false).is_none());
    let small = Config { sides: vec![], labels: vec![] };
    assert!(booking_lines(&app(), &day(), &small, false).is_none());
}

fn within(piece: Rect, area: Rect) -> bool {
    area.x <= piece.x
        && piece.x + piece.width <= area.x + area.width
        && area.y <= piece.y
        && piece.y + piece.height <= area.y + area.height
}

const SCREEN: Rect = Rect { x: 0, y: 0, width: 100, height: 40 };

#[test]
fn middle_has_its_share() {
    assert_eq!(
        centered_parts(60),
        vec![Part::Percentage(20), Part::Percentage(60), Part::Percentage(20)]
    );
    assert_eq!(
        centered_parts(25),
        vec![Part::Percentage(37), Part::Percentage(25), Part::Percentage(37)]
    );
    let piece = centered_rect(60, 50, SCREEN);
    assert_eq!(piece, Rect { x: 20, y: 10, width: 60, height: 20 });
    assert!(within(piece, SCREEN));
}

#[test]
fn middle_is_rounded_to_whole_cells() {
    let area = Rect { x: 3, y: 7, width: 83, height: 23 };
    // 16.6 to 66.4 across, 8.51 to 14.26 down
    assert_eq!(centered_rect(60, 25, area), Rect { x: 20, y: 16, width: 49, height: 5 });
    // borders at 2.5 and 7.5 go up
    let area = Rect { x: 0, y: 0, width: 10, height: 10 };
    assert_eq!(centered_rect(50, 100, area), Rect { x: 3, y: 0, width: 5, height: 10 });
    assert_eq!(centered_rect(0, 0, area), Rect { x: 5, y: 5, width: 0, height: 0 });
    // what lies beyond the last column does not count
    let edge = Rect { x: 65_500, y: 0, width: 100, height: 10 };
    assert_eq!(centered_rect(60, 50, edge), Rect { x: 65_507, y: 3, width: 21, height: 5 });
}

#[test]
fn middle_is_a_share_of_every_area() {
    let share = |len: u32, percent: u32| (len * percent + 50) / 100;
    for percent in [0u16, 1, 2, 25, 33, 50, 60, 67, 99, 100] {
        for len in [0u16, 1, 2, 3, 7, 24, 50, 80, 99, 101, 211, 9_999, 65_535] {
            let area = Rect { x: 0, y: 0, width: len, height: len };
            let piece = centered_rect(percent, percent, area);
            let (side, len) = ((100 - percent as u32) / 2, len as u32);
            let (from, to) = (share(len, side), share(len, side + percent as u32));
            assert_eq!((piece.x as u32, piece.width as u32), (from, to - from));
            assert_eq!((piece.y as u32, piece.height as u32), (from, to - from));
        }
    }
}

#[test]
fn screen_is_cut() {
    let areas = screen_areas(SCREEN);
    assert_eq!(areas.title, Rect { x: 0, y: 0, width: 55, height: 1 });
    assert_eq!(areas.tabs, Rect { x: 55, y: 0, width: 45, height: 1 });
    assert_eq!(areas.body, Rect { x: 0, y: 2, width: 100, height: 37 });
    assert_eq!(areas.keys, Rect { x: 0, y: 39, width: 100, height: 1 });
    let entries = entry_areas(areas.body);
    assert_eq!(entries.list, Rect { x: 0, y: 2, width: 50, height: 36 });
    assert_eq!(entries.notes, Rect { x: 50, y: 2, width: 50, height: 36 });
    assert_eq!(entries.hold, Rect { x: 0, y: 38, width: 100, height: 1 });
    let bookings = booking_areas(areas.body);
    assert_eq!(bookings.day, Rect { x: 0, y: 2, width: 100, height: 2 });
    assert_eq!(bookings.list, Rect { x: 0, y: 5, width: 100, height: 33 });
    assert_eq!(bookings.hold, Rect { x: 0, y: 38, width: 100, height: 1 });
}

#[test]
fn screens_of_all_sizes_are_cut() {
    for size in [0u16, 1, 2, 3, 4, 5, 6, 9, 24, 44, 45, 46, 80, 133, 65_535] {
        let screen = Rect { x: 0, y: 0, width: size, height: size };
        let s = screen_areas(screen);
        assert!(s.title.x + s.title.width <= s.tabs.x);
        assert!(s.title.y + s.title.height <= s.body.y);
        assert!(s.body.y + s.body.height <= s.keys.y);
        for piece in [s.title, s.tabs, s.body, s.keys] {
            assert!(within(piece, screen));
        }
        let tabs = size.min(45);
        assert_eq!((s.title.x, s.title.width), (0, size - tabs));
        assert_eq!((s.tabs.x, s.tabs.width), (size - tabs, tabs));
        if size >= 3 {
            assert_eq!((s.title.y, s.title.height), (0, 1));
            assert_eq!((s.body.y, s.body.height), (2, size - 3));
            assert_eq!((s.keys.y, s.keys.height), (size - 1, 1));
        }
        let e = entry_areas(screen);
        let half = ((size as u32 * 50 + 50) / 100) as u16;
        assert_eq!((e.list.x, e.list.width), (0, half));
        assert_eq!((e.notes.x, e.notes.width), (half, size - half));
        assert!(e.list.y + e.list.height <= e.hold.y);
        let hold = if size >= 2 { 1 } else { 0 };
        assert_eq!((e.list.y, e.list.height), (0, size - hold));
        assert_eq!((e.hold.y, e.hold.height), (size - hold, hold));
        let b = booking_areas(screen);
        assert!(b.day.y + b.day.height <= b.list.y);
        assert!(b.list.y + b.list.height <= b.hold.y);
        if size >= 5 {
            assert_eq!((b.day.y, b.day.height), (0, 2));
            assert_eq!((b.list.y, b.list.height), (3, size - 4));
            assert_eq!((b.hold.y, b.hold.height), (size - 1, 1));
        }
        let middle = centered_rect(60, 25, screen);
        for lines in [0u16, 1, 3, 7, 40] {
            let p = progress_areas(screen, lines);
            assert_eq!((p.title.x, p.title.width), (middle.x, middle.width));
            assert!(within(p.title, middle) && within(p.content, middle));
            assert!(p.title.y + p.title.height <= p.content.y);
            let title = middle.height.min(1);
            let content = lines.min(middle.height - title);
            assert_eq!((p.title.y, p.title.height), (middle.y, title));
            assert_eq!((p.content.y, p.content.height), (middle.y + title, content));
        }
        let p = popup_areas(screen);
        let title = middle.height.min(1);
        assert_eq!((p.title.y, p.title.height), (middle.y, title));
        assert_eq!((p.content.y, p.content.height), (middle.y + title, middle.height - title));
    }
    let edge = Rect { x: 65_450, y: 65_530, width: 100, height: 100 };
    let s = screen_areas(edge);
    assert_eq!((s.tabs.x, s.tabs.width), (65_490, 45));
    assert_eq!((s.keys.y, s.keys.height), (65_534, 1));
}

#[test]
fn two_parts_share_what_room_there_is() {
    let cut = |parts: [Constraint; 2], len: u16| {
        let area = ratatui::layout::Rect { x: 7, y: 0, width: len, height: 1 };
        let pieces = Layout::new(ratatui::layout::Direction::Horizontal, parts).split(area);
        assert_eq!((pieces[0].x, pieces[1].x), (7, 7 + pieces[0].width));
        assert_eq!(pieces[1].width, len - pieces[0].width);
        pieces[0].width
    };
    for a in [0u16, 1, 2, 5, 9, 30] {
        for b in [0u16, 1, 3, 8, 40] {
            for len in (0..a + b).step_by(3).chain([a + b].iter().map(|n| n.saturating_sub(1))) {
                if a + b <= len {
                    continue;
                }
                let twice = len.clamp(2 * (len - b.min(len)), 2 * a.min(len));
                assert_eq!(cut([Constraint::Length(a), Constraint::Length(b)], len), (twice + 1) / 2);
                assert_eq!(cut([Constraint::Min(a), Constraint::Length(b)], len), a.min(len));
                assert_eq!(cut([Constraint::Length(a), Constraint::Min(b)], len), len - b.min(len));
            }
        }
    }
}

#[test]
fn windows_stay_on_the_screen() {
    let popup = popup_areas(SCREEN);
    assert!(within(popup.title, SCREEN) && within(popup.content, SCREEN));
    assert_eq!(popup.title.width, 60);
    assert_eq!(popup.title.height, 1);
    let progress = progress_areas(SCREEN, 3);
    assert_eq!(progress.content.height, 3);
    assert_eq!(progress.content.y, progress.title.y + 1);
    assert_eq!(progress_rows(3), vec![Part::Length(1), Part::Length(3)]);
    let tiny = Rect { x: 5, y: 5, width: 1, height: 1 };
    assert!(within(popup_areas(tiny).content, tiny));
    assert!(within(screen_areas(tiny).body, tiny));
}
