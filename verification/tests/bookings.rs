use timekeeper::app::App;
use timekeeper::booker::{Entry, Fields};
use timekeeper::booking::{Booking, BookingDate, BookingType};
use timekeeper::calendar::{Date, Instant};
use timekeeper::config::{find_side, sides_additional_info, ParsedSide, SideAdditionalInfo};
use timekeeper::duration::Duration;
use timekeeper::entries::{Facet, MyEntry, TimeEntry};
use timekeeper::patterns::{issue_keys, matching_summaries};
use timekeeper::stateful_list::StatefulList;
use timekeeper::suggestions::{
    accumulate, add_entry, draft_bookings, find_matching_issue, finish_bookings, first_match,
    get_bookings_for_date, named_bookings, unnamed_booking, BookingError, BookingRules, Draft,
};

fn day() -> Date {
    Date { year: 2024, month: 5, day: 15 }
}

fn secs(n: u64) -> Duration {
    Duration::from_secs(n)
}

fn booking(length: Duration) -> Booking {
    Booking { based_on_entries: vec![(1, 100)], duration: length, suggested_duration: None }
}

fn jira(key: &str) -> BookingType {
    BookingType::Jira(key.to_string())
}

fn side(index: u8, bookable: bool) -> BookingType {
    BookingType::Unknown(Facet { index }, bookable)
}

fn name(key: &BookingType) -> String {
    match key {
        BookingType::Jira(issue) => issue.clone(),
        BookingType::Unknown(facet, bookable) => format!("{}/{}", facet.index, bookable),
    }
}

fn day_of(lines: Vec<(BookingType, Booking)>) -> BookingDate {
    let keys = lines.iter().map(|line| line.0.copy()).collect();
    BookingDate {
        date: day(),
        total_duration: secs(0),
        actual_duration: None,
        jira_data: vec![],
        suggested_bookings: lines,
        booking_list: StatefulList::with_items(keys, None),
    }
}

fn suggested(date: &BookingDate) -> Vec<Option<Duration>> {
    date.suggested_bookings.iter().map(|line| line.1.suggested_duration).collect()
}

fn issue(key: &str, summary: &str) -> Entry {
    Entry { key: key.to_string(), fields: Fields { summary: summary.to_string() } }
}

fn entry(id: u32, facet: u8, length: u64, notes: &[&str]) -> MyEntry {
    MyEntry {
        entry: TimeEntry {
            id,
            facet: Facet { index: facet },
            time: Instant { secs: 1_715_774_400, nanos: 0 },
            duration: secs(length),
        },
        description: notes.iter().map(|n| n.to_string()).collect(),
        visible: true,
        deleted: false,
    }
}

fn rules() -> BookingRules {
    BookingRules {
        booker_issue_regex: "PROJECT\\-[0-9]+".to_string(),
        sides_additional_info: vec![
            SideAdditionalInfo {
                facet: Facet { index: 1 },
                jira_summary_regex: Some("Meetings".to_string()),
                bookable: true,
            },
            SideAdditionalInfo {
                facet: Facet { index: 2 },
                jira_summary_regex: None,
                bookable: false,
            },
        ],
    }
}

#[test]
fn issues_come_before_sides() {
    let order = [jira("A-1"), jira("A-2"), jira("B-1"), side(0, false), side(0, true), side(1, false)];
    for (i, a) in order.iter().enumerate() {
        for (j, b) in order.iter().enumerate() {
            assert_eq!(a.is_before(b), i < j);
        }
    }
    assert!(jira("A").bookable());
    assert!(side(0, true).bookable());
    assert!(!side(0, false).bookable());
}

#[test]
fn rounding_goes_up_to_five_minutes() {
    for (worked, rounded, away) in [
        (0, 0, 0),
        (59, 0, 59),
        (60, 300, -240),
        (299, 300, -1),
        (300, 300, 0),
        (359, 300, 59),
        (360, 600, -240),
        (7_261, 7_500, -239),
    ] {
        let mut b = booking(Duration::new(worked, 5));
        assert_eq!(b.normalize(), away);
        assert_eq!(b.suggested_duration, Some(secs(rounded)));
        assert_eq!(b.effective(), secs(rounded));
        assert_eq!(b.duration, Duration::new(worked, 5));
    }
}

#[test]
fn modifying_adds_and_takes_away() {
    let mut b = booking(secs(1_000));
    b.modify(300, true);
    assert_eq!(b.suggested_duration, Some(secs(1_300)));
    b.modify(-400, true);
    assert_eq!(b.suggested_duration, Some(secs(900)));
    b.modify(50, false);
    assert_eq!(b.suggested_duration, Some(secs(1_050)));
    b.modify(0, true);
    assert_eq!(b.suggested_duration, Some(secs(1_050)));
    // less than nothing is no suggestion
    b.modify(-2_000, true);
    assert_eq!(b.suggested_duration, None);
    assert_eq!(b.effective(), secs(1_000));
    let mut b = booking(Duration::from_secs(u64::MAX));
    b.modify(1, true);
    assert_eq!(b.suggested_duration, None);
}

#[test]
fn unbookable_side_makes_up_for_rounding() {
    let mut d = day_of(vec![
        (jira("A-1"), booking(secs(620))),
        (jira("A-2"), booking(secs(310))),
        (side(0, false), booking(secs(2_000))),
        (side(1, false), booking(secs(5_000))),
    ]);
    assert!(d.can_be_normalized());
    d.normalize_times();
    // 620 -> 600 (ten minutes), 310 -> 300; thirty seconds go to the first side
    assert_eq!(
        suggested(&d),
        vec![Some(secs(600)), Some(secs(300)), Some(secs(2_030)), None]
    );
    let total: u64 = d.suggested_bookings.iter().map(|line| line.1.effective().secs).sum();
    assert_eq!(total, 620 + 310 + 2_000 + 5_000);
}

#[test]
fn side_must_have_more_than_what_is_taken() {
    let lines = || vec![
        (jira("A-1"), booking(secs(60))),
        (side(0, false), booking(secs(240))),
        (side(1, false), booking(secs(241))),
    ];
    let mut d = day_of(lines());
    d.normalize_times();
    assert_eq!(suggested(&d), vec![Some(secs(300)), None, Some(secs(1))]);
    let mut d = day_of(vec![(jira("A-1"), booking(secs(60))), (side(0, true), booking(secs(999)))]);
    d.normalize_times();
    // a side on which time is booked is rounded itself and takes nothing
    assert_eq!(suggested(&d), vec![Some(secs(300)), Some(secs(1_200))]);
}

#[test]
fn too_long_bookings_cannot_be_rounded() {
    assert!(!day_of(vec![(jira("A"), booking(secs(u64::MAX)))]).can_be_normalized());
    assert!(!day_of(vec![(jira("A"), booking(secs(9_223_372_036_854_775)))]).can_be_normalized());
    assert!(day_of(vec![(jira("A"), booking(secs(9_223_372_036_854_600)))]).can_be_normalized());
    assert!(day_of(vec![(side(0, false), booking(secs(u64::MAX)))]).can_be_normalized());
    assert!(day_of(vec![]).can_be_normalized());
}

#[test]
fn more_on_the_selected_is_less_on_the_side() {
    let mut d = day_of(vec![
        (jira("A-1"), booking(secs(600))),
        (side(0, false), booking(secs(900))),
    ]);
    d.modify_selected_entry(300);
    assert_eq!(suggested(&d), vec![Some(secs(900)), Some(secs(600))]);
    d.modify_selected_entry(-300);
    assert_eq!(suggested(&d), vec![Some(secs(600)), Some(secs(900))]);
}

#[test]
fn more_and_then_less_leads_back() {
    let mut d = day_of(vec![
        (jira("A-1"), booking(secs(600))),
        (jira("A-2"), booking(secs(600))),
        (side(0, false), booking(secs(2_000))),
    ]);
    d.normalize_times();
    d.booking_list.next();
    let before = suggested(&d);
    d.modify_selected_entry(300);
    assert_ne!(suggested(&d), before);
    d.modify_selected_entry(-300);
    assert_eq!(suggested(&d), before);
}

#[test]
fn less_than_there_is_ends_at_nothing() {
    let mut d = day_of(vec![
        (jira("A-1"), booking(secs(299))),
        (side(0, false), booking(secs(900))),
    ]);
    d.modify_selected_entry(-300);
    // the side gets nothing back then
    assert_eq!(suggested(&d), vec![Some(secs(0)), None]);
    d.modify_selected_entry(300);
    d.modify_selected_entry(-300);
    assert_eq!(suggested(&d)[0], Some(secs(0)));
}

#[test]
fn unbookable_side_is_not_modified_itself() {
    let mut d = day_of(vec![(side(0, false), booking(secs(900)))]);
    d.modify_selected_entry(300);
    assert_eq!(suggested(&d), vec![None]);
    d.booking_list.state.select(None);
    d.modify_selected_entry(300);
    assert_eq!(suggested(&d), vec![None]);
}

#[test]
fn issues_alone_are_booked() {
    let mut d = day_of(vec![
        (jira("A-1"), booking(secs(601))),
        (jira("B-1"), booking(secs(20))),
        (side(0, true), booking(secs(900))),
    ]);
    d.suggested_bookings[0].1.suggested_duration = Some(secs(300));
    assert_eq!(
        d.prepare_jira_booking(),
        vec![("A-1".to_string(), secs(300)), ("B-1".to_string(), secs(20))]
    );
}

#[test]
fn notes_name_issues_in_any_case() {
    let lines: Vec<String> = vec![
        "did project-12 and PROJECT-7".to_string(),
        "nothing here".to_string(),
        "Project-12".to_string(),
    ];
    assert_eq!(
        issue_keys("PROJECT\\-[0-9]+", &lines).unwrap(),
        vec!["PROJECT-12".to_string(), "PROJECT-7".to_string(), "PROJECT-12".to_string()]
    );
    assert_eq!(issue_keys("PROJECT\\-[0-9]+", &vec![]).unwrap(), Vec::<String>::new());
}

#[test]
fn bad_pattern_is_reported() {
    let message = issue_keys("(", &vec!["x".to_string()]).unwrap_err();
    assert_eq!(message, regex::Regex::new("(").unwrap_err().to_string());
}

#[test]
fn summaries_match_without_case() {
    let summaries = vec!["Weekly MEETINGS".to_string(), "Coding".to_string()];
    assert_eq!(matching_summaries("Meetings", &summaries), vec![true, false]);
    // the summary is in lower case by then
    assert_eq!(matching_summaries("(?-i)MEETINGS", &summaries), vec![false, false]);
    assert_eq!(matching_summaries("(?-i)meetings", &summaries), vec![true, false]);
    assert_eq!(matching_summaries("(", &summaries), vec![false, false]);
}

#[test]
fn first_matching_issue_is_taken() {
    let issues = vec![issue("P-1", "Coding"), issue("P-2", "meetings a"), issue("P-3", "meetings b")];
    assert_eq!(find_matching_issue("Meetings", &issues), Some("P-2".to_string()));
    assert_eq!(find_matching_issue("Travel", &issues), None);
    assert_eq!(first_match(&vec![false, true, true]), Some(1));
    assert_eq!(first_match(&vec![false]), None);
}

#[test]
fn side_settings_are_collected() {
    let parsed = |index: u8, pattern: Option<&str>, bookable: Option<bool>| ParsedSide {
        facet: Facet { index },
        jira_summary_regex: pattern.map(|p| p.to_string()),
        bookable,
    };
    let infos = sides_additional_info(vec![
        parsed(1, Some("Meetings"), None),
        parsed(2, None, Some(false)),
        parsed(1, None, Some(false)),
    ])
    .unwrap();
    let info = find_side(&infos, &Facet { index: 1 }).unwrap();
    assert_eq!(info.jira_summary_regex, None);
    assert!(!info.bookable);
    assert!(!find_side(&infos, &Facet { index: 2 }).unwrap().bookable);
    assert!(find_side(&infos, &Facet { index: 3 }).is_none());
    let infos = sides_additional_info(vec![parsed(1, Some("Meetings"), None)]).unwrap();
    assert!(find_side(&infos, &Facet { index: 1 }).unwrap().bookable);
    let error = sides_additional_info(vec![parsed(0, Some("a"), None), parsed(1, Some("["), None), parsed(2, Some("("), None)]);
    assert_eq!(error.unwrap_err(), regex::Regex::new("[").unwrap_err().to_string());
}

#[test]
fn named_issues_share_an_entry() {
    let e = entry(4, 0, 100, &[]);
    let keys = vec!["A".to_string(), "B".to_string(), "A".to_string()];
    let parts = named_bookings(&e, &keys);
    assert_eq!(parts.len(), 3);
    for (i, part) in parts.iter().enumerate() {
        assert_eq!(name(&part.0), keys[i]);
        assert_eq!(part.1.based_on_entries, vec![(4, 33)]);
        assert_eq!(part.1.duration, Duration::new(33, 333_333_333));
        assert_eq!(part.1.suggested_duration, None);
    }
    let total: u128 = parts
        .iter()
        .map(|p| p.1.duration.secs as u128 * 1_000_000_000 + p.1.duration.nanos as u128)
        .sum();
    assert!(total <= 100_000_000_000 && total > 100_000_000_000 - 3);
}

#[test]
fn unnamed_entry_goes_to_its_side() {
    let e = entry(4, 2, 100, &[]);
    let (key, b) = unnamed_booking(&e, None, false);
    assert_eq!(name(&key), "2/false");
    assert_eq!(b.based_on_entries, vec![(4, 100)]);
    assert_eq!(b.duration, secs(100));
    let (key, _) = unnamed_booking(&e, Some("P-1".to_string()), false);
    assert_eq!(name(&key), "P-1");
}

#[test]
fn draft_follows_notes_and_sides() {
    let entries = vec![
        entry(1, 0, 100, &["project-1", "project-2"]),
        entry(2, 1, 50, &["no issue"]),
        entry(3, 2, 60, &[]),
        entry(4, 3, 70, &[]),
    ];
    let table = vec![issue("PROJECT-1", "x"), issue("M-1", "meetings")];
    let draft = draft_bookings(&entries, &vec![0, 1, 2, 3], &rules(), &table).unwrap();
    let names: Vec<String> = draft.parts.iter().map(|p| name(&p.0)).collect();
    assert_eq!(names, vec!["PROJECT-1", "PROJECT-2", "M-1", "2/false", "3/true"]);
    assert_eq!(draft.total_duration, secs(280));
    assert_eq!(draft.missing_issues, vec!["PROJECT-2".to_string()]);
    let draft = draft_bookings(&entries, &vec![2], &rules(), &table).unwrap();
    assert_eq!(draft.total_duration, secs(60));
}

#[test]
fn draft_errors_are_reported() {
    let table = vec![];
    let bad = BookingRules { booker_issue_regex: "(".to_string(), sides_additional_info: vec![] };
    let entries = vec![entry(1, 0, u64::MAX, &[]), entry(2, 0, 1, &[])];
    match draft_bookings(&entries, &vec![0], &bad, &table) {
        Err(BookingError::Pattern(message)) => {
            assert_eq!(message, regex::Regex::new("(").unwrap_err().to_string())
        }
        _ => panic!("the pattern does not compile"),
    }
    assert!(draft_bookings(&entries, &vec![], &bad, &table).is_ok());
    assert!(matches!(
        draft_bookings(&entries, &vec![0, 1], &rules(), &table),
        Err(BookingError::TooLong)
    ));
}

#[test]
fn entry_is_added_to_a_draft() {
    let empty = Draft { total_duration: secs(5), parts: vec![], missing_issues: vec!["X".to_string()] };
    let keys = vec!["A-1".to_string(), "A-2".to_string()];
    let table = vec![issue("A-2", "known")];
    let draft = add_entry(empty, &entry(9, 0, 10, &[]), keys, Some("unused".to_string()), true, &table).unwrap();
    assert_eq!(draft.total_duration, secs(15));
    assert_eq!(draft.missing_issues, vec!["X".to_string(), "A-1".to_string()]);
    assert_eq!(draft.parts.len(), 2);
    assert_eq!(draft.parts[1].1.duration, secs(5));
}

#[test]
fn parts_are_put_together() {
    let part = |key: BookingType, id: u32, n: u64| {
        (key, Booking { based_on_entries: vec![(id, 50)], duration: secs(n), suggested_duration: None })
    };
    let bookings = accumulate(vec![
        part(side(1, true), 1, 10),
        part(jira("B"), 2, 20),
        part(jira("A"), 3, 30),
        part(jira("B"), 4, 40),
        part(side(1, true), 5, 50),
    ]);
    let names: Vec<String> = bookings.iter().map(|b| name(&b.0)).collect();
    assert_eq!(names, vec!["A", "B", "1/true"]);
    assert_eq!(bookings[1].1.duration, secs(60));
    assert_eq!(bookings[1].1.based_on_entries, vec![(2, 50), (4, 50)]);
    assert_eq!(bookings[2].1.duration, secs(60));
    let total: u64 = bookings.iter().map(|b| b.1.duration.secs).sum();
    assert_eq!(total, 150);
}

#[test]
fn order_of_parts_does_not_change_the_keys() {
    let part = |key: BookingType, n: u64| (key, booking(secs(n)));
    let a = accumulate(vec![part(jira("B"), 1), part(jira("A"), 2), part(jira("B"), 3)]);
    let b = accumulate(vec![part(jira("B"), 3), part(jira("B"), 1), part(jira("A"), 2)]);
    for (x, y) in a.iter().zip(b.iter()) {
        assert_eq!(name(&x.0), name(&y.0));
        assert_eq!(x.1.duration, y.1.duration);
    }
}

#[test]
fn bookings_of_a_day_are_suggested() {
    let app = App::new_from_entries(vec![
        entry(1, 0, 620, &["PROJECT-1"]),
        entry(2, 2, 1_000, &["lunch"]),
        entry(3, 0, 20, &["PROJECT-9"]),
    ]);
    let dates = app.get_available_dates();
    let issues = vec![issue("PROJECT-1", "old"), issue("PROJECT-1", "new")];
    let (draft, table) = get_bookings_for_date(&app, &rules(), &dates[0], issues).unwrap();
    assert_eq!(draft.total_duration, secs(1_620));
    assert_eq!(table.len(), 1);
    assert_eq!(table[0].fields.summary, "new");
    assert_eq!(draft.missing_issues, Vec::<String>::new());
    let more = vec![issue("PROJECT-2", "more")];
    let mut date = finish_bookings(&dates[0], draft, table, more);
    assert_eq!(date.date, dates[0]);
    assert_eq!(date.total_duration, secs(1_620));
    assert_eq!(date.actual_duration, None);
    assert_eq!(date.jira_data.len(), 2);
    assert_eq!(date.booking_list.state.selected, Some(0));
    let names: Vec<String> = date.booking_list.items.iter().map(|k| name(k)).collect();
    assert_eq!(names, vec!["PROJECT-1", "2/false"]);
    date.normalize_times();
    assert_eq!(suggested(&date), vec![Some(secs(600)), Some(secs(1_020))]);
    // nothing was logged on another day
    let other = Date { year: 1999, month: 1, day: 1 };
    let (draft, _) = get_bookings_for_date(&app, &rules(), &other, vec![]).unwrap();
    assert_eq!(draft.parts.len(), 0);
}

#[test]
fn each_issue_is_booked_once() {
    let entries = vec![
        entry(1, 0, 100, &["project-1 and PROJECT-2 and Project-1"]),
        entry(2, 0, 50, &["PROJECT-1"]),
    ];
    let draft = draft_bookings(&entries, &vec![0, 1], &rules(), &vec![]).unwrap();
    assert_eq!(draft.total_duration, secs(150));
    assert_eq!(
        draft.missing_issues,
        vec!["PROJECT-1", "PROJECT-2", "PROJECT-1", "PROJECT-1"]
    );
    let date = finish_bookings(&day(), draft, vec![], vec![]);
    let amounts = date.prepare_jira_booking();
    assert_eq!(amounts.len(), 2);
    assert_eq!(amounts[0].0, "PROJECT-1");
    assert_eq!(amounts[0].1, Duration::new(116, 666_666_666));
    assert_eq!(amounts[1].0, "PROJECT-2");
    assert_eq!(amounts[1].1, Duration::new(33, 333_333_333));
    assert_eq!(date.suggested_bookings[0].1.based_on_entries, vec![(1, 33), (1, 33), (2, 100)]);
}

#[test]
fn notes_decide_over_the_side() {
    let entries = vec![entry(1, 1, 100, &["PROJECT-5"]), entry(2, 2, 100, &["PROJECT-5"])];
    let table = vec![issue("M-1", "meetings")];
    let draft = draft_bookings(&entries, &vec![0, 1], &rules(), &table).unwrap();
    let names: Vec<String> = draft.parts.iter().map(|p| name(&p.0)).collect();
    assert_eq!(names, vec!["PROJECT-5", "PROJECT-5"]);
}

#[test]
fn each_entry_occurs_with_its_shares() {
    let mut deleted = entry(5, 0, 100, &["PROJECT-1"]);
    deleted.deleted = true;
    let app = App::new_from_entries(vec![
        entry(1, 0, 90, &["project-1 PROJECT-2", "PROJECT-1"]),
        entry(2, 0, 50, &["PROJECT-1"]),
        entry(3, 3, 40, &["nothing"]),
        entry(4, 0, 30, &["PROJECT-1"]),
        deleted,
    ]);
    let dates = app.get_available_dates();
    let (draft, table) = get_bookings_for_date(&app, &rules(), &dates[0], vec![]).unwrap();
    let date = finish_bookings(&dates[0], draft, table, vec![]);
    let mut shares: Vec<(u32, u32)> = Vec::new();
    for line in &date.suggested_bookings {
        shares.extend(line.1.based_on_entries.iter().copied());
    }
    shares.sort();
    assert_eq!(shares, vec![(1, 33), (1, 33), (1, 33), (2, 100), (3, 100)]);
    // all lengths can be divided, so no time is lost
    let total: u64 = date.suggested_bookings.iter().map(|line| line.1.duration.secs).sum();
    assert_eq!(total, 180);
    assert_eq!(date.total_duration, secs(180));
}

#[test]
fn lengths_come_back_without_suggestions() {
    let mut d = day_of(vec![(jira("A-1"), booking(secs(600))), (side(0, false), booking(secs(900)))]);
    let lengths = |d: &BookingDate| -> Vec<Duration> {
        d.suggested_bookings.iter().map(|line| line.1.effective()).collect()
    };
    let before = lengths(&d);
    d.modify_selected_entry(300);
    assert_ne!(lengths(&d), before);
    d.modify_selected_entry(-300);
    assert_eq!(lengths(&d), before);
    let mut d = day_of(vec![(jira("A-1"), booking(secs(600)))]);
    d.modify_selected_entry(300);
    d.modify_selected_entry(-300);
    assert_eq!(lengths(&d), vec![secs(600)]);
    // a side that cannot give takes back all the same
    let mut d = day_of(vec![(jira("A-1"), booking(secs(600))), (side(0, false), booking(secs(100)))]);
    d.modify_selected_entry(300);
    d.modify_selected_entry(-300);
    assert_eq!(lengths(&d), vec![secs(600), secs(400)]);
}

#[test]
fn offered_days_have_bookings() {
    let mut other = entry(2, 0, 60, &[]);
    other.entry.time.secs += 10 * 86_400;
    let mut short = entry(3, 0, 30, &[]);
    short.entry.time.secs += 20 * 86_400;
    let app = App::new_from_entries(vec![entry(1, 0, 100, &["PROJECT-1"]), other, short]);
    let dates = app.get_available_dates();
    assert_eq!(dates.len(), 2);
    for date in &dates {
        let (draft, table) = get_bookings_for_date(&app, &rules(), date, vec![]).unwrap();
        assert_eq!(finish_bookings(date, draft, table, vec![]).suggested_bookings.len(), 1);
    }
    let none = Date { year: 2024, month: 6, day: 20 };
    let (draft, table) = get_bookings_for_date(&app, &rules(), &none, vec![]).unwrap();
    assert_eq!(finish_bookings(&none, draft, table, vec![]).suggested_bookings.len(), 0);
}
