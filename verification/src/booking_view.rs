//! The texts that are shown of the bookings of a day.

use crate::app::App;
use crate::booker::{find_issue, key_index, lemma_key_index, IssueModel};
use crate::booking::{
    issue_count, jira_amounts, law_amounts_are_suggested, suggested_or_worked, total_effective, Booking, BookingDate, BookingKey, BookingLine, BookingModel, BookingType,
};
use crate::calendar::{year_text, ClockModel, Date, LocalText};
use crate::config::{byte_len, facet_name, text_bytes, Config};
use crate::duration::{clock, max_nanos, Duration};
use crate::entries::{by_id, EntryModel, MyEntry};
use crate::text::{
    decimal, decimal_text, joined, joined_text, left_aligned, left_aligned_text, right_aligned,
    right_aligned_text, texts, zero_padded,
};
use crate::views::{entry_at, entry_times, has_times, times_possible};
use vstd::prelude::*;

verus! {

/// Whether the side of a booking is known, where it is on a side.
pub open spec fn side_known(key: BookingKey, config: Config) -> bool {
    match key {
        BookingKey::Jira(_) => true,
        BookingKey::Unknown(facet, _) => config.knows(facet as int),
    }
}

/// How wide what was worked on is: the bytes of the issue, or one more than those of the side.
pub open spec fn key_width(key: BookingKey, config: Config) -> nat {
    match key {
        BookingKey::Jira(issue) => byte_len(issue),
        BookingKey::Unknown(facet, _) => byte_len(config.called(facet as int)) + 1,
    }
}

/// The greatest width of all bookings.
pub open spec fn widest(bookings: Seq<BookingLine>, config: Config) -> nat
    decreases bookings.len(),
{
    if bookings.len() == 0 {
        0
    } else {
        let before = widest(bookings.drop_last(), config);
        let width = key_width(bookings.last().0, config);
        if width > before {
            width
        } else {
            before
        }
    }
}

/// No booking is wider than the widest, which is as wide as one of them.
pub proof fn law_widest(bookings: Seq<BookingLine>, config: Config)
    ensures
        forall|i: int|
            0 <= i < bookings.len() ==> key_width((#[trigger] bookings[i]).0, config) <= widest(
                bookings,
                config,
            ),
        bookings.len() > 0 ==> exists|i: int|
            0 <= i < bookings.len() && key_width((#[trigger] bookings[i]).0, config) == widest(
                bookings,
                config,
            ),
    decreases bookings.len(),
{
    if bookings.len() > 0 {
        let front = bookings.drop_last();
        law_widest(front, config);
        assert forall|i: int| 0 <= i < bookings.len() implies key_width(
            (#[trigger] bookings[i]).0,
            config,
        ) <= widest(bookings, config) by {
            if i < front.len() {
                assert(front[i] == bookings[i]);
            }
        }
        let last = bookings.len() - 1;
        if key_width(bookings[last].0, config) != widest(bookings, config) && front.len() > 0 {
            let i = choose|i: int|
                0 <= i < front.len() && key_width((#[trigger] front[i]).0, config) == widest(
                    front,
                    config,
                );
            assert(bookings[i] == front[i]);
        }
    }
}

/// By how much the times of the entries behind a booking are moved to the right.
pub const DETAIL_INDENT: usize = 20;

/// The greatest width of all bookings, if all sides are known and the width is not out of range.
pub fn widest_label(day: &BookingDate, config: &Config) -> (r: Option<usize>)
    requires
        day.wf(),
        config.wf(),
    ensures
        r is Some <==> {
            &&& forall|i: int|
                0 <= i < day@.bookings.len() ==> side_known((#[trigger] day@.bookings[i]).0, *config)
            &&& widest(day@.bookings, *config) + DETAIL_INDENT <= usize::MAX
        },
        r matches Some(width) ==> width == widest(day@.bookings, *config),
{
    let ghost all = day@.bookings;
    let mut width: usize = 0;
    assert(all.take(0).len() == 0);
    proof {
        law_widest(all, *config);
    }
    for i in 0..day.suggested_bookings.len()
        invariant
            day.wf(),
            config.wf(),
            all == day@.bookings,
            width + DETAIL_INDENT <= usize::MAX,
            width == widest(all.take(i as int), *config),
            forall|j: int| 0 <= j < i ==> side_known((#[trigger] all[j]).0, *config),
            forall|j: int|
                0 <= j < all.len() ==> key_width((#[trigger] all[j]).0, *config) <= widest(
                    all,
                    *config,
                ),
    {
        let line = &day.suggested_bookings[i];
        proof {
            assert(all[i as int] == (line.0@, line.1@));
            assert(all.take(i + 1).drop_last() =~= all.take(i as int));
            assert(all.take(i + 1).last() == all[i as int]);
            assert(key_width(all[i as int].0, *config) <= widest(all, *config));
        }
        let len: usize = match &line.0 {
            BookingType::Jira(issue) => text_bytes(issue.as_str()),
            BookingType::Unknown(facet, _) => {
                if facet.index as usize >= config.sides.len() {
                    assert(!side_known(all[i as int].0, *config));
                    return None;
                }
                let name = facet_name(facet, config);
                match text_bytes(name.as_str()).checked_add(1) {
                    Some(len) => len,
                    None => {
                        return None;
                    },
                }
            },
        };
        if len > usize::MAX - DETAIL_INDENT {
            return None;
        }
        if len > width {
            width = len;
        }
    }
    assert(all.take(all.len() as int) =~= all);
    Some(width)
}

/// What is shown of a booking on an issue.
pub open spec fn issue_shown(
    issue: Seq<char>,
    nanos: nat,
    summary: Option<Seq<char>>,
    width: nat,
) -> Seq<char> {
    left_aligned(issue, width) + " "@ + clock(nanos) + " "@ + match summary {
        Some(s) => " "@ + s,
        None => Seq::empty(),
    }
}

/// What is shown of a booking on an issue, with the summary of the issue if it is known.
pub fn issue_line(issue: &str, length: &Duration, summary: Option<&str>, width: usize) -> (r: String)
    requires
        length.wf(),
    ensures
        r@ == issue_shown(
            issue@,
            length@,
            match summary {
                Some(s) => Some(s@),
                None => None,
            },
            width as nat,
        ),
{
    let line = left_aligned_text(issue, width).concat(" ").concat(
        length.clock_text().as_str(),
    ).concat(" ");
    match summary {
        Some(s) => {
            let more = String::from_str(" ").concat(s);
            line.concat(more.as_str())
        },
        None => {
            assert(line@ + Seq::<char>::empty() =~= line@);
            line
        },
    }
}

/// What is shown of an entry behind a booking: from when to when, which part of it is booked and
/// how long that is, and the notes.
pub open spec fn detail_shown(
    entry: EntryModel,
    percentage: nat,
    width: nat,
    start: ClockModel,
    end: ClockModel,
) -> Seq<char> {
    right_aligned(start.hour_minute, width) + "-"@ + end.hour_minute + " ("@ + decimal(percentage)
        + "% = "@ + clock(entry.entry.duration@ * percentage / 100) + "): "@ + joined(
        entry.description,
        " "@,
    )
}

/// What is shown of an entry behind a booking, at the local times of its start and its end, if
/// its part is not too long.
pub fn detail_line(
    entry: &MyEntry,
    percentage: u32,
    width: usize,
    start: &LocalText,
    end: &LocalText,
) -> (r: Option<String>)
    requires
        entry.entry.wf(),
    ensures
        r is Some <==> entry.entry.duration@ * percentage <= max_nanos(),
        r matches Some(line) ==> line@ == detail_shown(
            entry@,
            percentage as nat,
            width as nat,
            start@,
            end@,
        ),
{
    let part = match entry.entry.duration.checked_mul(percentage) {
        Some(product) => product.divided(100),
        None => {
            return None;
        },
    };
    Some(
        right_aligned_text(start.hour_minute.as_str(), width).concat("-").concat(
            end.hour_minute.as_str(),
        ).concat(" (").concat(decimal_text(percentage as u64).as_str()).concat("% = ").concat(
            part.clock_text().as_str(),
        ).concat("): ").concat(joined_text(&entry.description, " ").as_str()),
    )
}

/// Whether what an entry adds to a booking can be shown: the entry is there, its times can be
/// shown, and its part is not too long.
pub open spec fn can_detail(entries: Map<u32, EntryModel>, part: (u32, u32)) -> bool {
    &&& entries.contains_key(part.0)
    &&& has_times(entries[part.0].entry)
    &&& entries[part.0].entry.duration@ * part.1 <= max_nanos()
}

/// Whether a text can be what is shown of an entry behind a booking in some time zone.
pub open spec fn detail_possible(
    entry: EntryModel,
    percentage: nat,
    width: nat,
    text: Seq<char>,
) -> bool {
    exists|start: ClockModel, end: ClockModel|
        #[trigger] times_possible(entry.entry, start, end) && text == detail_shown(
            entry,
            percentage,
            width,
            start,
            end,
        )
}

/// Whether the texts can be what is shown of the entries behind a booking in some time zone.
pub open spec fn details_possible(
    entries: Map<u32, EntryModel>,
    parts: Seq<(u32, u32)>,
    width: nat,
    lines: Seq<Seq<char>>,
) -> bool {
    &&& lines.len() == parts.len()
    &&& forall|i: int|
        0 <= i < lines.len() ==> detail_possible(
            entries[parts[i].0],
            parts[i].1 as nat,
            width,
            #[trigger] lines[i],
        )
}

/// What is shown of the entries behind a booking, one on each line, if all of them can be shown.
pub fn detail_lines(app: &App, parts: &Vec<(u32, u32)>, width: usize) -> (r: Option<Vec<String>>)
    requires
        app.wf(),
    ensures
        r is Some <==> forall|i: int|
            0 <= i < parts@.len() ==> can_detail(by_id(app@.entries), #[trigger] parts@[i]),
        r matches Some(lines) ==> details_possible(
            by_id(app@.entries),
            parts@,
            width as nat,
            texts(lines@),
        ),
{
    let ghost entries = by_id(app@.entries);
    let mut lines: Vec<String> = Vec::new();
    for i in 0..parts.len()
        invariant
            app.wf(),
            entries == by_id(app@.entries),
            lines@.len() == i,
            forall|j: int| 0 <= j < i ==> can_detail(entries, #[trigger] parts@[j]),
            forall|j: int|
                0 <= j < i ==> detail_possible(
                    entries[parts@[j].0],
                    parts@[j].1 as nat,
                    width as nat,
                    (#[trigger] lines@[j])@,
                ),
    {
        let part: (u32, u32) = parts[i];
        assert(parts@[i as int] == part);
        let at: usize = match entry_at(app, part.0) {
            Some(at) => at,
            None => {
                return None;
            },
        };
        let entry = &app.entries[at];
        assert(entries[part.0] == entry@);
        match entry_times(&entry.entry) {
            Some((start, end)) => {
                match detail_line(entry, part.1, width, &start, &end) {
                    Some(line) => {
                        assert(times_possible(entries[part.0].entry, start@, end@));
                        lines.push(line);
                    },
                    None => {
                        return None;
                    },
                }
            },
            None => {
                return None;
            },
        }
    }
    Some(lines)
}

/// The notes on the entries behind a booking on a side, each in angle brackets.
pub open spec fn notes_shown(
    entries: Map<u32, EntryModel>,
    parts: Seq<(u32, u32)>,
) -> Seq<Seq<char>>
    decreases parts.len(),
{
    if parts.len() == 0 {
        Seq::empty()
    } else {
        let before = notes_shown(entries, parts.drop_last());
        let notes = joined(entries[parts.last().0].description, "|"@);
        if notes.len() > 0 {
            before.push("<"@ + notes + ">"@)
        } else {
            before
        }
    }
}

/// The notes on the entries behind a booking on a side, if all entries are there.
pub fn side_notes(app: &App, parts: &Vec<(u32, u32)>) -> (r: Option<Vec<String>>)
    requires
        app.wf(),
    ensures
        r is Some <==> forall|i: int|
            0 <= i < parts@.len() ==> by_id(app@.entries).contains_key(
                (#[trigger] parts@[i]).0,
            ),
        r matches Some(notes) ==> texts(notes@) == notes_shown(by_id(app@.entries), parts@),
{
    let ghost entries = by_id(app@.entries);
    let mut notes: Vec<String> = Vec::new();
    assert(parts@.take(0).len() == 0);
    assert(texts(notes@) =~= Seq::empty());
    for i in 0..parts.len()
        invariant
            app.wf(),
            entries == by_id(app@.entries),
            forall|j: int| 0 <= j < i ==> entries.contains_key((#[trigger] parts@[j]).0),
            texts(notes@) == notes_shown(entries, parts@.take(i as int)),
    {
        let part: (u32, u32) = parts[i];
        proof {
            assert(parts@[i as int] == part);
            assert(parts@.take(i + 1).drop_last() =~= parts@.take(i as int));
            assert(parts@.take(i + 1).last() == part);
        }
        let at: usize = match entry_at(app, part.0) {
            Some(at) => at,
            None => {
                return None;
            },
        };
        let ghost sofar = texts(notes@);
        let line = joined_text(&app.entries[at].description, "|");
        if line.as_str().unicode_len() > 0 {
            let text = String::from_str("<").concat(line.as_str()).concat(">");
            notes.push(text);
            assert(texts(notes@) =~= sofar.push(text@));
        }
    }
    assert(parts@.take(parts@.len() as int) =~= parts@);
    Some(notes)
}

/// What is shown of a booking on a side: its name, behind a line if time on it is not booked, how
/// long, and the notes.
pub open spec fn side_shown(
    name: Seq<char>,
    bookable: bool,
    nanos: nat,
    notes: Seq<Seq<char>>,
    width: nat,
) -> Seq<char> {
    (if bookable {
        left_aligned(name, width)
    } else {
        "_"@ + left_aligned(name, (width - 1) as nat)
    }) + " "@ + clock(nanos) + " ("@ + joined(notes, " "@) + ")\n"@
}

/// What is shown of a booking on a side.
pub fn side_line(
    name: &str,
    bookable: bool,
    length: &Duration,
    notes: &Vec<String>,
    width: usize,
) -> (r: String)
    requires
        length.wf(),
        width > 0,
    ensures
        r@ == side_shown(name@, bookable, length@, texts(notes@), width as nat),
{
    let head = if bookable {
        left_aligned_text(name, width)
    } else {
        String::from_str("_").concat(left_aligned_text(name, width - 1).as_str())
    };
    head.concat(" ").concat(length.clock_text().as_str()).concat(" (").concat(
        joined_text(notes, " ").as_str(),
    ).concat(")\n")
}

/// How long is to be booked on issues.
pub open spec fn booked_nanos(bookings: Seq<BookingLine>) -> nat
    decreases bookings.len(),
{
    if bookings.len() == 0 {
        0
    } else {
        booked_nanos(bookings.drop_last()) + if bookings.last().0 is Jira {
            bookings.last().1.effective()
        } else {
            0
        }
    }
}

/// Not more is booked on issues than on all together, and each sum only grows.
proof fn lemma_sums(bookings: Seq<BookingLine>, n: nat)
    requires
        n <= bookings.len(),
    ensures
        booked_nanos(bookings.take(n as int)) <= total_effective(bookings.take(n as int)),
        total_effective(bookings.take(n as int)) <= total_effective(bookings),
    decreases bookings.len() - n,
{
    lemma_booked(bookings.take(n as int));
    if n < bookings.len() {
        lemma_sums(bookings, n + 1);
        assert(bookings.take((n + 1) as int).drop_last() =~= bookings.take(n as int));
    } else {
        assert(bookings.take(n as int) =~= bookings);
    }
}

proof fn lemma_booked(bookings: Seq<BookingLine>)
    ensures
        booked_nanos(bookings) <= total_effective(bookings),
    decreases bookings.len(),
{
    if bookings.len() > 0 {
        lemma_booked(bookings.drop_last());
    }
}

/// What is shown above the bookings of a day: the day, how long was worked, how long is to be
/// booked on all together and on issues, and how long it really was.
pub open spec fn day_shown(
    date: Date,
    total: nat,
    shown: nat,
    booked: nat,
    actual: Option<nat>,
) -> Seq<char> {
    "Date: "@ + (zero_padded(date.day as nat, 2) + seq!['.'] + zero_padded(date.month as nat, 2)
        + seq!['.'] + year_text(date.year as int)) + "\nTotal duration: "@ + clock(total) + " (=="@
        + clock(shown) + "==) ("@ + clock(booked) + " booked)"@ + match actual {
        Some(nanos) => " Actual time: "@ + clock(nanos),
        None => Seq::empty(),
    }
}

/// What is shown above the bookings of a day, if they are not too long together.
pub fn day_header(day: &BookingDate) -> (r: Option<String>)
    requires
        day.wf(),
    ensures
        r is Some <==> total_effective(day@.bookings) <= max_nanos(),
        r matches Some(text) ==> text@ == day_shown(
            day@.date,
            day@.total_duration,
            total_effective(day@.bookings),
            booked_nanos(day@.bookings),
            day@.actual_duration,
        ),
{
    let ghost all = day@.bookings;
    let mut booked = Duration::from_secs(0);
    let mut shown = Duration::from_secs(0);
    assert(all.take(0).len() == 0);
    for i in 0..day.suggested_bookings.len()
        invariant
            day.wf(),
            all == day@.bookings,
            booked.wf(),
            shown.wf(),
            booked@ == booked_nanos(all.take(i as int)),
            shown@ == total_effective(all.take(i as int)),
    {
        let line = &day.suggested_bookings[i];
        proof {
            assert(all[i as int] == (line.0@, line.1@));
            assert(all.take(i + 1).drop_last() =~= all.take(i as int));
            assert(all.take(i + 1).last() == all[i as int]);
            lemma_sums(all, i as nat);
            lemma_sums(all, (i + 1) as nat);
            assert(line.1.wf());
        }
        let length = line.1.effective();
        shown = match shown.checked_add(&length) {
            Some(sum) => sum,
            None => {
                return None;
            },
        };
        if let BookingType::Jira(_) = &line.0 {
            booked = match booked.checked_add(&length) {
                Some(sum) => sum,
                None => {
                    return None;
                },
            };
        }
    }
    assert(all.take(all.len() as int) =~= all);
    assert(shown@ <= max_nanos());
    let text = String::from_str("Date: ").concat(day.date.day_month_year().as_str()).concat(
        "\nTotal duration: ",
    ).concat(day.total_duration.clock_text().as_str()).concat(" (==").concat(
        shown.clock_text().as_str(),
    ).concat("==) (").concat(booked.clock_text().as_str()).concat(" booked)");
    match day.actual_duration {
        Some(actual) => {
            let more = String::from_str(" Actual time: ").concat(actual.clock_text().as_str());
            Some(text.concat(more.as_str()))
        },
        None => {
            assert(text@ + Seq::<char>::empty() =~= text@);
            Some(text)
        },
    }
}

/// What is shown of one booking, with the lines on the entries behind it if they are asked for.
#[derive(Debug)]
pub struct BookingText {
    pub text: String,
    pub details: Option<String>,
}

/// The summary of an issue, if it is known.
pub open spec fn summary_of(table: Seq<IssueModel>, issue: Seq<char>) -> Option<Seq<char>> {
    match key_index(table, issue) {
        Some(i) => Some(table[i].summary),
        None => None,
    }
}

/// Whether a booking can be shown.
pub open spec fn can_show_booking(
    entries: Map<u32, EntryModel>,
    config: Config,
    extended_info: bool,
    booking: BookingLine,
) -> bool {
    match booking.0 {
        BookingKey::Jira(_) => extended_info ==> forall|i: int|
            0 <= i < booking.1.based_on_entries.len() ==> can_detail(
                entries,
                #[trigger] booking.1.based_on_entries[i],
            ),
        BookingKey::Unknown(facet, _) => config.knows(facet as int) && forall|i: int|
            0 <= i < booking.1.based_on_entries.len() ==> entries.contains_key(
                (#[trigger] booking.1.based_on_entries[i]).0,
            ),
    }
}

/// Whether a text can be what is shown of all entries behind a booking in some time zone.
pub open spec fn details_text_possible(
    entries: Map<u32, EntryModel>,
    parts: Seq<(u32, u32)>,
    width: nat,
    text: Seq<char>,
) -> bool {
    exists|lines: Seq<Seq<char>>|
        #[trigger] details_possible(entries, parts, width, lines) && text == joined(lines, "\n"@)
}

/// Whether this can be what is shown of a booking in some time zone.
pub open spec fn booking_text_possible(
    entries: Map<u32, EntryModel>,
    table: Seq<IssueModel>,
    config: Config,
    extended_info: bool,
    width: nat,
    booking: BookingLine,
    shown: BookingText,
) -> bool {
    match booking.0 {
        BookingKey::Jira(issue) => {
            &&& shown.text@ == issue_shown(
                issue,
                booking.1.effective(),
                summary_of(table, issue),
                width,
            )
            &&& match shown.details {
                Some(details) => extended_info && details_text_possible(
                    entries,
                    booking.1.based_on_entries,
                    width + DETAIL_INDENT as nat,
                    details@,
                ),
                None => !extended_info,
            }
        },
        BookingKey::Unknown(facet, bookable) => {
            &&& shown.text@ == side_shown(
                config.called(facet as int),
                bookable,
                booking.1.effective(),
                notes_shown(entries, booking.1.based_on_entries),
                width,
            )
            &&& shown.details is None
        },
    }
}

/// What is shown of one booking, if it can be shown.
pub fn booking_text(
    app: &App,
    day: &BookingDate,
    config: &Config,
    extended_info: bool,
    width: usize,
    line: &(BookingType, Booking),
) -> (r: Option<BookingText>)
    requires
        app.wf(),
        config.wf(),
        line.1.wf(),
        line.0@ is Unknown ==> 0 < width,
        width + DETAIL_INDENT <= usize::MAX,
    ensures
        r is Some <==> can_show_booking(
            by_id(app@.entries),
            *config,
            extended_info,
            (line.0@, line.1@),
        ),
        r matches Some(shown) ==> booking_text_possible(
            by_id(app@.entries),
            day@.jira_data,
            *config,
            extended_info,
            width as nat,
            (line.0@, line.1@),
            shown,
        ),
{
    let ghost shown = (line.0@, line.1@);
    assert(shown.1.based_on_entries == line.1.based_on_entries@);
    let length = line.1.effective();
    match &line.0 {
        BookingType::Jira(issue) => {
            assert(shown.0 == BookingKey::Jira(issue@));
            let text = match find_issue(&day.jira_data, issue) {
                Some(i) => {
                    proof {
                        lemma_key_index(day@.jira_data, issue@);
                        assert(day@.jira_data[i as int] == day.jira_data@[i as int]@);
                    }
                    issue_line(
                        issue.as_str(),
                        &length,
                        Some(day.jira_data[i].fields.summary.as_str()),
                        width,
                    )
                },
                None => issue_line(issue.as_str(), &length, None, width),
            };
            if extended_info {
                match detail_lines(app, &line.1.based_on_entries, width + DETAIL_INDENT) {
                    Some(lines) => {
                        let details = joined_text(&lines, "\n");
                        proof {
                            assert(details_possible(
                                by_id(app@.entries),
                                line.1@.based_on_entries,
                                width as nat + DETAIL_INDENT as nat,
                                texts(lines@),
                            ));
                        }
                        Some(BookingText { text, details: Some(details) })
                    },
                    None => None,
                }
            } else {
                Some(BookingText { text, details: None })
            }
        },
        BookingType::Unknown(facet, bookable) => {
            assert(shown.0 == BookingKey::Unknown(facet.index, *bookable));
            if facet.index as usize >= config.sides.len() {
                return None;
            }
            match side_notes(app, &line.1.based_on_entries) {
                Some(notes) => {
                    let name = facet_name(facet, config);
                    let text = side_line(name.as_str(), *bookable, &length, &notes, width);
                    Some(BookingText { text, details: None })
                },
                None => None,
            }
        },
    }
}

/// Whether all bookings of a day can be shown.
pub open spec fn can_show_day(
    entries: Map<u32, EntryModel>,
    config: Config,
    extended_info: bool,
    bookings: Seq<BookingLine>,
) -> bool {
    &&& forall|i: int|
        0 <= i < bookings.len() ==> can_show_booking(
            entries,
            config,
            extended_info,
            #[trigger] bookings[i],
        )
    &&& widest(bookings, config) + DETAIL_INDENT <= usize::MAX
}

/// What is shown of all bookings of a day, if all of them can be shown.
pub fn booking_lines(
    app: &App,
    day: &BookingDate,
    config: &Config,
    extended_info: bool,
) -> (r: Option<Vec<BookingText>>)
    requires
        app.wf(),
        day.wf(),
        config.wf(),
    ensures
        r is Some <==> can_show_day(
            by_id(app@.entries),
            *config,
            extended_info,
            day@.bookings,
        ),
        r matches Some(lines) ==> {
            &&& lines@.len() == day@.bookings.len()
            &&& forall|i: int|
                0 <= i < lines@.len() ==> booking_text_possible(
                    by_id(app@.entries),
                    day@.jira_data,
                    *config,
                    extended_info,
                    widest(day@.bookings, *config),
                    day@.bookings[i],
                    #[trigger] lines@[i],
                )
        },
{
    let ghost all = day@.bookings;
    let ghost entries = by_id(app@.entries);
    let width: usize = match widest_label(day, config) {
        Some(width) => width,
        None => {
            proof {
                if can_show_day(entries, *config, extended_info, all) {
                    assert forall|i: int| 0 <= i < all.len() implies side_known(
                        (#[trigger] all[i]).0,
                        *config,
                    ) by {
                        assert(can_show_booking(entries, *config, extended_info, all[i]));
                    }
                }
            }
            return None;
        },
    };
    proof {
        law_widest(all, *config);
    }
    let mut lines: Vec<BookingText> = Vec::new();
    for i in 0..day.suggested_bookings.len()
        invariant
            app.wf(),
            day.wf(),
            config.wf(),
            all == day@.bookings,
            entries == by_id(app@.entries),
            width == widest(all, *config),
            width + DETAIL_INDENT <= usize::MAX,
            forall|j: int|
                0 <= j < all.len() ==> key_width((#[trigger] all[j]).0, *config) <= width,
            lines@.len() == i,
            forall|j: int|
                0 <= j < i ==> can_show_booking(
                    entries,
                    *config,
                    extended_info,
                    #[trigger] all[j],
                ),
            forall|j: int|
                0 <= j < i ==> booking_text_possible(
                    entries,
                    day@.jira_data,
                    *config,
                    extended_info,
                    width as nat,
                    all[j],
                    #[trigger] lines@[j],
                ),
    {
        let line = &day.suggested_bookings[i];
        proof {
            assert(all[i as int] == (line.0@, line.1@));
            assert(key_width(all[i as int].0, *config) <= width);
            assert(line.1.wf());
        }
        match booking_text(app, day, config, extended_info, width, line) {
            Some(shown) => {
                lines.push(shown);
            },
            None => {
                return None;
            },
        }
    }
    Some(lines)
}

/// The line of an issue shows the length that is booked on it: what is suggested, or else what
/// was worked. `shown` stands for the line, and `bookings` for all of the day.
pub proof fn law_line_shows_what_is_booked(
    entries: Map<u32, EntryModel>,
    table: Seq<IssueModel>,
    config: Config,
    extended_info: bool,
    width: nat,
    bookings: Seq<BookingLine>,
    i: int,
    shown: BookingText,
)
    requires
        0 <= i < bookings.len(),
        bookings[i].0 is Jira,
        booking_text_possible(entries, table, config, extended_info, width, bookings[i], shown),
    ensures
        ({
            let issue = bookings[i].0->Jira_0;
            let booking = bookings[i].1;
            let amount = jira_amounts(bookings)[issue_count(bookings.take(i)) as int];
            let length = suggested_or_worked(booking.suggested_duration, booking.duration);
            let summary = if exists|k: int|
                0 <= k < table.len() && (#[trigger] table[k]).key == issue {
                " "@ + summary_of(table, issue)->0
            } else {
                Seq::empty()
            };
            &&& amount == (issue, length)
            &&& shown.text@ == left_aligned(issue, width) + " "@ + clock(length) + " "@ + summary
            &&& shown.text@ == left_aligned(amount.0, width) + " "@ + clock(amount.1) + " "@
                + summary
            &&& shown.details is Some <==> extended_info
        }),
{
    let issue = bookings[i].0->Jira_0;
    law_amounts_are_suggested(bookings, i);
    lemma_key_index(table, issue);
}

/// Two bookings on an issue that differ only in what is suggested are shown with just that.
pub proof fn law_line_follows_suggestion(
    entries: Map<u32, EntryModel>,
    table: Seq<IssueModel>,
    config: Config,
    width: nat,
    issue: Seq<char>,
    booking: BookingModel,
    suggested: nat,
    shown: BookingText,
)
    requires
        booking_text_possible(
            entries,
            table,
            config,
            false,
            width,
            (
                BookingKey::Jira(issue),
                BookingModel { suggested_duration: Some(suggested), ..booking },
            ),
            shown,
        ),
    ensures
        shown.text@.take((left_aligned(issue, width).len() + 1 + clock(suggested).len()) as int)
            == left_aligned(issue, width) + " "@ + clock(suggested),
        shown.details is None,
{
    reveal_strlit(" ");
    assert(shown.text@.take((left_aligned(issue, width).len() + 1 + clock(suggested).len()) as int)
        =~= left_aligned(issue, width) + " "@ + clock(suggested));
}

/// The line of a side shows its name, the length that is suggested or else was worked, and the
/// notes; behind a line, in the same width, if time on it is not booked.
pub proof fn law_side_line(
    entries: Map<u32, EntryModel>,
    table: Seq<IssueModel>,
    config: Config,
    extended_info: bool,
    width: nat,
    facet: u8,
    bookable: bool,
    booking: BookingModel,
    shown: BookingText,
)
    requires
        width > 0,
        booking_text_possible(
            entries,
            table,
            config,
            extended_info,
            width,
            (BookingKey::Unknown(facet, bookable), booking),
            shown,
        ),
    ensures
        ({
            let length = suggested_or_worked(booking.suggested_duration, booking.duration);
            let name = config.called(facet as int);
            let notes = joined(notes_shown(entries, booking.based_on_entries), " "@);
            let tail = " "@ + clock(length) + " ("@ + notes + ")\n"@;
            &&& bookable ==> shown.text@ == left_aligned(name, width) + tail
            &&& !bookable ==> shown.text@ == "_"@ + left_aligned(name, (width - 1) as nat) + tail
            &&& shown.details is None
        }),
{
    let length = suggested_or_worked(booking.suggested_duration, booking.duration);
    let name = config.called(facet as int);
    let notes = joined(notes_shown(entries, booking.based_on_entries), " "@);
    let tail = " "@ + clock(length) + " ("@ + notes + ")\n"@;
    if bookable {
        assert(shown.text@ =~= left_aligned(name, width) + tail);
    } else {
        assert(shown.text@ =~= "_"@ + left_aligned(name, (width - 1) as nat) + tail);
    }
}

/// What the table says of an issue is the summary of one with that key, and nothing only if there
/// is none.
pub proof fn law_summary(table: Seq<IssueModel>, issue: Seq<char>)
    ensures
        match summary_of(table, issue) {
            Some(summary) => exists|i: int|
                0 <= i < table.len() && (#[trigger] table[i]).key == issue && table[i].summary
                    == summary,
            None => forall|i: int| 0 <= i < table.len() ==> (#[trigger] table[i]).key != issue,
        },
{
    lemma_key_index(table, issue);
    if let Some(i) = key_index(table, issue) {
        assert(table[i].key == issue);
    }
}

/// The notes on one entry more are added in angle brackets, with strokes between their lines;
/// where they are empty, nothing is.
pub proof fn law_notes_line_by_line(
    entries: Map<u32, EntryModel>,
    parts: Seq<(u32, u32)>,
    part: (u32, u32),
)
    ensures
        notes_shown(entries, Seq::empty()) == Seq::<Seq<char>>::empty(),
        ({
            let notes = joined(entries[part.0].description, "|"@);
            notes_shown(entries, parts.push(part)) == if notes.len() == 0 {
                notes_shown(entries, parts)
            } else {
                notes_shown(entries, parts).push("<"@ + notes + ">"@)
            }
        }),
{
    assert(parts.push(part).drop_last() =~= parts);
}

/// How long the amounts are together.
pub open spec fn amounts_total(list: Seq<(Seq<char>, nat)>) -> nat
    decreases list.len(),
{
    if list.len() == 0 {
        0
    } else {
        amounts_total(list.drop_last()) + list.last().1
    }
}

/// What is said to be booked is the sum of what is booked on issues.
pub proof fn law_booked_is_what_is_booked(bookings: Seq<BookingLine>)
    ensures
        booked_nanos(bookings) == amounts_total(jira_amounts(bookings)),
    decreases bookings.len(),
{
    if bookings.len() > 0 {
        law_booked_is_what_is_booked(bookings.drop_last());
        let before = jira_amounts(bookings.drop_last());
        if bookings.last().0 is Jira {
            assert(jira_amounts(bookings).drop_last() =~= before);
        }
    }
}

/// One booking more adds to what is booked on issues its length, suggested or else worked, if it
/// is on an issue.
pub proof fn law_booked_adds_up(bookings: Seq<BookingLine>, added: BookingLine)
    ensures
        booked_nanos(Seq::empty()) == 0,
        booked_nanos(bookings.push(added)) == booked_nanos(bookings) + if added.0 is Jira {
            suggested_or_worked(added.1.suggested_duration, added.1.duration)
        } else {
            0
        },
{
    assert(bookings.push(added).drop_last() =~= bookings);
}

/// Above the bookings stand the day, the time of all entries, the time of all bookings and the
/// time that is booked on issues; and how long it really was, if that is known.
pub proof fn law_day_header(date: Date, total: nat, shown: nat, booked: nat, actual: nat)
    ensures
        ({
            let day = zero_padded(date.day as nat, 2) + seq!['.'] + zero_padded(
                date.month as nat,
                2,
            ) + seq!['.'] + year_text(date.year as int);
            let line = "Date: "@ + day + "\nTotal duration: "@ + clock(total) + " (=="@ + clock(
                shown,
            ) + "==) ("@ + clock(booked) + " booked)"@;
            &&& day_shown(date, total, shown, booked, None) == line
            &&& day_shown(date, total, shown, booked, Some(actual)) == line + " Actual time: "@
                + clock(actual)
        }),
{
    let day = zero_padded(date.day as nat, 2) + seq!['.'] + zero_padded(date.month as nat, 2)
        + seq!['.'] + year_text(date.year as int);
    let line = "Date: "@ + day + "\nTotal duration: "@ + clock(total) + " (=="@ + clock(shown)
        + "==) ("@ + clock(booked) + " booked)"@;
    assert(day_shown(date, total, shown, booked, None) =~= line);
    assert(day_shown(date, total, shown, booked, Some(actual)) =~= line + " Actual time: "@
        + clock(actual));
}

/// An entry behind a booking is shown with its times, its percent, that percent of its length,
/// and its notes on one line.
pub proof fn law_detail(
    entry: EntryModel,
    percentage: nat,
    width: nat,
    text: Seq<char>,
)
    requires
        detail_possible(entry, percentage, width, text),
    ensures
        exists|start: ClockModel, end: ClockModel|
            {
                &&& #[trigger] start.possible(entry.entry.time.secs as int)
                &&& #[trigger] end.possible(entry.entry.time.plus(entry.entry.duration).secs as int)
                &&& text == right_aligned(start.hour_minute, width) + "-"@ + end.hour_minute
                    + " ("@ + decimal(percentage) + "% = "@ + clock(
                    (entry.entry.duration.secs * 1_000_000_000 + entry.entry.duration.nanos) as nat
                        * percentage / 100,
                ) + "): "@ + joined(entry.description, " "@)
            },
{
    let (start, end) = choose|start: ClockModel, end: ClockModel|
        #[trigger] times_possible(entry.entry, start, end) && text == detail_shown(
            entry,
            percentage,
            width,
            start,
            end,
        );
    assert(start.possible(entry.entry.time.secs as int));
    assert(end.possible(entry.entry.time.plus(entry.entry.duration).secs as int));
}

/// There is one line for each entry behind a booking, at its place.
pub proof fn law_details(
    entries: Map<u32, EntryModel>,
    parts: Seq<(u32, u32)>,
    width: nat,
    lines: Seq<Seq<char>>,
    i: int,
)
    requires
        details_possible(entries, parts, width, lines),
        0 <= i < parts.len(),
    ensures
        lines.len() == parts.len(),
        detail_possible(entries[parts[i].0], parts[i].1 as nat, width, lines[i]),
{
    assert(detail_possible(entries[parts[i].0], parts[i].1 as nat, width, lines[i]));
}

/// With all its entries there and all sides known, a day can be shown, unless what is to be shown
/// is out of range: an end of an entry, a percent of one, or the width. Without the information on
/// the entries, issues need none of them.
pub proof fn law_day_can_be_shown(
    entries: Map<u32, EntryModel>,
    config: Config,
    extended_info: bool,
    bookings: Seq<BookingLine>,
)
    requires
        widest(bookings, config) + 20 <= usize::MAX,
        forall|i: int|
            0 <= i < bookings.len() && (#[trigger] bookings[i]).0 is Unknown
                ==> bookings[i].0->Unknown_0 < config.sides@.len(),
        forall|i: int, k: int|
            #![trigger bookings[i].1.based_on_entries[k]]
            0 <= i < bookings.len() && 0 <= k < bookings[i].1.based_on_entries.len() ==> (
            bookings[i].0 is Unknown ==> entries.contains_key(
                bookings[i].1.based_on_entries[k].0,
            )) && (bookings[i].0 is Jira && extended_info ==> {
                let entry = entries[bookings[i].1.based_on_entries[k].0].entry;
                &&& entries.contains_key(bookings[i].1.based_on_entries[k].0)
                &&& entry.time.reaches(entry.duration)
                &&& entry.duration@ * bookings[i].1.based_on_entries[k].1 <= u64::MAX
                    * 1_000_000_000 + 999_999_999
            }),
    ensures
        can_show_day(entries, config, extended_info, bookings),
{
    assert forall|i: int| 0 <= i < bookings.len() implies can_show_booking(
        entries,
        config,
        extended_info,
        #[trigger] bookings[i],
    ) by {
        if bookings[i].0 is Jira {
            if extended_info {
                assert forall|k: int|
                    0 <= k < bookings[i].1.based_on_entries.len() implies can_detail(
                    entries,
                    #[trigger] bookings[i].1.based_on_entries[k],
                ) by {}
            }
        } else {
            assert(bookings[i].0 is Unknown);
            assert forall|k: int|
                0 <= k < bookings[i].1.based_on_entries.len() implies entries.contains_key(
                (#[trigger] bookings[i].1.based_on_entries[k]).0,
            ) by {}
        }
    }
}

/// Issues are as wide as their bytes, and sides have room for the line in front of them.
pub proof fn law_widths(issue: Seq<char>, facet: u8, bookable: bool, config: Config)
    ensures
        key_width(BookingKey::Jira(issue), config) == byte_len(issue),
        key_width(BookingKey::Unknown(facet, bookable), config) == byte_len(
            config.called(facet as int),
        ) + 1,
{
}

} // verus!
