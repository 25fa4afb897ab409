//! How the entries of a day become bookings.

use crate::app::{days_of, lemma_places, places, places_on, App};
use crate::booker::{
    extend_table, extended, find_issue, issue_models, key_index, law_table_keys_unique,
    unique_keys, Entry, IssueModel,
};
use crate::booking::{
    keys, lemma_key_order, lines, ordered, type_keys, Booking, BookingDate, BookingKey,
    BookingLine, BookingModel, BookingType,
};
use crate::calendar::Date;
use crate::config::{find_side, info_map, SideAdditionalInfo, SideModel};
use crate::duration::{lemma_parts, max_nanos, Duration};
use crate::entries::{models, EntryModel, MyEntry};
use crate::patterns::{issue_keys, matching_summaries, note_keys, regex_error, summary_matches};
use crate::stateful_list::{ListState, StatefulList};
use crate::text::texts;
use vstd::prelude::*;

verus! {

/// A booking of a part of one entry, without a suggestion.
pub open spec fn part(key: BookingKey, id: u32, percentage: u32, duration: nat) -> BookingLine {
    (
        key,
        BookingModel {
            based_on_entries: seq![(id, percentage)],
            duration,
            suggested_duration: None,
        },
    )
}

/// The bookings of an entry whose notes name issues: one for each, of equal length.
pub open spec fn named_parts(entry: EntryModel, issues: Seq<Seq<char>>) -> Seq<BookingLine> {
    issues.map_values(
        |issue: Seq<char>|
            part(
                BookingKey::Jira(issue),
                entry.entry.id,
                (100nat / issues.len()) as u32,
                entry.entry.duration@ / issues.len(),
            ),
    )
}

/// The booking of an entry whose notes name no issue: on the issue that was found for its side,
/// or else on the side itself.
pub open spec fn unnamed_part(
    entry: EntryModel,
    found: Option<Seq<char>>,
    bookable: bool,
) -> BookingLine {
    part(
        match found {
            Some(issue) => BookingKey::Jira(issue),
            None => BookingKey::Unknown(entry.entry.facet.index, bookable),
        },
        entry.entry.id,
        100,
        entry.entry.duration@,
    )
}

/// The bookings of an entry whose notes name issues.
pub fn named_bookings(entry: &MyEntry, issues: &Vec<String>) -> (r: Vec<(BookingType, Booking)>)
    requires
        entry.entry.wf(),
        0 < issues@.len() <= u32::MAX,
    ensures
        lines(r@) == named_parts(entry@, texts(issues@)),
        forall|i: int| 0 <= i < r@.len() ==> (#[trigger] r@[i]).1.wf(),
{
    let n_issues: u32 = issues.len() as u32;
    let ghost all = named_parts(entry@, texts(issues@));
    let mut parts: Vec<(BookingType, Booking)> = Vec::new();
    for i in 0..issues.len()
        invariant
            entry.entry.wf(),
            0 < issues@.len() <= u32::MAX,
            n_issues == issues@.len(),
            all == named_parts(entry@, texts(issues@)),
            lines(parts@) == all.take(i as int),
            forall|j: int| 0 <= j < parts@.len() ==> (#[trigger] parts@[j]).1.wf(),
    {
        let mut based_on_entries: Vec<(u32, u32)> = Vec::new();
        based_on_entries.push((entry.entry.id, 100 / n_issues));
        let booking = Booking {
            based_on_entries,
            duration: entry.entry.duration.divided(n_issues),
            suggested_duration: None,
        };
        proof {
            assert(texts(issues@)[i as int] == issues@[i as int]@);
            assert(booking.based_on_entries@ =~= all[i as int].1.based_on_entries);
        }
        let ghost before = parts@;
        parts.push((BookingType::Jira(issues[i].clone()), booking));
        assert(lines(parts@) =~= lines(before).push(all[i as int]));
        assert(lines(parts@) =~= all.take(i + 1));
    }
    assert(all.take(issues@.len() as int) =~= all);
    parts
}

/// The booking of an entry whose notes name no issue.
pub fn unnamed_booking(entry: &MyEntry, found: Option<String>, bookable: bool) -> (r: (
    BookingType,
    Booking,
))
    requires
        entry.entry.wf(),
    ensures
        (r.0@, r.1@) == unnamed_part(
            entry@,
            match found {
                Some(issue) => Some(issue@),
                None => None,
            },
            bookable,
        ),
        r.1.wf(),
{
    let mut based_on_entries: Vec<(u32, u32)> = Vec::new();
    based_on_entries.push((entry.entry.id, 100));
    let booking = Booking {
        based_on_entries,
        duration: entry.entry.duration,
        suggested_duration: None,
    };
    assert(booking.based_on_entries@ =~= seq![(entry.entry.id, 100u32)]);
    match found {
        Some(issue) => (BookingType::Jira(issue), booking),
        None => (BookingType::Unknown(entry.entry.facet, bookable), booking),
    }
}

/// The place of the first `true`.
pub open spec fn first_true(list: Seq<bool>) -> Option<int>
    decreases list.len(),
{
    if list.len() == 0 {
        None
    } else {
        match first_true(list.drop_last()) {
            Some(i) => Some(i),
            None => if list.last() {
                Some(list.len() - 1)
            } else {
                None
            },
        }
    }
}

/// The place of the first `true`.
pub fn first_match(list: &Vec<bool>) -> (r: Option<usize>)
    ensures
        match r {
            Some(i) => {
                &&& first_true(list@) == Some(i as int)
                &&& i < list@.len()
            },
            None => first_true(list@) is None,
        },
{
    let mut r: Option<usize> = None;
    assert(list@.take(0).len() == 0);
    for i in 0..list.len()
        invariant
            match r {
                Some(k) => first_true(list@.take(i as int)) == Some(k as int) && k < i,
                None => first_true(list@.take(i as int)) is None,
            },
    {
        assert(list@.take(i + 1).drop_last() =~= list@.take(i as int));
        if r.is_none() && list[i] {
            r = Some(i);
        }
    }
    assert(list@.take(list@.len() as int) =~= list@);
    r
}

/// Of each issue, whether its summary matches.
pub open spec fn matches_of(issues: Seq<IssueModel>, pattern: Seq<char>) -> Seq<bool> {
    issues.map_values(|issue: IssueModel| summary_matches(pattern, issue.summary))
}

/// The issue that the side of an entry stands for: the first whose summary matches.
pub open spec fn side_issue(
    sides: Map<u8, SideModel>,
    issues: Seq<IssueModel>,
    facet: u8,
) -> Option<Seq<char>> {
    if sides.contains_key(facet) {
        match sides[facet].jira_summary_regex {
            Some(pattern) => match first_true(matches_of(issues, pattern)) {
                Some(i) => Some(issues[i].key),
                None => None,
            },
            None => None,
        }
    } else {
        None
    }
}

/// Whether time on a side can be booked: so it is, where nothing else is known.
pub open spec fn side_bookable(sides: Map<u8, SideModel>, facet: u8) -> bool {
    sides.contains_key(facet) ==> sides[facet].bookable
}

/// The first issue whose summary matches.
pub fn find_matching_issue(pattern: &str, issues: &Vec<Entry>) -> (r: Option<String>)
    ensures
        match (r, first_true(matches_of(issue_models(issues@), pattern@))) {
            (Some(key), Some(i)) => key@ == issue_models(issues@)[i].key,
            (None, None) => true,
            _ => false,
        },
{
    let mut summaries: Vec<String> = Vec::new();
    for i in 0..issues.len()
        invariant
            summaries@.len() == i,
            forall|j: int| 0 <= j < i ==> (#[trigger] summaries@[j])@ == issues@[j].fields.summary@,
    {
        summaries.push(issues[i].fields.summary.clone());
    }
    let matches = matching_summaries(pattern, &summaries);
    assert(matches@ =~= matches_of(issue_models(issues@), pattern@));
    match first_match(&matches) {
        Some(i) => Some(issues[i].key.clone()),
        None => None,
    }
}

/// What decides on the bookings: the pattern of the issues that notes name, and what is known of
/// the sides.
#[derive(Debug)]
pub struct BookingRules {
    pub booker_issue_regex: String,
    pub sides_additional_info: Vec<SideAdditionalInfo>,
}

/// Why there are no bookings.
#[derive(Debug)]
pub enum BookingError {
    /// The pattern of the issues does not compile; with the message.
    Pattern(String),
    /// The notes of one entry name more issues than can be counted.
    TooManyIssues,
    /// The entries are too long together.
    TooLong,
}

/// Why there are no bookings, with the text of the message.
pub enum ErrorModel {
    Pattern(Seq<char>),
    TooManyIssues,
    TooLong,
}

impl View for BookingError {
    type V = ErrorModel;

    open spec fn view(&self) -> ErrorModel {
        match self {
            BookingError::Pattern(message) => ErrorModel::Pattern(message@),
            BookingError::TooManyIssues => ErrorModel::TooManyIssues,
            BookingError::TooLong => ErrorModel::TooLong,
        }
    }
}

/// What the entries of a day amount to, before they are put together: how long they are, their
/// bookings one by one, and the issues of which nothing is known yet.
#[derive(Debug)]
pub struct Draft {
    pub total_duration: Duration,
    pub parts: Vec<(BookingType, Booking)>,
    pub missing_issues: Vec<String>,
}

/// The contents of a draft.
#[verifier::ext_equal]
pub struct DraftModel {
    pub total_duration: nat,
    pub parts: Seq<BookingLine>,
    pub missing_issues: Seq<Seq<char>>,
}

impl View for Draft {
    type V = DraftModel;

    open spec fn view(&self) -> DraftModel {
        DraftModel {
            total_duration: self.total_duration@,
            parts: lines(self.parts@),
            missing_issues: texts(self.missing_issues@),
        }
    }
}

/// How long all parts are together.
pub open spec fn parts_total(parts: Seq<BookingLine>) -> nat
    decreases parts.len(),
{
    if parts.len() == 0 {
        0
    } else {
        parts_total(parts.drop_last()) + parts.last().1.duration
    }
}

/// The issues of which nothing is known, in order.
pub open spec fn unknown_issues(table: Seq<IssueModel>, issues: Seq<Seq<char>>) -> Seq<Seq<char>>
    decreases issues.len(),
{
    if issues.len() == 0 {
        Seq::empty()
    } else {
        let before = unknown_issues(table, issues.drop_last());
        if key_index(table, issues.last()) is None {
            before.push(issues.last())
        } else {
            before
        }
    }
}

impl DraftModel {
    /// No part has a suggestion, and the parts are not longer together than the entries.
    pub open spec fn wf(&self) -> bool {
        &&& self.total_duration <= max_nanos()
        &&& parts_total(self.parts) <= self.total_duration
        &&& forall|i: int|
            0 <= i < self.parts.len() ==> (#[trigger] self.parts[i]).1.suggested_duration is None
    }

    /// The draft with one more entry, whose notes name `issues`, and for whose side `found` was
    /// found.
    pub open spec fn with_entry(
        &self,
        entry: EntryModel,
        issues: Seq<Seq<char>>,
        found: Option<Seq<char>>,
        bookable: bool,
        table: Seq<IssueModel>,
    ) -> Result<DraftModel, ErrorModel> {
        let total_duration = self.total_duration + entry.entry.duration@;
        if total_duration > max_nanos() {
            Err(ErrorModel::TooLong)
        } else if issues.len() > u32::MAX {
            Err(ErrorModel::TooManyIssues)
        } else if issues.len() == 0 {
            Ok(
                DraftModel {
                    total_duration,
                    parts: self.parts.push(unnamed_part(entry, found, bookable)),
                    missing_issues: self.missing_issues,
                },
            )
        } else {
            Ok(
                DraftModel {
                    total_duration,
                    parts: self.parts + named_parts(entry, issues),
                    missing_issues: self.missing_issues + unknown_issues(table, issues),
                },
            )
        }
    }
}

impl Draft {
    /// The lengths are valid.
    pub open spec fn wf(&self) -> bool {
        &&& self@.wf()
        &&& self.total_duration.wf()
        &&& forall|i: int| 0 <= i < self.parts@.len() ==> (#[trigger] self.parts@[i]).1.wf()
    }
}

/// Parts of two lists are as long together as both are.
pub proof fn lemma_parts_total_add(a: Seq<BookingLine>, b: Seq<BookingLine>)
    ensures
        parts_total(a + b) == parts_total(a) + parts_total(b),
    decreases b.len(),
{
    if b.len() == 0 {
        assert(a + b =~= a);
    } else {
        assert((a + b).drop_last() =~= a + b.drop_last());
        lemma_parts_total_add(a, b.drop_last());
    }
}

/// Equal parts are as long together as one of them, times their number.
pub proof fn lemma_parts_total_equal(parts: Seq<BookingLine>, length: nat)
    requires
        forall|i: int| 0 <= i < parts.len() ==> (#[trigger] parts[i]).1.duration == length,
    ensures
        parts_total(parts) == parts.len() * length,
    decreases parts.len(),
{
    if parts.len() > 0 {
        let front = parts.drop_last();
        assert forall|i: int| 0 <= i < front.len() implies (#[trigger] front[i]).1.duration
            == length by {
            assert(parts[i].1.duration == length);
        }
        lemma_parts_total_equal(front, length);
        assert(parts[parts.len() - 1].1.duration == length);
        assert(parts.len() * length == front.len() * length + length) by (nonlinear_arith)
            requires
                parts.len() == front.len() + 1,
        ;
    }
}

/// The parts of an entry are not longer together than the entry.
pub proof fn law_parts_fit_entry(entry: EntryModel, issues: Seq<Seq<char>>)
    requires
        issues.len() > 0,
    ensures
        parts_total(named_parts(entry, issues)) <= entry.entry.duration@,
        entry.entry.duration@ - issues.len() < parts_total(named_parts(entry, issues)),
{
    let parts = named_parts(entry, issues);
    lemma_parts_total_equal(parts, entry.entry.duration@ / issues.len());
    lemma_parts(entry.entry.duration@, issues.len());
}

/// Puts one more entry into a draft. Where there is an error the draft is lost.
pub fn add_entry(
    draft: Draft,
    entry: &MyEntry,
    issues: Vec<String>,
    found: Option<String>,
    bookable: bool,
    table: &Vec<Entry>,
) -> (r: Result<Draft, BookingError>)
    requires
        draft.wf(),
        entry.entry.wf(),
    ensures
        ({
            let expected = draft@.with_entry(
                entry@,
                texts(issues@),
                match found {
                    Some(issue) => Some(issue@),
                    None => None,
                },
                bookable,
                issue_models(table@),
            );
            match r {
                Ok(after) => expected == Ok::<DraftModel, ErrorModel>(after@) && after.wf(),
                Err(error) => expected == Err::<DraftModel, ErrorModel>(error@),
            }
        }),
{
    let total_duration = match draft.total_duration.checked_add(&entry.entry.duration) {
        Some(total) => total,
        None => {
            return Err(BookingError::TooLong);
        },
    };
    if issues.len() > u32::MAX as usize {
        return Err(BookingError::TooManyIssues);
    }
    let ghost before = draft@;
    let mut parts = draft.parts;
    let mut missing_issues = draft.missing_issues;
    if issues.is_empty() {
        assert(texts(issues@).len() == 0);
        let booking = unnamed_booking(entry, found, bookable);
        let ghost added = (booking.0@, booking.1@);
        parts.push(booking);
        proof {
            assert(lines(parts@) =~= before.parts.push(added));
            assert(before.parts.push(added).drop_last() =~= before.parts);
        }
    } else {
        let ghost named = texts(issues@);
        let mut added = named_bookings(entry, &issues);
        let ghost new_parts = lines(added@);
        parts.append(&mut added);
        proof {
            assert(lines(parts@) =~= before.parts + new_parts);
            lemma_parts_total_add(before.parts, new_parts);
            law_parts_fit_entry(entry@, named);
        }
        assert(named.take(0).len() == 0);
        assert(texts(missing_issues@) =~= before.missing_issues + unknown_issues(
            issue_models(table@),
            named.take(0),
        ));
        for i in 0..issues.len()
            invariant
                named == texts(issues@),
                texts(missing_issues@) == before.missing_issues + unknown_issues(
                    issue_models(table@),
                    named.take(i as int),
                ),
        {
            assert(named.take(i + 1).drop_last() =~= named.take(i as int));
            assert(named.take(i + 1).last() == issues@[i as int]@);
            let ghost sofar = texts(missing_issues@);
            if find_issue(table, &issues[i]).is_none() {
                missing_issues.push(issues[i].clone());
                assert(texts(missing_issues@) =~= sofar.push(issues@[i as int]@));
            }
            assert(texts(missing_issues@) =~= before.missing_issues + unknown_issues(
                issue_models(table@),
                named.take(i + 1),
            ));
        }
        assert(named.take(issues@.len() as int) =~= named);
    }
    Ok(Draft { total_duration, parts, missing_issues })
}

/// The draft of the entries at `chosen`, or why there is none.
pub open spec fn drafted(
    entries: Seq<EntryModel>,
    chosen: Seq<usize>,
    pattern: Seq<char>,
    sides: Map<u8, SideModel>,
    table: Seq<IssueModel>,
) -> Result<DraftModel, ErrorModel>
    decreases chosen.len(),
{
    if chosen.len() == 0 {
        Ok(
            DraftModel {
                total_duration: 0,
                parts: Seq::empty(),
                missing_issues: Seq::empty(),
            },
        )
    } else {
        match drafted(entries, chosen.drop_last(), pattern, sides, table) {
            Err(error) => Err(error),
            Ok(before) => {
                let entry = entries[chosen.last() as int];
                if before.total_duration + entry.entry.duration@ > max_nanos() {
                    Err(ErrorModel::TooLong)
                } else {
                    match regex_error(pattern) {
                        Some(message) => Err(ErrorModel::Pattern(message)),
                        None => before.with_entry(
                            entry,
                            note_keys(pattern, entry.description),
                            side_issue(sides, table, entry.entry.facet.index),
                            side_bookable(sides, entry.entry.facet.index),
                            table,
                        ),
                    }
                }
            },
        }
    }
}

/// The draft of the entries at `chosen`.
pub fn draft_bookings(
    entries: &Vec<MyEntry>,
    chosen: &Vec<usize>,
    rules: &BookingRules,
    table: &Vec<Entry>,
) -> (r: Result<Draft, BookingError>)
    requires
        forall|i: int| 0 <= i < entries@.len() ==> (#[trigger] entries@[i]).entry.wf(),
        forall|k: int| 0 <= k < chosen@.len() ==> #[trigger] chosen@[k] < entries@.len(),
    ensures
        ({
            let expected = drafted(
                models(entries@),
                chosen@,
                rules.booker_issue_regex@,
                info_map(rules.sides_additional_info@),
                issue_models(table@),
            );
            match r {
                Ok(draft) => expected == Ok::<DraftModel, ErrorModel>(draft@) && draft.wf(),
                Err(error) => expected == Err::<DraftModel, ErrorModel>(error@),
            }
        }),
{
    let ghost all = models(entries@);
    let ghost pattern = rules.booker_issue_regex@;
    let ghost sides = info_map(rules.sides_additional_info@);
    let ghost known = issue_models(table@);
    let mut draft = Draft {
        total_duration: Duration::from_secs(0),
        parts: Vec::new(),
        missing_issues: Vec::new(),
    };
    proof {
        assert(chosen@.take(0).len() == 0);
        assert(draft@ =~= (DraftModel {
            total_duration: 0,
            parts: Seq::empty(),
            missing_issues: Seq::empty(),
        }));
    }
    for k in 0..chosen.len()
        invariant
            all == models(entries@),
            pattern == rules.booker_issue_regex@,
            sides == info_map(rules.sides_additional_info@),
            known == issue_models(table@),
            forall|i: int| 0 <= i < entries@.len() ==> (#[trigger] entries@[i]).entry.wf(),
            forall|k: int| 0 <= k < chosen@.len() ==> #[trigger] chosen@[k] < entries@.len(),
            drafted(all, chosen@.take(k as int), pattern, sides, known) == Ok::<
                DraftModel,
                ErrorModel,
            >(draft@),
            draft.wf(),
    {
        proof {
            assert(chosen@.take(k + 1).drop_last() =~= chosen@.take(k as int));
            assert(chosen@.take(k + 1).last() == chosen@[k as int]);
            lemma_draft_error(all, chosen@, (k + 1) as nat, pattern, sides, known);
        }
        let entry = &entries[chosen[k]];
        assert(all[chosen@[k as int] as int] == entry@);
        if draft.total_duration.checked_add(&entry.entry.duration).is_none() {
            return Err(BookingError::TooLong);
        }
        let issues = match issue_keys(rules.booker_issue_regex.as_str(), &entry.description) {
            Ok(issues) => issues,
            Err(message) => {
                return Err(BookingError::Pattern(message));
            },
        };
        let (found, bookable): (Option<String>, bool) = match find_side(
            &rules.sides_additional_info,
            &entry.entry.facet,
        ) {
            Some(info) => {
                let found = match &info.jira_summary_regex {
                    Some(regex) => find_matching_issue(regex.as_str(), table),
                    None => None,
                };
                (found, info.bookable)
            },
            None => (None, true),
        };
        match add_entry(draft, entry, issues, found, bookable, table) {
            Ok(after) => {
                draft = after;
            },
            Err(error) => {
                return Err(error);
            },
        }
    }
    assert(chosen@.take(chosen@.len() as int) =~= chosen@);
    Ok(draft)
}

/// An error stays an error, whatever entries follow.
proof fn lemma_draft_error(
    entries: Seq<EntryModel>,
    chosen: Seq<usize>,
    n: nat,
    pattern: Seq<char>,
    sides: Map<u8, SideModel>,
    table: Seq<IssueModel>,
)
    requires
        n <= chosen.len(),
    ensures
        drafted(entries, chosen.take(n as int), pattern, sides, table) matches Err(error)
            ==> drafted(entries, chosen, pattern, sides, table) == Err::<DraftModel, ErrorModel>(
            error,
        ),
    decreases chosen.len() - n,
{
    if n == chosen.len() {
        assert(chosen.take(n as int) =~= chosen);
    } else {
        assert(chosen.take((n + 1) as int).drop_last() =~= chosen.take(n as int));
        lemma_draft_error(entries, chosen, n + 1, pattern, sides, table);
    }
}

/// How long the parts for one thing are together.
pub open spec fn duration_for(parts: Seq<BookingLine>, key: BookingKey) -> nat
    decreases parts.len(),
{
    if parts.len() == 0 {
        0
    } else {
        duration_for(parts.drop_last(), key) + if parts.last().0 == key {
            parts.last().1.duration
        } else {
            0
        }
    }
}

/// The entries that the parts for one thing come from, in order.
pub open spec fn entries_for(parts: Seq<BookingLine>, key: BookingKey) -> Seq<(u32, u32)>
    decreases parts.len(),
{
    if parts.len() == 0 {
        Seq::empty()
    } else if parts.last().0 == key {
        entries_for(parts.drop_last(), key) + parts.last().1.based_on_entries
    } else {
        entries_for(parts.drop_last(), key)
    }
}

/// Whether there is a part for something.
pub open spec fn occurs(parts: Seq<BookingLine>, key: BookingKey) -> bool {
    exists|i: int| 0 <= i < parts.len() && (#[trigger] parts[i]).0 == key
}

/// All parts for one thing, put together.
pub open spec fn together(parts: Seq<BookingLine>, key: BookingKey) -> BookingLine {
    (
        key,
        BookingModel {
            based_on_entries: entries_for(parts, key),
            duration: duration_for(parts, key),
            suggested_duration: None,
        },
    )
}

/// The bookings are those of all parts: one for each thing, in order.
pub open spec fn accumulates(bookings: Seq<BookingLine>, parts: Seq<BookingLine>) -> bool {
    &&& ordered(bookings)
    &&& forall|key: BookingKey| occurs(parts, key) ==> #[trigger] occurs(bookings, key)
    &&& forall|i: int|
        0 <= i < bookings.len() ==> occurs(parts, (#[trigger] bookings[i]).0) && bookings[i]
            == together(parts, bookings[i].0)
}

/// The parts for one thing are not longer together than all parts.
proof fn lemma_duration_for(parts: Seq<BookingLine>, key: BookingKey)
    ensures
        duration_for(parts, key) <= parts_total(parts),
        !occurs(parts, key) ==> duration_for(parts, key) == 0 && entries_for(parts, key)
            == Seq::<(u32, u32)>::empty(),
    decreases parts.len(),
{
    if parts.len() > 0 {
        let front = parts.drop_last();
        lemma_duration_for(front, key);
        if occurs(front, key) {
            let i = choose|i: int| 0 <= i < front.len() && (#[trigger] front[i]).0 == key;
            assert(parts[i].0 == key);
        }
        if parts.last().0 == key {
            assert(parts[parts.len() - 1].0 == key);
        }
    }
}

/// What occurs with one more part.
proof fn lemma_occurs_push(parts: Seq<BookingLine>, added: BookingLine, key: BookingKey)
    ensures
        occurs(parts.push(added), key) <==> occurs(parts, key) || added.0 == key,
{
    let after = parts.push(added);
    if occurs(parts, key) {
        let i = choose|i: int| 0 <= i < parts.len() && (#[trigger] parts[i]).0 == key;
        assert(after[i].0 == key);
    }
    if added.0 == key {
        assert(after[parts.len() as int].0 == key);
    }
    if occurs(after, key) {
        let i = choose|i: int| 0 <= i < after.len() && (#[trigger] after[i]).0 == key;
        assert(i < parts.len() ==> parts[i].0 == key);
    }
}

/// One more part for something that has a booking.
proof fn lemma_accumulate_update(
    bookings: Seq<BookingLine>,
    parts: Seq<BookingLine>,
    added: BookingLine,
    at: int,
)
    requires
        accumulates(bookings, parts),
        0 <= at < bookings.len(),
        bookings[at].0 == added.0,
    ensures
        accumulates(bookings.update(at, together(parts.push(added), added.0)), parts.push(added)),
{
    let more = parts.push(added);
    let after = bookings.update(at, together(more, added.0));
    assert(more.drop_last() =~= parts);
    assert forall|i: int, j: int| 0 <= i < j < after.len() implies (#[trigger] after[i]).0.before(
        (#[trigger] after[j]).0,
    ) by {
        assert(bookings[i].0.before(bookings[j].0));
    }
    assert forall|key: BookingKey| occurs(more, key) implies #[trigger] occurs(after, key) by {
        lemma_occurs_push(parts, added, key);
        if key == added.0 {
            assert(after[at].0 == key);
        } else {
            assert(occurs(bookings, key));
            let i = choose|i: int| 0 <= i < bookings.len() && (#[trigger] bookings[i]).0 == key;
            assert(after[i].0 == key);
        }
    }
    assert forall|i: int| 0 <= i < after.len() implies occurs(more, (#[trigger] after[i]).0)
        && after[i] == together(more, after[i].0) by {
        lemma_occurs_push(parts, added, after[i].0);
        if i != at {
            assert(after[i] == bookings[i]);
            lemma_key_order(added.0, added.0, added.0);
            assert(i < at ==> bookings[i].0.before(bookings[at].0));
            assert(at < i ==> bookings[at].0.before(bookings[i].0));
        }
    }
}

/// The first part for something.
proof fn lemma_accumulate_insert(
    bookings: Seq<BookingLine>,
    parts: Seq<BookingLine>,
    added: BookingLine,
    at: int,
)
    requires
        accumulates(bookings, parts),
        added.1.suggested_duration is None,
        0 <= at <= bookings.len(),
        forall|i: int| 0 <= i < at ==> (#[trigger] bookings[i]).0.before(added.0),
        at < bookings.len() ==> added.0.before(bookings[at].0),
    ensures
        accumulates(bookings.insert(at, added), parts.push(added)),
{
    let more = parts.push(added);
    let after = bookings.insert(at, added);
    let origin = |i: int| if i < at { i } else { i - 1 };
    assert(more.drop_last() =~= parts);
    assert forall|i: int| at <= i < bookings.len() implies added.0.before(
        (#[trigger] bookings[i]).0,
    ) by {
        if i > at {
            assert(bookings[at].0.before(bookings[i].0));
            lemma_key_order(added.0, bookings[at].0, bookings[i].0);
        }
    }
    assert(!occurs(parts, added.0)) by {
        if occurs(parts, added.0) {
            assert(occurs(bookings, added.0));
            let i = choose|i: int| 0 <= i < bookings.len() && (#[trigger] bookings[i]).0 == added.0;
            lemma_key_order(added.0, added.0, added.0);
        }
    }
    assert forall|i: int, j: int| 0 <= i < j < after.len() implies (#[trigger] after[i]).0.before(
        (#[trigger] after[j]).0,
    ) by {
        if i != at {
            assert(after[i] == bookings[origin(i)]);
        }
        if j != at {
            assert(after[j] == bookings[origin(j)]);
        }
        if i != at && j != at {
            assert(bookings[origin(i)].0.before(bookings[origin(j)].0));
        }
    }
    assert forall|key: BookingKey| occurs(more, key) implies #[trigger] occurs(after, key) by {
        lemma_occurs_push(parts, added, key);
        if key == added.0 {
            assert(after[at].0 == key);
        } else {
            assert(occurs(bookings, key));
            let i = choose|i: int| 0 <= i < bookings.len() && (#[trigger] bookings[i]).0 == key;
            assert(after[if i < at { i } else { i + 1 }].0 == key);
        }
    }
    assert forall|i: int| 0 <= i < after.len() implies occurs(more, (#[trigger] after[i]).0)
        && after[i] == together(more, after[i].0) by {
        lemma_occurs_push(parts, added, after[i].0);
        if i == at {
            lemma_duration_for(parts, added.0);
            assert(entries_for(more, added.0) =~= added.1.based_on_entries);
        } else {
            let k = origin(i);
            assert(after[i] == bookings[k]);
            assert(occurs(parts, bookings[k].0));
            assert(after[i].0 != added.0);
        }
    }
}

/// Puts the parts for each thing together.
pub fn accumulate(parts: Vec<(BookingType, Booking)>) -> (r: Vec<(BookingType, Booking)>)
    requires
        forall|i: int|
            0 <= i < parts@.len() ==> (#[trigger] parts@[i]).1.wf()
                && parts@[i].1.suggested_duration is None,
        parts_total(lines(parts@)) <= max_nanos(),
    ensures
        accumulates(lines(r@), lines(parts@)),
        forall|i: int| 0 <= i < r@.len() ==> (#[trigger] r@[i]).1.wf(),
{
    let ghost all = lines(parts@);
    let mut bookings: Vec<(BookingType, Booking)> = Vec::new();
    for piece in iter: parts
        invariant
            all == lines(iter.seq()),
            forall|i: int|
                0 <= i < iter.seq().len() ==> (#[trigger] iter.seq()[i]).1.wf()
                    && iter.seq()[i].1.suggested_duration is None,
            parts_total(all) <= max_nanos(),
            accumulates(lines(bookings@), all.take(iter.index() as int)),
            forall|i: int| 0 <= i < bookings@.len() ==> (#[trigger] bookings@[i]).1.wf(),
    {
        let ghost n = iter.index() as int;
        let ghost sofar = all.take(n);
        let ghost now = lines(bookings@);
        let ghost added = (piece.0@, piece.1@);
        proof {
            assert(piece == iter.seq()[n]);
            assert(all[n] == added);
            assert(all.take(n + 1) =~= sofar.push(added));
            assert(sofar.push(added).drop_last() =~= sofar);
            lemma_parts_total_take(all, (n + 1) as nat);
            lemma_duration_for(sofar.push(added), added.0);
        }
        let (booking_type, mut booking) = piece;
        let mut at: usize = 0;
        while at < bookings.len() && bookings[at].0.is_before(&booking_type)
            invariant
                lines(bookings@) == now,
                booking_type@ == added.0,
                at <= bookings@.len(),
                forall|i: int| 0 <= i < at ==> (#[trigger] now[i]).0.before(added.0),
            decreases bookings@.len() - at,
        {
            assert(now[at as int].0 == bookings@[at as int].0@);
            at += 1;
        }
        proof {
            if at < bookings@.len() {
                assert(now[at as int].0 == bookings@[at as int].0@);
                lemma_key_order(now[at as int].0, added.0, added.0);
            }
        }
        if at < bookings.len() && !booking_type.is_before(&bookings[at].0) {
            proof {
                assert(bookings@[at as int].1.wf());
                assert(now[at as int] == together(sofar, added.0));
                lemma_accumulate_update(now, sofar, added, at as int);
            }
            let sum = bookings[at].1.duration.checked_add(&booking.duration);
            let longer = match sum {
                Some(longer) => longer,
                None => booking.duration,
            };
            let ghost before = bookings@;
            bookings[at].1.based_on_entries.append(&mut booking.based_on_entries);
            bookings[at].1.duration = longer;
            proof {
                assert(bookings@[at as int].1@ =~= together(sofar.push(added), added.0).1);
                assert(lines(bookings@) =~= now.update(
                    at as int,
                    together(sofar.push(added), added.0),
                ));
                assert forall|i: int| 0 <= i < bookings@.len() implies (
                #[trigger] bookings@[i]).1.wf() by {
                    assert(before[i].1.wf());
                }
            }
        } else {
            proof {
                lemma_accumulate_insert(now, sofar, added, at as int);
            }
            bookings.insert(at, (booking_type, booking));
            assert(lines(bookings@) =~= now.insert(at as int, added));
        }
    }
    assert(all.take(all.len() as int) =~= all);
    bookings
}

/// The first parts are not longer together than all.
proof fn lemma_parts_total_take(parts: Seq<BookingLine>, n: nat)
    requires
        n <= parts.len(),
    ensures
        parts_total(parts.take(n as int)) <= parts_total(parts),
    decreases parts.len() - n,
{
    if n == parts.len() {
        assert(parts.take(n as int) =~= parts);
    } else {
        assert(parts.take((n + 1) as int).drop_last() =~= parts.take(n as int));
        lemma_parts_total_take(parts, n + 1);
    }
}

/// The draft of the bookings of a day. `issues` are those of the sprints that count on it; the
/// table of them comes with the draft.
pub fn get_bookings_for_date(
    app: &App,
    rules: &BookingRules,
    date: &Date,
    issues: Vec<Entry>,
) -> (r: Result<(Draft, Vec<Entry>), BookingError>)
    requires
        app.wf(),
        app.has_local_days(),
    ensures
        exists|days: Seq<Option<Date>>|
            {
                let table = extended(Seq::empty(), issue_models(issues@));
                let expected = drafted(
                    app@.entries,
                    places(days, *date),
                    rules.booker_issue_regex@,
                    info_map(rules.sides_additional_info@),
                    table,
                );
                &&& #[trigger] days_of(app@.entries, days)
                &&& match r {
                    Ok((draft, known)) => {
                        &&& expected == Ok::<DraftModel, ErrorModel>(draft@)
                        &&& draft.wf()
                        &&& issue_models(known@) == table
                        &&& unique_keys(table)
                    },
                    Err(error) => expected == Err::<DraftModel, ErrorModel>(error@),
                }
            },
{
    let days = app.local_days();
    let chosen = places_on(&days, date);
    let mut table: Vec<Entry> = Vec::new();
    assert(issue_models(table@) =~= Seq::empty());
    proof {
        law_table_keys_unique(Seq::empty(), issue_models(issues@));
        assert(days.len() <= usize::MAX);
        assert forall|k: int| 0 <= k < chosen@.len() implies #[trigger] chosen@[k]
            < app.entries@.len() by {
            lemma_places(days@, *date, k);
        }
        assert forall|i: int| 0 <= i < app.entries@.len() implies (
        #[trigger] app.entries@[i]).entry.wf() by {
            assert(app@.entries[i].entry.wf());
        }
    }
    extend_table(&mut table, issues);
    let drafted_bookings = draft_bookings(&app.entries, &chosen, rules, &table);
    proof {
        assert(days_of(app@.entries, days@));
    }
    match drafted_bookings {
        Ok(draft) => Ok((draft, table)),
        Err(error) => Err(error),
    }
}

/// The bookings of a day by its draft. `more` are the issues that were missing from the table,
/// as far as they were found.
pub fn finish_bookings(date: &Date, draft: Draft, table: Vec<Entry>, more: Vec<Entry>) -> (r:
    BookingDate)
    requires
        date.valid(),
        draft.wf(),
        unique_keys(issue_models(table@)),
    ensures
        r.wf(),
        r@.date == *date,
        r@.total_duration == draft@.total_duration,
        r@.actual_duration is None,
        r@.jira_data == extended(issue_models(table@), issue_models(more@)),
        accumulates(r@.bookings, draft@.parts),
        r@.list == keys(r@.bookings),
        r@.state == (ListState { offset: 0, selected: Some(0) }),
{
    proof {
        law_table_keys_unique(issue_models(table@), issue_models(more@));
        assert forall|i: int| 0 <= i < draft.parts@.len() implies (
        #[trigger] draft.parts@[i]).1.wf() && draft.parts@[i].1.suggested_duration is None by {
            assert(draft@.parts[i].1.suggested_duration is None);
        }
    }
    let bookings = accumulate(draft.parts);
    let mut jira_data = table;
    extend_table(&mut jira_data, more);
    let mut items: Vec<BookingType> = Vec::new();
    for i in 0..bookings.len()
        invariant
            type_keys(items@) == keys(lines(bookings@)).take(i as int),
    {
        let ghost sofar = items@;
        items.push(bookings[i].0.copy());
        assert(type_keys(items@) =~= type_keys(sofar).push(bookings@[i as int].0@));
        assert(type_keys(items@) =~= keys(lines(bookings@)).take(i + 1));
    }
    assert(keys(lines(bookings@)).take(bookings@.len() as int) =~= keys(lines(bookings@)));
    BookingDate {
        date: *date,
        total_duration: draft.total_duration,
        actual_duration: None,
        jira_data,
        suggested_bookings: bookings,
        booking_list: StatefulList::with_items(items, None),
    }
}

/// Bookings that put the same parts together are the same.
pub proof fn law_accumulation_unique(
    a: Seq<BookingLine>,
    b: Seq<BookingLine>,
    parts: Seq<BookingLine>,
)
    requires
        accumulates(a, parts),
        accumulates(b, parts),
    ensures
        a == b,
    decreases a.len(),
{
    lemma_accumulation_prefix(a, b, parts, a.len());
    lemma_accumulation_prefix(b, a, parts, b.len());
    assert(a =~= b);
}

/// Bookings that put the same parts together agree from the start on.
proof fn lemma_accumulation_prefix(
    a: Seq<BookingLine>,
    b: Seq<BookingLine>,
    parts: Seq<BookingLine>,
    n: nat,
)
    requires
        accumulates(a, parts),
        accumulates(b, parts),
        n <= a.len(),
    ensures
        n <= b.len(),
        forall|i: int| 0 <= i < n ==> #[trigger] a[i] == b[i],
    decreases n,
{
    if n > 0 {
        lemma_accumulation_prefix(a, b, parts, (n - 1) as nat);
        let last = n - 1;
        let key = a[last].0;
        assert(occurs(parts, key));
        assert(occurs(b, key));
        let j = choose|j: int| 0 <= j < b.len() && (#[trigger] b[j]).0 == key;
        if j < last {
            assert(a[j] == b[j]);
            assert(a[j].0.before(a[last].0));
            lemma_key_order(key, key, key);
        } else if j > last {
            let other = b[last].0;
            assert(occurs(parts, other));
            assert(occurs(a, other));
            let i = choose|i: int| 0 <= i < a.len() && (#[trigger] a[i]).0 == other;
            assert(b[last].0.before(b[j].0));
            if i < last {
                assert(a[i] == b[i]);
                assert(b[i].0.before(b[last].0));
                lemma_key_order(other, other, other);
            } else {
                assert(i > last ==> a[last].0.before(a[i].0));
                lemma_key_order(key, other, key);
            }
        }
        assert(a[last] == together(parts, key));
        assert(b[last] == together(parts, key));
    }
}

/// How long the parts for the listed things are together.
pub open spec fn duration_for_all(listed: Seq<BookingKey>, parts: Seq<BookingLine>) -> nat
    decreases listed.len(),
{
    if listed.len() == 0 {
        0
    } else {
        duration_for_all(listed.drop_last(), parts) + duration_for(parts, listed.last())
    }
}

/// A part counts once, if it is for one of the listed things.
proof fn lemma_duration_for_all(listed: Seq<BookingKey>, parts: Seq<BookingLine>)
    requires
        parts.len() > 0,
        listed.no_duplicates(),
    ensures
        duration_for_all(listed, parts) == duration_for_all(listed, parts.drop_last()) + if listed.contains(
            parts.last().0,
        ) {
            parts.last().1.duration
        } else {
            0
        },
    decreases listed.len(),
{
    if listed.len() > 0 {
        let front = listed.drop_last();
        let key = parts.last().0;
        assert(front.no_duplicates());
        lemma_duration_for_all(front, parts);
        if front.contains(key) {
            let i = choose|i: int| 0 <= i < front.len() && front[i] == key;
            assert(listed[i] == key);
            assert(listed[i] != listed[listed.len() - 1]);
        }
        if listed.contains(key) && listed.last() != key {
            let i = choose|i: int| 0 <= i < listed.len() && listed[i] == key;
            assert(front[i] == key);
        }
        if listed.last() == key {
            assert(listed[listed.len() - 1] == key);
        }
    }
}

/// Parts are as long together as they are for all listed keys, if each key is listed once.
pub proof fn lemma_duration_for_listed(listed: Seq<BookingKey>, parts: Seq<BookingLine>)
    requires
        listed.no_duplicates(),
        forall|i: int| 0 <= i < parts.len() ==> listed.contains((#[trigger] parts[i]).0),
    ensures
        duration_for_all(listed, parts) == parts_total(parts),
    decreases parts.len(),
{
    if parts.len() == 0 {
        lemma_duration_for_none(listed, parts);
    } else {
        let front = parts.drop_last();
        assert forall|i: int| 0 <= i < front.len() implies listed.contains((#[trigger] front[i]).0) by {
            assert(listed.contains(parts[i].0));
        }
        lemma_duration_for_listed(listed, front);
        lemma_duration_for_all(listed, parts);
        assert(listed.contains(parts[parts.len() - 1].0));
    }
}

proof fn lemma_duration_for_none(listed: Seq<BookingKey>, parts: Seq<BookingLine>)
    requires
        parts.len() == 0,
    ensures
        duration_for_all(listed, parts) == 0,
    decreases listed.len(),
{
    if listed.len() > 0 {
        lemma_duration_for_none(listed.drop_last(), parts);
    }
}

/// Bookings that put parts together are as long as these are for their keys.
pub proof fn lemma_bookings_sum(bookings: Seq<BookingLine>, parts: Seq<BookingLine>)
    requires
        forall|i: int|
            0 <= i < bookings.len() ==> (#[trigger] bookings[i]).1.duration == duration_for(
                parts,
                bookings[i].0,
            ),
    ensures
        parts_total(bookings) == duration_for_all(keys(bookings), parts),
    decreases bookings.len(),
{
    if bookings.len() > 0 {
        let front = bookings.drop_last();
        assert forall|i: int| 0 <= i < front.len() implies (#[trigger] front[i]).1.duration
            == duration_for(parts, front[i].0) by {
            assert(bookings[i].1.duration == duration_for(parts, bookings[i].0));
        }
        lemma_bookings_sum(front, parts);
        assert(keys(bookings).drop_last() =~= keys(front));
        assert(bookings[bookings.len() - 1].1.duration == duration_for(
            parts,
            bookings[bookings.len() - 1].0,
        ));
    }
}

/// The keys of bookings that put parts together are those of the parts, each once.
pub proof fn lemma_accumulated_keys(bookings: Seq<BookingLine>, parts: Seq<BookingLine>)
    requires
        accumulates(bookings, parts),
    ensures
        keys(bookings).no_duplicates(),
        forall|i: int| 0 <= i < parts.len() ==> keys(bookings).contains((#[trigger] parts[i]).0),
{
    let listed = keys(bookings);
    assert forall|i: int, j: int| 0 <= i < listed.len() && 0 <= j < listed.len() && i != j implies listed[i]
        != listed[j] by {
        lemma_key_order(listed[i], listed[i], listed[i]);
        assert(i < j ==> bookings[i].0.before(bookings[j].0));
        assert(j < i ==> bookings[j].0.before(bookings[i].0));
    }
    assert forall|i: int| 0 <= i < parts.len() implies listed.contains((#[trigger] parts[i]).0) by {
        assert(occurs(parts, parts[i].0));
        assert(occurs(bookings, parts[i].0));
        let j = choose|j: int| 0 <= j < bookings.len() && (#[trigger] bookings[j]).0 == parts[i].0;
        assert(listed[j] == parts[i].0);
    }
}

/// Putting parts together loses no time.
pub proof fn law_accumulation_keeps_time(bookings: Seq<BookingLine>, parts: Seq<BookingLine>)
    requires
        accumulates(bookings, parts),
    ensures
        parts_total(bookings) == parts_total(parts),
{
    let listed = keys(bookings);
    lemma_accumulated_keys(bookings, parts);
    lemma_bookings_sum(bookings, parts);
    lemma_duration_for_listed(listed, parts);
}

/// Notes decide: where they name issues, the time goes to these, whatever is known of the side.
pub proof fn law_notes_decide(
    draft: DraftModel,
    entry: EntryModel,
    issues: Seq<Seq<char>>,
    found: Option<Seq<char>>,
    bookable: bool,
    table: Seq<IssueModel>,
    i: int,
)
    requires
        draft.with_entry(entry, issues, found, bookable, table) is Ok,
        0 <= i < issues.len(),
    ensures
        ({
            let after = draft.with_entry(entry, issues, found, bookable, table)->Ok_0;
            &&& after.parts.len() == draft.parts.len() + issues.len()
            &&& after.parts[draft.parts.len() + i].0 == BookingKey::Jira(issues[i])
            &&& after.parts[draft.parts.len() + i].1.based_on_entries[0].0 == entry.entry.id
        }),
{
    assert(named_parts(entry, issues)[i].0 == BookingKey::Jira(issues[i]));
}

/// A side stands for the first issue whose summary matches its pattern, and for none only if no
/// summary does.
pub proof fn law_side_stands_for_match(
    sides: Map<u8, SideModel>,
    issues: Seq<IssueModel>,
    facet: u8,
    pattern: Seq<char>,
)
    requires
        sides.contains_key(facet),
        sides[facet].jira_summary_regex == Some(pattern),
    ensures
        match side_issue(sides, issues, facet) {
            Some(key) => exists|i: int|
                {
                    &&& 0 <= i < issues.len()
                    &&& (#[trigger] issues[i]).key == key
                    &&& summary_matches(pattern, issues[i].summary)
                    &&& forall|j: int|
                        0 <= j < i ==> !summary_matches(pattern, (#[trigger] issues[j]).summary)
                },
            None => forall|j: int|
                0 <= j < issues.len() ==> !summary_matches(pattern, (#[trigger] issues[j]).summary),
        },
{
    let matches = matches_of(issues, pattern);
    lemma_first_true(matches);
    assert forall|j: int| 0 <= j < issues.len() implies #[trigger] matches[j] == summary_matches(
        pattern,
        issues[j].summary,
    ) by {}
    match first_true(matches) {
        Some(i) => {
            assert(matches[i]);
            assert(summary_matches(pattern, issues[i].summary));
            assert forall|j: int| 0 <= j < i implies !summary_matches(
                pattern,
                (#[trigger] issues[j]).summary,
            ) by {
                assert(!matches[j]);
            }
        },
        None => {
            assert forall|j: int| 0 <= j < issues.len() implies !summary_matches(
                pattern,
                (#[trigger] issues[j]).summary,
            ) by {
                assert(!matches[j]);
            }
        },
    }
}

proof fn lemma_first_true(list: Seq<bool>)
    ensures
        match first_true(list) {
            Some(i) => 0 <= i < list.len() && list[i] && forall|j: int|
                0 <= j < i ==> !#[trigger] list[j],
            None => forall|j: int| 0 <= j < list.len() ==> !#[trigger] list[j],
        },
    decreases list.len(),
{
    if list.len() > 0 {
        let front = list.drop_last();
        lemma_first_true(front);
        assert forall|j: int| 0 <= j < front.len() implies #[trigger] list[j] == front[j] by {}
    }
}

/// Exactly the issues that notes name and that are not known yet are asked for.
pub proof fn law_missing_issues(
    table: Seq<IssueModel>,
    issues: Seq<Seq<char>>,
    issue: Seq<char>,
)
    ensures
        unknown_issues(table, issues).contains(issue) <==> issues.contains(issue) && key_index(
            table,
            issue,
        ) is None,
    decreases issues.len(),
{
    let unknown = unknown_issues(table, issues);
    if issues.len() == 0 {
        assert(!unknown.contains(issue));
    } else {
        let front = issues.drop_last();
        let before = unknown_issues(table, front);
        law_missing_issues(table, front, issue);
        assert(issues =~= front.push(issues.last()));
        if front.contains(issue) {
            let i = choose|i: int| 0 <= i < front.len() && front[i] == issue;
            assert(issues[i] == issue);
        }
        if issues.contains(issue) && issues.last() != issue {
            let i = choose|i: int| 0 <= i < issues.len() && issues[i] == issue;
            assert(front[i] == issue);
        }
        if issues.last() == issue {
            assert(issues[issues.len() - 1] == issue);
        }
        if before.contains(issue) {
            let i = choose|i: int| 0 <= i < before.len() && before[i] == issue;
            assert(unknown[i] == issue);
        }
        if unknown.contains(issue) && issues.last() != issue {
            let i = choose|i: int| 0 <= i < unknown.len() && unknown[i] == issue;
            assert(before[i] == issue);
        }
        if key_index(table, issues.last()) is None {
            assert(unknown[before.len() as int] == issues.last());
        }
    }
}

/// How long entries are together.
pub open spec fn entries_total(entries: Seq<EntryModel>, chosen: Seq<usize>) -> nat
    decreases chosen.len(),
{
    if chosen.len() == 0 {
        0
    } else {
        entries_total(entries, chosen.drop_last()) + entries[chosen.last() as int].entry.duration@
    }
}

/// The total of a day is the time of all its entries, however they are booked.
pub proof fn law_draft_total(
    entries: Seq<EntryModel>,
    chosen: Seq<usize>,
    pattern: Seq<char>,
    sides: Map<u8, SideModel>,
    table: Seq<IssueModel>,
)
    requires
        drafted(entries, chosen, pattern, sides, table) is Ok,
    ensures
        drafted(entries, chosen, pattern, sides, table)->Ok_0.total_duration == entries_total(
            entries,
            chosen,
        ),
    decreases chosen.len(),
{
    if chosen.len() > 0 {
        law_draft_total(entries, chosen.drop_last(), pattern, sides, table);
    }
}

} // verus!
