//! How much of each entry goes into the bookings of a day.

use crate::app::{days_of, places};
use crate::booker::{lemma_key_index, IssueModel};
use crate::booking::{keys, lemma_key_order, BookingKey, BookingLine, BookingModel};
use crate::calendar::Date;
use crate::config::SideModel;
use crate::entries::{has_id, strictly_ascending, EntryModel};
use crate::patterns::{lowercase, note_keys, regex_error, regex_found, summary_matches};
use crate::suggestions::{
    accumulates, drafted, duration_for, entries_for, entries_total, law_accumulation_keeps_time,
    law_draft_total, law_side_stands_for_match, lemma_accumulated_keys, lemma_bookings_sum, lemma_duration_for_listed,
    lemma_parts_total_add, lemma_parts_total_equal, named_parts, occurs,
    parts_total, side_bookable, side_issue, together, unknown_issues, unnamed_part, DraftModel,
    ErrorModel,
};
use vstd::prelude::*;

verus! {

/// How often a share of an entry occurs in a list.
pub open spec fn times(list: Seq<(u32, u32)>, share: (u32, u32)) -> nat
    decreases list.len(),
{
    if list.len() == 0 {
        0
    } else {
        times(list.drop_last(), share) + if list.last() == share {
            1nat
        } else {
            0
        }
    }
}

/// How often a share of an entry occurs in all bookings together.
pub open spec fn occurrences(bookings: Seq<BookingLine>, share: (u32, u32)) -> nat
    decreases bookings.len(),
{
    if bookings.len() == 0 {
        0
    } else {
        occurrences(bookings.drop_last(), share) + times(
            bookings.last().1.based_on_entries,
            share,
        )
    }
}

/// How often a share of an entry is to occur whose notes name `issues` issues: once for each of
/// them, with the percent that falls to one, or once with all of it if there is none.
pub open spec fn entry_shares(entry: EntryModel, issues: nat, share: (u32, u32)) -> nat {
    if share.0 != entry.entry.id {
        0
    } else if issues == 0 {
        if share.1 == 100 {
            1
        } else {
            0
        }
    } else if share.1 == 100nat / issues {
        issues
    } else {
        0
    }
}

/// How often a share of an entry is to occur for the entries at `chosen`.
pub open spec fn chosen_shares(
    entries: Seq<EntryModel>,
    chosen: Seq<usize>,
    pattern: Seq<char>,
    share: (u32, u32),
) -> nat
    decreases chosen.len(),
{
    if chosen.len() == 0 {
        0
    } else {
        let entry = entries[chosen.last() as int];
        chosen_shares(entries, chosen.drop_last(), pattern, share) + entry_shares(
            entry,
            note_keys(pattern, entry.description).len(),
            share,
        )
    }
}

proof fn lemma_times_add(a: Seq<(u32, u32)>, b: Seq<(u32, u32)>, share: (u32, u32))
    ensures
        times(a + b, share) == times(a, share) + times(b, share),
    decreases b.len(),
{
    if b.len() == 0 {
        assert(a + b =~= a);
    } else {
        assert((a + b).drop_last() =~= a + b.drop_last());
        lemma_times_add(a, b.drop_last(), share);
    }
}

proof fn lemma_occurrences_add(a: Seq<BookingLine>, b: Seq<BookingLine>, share: (u32, u32))
    ensures
        occurrences(a + b, share) == occurrences(a, share) + occurrences(b, share),
    decreases b.len(),
{
    if b.len() == 0 {
        assert(a + b =~= a);
    } else {
        assert((a + b).drop_last() =~= a + b.drop_last());
        lemma_occurrences_add(a, b.drop_last(), share);
    }
}

/// The bookings with the number of times that a share occurs in each in the place of its length.
spec fn weighed(bookings: Seq<BookingLine>, share: (u32, u32)) -> Seq<BookingLine> {
    bookings.map_values(
        |b: BookingLine|
            (b.0, BookingModel { duration: times(b.1.based_on_entries, share), ..b.1 }),
    )
}

proof fn lemma_weighed_total(bookings: Seq<BookingLine>, share: (u32, u32))
    ensures
        parts_total(weighed(bookings, share)) == occurrences(bookings, share),
    decreases bookings.len(),
{
    if bookings.len() > 0 {
        lemma_weighed_total(bookings.drop_last(), share);
        assert(weighed(bookings, share).drop_last() =~= weighed(bookings.drop_last(), share));
    }
}

proof fn lemma_weighed_for(
    parts: Seq<BookingLine>,
    key: BookingKey,
    share: (u32, u32),
)
    ensures
        duration_for(weighed(parts, share), key) == times(entries_for(parts, key), share),
    decreases parts.len(),
{
    if parts.len() > 0 {
        let front = parts.drop_last();
        lemma_weighed_for(front, key, share);
        assert(weighed(parts, share).drop_last() =~= weighed(front, share));
        lemma_times_add(entries_for(front, key), parts.last().1.based_on_entries, share);
    }
}

/// Putting parts together loses no share and adds none.
pub proof fn law_accumulation_keeps_shares(
    bookings: Seq<BookingLine>,
    parts: Seq<BookingLine>,
    share: (u32, u32),
)
    requires
        accumulates(bookings, parts),
    ensures
        occurrences(bookings, share) == occurrences(parts, share),
{
    let heavy = weighed(bookings, share);
    let light = weighed(parts, share);
    lemma_accumulated_keys(bookings, parts);
    assert(keys(heavy) =~= keys(bookings));
    assert forall|i: int| 0 <= i < heavy.len() implies (#[trigger] heavy[i]).1.duration
        == duration_for(light, heavy[i].0) by {
        assert(bookings[i].1.based_on_entries == entries_for(parts, bookings[i].0));
        lemma_weighed_for(parts, bookings[i].0, share);
    }
    assert forall|i: int| 0 <= i < light.len() implies keys(heavy).contains(
        (#[trigger] light[i]).0,
    ) by {
        assert(keys(bookings).contains(parts[i].0));
    }
    lemma_bookings_sum(heavy, light);
    lemma_duration_for_listed(keys(heavy), light);
    lemma_weighed_total(bookings, share);
    lemma_weighed_total(parts, share);
}

/// Parts that all stand for one share hold it as often as there are parts.
proof fn lemma_equal_parts(parts: Seq<BookingLine>, one: (u32, u32), share: (u32, u32))
    requires
        forall|i: int|
            0 <= i < parts.len() ==> (#[trigger] parts[i]).1.based_on_entries == seq![one],
    ensures
        occurrences(parts, share) == if share == one {
            parts.len()
        } else {
            0
        },
    decreases parts.len(),
{
    if parts.len() > 0 {
        let front = parts.drop_last();
        assert forall|i: int| 0 <= i < front.len() implies (
        #[trigger] front[i]).1.based_on_entries == seq![one] by {
            assert(parts[i].1.based_on_entries == seq![one]);
        }
        lemma_equal_parts(front, one, share);
        assert(parts[parts.len() - 1].1.based_on_entries == seq![one]);
        reveal_with_fuel(times, 2);
    }
}

/// A draft holds the shares of the chosen entries.
proof fn lemma_drafted_shares(
    entries: Seq<EntryModel>,
    chosen: Seq<usize>,
    pattern: Seq<char>,
    sides: Map<u8, SideModel>,
    table: Seq<IssueModel>,
    share: (u32, u32),
)
    requires
        drafted(entries, chosen, pattern, sides, table) is Ok,
    ensures
        occurrences(drafted(entries, chosen, pattern, sides, table)->Ok_0.parts, share)
            == chosen_shares(entries, chosen, pattern, share),
    decreases chosen.len(),
{
    if chosen.len() > 0 {
        lemma_drafted_shares(entries, chosen.drop_last(), pattern, sides, table, share);
        let before = drafted(entries, chosen.drop_last(), pattern, sides, table)->Ok_0;
        let after = drafted(entries, chosen, pattern, sides, table)->Ok_0;
        let entry = entries[chosen.last() as int];
        let issues = note_keys(pattern, entry.description);
        if issues.len() == 0 {
            let added = after.parts.last();
            assert(after.parts =~= before.parts + seq![added]);
            lemma_occurrences_add(before.parts, seq![added], share);
            lemma_equal_parts(seq![added], (entry.entry.id, 100u32), share);
        } else {
            let added = named_parts(entry, issues);
            lemma_occurrences_add(before.parts, added, share);
            lemma_equal_parts(added, (entry.entry.id, (100nat / issues.len()) as u32), share);
            assert(100nat / issues.len() <= 100) by (nonlinear_arith)
                requires
                    issues.len() > 0,
            ;
        }
    }
}

/// Of the entries of a day, one alone has the id.
proof fn lemma_chosen_shares(
    entries: Seq<EntryModel>,
    days: Seq<Option<Date>>,
    date: Date,
    pattern: Seq<char>,
    share: (u32, u32),
)
    requires
        strictly_ascending(entries),
        days.len() <= entries.len(),
        days.len() <= usize::MAX,
    ensures
        forall|i: int|
            0 <= i < days.len() && (#[trigger] entries[i]).entry.id == share.0 ==> chosen_shares(
                entries,
                places(days, date),
                pattern,
                share,
            ) == if days[i] == Some(date) {
                entry_shares(entries[i], note_keys(pattern, entries[i].description).len(), share)
            } else {
                0
            },
        (forall|i: int| 0 <= i < days.len() ==> (#[trigger] entries[i]).entry.id != share.0)
            ==> chosen_shares(entries, places(days, date), pattern, share) == 0,
    decreases days.len(),
{
    if days.len() > 0 {
        let front = days.drop_last();
        let last = days.len() - 1;
        lemma_chosen_shares(entries, front, date, pattern, share);
        if days.last() == Some(date) {
            assert(places(days, date).drop_last() =~= places(front, date));
        }
        assert forall|i: int|
            0 <= i < days.len() && (#[trigger] entries[i]).entry.id
                == share.0 implies chosen_shares(entries, places(days, date), pattern, share)
            == if days[i] == Some(date) {
            entry_shares(entries[i], note_keys(pattern, entries[i].description).len(), share)
        } else {
            0
        } by {
            if i < last {
                assert(entries[i].entry.id < entries[last].entry.id);
                assert(front[i] == days[i]);
            } else {
                assert forall|k: int| 0 <= k < front.len() implies (
                #[trigger] entries[k]).entry.id != share.0 by {
                    assert(entries[k].entry.id < entries[last].entry.id);
                }
            }
        }
        if forall|i: int| 0 <= i < days.len() ==> (#[trigger] entries[i]).entry.id != share.0 {
            assert(entries[last].entry.id != share.0);
        }
    }
}

/// Over all bookings of a day, an entry of the day occurs once for each issue that its notes
/// name, repeats counted, each time with the percent that falls to one; and once with all of it
/// where they name none. An entry of another day, or one that does not count, does not occur, nor
/// does anything that is no entry.
pub proof fn law_entry_shares(
    entries: Seq<EntryModel>,
    days: Seq<Option<Date>>,
    date: Date,
    pattern: Seq<char>,
    sides: Map<u8, SideModel>,
    table: Seq<IssueModel>,
    bookings: Seq<BookingLine>,
    share: (u32, u32),
)
    requires
        strictly_ascending(entries),
        entries.len() <= usize::MAX,
        days_of(entries, days),
        drafted(entries, places(days, date), pattern, sides, table) is Ok,
        accumulates(
            bookings,
            drafted(entries, places(days, date), pattern, sides, table)->Ok_0.parts,
        ),
    ensures
        forall|i: int|
            0 <= i < entries.len() && (#[trigger] entries[i]).entry.id == share.0
                ==> occurrences(bookings, share) == if entries[i].counts() && days[i] == Some(
                date,
            ) {
                entry_shares(entries[i], note_keys(pattern, entries[i].description).len(), share)
            } else {
                0
            },
        !has_id(entries, share.0) ==> occurrences(bookings, share) == 0,
{
    let parts = drafted(entries, places(days, date), pattern, sides, table)->Ok_0.parts;
    law_accumulation_keeps_shares(bookings, parts, share);
    lemma_drafted_shares(entries, places(days, date), pattern, sides, table, share);
    lemma_chosen_shares(entries, days, date, pattern, share);
    assert forall|i: int|
        0 <= i < entries.len() && (#[trigger] entries[i]).entry.id == share.0 implies (days[i]
        == Some(date) ==> entries[i].counts()) by {
        assert(days[i] is Some || days[i] is None);
    }
}

/// Whether the length of an entry can be divided among the issues that its notes name.
pub open spec fn divides(entry: EntryModel, pattern: Seq<char>) -> bool {
    let issues = note_keys(pattern, entry.description).len();
    issues > 0 ==> entry.entry.duration@ % issues == 0
}

proof fn lemma_drafted_total(
    entries: Seq<EntryModel>,
    chosen: Seq<usize>,
    pattern: Seq<char>,
    sides: Map<u8, SideModel>,
    table: Seq<IssueModel>,
)
    requires
        drafted(entries, chosen, pattern, sides, table) is Ok,
        forall|k: int|
            0 <= k < chosen.len() ==> divides(entries[#[trigger] chosen[k] as int], pattern),
    ensures
        parts_total(drafted(entries, chosen, pattern, sides, table)->Ok_0.parts) == entries_total(
            entries,
            chosen,
        ),
    decreases chosen.len(),
{
    if chosen.len() > 0 {
        let front = chosen.drop_last();
        assert forall|k: int| 0 <= k < front.len() implies divides(
            entries[#[trigger] front[k] as int],
            pattern,
        ) by {
            assert(divides(entries[chosen[k] as int], pattern));
        }
        lemma_drafted_total(entries, front, pattern, sides, table);
        let before = drafted(entries, front, pattern, sides, table)->Ok_0;
        let after = drafted(entries, chosen, pattern, sides, table)->Ok_0;
        let entry = entries[chosen.last() as int];
        assert(divides(entries[chosen[chosen.len() - 1] as int], pattern));
        let issues = note_keys(pattern, entry.description);
        let length = entry.entry.duration@;
        if issues.len() == 0 {
            assert(after.parts.drop_last() =~= before.parts);
        } else {
            let n = issues.len();
            lemma_parts_total_add(before.parts, named_parts(entry, issues));
            lemma_parts_total_equal(named_parts(entry, issues), length / n);
            assert(n * (length / n) == length) by (nonlinear_arith)
                requires
                    n > 0,
                    length % n == 0,
            ;
        }
    }
}

/// Where each entry can be divided among its issues, the bookings of a day are as long together
/// as its entries.
pub proof fn law_bookings_sum_to_total(
    entries: Seq<EntryModel>,
    chosen: Seq<usize>,
    pattern: Seq<char>,
    sides: Map<u8, SideModel>,
    table: Seq<IssueModel>,
    bookings: Seq<BookingLine>,
)
    requires
        drafted(entries, chosen, pattern, sides, table) is Ok,
        accumulates(bookings, drafted(entries, chosen, pattern, sides, table)->Ok_0.parts),
        forall|k: int|
            0 <= k < chosen.len() ==> divides(entries[#[trigger] chosen[k] as int], pattern),
    ensures
        parts_total(bookings) == entries_total(entries, chosen),
        parts_total(bookings) == drafted(
            entries,
            chosen,
            pattern,
            sides,
            table,
        )->Ok_0.total_duration,
{
    let parts = drafted(entries, chosen, pattern, sides, table)->Ok_0.parts;
    law_accumulation_keeps_time(bookings, parts);
    lemma_drafted_total(entries, chosen, pattern, sides, table);
    law_draft_total(entries, chosen, pattern, sides, table);
}

proof fn lemma_places_some(days: Seq<Option<Date>>, date: Date)
    ensures
        places(days, date).len() > 0 <==> days.contains(Some(date)),
    decreases days.len(),
{
    if days.len() > 0 {
        let front = days.drop_last();
        lemma_places_some(front, date);
        if front.contains(Some(date)) {
            let i = choose|i: int| 0 <= i < front.len() && front[i] == Some(date);
            assert(days[i] == Some(date));
        }
        if days.contains(Some(date)) && days.last() != Some(date) {
            let i = choose|i: int| 0 <= i < days.len() && days[i] == Some(date);
            assert(front[i] == Some(date));
        }
        if days.last() == Some(date) {
            assert(days[days.len() - 1] == Some(date));
        }
    }
}

proof fn lemma_drafted_some(
    entries: Seq<EntryModel>,
    chosen: Seq<usize>,
    pattern: Seq<char>,
    sides: Map<u8, SideModel>,
    table: Seq<IssueModel>,
)
    requires
        drafted(entries, chosen, pattern, sides, table) is Ok,
    ensures
        drafted(entries, chosen, pattern, sides, table)->Ok_0.parts.len() >= chosen.len(),
        chosen.len() == 0 ==> drafted(entries, chosen, pattern, sides, table)->Ok_0.parts.len()
            == 0,
    decreases chosen.len(),
{
    if chosen.len() > 0 {
        lemma_drafted_some(entries, chosen.drop_last(), pattern, sides, table);
    }
}

/// A day is offered for booking exactly if there are bookings on it. `dates` are the days that
/// are offered: those of `days`.
pub proof fn law_offered_days_have_bookings(
    entries: Seq<EntryModel>,
    days: Seq<Option<Date>>,
    dates: Seq<Date>,
    date: Date,
    pattern: Seq<char>,
    sides: Map<u8, SideModel>,
    table: Seq<IssueModel>,
    bookings: Seq<BookingLine>,
)
    requires
        days_of(entries, days),
        forall|d: Date| #[trigger] dates.contains(d) <==> days.contains(Some(d)),
        drafted(entries, places(days, date), pattern, sides, table) is Ok,
        accumulates(
            bookings,
            drafted(entries, places(days, date), pattern, sides, table)->Ok_0.parts,
        ),
    ensures
        dates.contains(date) <==> bookings.len() > 0,
{
    let parts = drafted(entries, places(days, date), pattern, sides, table)->Ok_0.parts;
    lemma_places_some(days, date);
    lemma_drafted_some(entries, places(days, date), pattern, sides, table);
    if parts.len() > 0 {
        assert(occurs(parts, parts[0].0));
        assert(occurs(bookings, parts[0].0));
    }
    if bookings.len() > 0 {
        assert(occurs(parts, bookings[0].0));
    }
}

/// Whether an issue is the first whose summary the pattern is found in, in lower case.
pub open spec fn first_found(table: Seq<IssueModel>, pattern: Seq<char>, i: int) -> bool {
    &&& 0 <= i < table.len()
    &&& regex_found(pattern, lowercase(table[i].summary))
    &&& forall|j: int|
        0 <= j < i ==> !regex_found(pattern, lowercase((#[trigger] table[j]).summary))
}

/// Whether a part is what an entry is to be booked as whose notes name no issue: all of it, on
/// the first issue whose summary matches the pattern of its side, or else on the side.
pub open spec fn booked_by_side(
    part: BookingLine,
    entry: EntryModel,
    sides: Map<u8, SideModel>,
    table: Seq<IssueModel>,
) -> bool {
    let facet = entry.entry.facet.index;
    &&& part.1.based_on_entries == seq![(entry.entry.id, 100u32)]
    &&& part.1.duration == entry.entry.duration@
    &&& part.1.suggested_duration is None
    &&& if sides.contains_key(facet) && sides[facet].jira_summary_regex is Some && exists|i: int|
        first_found(table, sides[facet].jira_summary_regex->0, i) {
        exists|i: int|
            #[trigger] first_found(table, sides[facet].jira_summary_regex->0, i) && part.0
                == BookingKey::Jira(table[i].key)
    } else {
        part.0 == BookingKey::Unknown(facet, sides.contains_key(facet) ==> sides[facet].bookable)
    }
}

/// Whether a part is one of those that an entry is to be booked as whose notes name issues: the
/// share of one of them, on that issue.
pub open spec fn booked_by_notes(
    part: BookingLine,
    entry: EntryModel,
    issue: Seq<char>,
    issues: nat,
) -> bool {
    &&& part.0 == BookingKey::Jira(issue)
    &&& part.1.based_on_entries == seq![(entry.entry.id, (100nat / issues) as u32)]
    &&& part.1.duration == entry.entry.duration@ / issues
    &&& part.1.suggested_duration is None
}

proof fn lemma_side_part(
    entry: EntryModel,
    sides: Map<u8, SideModel>,
    table: Seq<IssueModel>,
)
    ensures
        booked_by_side(
            unnamed_part(
                entry,
                side_issue(sides, table, entry.entry.facet.index),
                side_bookable(sides, entry.entry.facet.index),
            ),
            entry,
            sides,
            table,
        ),
{
    let facet = entry.entry.facet.index;
    if sides.contains_key(facet) && sides[facet].jira_summary_regex is Some {
        let pattern = sides[facet].jira_summary_regex->0;
        law_side_stands_for_match(sides, table, facet, pattern);
        match side_issue(sides, table, facet) {
            Some(key) => {
                let i = choose|i: int|
                    {
                        &&& 0 <= i < table.len()
                        &&& (#[trigger] table[i]).key == key
                        &&& summary_matches(pattern, table[i].summary)
                        &&& forall|j: int|
                            0 <= j < i ==> !summary_matches(pattern, (#[trigger] table[j]).summary)
                    };
                assert(first_found(table, pattern, i));
            },
            None => {
                assert forall|i: int| !#[trigger] first_found(table, pattern, i) by {
                    if 0 <= i < table.len() {
                        assert(!summary_matches(pattern, table[i].summary));
                    }
                }
            },
        }
    }
}

/// One more entry in a draft adds its length to the total and its parts behind those before it:
/// where its notes name issues, one for each, whatever is known of its side; where they name
/// none, and whatever else they say, one that its side decides on. Of the issues that are named,
/// those that are not known are missing, and no others.
pub proof fn law_draft_adds_entry(
    entries: Seq<EntryModel>,
    chosen: Seq<usize>,
    pattern: Seq<char>,
    sides: Map<u8, SideModel>,
    table: Seq<IssueModel>,
)
    requires
        chosen.len() > 0,
        drafted(entries, chosen, pattern, sides, table) is Ok,
    ensures
        drafted(entries, chosen.drop_last(), pattern, sides, table) is Ok,
        ({
            let before = drafted(entries, chosen.drop_last(), pattern, sides, table)->Ok_0;
            let after = drafted(entries, chosen, pattern, sides, table)->Ok_0;
            let entry = entries[chosen.last() as int];
            let issues = note_keys(pattern, entry.description);
            let old = before.parts.len();
            let missing = before.missing_issues.len();
            &&& after.total_duration == before.total_duration + entry.entry.duration@
            &&& after.parts.len() == old + if issues.len() == 0 {
                1
            } else {
                issues.len()
            }
            &&& forall|i: int| 0 <= i < old ==> #[trigger] after.parts[i] == before.parts[i]
            &&& issues.len() == 0 ==> booked_by_side(after.parts.last(), entry, sides, table)
            &&& forall|j: int|
                0 <= j < issues.len() ==> booked_by_notes(
                    after.parts[old + j],
                    entry,
                    #[trigger] issues[j],
                    issues.len(),
                )
            &&& after.missing_issues.take(missing as int) == before.missing_issues
            &&& after.missing_issues.skip(missing as int) == issues.filter(
                |issue: Seq<char>| not_in_table(table, issue),
            )
        }),
{
    let before = drafted(entries, chosen.drop_last(), pattern, sides, table)->Ok_0;
    let after = drafted(entries, chosen, pattern, sides, table)->Ok_0;
    let entry = entries[chosen.last() as int];
    let issues = note_keys(pattern, entry.description);
    lemma_side_part(entry, sides, table);
    lemma_unknown_filter(table, issues);
    let missing = before.missing_issues.len() as int;
    assert(after.missing_issues.take(missing) =~= before.missing_issues);
    if issues.len() > 0 {
        assert(after.missing_issues.skip(missing) =~= unknown_issues(table, issues));
        assert forall|j: int| 0 <= j < issues.len() implies booked_by_notes(
            after.parts[before.parts.len() + j],
            entry,
            #[trigger] issues[j],
            issues.len(),
        ) by {
            assert(after.parts[before.parts.len() + j] == named_parts(entry, issues)[j]);
        }
    } else {
        assert(after.missing_issues.skip(missing) =~= Seq::empty());
        assert(issues =~= Seq::empty());
    }
}

/// Whether no issue in the table has the key.
pub open spec fn not_in_table(table: Seq<IssueModel>, key: Seq<char>) -> bool {
    forall|i: int| 0 <= i < table.len() ==> (#[trigger] table[i]).key != key
}

proof fn lemma_unknown_filter(table: Seq<IssueModel>, issues: Seq<Seq<char>>)
    ensures
        unknown_issues(table, issues) == issues.filter(
            |issue: Seq<char>| not_in_table(table, issue),
        ),
    decreases issues.len(),
{
    reveal(Seq::filter);
    if issues.len() > 0 {
        lemma_unknown_filter(table, issues.drop_last());
        lemma_key_index(table, issues.last());
    }
}

/// Whatever entries follow, a draft holds for each chosen entry what it is to be booked as.
pub proof fn law_draft_holds_all_entries(
    entries: Seq<EntryModel>,
    chosen: Seq<usize>,
    pattern: Seq<char>,
    sides: Map<u8, SideModel>,
    table: Seq<IssueModel>,
    k: int,
)
    requires
        0 <= k < chosen.len(),
        drafted(entries, chosen, pattern, sides, table) is Ok,
    ensures
        ({
            let parts = drafted(entries, chosen, pattern, sides, table)->Ok_0.parts;
            let entry = entries[chosen[k] as int];
            let issues = note_keys(pattern, entry.description);
            &&& issues.len() == 0 ==> exists|p: int|
                0 <= p < parts.len() && booked_by_side(#[trigger] parts[p], entry, sides, table)
            &&& forall|j: int|
                0 <= j < issues.len() ==> exists|p: int|
                    0 <= p < parts.len() && booked_by_notes(
                        #[trigger] parts[p],
                        entry,
                        #[trigger] issues[j],
                        issues.len(),
                    )
        }),
    decreases chosen.len(),
{
    law_draft_adds_entry(entries, chosen, pattern, sides, table);
    let front = chosen.drop_last();
    let before = drafted(entries, front, pattern, sides, table)->Ok_0.parts;
    let parts = drafted(entries, chosen, pattern, sides, table)->Ok_0.parts;
    let entry = entries[chosen[k] as int];
    let issues = note_keys(pattern, entry.description);
    if k < front.len() {
        law_draft_holds_all_entries(entries, front, pattern, sides, table, k);
        assert(front[k] == chosen[k]);
        if issues.len() == 0 {
            let p = choose|p: int|
                0 <= p < before.len() && booked_by_side(#[trigger] before[p], entry, sides, table);
            assert(parts[p] == before[p]);
        }
        assert forall|j: int| 0 <= j < issues.len() implies exists|p: int|
            0 <= p < parts.len() && booked_by_notes(
                #[trigger] parts[p],
                entry,
                #[trigger] issues[j],
                issues.len(),
            ) by {
            let p = choose|p: int|
                0 <= p < before.len() && booked_by_notes(
                    #[trigger] before[p],
                    entry,
                    issues[j],
                    issues.len(),
                );
            assert(parts[p] == before[p]);
        }
    } else {
        if issues.len() == 0 {
            assert(booked_by_side(parts[parts.len() - 1], entry, sides, table));
        }
        assert forall|j: int| 0 <= j < issues.len() implies exists|p: int|
            0 <= p < parts.len() && booked_by_notes(
                #[trigger] parts[p],
                entry,
                #[trigger] issues[j],
                issues.len(),
            ) by {
            assert(booked_by_notes(parts[before.len() + j], entry, issues[j], issues.len()));
        }
    }
}

/// A draft starts from nothing. It fails only for a total that is too long, for a pattern that
/// does not compile, or for more issues in one entry than a `u32` counts; in this order, and for
/// the first entry that gives rise to it.
pub proof fn law_draft_errors(
    entries: Seq<EntryModel>,
    chosen: Seq<usize>,
    pattern: Seq<char>,
    sides: Map<u8, SideModel>,
    table: Seq<IssueModel>,
)
    ensures
        ({
            let result = drafted(entries, chosen, pattern, sides, table);
            if chosen.len() == 0 {
                result is Ok && result->Ok_0.total_duration == 0 && result->Ok_0.parts.len() == 0
                    && result->Ok_0.missing_issues.len() == 0
            } else {
                let entry = entries[chosen.last() as int];
                match drafted(entries, chosen.drop_last(), pattern, sides, table) {
                    Err(error) => result == Err::<DraftModel, ErrorModel>(error),
                    Ok(before) => if before.total_duration + entry.entry.duration@ > u64::MAX
                        * 1_000_000_000 + 999_999_999 {
                        result == Err::<DraftModel, ErrorModel>(ErrorModel::TooLong)
                    } else if regex_error(pattern) is Some {
                        result == Err::<DraftModel, ErrorModel>(
                            ErrorModel::Pattern(regex_error(pattern)->0),
                        )
                    } else if note_keys(pattern, entry.description).len() > 0xffff_ffff {
                        result == Err::<DraftModel, ErrorModel>(ErrorModel::TooManyIssues)
                    } else {
                        result is Ok
                    },
                }
            }
        }),
{
}

/// The bookings of a day with one more part: what is booked on the same thing grows by it, behind
/// what was there, or begins with it; everything else stays, and nothing is suggested.
pub proof fn law_accumulation_adds_part(
    before: Seq<BookingLine>,
    after: Seq<BookingLine>,
    parts: Seq<BookingLine>,
    added: BookingLine,
)
    requires
        accumulates(before, parts),
        accumulates(after, parts.push(added)),
    ensures
        forall|i: int|
            0 <= i < after.len() ==> (#[trigger] after[i]).1.suggested_duration is None,
        forall|i: int|
            0 <= i < before.len() && (#[trigger] before[i]).0 != added.0 ==> after.contains(
                before[i],
            ),
        forall|i: int|
            0 <= i < after.len() && (#[trigger] after[i]).0 != added.0 ==> before.contains(after[i]),
        exists|i: int| 0 <= i < after.len() && (#[trigger] after[i]).0 == added.0,
        forall|i: int, j: int|
            #![trigger after[i], before[j]]
            0 <= i < after.len() && 0 <= j < before.len() && after[i].0 == added.0 && before[j].0
                == added.0 ==> after[i].1.duration == before[j].1.duration + added.1.duration
                && after[i].1.based_on_entries == before[j].1.based_on_entries
                + added.1.based_on_entries,
        (forall|j: int| 0 <= j < before.len() ==> (#[trigger] before[j]).0 != added.0)
            ==> forall|i: int|
            0 <= i < after.len() && (#[trigger] after[i]).0 == added.0 ==> after[i].1.duration
                == added.1.duration && after[i].1.based_on_entries == added.1.based_on_entries,
{
    let more = parts.push(added);
    assert(more.drop_last() =~= parts);
    assert forall|key: BookingKey| occurs(more, key) <==> #[trigger] occurs(parts, key) || key
        == added.0 by {
        if occurs(parts, key) {
            let i = choose|i: int| 0 <= i < parts.len() && (#[trigger] parts[i]).0 == key;
            assert(more[i].0 == key);
        }
        if occurs(more, key) && key != added.0 {
            let i = choose|i: int| 0 <= i < more.len() && (#[trigger] more[i]).0 == key;
            assert(parts[i].0 == key);
        }
        assert(more[parts.len() as int].0 == added.0);
    }
    assert forall|i: int| 0 <= i < before.len() && (#[trigger] before[i]).0
        != added.0 implies after.contains(before[i]) by {
        let key = before[i].0;
        assert(occurs(parts, key));
        assert(occurs(after, key));
        let j = choose|j: int| 0 <= j < after.len() && (#[trigger] after[j]).0 == key;
        assert(after[j] == together(more, key));
        assert(before[i] == together(parts, key));
        assert(after[j] == before[i]);
    }
    assert forall|i: int| 0 <= i < after.len() && (#[trigger] after[i]).0
        != added.0 implies before.contains(after[i]) by {
        let key = after[i].0;
        assert(occurs(more, key));
        assert(occurs(parts, key));
        assert(occurs(before, key));
        let j = choose|j: int| 0 <= j < before.len() && (#[trigger] before[j]).0 == key;
        assert(before[j] == after[i]);
    }
    assert(occurs(parts, added.0) || !occurs(parts, added.0));
    assert(occurs(after, added.0));
    if forall|j: int| 0 <= j < before.len() ==> (#[trigger] before[j]).0 != added.0 {
        assert(!occurs(before, added.0));
        assert(!occurs(parts, added.0));
        lemma_nothing_for(parts, added.0);
        assert(Seq::<(u32, u32)>::empty() + added.1.based_on_entries
            =~= added.1.based_on_entries);
    }
}

proof fn lemma_nothing_for(parts: Seq<BookingLine>, key: BookingKey)
    requires
        !occurs(parts, key),
    ensures
        duration_for(parts, key) == 0,
        entries_for(parts, key) == Seq::<(u32, u32)>::empty(),
    decreases parts.len(),
{
    if parts.len() > 0 {
        let front = parts.drop_last();
        assert(parts[parts.len() - 1].0 != key);
        if occurs(front, key) {
            let i = choose|i: int| 0 <= i < front.len() && (#[trigger] front[i]).0 == key;
            assert(parts[i].0 == key);
        }
        lemma_nothing_for(front, key);
    }
}

/// Without parts there are no bookings, and with any there are no two on one thing.
pub proof fn law_accumulation_order(bookings: Seq<BookingLine>, parts: Seq<BookingLine>)
    requires
        accumulates(bookings, parts),
    ensures
        parts.len() == 0 ==> bookings.len() == 0,
        forall|i: int, j: int|
            0 <= i < j < bookings.len() ==> (#[trigger] bookings[i]).0 != (
            #[trigger] bookings[j]).0 && bookings[i].0.before(bookings[j].0),
{
    if bookings.len() > 0 {
        assert(occurs(parts, bookings[0].0));
    }
    assert forall|i: int, j: int| 0 <= i < j < bookings.len() implies (#[trigger] bookings[i]).0
        != (#[trigger] bookings[j]).0 && bookings[i].0.before(bookings[j].0) by {
        lemma_key_order(bookings[i].0, bookings[i].0, bookings[i].0);
    }
}

/// The entries of a day are those that the zone has begin on it, each once and in order.
pub proof fn law_places_of_day(days: Seq<Option<Date>>, date: Date)
    requires
        days.len() <= usize::MAX,
    ensures
        forall|i: int, j: int|
            0 <= i < j < places(days, date).len() ==> #[trigger] places(days, date)[i]
                < #[trigger] places(days, date)[j],
        forall|i: int|
            0 <= i < days.len() ==> (#[trigger] days[i] == Some(date) <==> places(
                days,
                date,
            ).contains(i as usize)),
        forall|k: int|
            0 <= k < places(days, date).len() ==> #[trigger] places(days, date)[k] < days.len(),
    decreases days.len(),
{
    if days.len() > 0 {
        let front = days.drop_last();
        law_places_of_day(front, date);
        let before = places(front, date);
        let all = places(days, date);
        let last = (days.len() - 1) as usize;
        assert forall|i: int| 0 <= i < days.len() implies (#[trigger] days[i] == Some(date)
            <==> all.contains(i as usize)) by {
            if i < last {
                assert(front[i] == days[i]);
                if before.contains(i as usize) {
                    let k = choose|k: int| 0 <= k < before.len() && before[k] == i as usize;
                    assert(all[k] == i as usize);
                }
                if all.contains(i as usize) {
                    let k = choose|k: int| 0 <= k < all.len() && all[k] == i as usize;
                    assert(before[k] == i as usize);
                }
            } else {
                if days[i] == Some(date) {
                    assert(all[before.len() as int] == last);
                }
                if all.contains(last) && days[i] != Some(date) {
                    let k = choose|k: int| 0 <= k < all.len() && all[k] == last;
                    assert(before[k] < front.len());
                }
            }
        }
    }
}

/// Exactly the entries that are not deleted and longer than half a minute have a day.
pub proof fn law_days_of_counted(entries: Seq<EntryModel>, days: Seq<Option<Date>>, i: int)
    requires
        days_of(entries, days),
        0 <= i < entries.len(),
    ensures
        days[i] is Some <==> !entries[i].deleted && entries[i].entry.duration@ > 30_000_000_000,
{
    assert(days[i] is Some || days[i] is None);
}

} // verus!
