//! Booking one amount of time after the other, and what is shown of it.

use crate::booker::{api_address, book_time, started_text, Worklog};
use crate::booking::{
    amounts, jira_amounts, lemma_key_order, ordered, BookingKey, BookingLine,
};
use crate::calendar::Date;
use crate::duration::{clock, Duration, NANOS_PER_SEC};
use crate::text::{decimal, decimal_text, texts};
use vstd::prelude::*;

verus! {

/// Amounts of time to be booked, and what came of those that were.
#[derive(Debug)]
pub struct Progress {
    pub list: Vec<(String, Duration)>,
    pub outcomes: Vec<String>,
    pub failed: usize,
}

/// The contents of a progress.
#[verifier::ext_equal]
pub struct ProgressModel {
    pub list: Seq<(Seq<char>, nat)>,
    pub outcomes: Seq<Seq<char>>,
    pub failed: nat,
}

impl View for Progress {
    type V = ProgressModel;

    open spec fn view(&self) -> ProgressModel {
        ProgressModel {
            list: amounts(self.list@),
            outcomes: texts(self.outcomes@),
            failed: self.failed as nat,
        }
    }
}

/// What is shown of an outcome.
pub open spec fn outcome_text(error: Option<Seq<char>>) -> Seq<char> {
    match error {
        None => "OK"@,
        Some(e) => "[ERR("@ + e + ")]"@,
    }
}

/// What is said at the end.
pub open spec fn closing_text(failed: nat) -> Seq<char> {
    if failed > 0 {
        "Not okay, "@ + decimal(failed) + " failed"@
    } else {
        "Okay all booked!"@
    }
}

/// What came last of booking on an issue, or a space.
pub open spec fn last_outcome(
    list: Seq<(Seq<char>, nat)>,
    outcomes: Seq<Seq<char>>,
    issue: Seq<char>,
) -> Seq<char>
    decreases outcomes.len(),
{
    if outcomes.len() == 0 {
        " "@
    } else if list[outcomes.len() - 1].0 == issue {
        outcomes.last()
    } else {
        last_outcome(list, outcomes.drop_last(), issue)
    }
}

impl ProgressModel {
    /// Not more has come out than there is to book, nor has more failed.
    pub open spec fn wf(&self) -> bool {
        self.failed <= self.outcomes.len() <= self.list.len()
    }

    /// The progress with the outcome of one booking more.
    pub open spec fn recorded(&self, error: Option<Seq<char>>) -> ProgressModel {
        ProgressModel {
            outcomes: self.outcomes.push(outcome_text(error)),
            failed: self.failed + if error is Some {
                1nat
            } else {
                0
            },
            ..*self
        }
    }

    /// What is shown: each issue, behind what came of it, and its time.
    pub open spec fn lines(&self) -> Seq<(Seq<char>, nat)> {
        self.list.map_values(
            |a: (Seq<char>, nat)|
                (seq!['['] + last_outcome(self.list, self.outcomes, a.0) + "] "@ + a.0, a.1),
        )
    }
}

impl Progress {
    /// The contents are valid, and so are all lengths.
    pub open spec fn wf(&self) -> bool {
        &&& self@.wf()
        &&& forall|i: int| 0 <= i < self.list@.len() ==> (#[trigger] self.list@[i]).1.wf()
    }

    /// Nothing is booked yet.
    pub fn start(list: Vec<(String, Duration)>) -> (r: Progress)
        requires
            forall|i: int| 0 <= i < list@.len() ==> (#[trigger] list@[i]).1.wf(),
        ensures
            r.wf(),
            r@.list == amounts(list@),
            r@.outcomes == Seq::<Seq<char>>::empty(),
            r@.failed == 0,
    {
        Progress { list, outcomes: Vec::new(), failed: 0 }
    }

    /// What is to be booked next, if anything is left.
    pub fn next_worklog(&self, base_url: &str, date: &Date) -> (r: Option<Worklog>)
        requires
            self.wf(),
            date.valid(),
        ensures
            r is Some <==> self@.outcomes.len() < self@.list.len(),
            r matches Some(log) ==> {
                let (issue, nanos) = self@.list[self@.outcomes.len() as int];
                &&& log.url@ == api_address(base_url@, "/issue/"@ + issue + "/worklog"@)
                &&& log.started@ == started_text(*date)
                &&& log.time_spent_seconds == nanos / (NANOS_PER_SEC as nat)
            },
    {
        let i: usize = self.outcomes.len();
        if i < self.list.len() {
            assert(self@.list[i as int] == (self.list@[i as int].0@, self.list@[i as int].1@));
            let amount = &self.list[i];
            Some(book_time(base_url, amount.0.as_str(), date, &amount.1))
        } else {
            None
        }
    }

    /// Takes down what came of booking next, with the error if it failed.
    pub fn record(&mut self, error: Option<String>)
        requires
            old(self).wf(),
            old(self)@.outcomes.len() < old(self)@.list.len(),
        ensures
            final(self).wf(),
            final(self)@ == old(self)@.recorded(
                match error {
                    Some(e) => Some(e@),
                    None => None,
                },
            ),
    {
        let ghost before = self@;
        assert(self.list@.len() <= usize::MAX) by {
            assert(self.list.len() <= usize::MAX);
        }
        match error {
            None => {
                self.outcomes.push(String::from_str("OK"));
                assert(self@.outcomes =~= before.outcomes.push("OK"@));
            },
            Some(e) => {
                self.failed = self.failed + 1;
                let text = String::from_str("[ERR(").concat(e.as_str()).concat(")]");
                self.outcomes.push(text);
                assert(self@.outcomes =~= before.outcomes.push(text@));
            },
        }
    }

    /// What came last of booking on an issue, or a space.
    fn outcome(&self, issue: &String) -> (r: String)
        requires
            self.wf(),
        ensures
            r@ == last_outcome(self@.list, self@.outcomes, issue@),
    {
        let mut i: usize = self.outcomes.len();
        assert(self@.outcomes.take(i as int) =~= self@.outcomes);
        while i > 0
            invariant
                self.wf(),
                i <= self@.outcomes.len(),
                last_outcome(self@.list, self@.outcomes, issue@) == last_outcome(
                    self@.list,
                    self@.outcomes.take(i as int),
                    issue@,
                ),
            decreases i,
        {
            let ghost taken = self@.outcomes.take(i as int);
            assert(taken.drop_last() =~= self@.outcomes.take(i - 1));
            i = i - 1;
            assert(self@.list[i as int].0 == self.list@[i as int].0@);
            assert(taken.last() == self.outcomes@[i as int]@);
            if self.list[i].0 == *issue {
                return self.outcomes[i].clone();
            }
        }
        String::from_str(" ")
    }

    /// What is shown of the progress.
    pub fn lines(&self) -> (r: Vec<(String, Duration)>)
        requires
            self.wf(),
        ensures
            amounts(r@) == self@.lines(),
            forall|i: int| 0 <= i < r@.len() ==> (#[trigger] r@[i]).1.wf(),
    {
        let mut lines: Vec<(String, Duration)> = Vec::new();
        proof {
            reveal_strlit("[");
        }
        for i in 0..self.list.len()
            invariant
                self.wf(),
                "["@ =~= seq!['['],
                lines@.len() == i,
                amounts(lines@) =~= self@.lines().take(i as int),
                forall|j: int| 0 <= j < lines@.len() ==> (#[trigger] lines@[j]).1.wf(),
        {
            let amount = &self.list[i];
            let ghost sofar = lines@;
            assert(self@.list[i as int] == (amount.0@, amount.1@));
            let shown = String::from_str("[").concat(self.outcome(&amount.0).as_str()).concat(
                "] ",
            ).concat(amount.0.as_str());
            lines.push((shown, amount.1));
            assert(self@.lines()[i as int] == (shown@, amount.1@));
            assert(amounts(lines@) =~= amounts(sofar).push((shown@, amount.1@)));
            assert(self@.lines().take(i + 1) =~= self@.lines().take(i as int).push(
                self@.lines()[i as int],
            ));
        }
        assert(self@.lines().take(self@.lines().len() as int) =~= self@.lines());
        lines
    }

    /// What is said at the end.
    pub fn closing_title(&self) -> (r: String)
        ensures
            r@ == closing_text(self@.failed),
    {
        if self.failed > 0 {
            String::from_str("Not okay, ").concat(
                decimal_text(self.failed as u64).as_str(),
            ).concat(" failed")
        } else {
            String::from_str("Okay all booked!")
        }
    }
}

/// Amounts of time, one on each line.
pub open spec fn amounts_shown(list: Seq<(Seq<char>, nat)>) -> Seq<char>
    decreases list.len(),
{
    if list.len() == 0 {
        Seq::empty()
    } else {
        amounts_shown(list.drop_last()) + (list.last().0 + ": "@ + clock(list.last().1) + "\n"@)
    }
}

/// Amounts of time, one on each line.
pub fn amounts_text(list: &Vec<(String, Duration)>) -> (r: String)
    requires
        forall|i: int| 0 <= i < list@.len() ==> (#[trigger] list@[i]).1.wf(),
    ensures
        r@ == amounts_shown(amounts(list@)),
{
    let ghost all = amounts(list@);
    let mut text = String::new();
    assert(all.take(0).len() == 0);
    for i in 0..list.len()
        invariant
            all == amounts(list@),
            forall|i: int| 0 <= i < list@.len() ==> (#[trigger] list@[i]).1.wf(),
            text@ == amounts_shown(all.take(i as int)),
    {
        let amount = &list[i];
        proof {
            assert(all[i as int] == (amount.0@, amount.1@));
            assert(all.take(i + 1).drop_last() =~= all.take(i as int));
            assert(all.take(i + 1).last() == all[i as int]);
        }
        let line = amount.0.clone().concat(": ").concat(amount.1.clock_text().as_str()).concat(
            "\n",
        );
        text.append(line.as_str());
    }
    assert(all.take(all.len() as int) =~= all);
    text
}

/// No issue occurs twice.
pub open spec fn distinct_issues(list: Seq<(Seq<char>, nat)>) -> bool {
    forall|i: int, j: int| 0 <= i < j < list.len() ==> (#[trigger] list[i]).0 != (#[trigger] list[j]).0
}

/// Every amount to be booked comes from one of the bookings.
proof fn lemma_amount_from(bookings: Seq<BookingLine>, k: int) -> (i: int)
    requires
        0 <= k < jira_amounts(bookings).len(),
    ensures
        0 <= i < bookings.len(),
        bookings[i].0 == BookingKey::Jira(jira_amounts(bookings)[k].0),
    decreases bookings.len(),
{
    if bookings.len() == 0 {
        0
    } else if k < jira_amounts(bookings.drop_last()).len() {
        lemma_amount_from(bookings.drop_last(), k)
    } else {
        bookings.len() - 1
    }
}

/// Time is booked at most once on each issue of a day.
pub proof fn law_issue_booked_once(bookings: Seq<BookingLine>)
    requires
        ordered(bookings),
    ensures
        distinct_issues(jira_amounts(bookings)),
    decreases bookings.len(),
{
    if bookings.len() > 0 {
        let front = bookings.drop_last();
        assert forall|i: int, j: int| 0 <= i < j < front.len() implies (
        #[trigger] front[i]).0.before((#[trigger] front[j]).0) by {
            assert(bookings[i].0.before(bookings[j].0));
        }
        law_issue_booked_once(front);
        let list = jira_amounts(bookings);
        assert forall|i: int, j: int| 0 <= i < j < list.len() implies (#[trigger] list[i]).0 != (
        #[trigger] list[j]).0 by {
            let before = jira_amounts(front);
            if j < before.len() {
                assert(before[i].0 != before[j].0);
            } else {
                let k = lemma_amount_from(front, i);
                assert(bookings[k].0.before(bookings[bookings.len() - 1].0));
                lemma_key_order(bookings[k].0, bookings[k].0, bookings[k].0);
            }
        }
    }
}

/// Where no issue occurs twice, each line shows what came of that very booking, or a space as
/// long as it has not been tried.
pub proof fn law_line_shows_its_outcome(progress: ProgressModel, i: int)
    requires
        progress.wf(),
        distinct_issues(progress.list),
        0 <= i < progress.list.len(),
    ensures
        progress.lines()[i].0 == seq!['['] + (if i < progress.outcomes.len() {
            progress.outcomes[i]
        } else {
            " "@
        }) + "] "@ + progress.list[i].0,
        progress.lines()[i].1 == progress.list[i].1,
{
    lemma_last_outcome(progress.list, progress.outcomes, i);
}

proof fn lemma_last_outcome(list: Seq<(Seq<char>, nat)>, outcomes: Seq<Seq<char>>, i: int)
    requires
        distinct_issues(list),
        outcomes.len() <= list.len(),
        0 <= i < list.len(),
    ensures
        last_outcome(list, outcomes, list[i].0) == if i < outcomes.len() {
            outcomes[i]
        } else {
            " "@
        },
    decreases outcomes.len(),
{
    if outcomes.len() > 0 {
        let n = outcomes.len() - 1;
        assert(list[n].0 == list[i].0 ==> n == i);
        lemma_last_outcome(list, outcomes.drop_last(), i);
    }
}

/// The outcomes of some bookings, one after the other.
pub open spec fn all_recorded(
    progress: ProgressModel,
    errors: Seq<Option<Seq<char>>>,
) -> ProgressModel
    decreases errors.len(),
{
    if errors.len() == 0 {
        progress
    } else {
        all_recorded(progress, errors.drop_last()).recorded(errors.last())
    }
}

/// How many of the outcomes are errors.
pub open spec fn error_count(errors: Seq<Option<Seq<char>>>) -> nat
    decreases errors.len(),
{
    if errors.len() == 0 {
        0
    } else {
        error_count(errors.drop_last()) + if errors.last() is Some {
            1nat
        } else {
            0
        }
    }
}

/// One outcome is taken down for each booking, and the end counts the errors among them. Each
/// booking is tried once, whatever came of those before it.
pub proof fn law_all_outcomes_counted(
    list: Seq<(Seq<char>, nat)>,
    errors: Seq<Option<Seq<char>>>,
)
    ensures
        ({
            let start = ProgressModel { list, outcomes: Seq::empty(), failed: 0 };
            let end = all_recorded(start, errors);
            &&& end.list == list
            &&& end.outcomes.len() == errors.len()
            &&& end.failed == error_count(errors)
            &&& forall|i: int|
                0 <= i < errors.len() ==> #[trigger] end.outcomes[i] == outcome_text(errors[i])
        }),
    decreases errors.len(),
{
    if errors.len() > 0 {
        law_all_outcomes_counted(list, errors.drop_last());
        let start = ProgressModel { list, outcomes: Seq::empty(), failed: 0 };
        let before = all_recorded(start, errors.drop_last());
        let end = all_recorded(start, errors);
        assert forall|i: int| 0 <= i < errors.len() implies #[trigger] end.outcomes[i]
            == outcome_text(errors[i]) by {
            if i < errors.len() - 1 {
                assert(end.outcomes[i] == before.outcomes[i]);
                assert(errors.drop_last()[i] == errors[i]);
            }
        }
    }
}

/// What is shown of a booking that was made is that it is well, and of one that failed its error.
pub proof fn law_outcome_shows_error(error: Seq<char>, failed: nat)
    ensures
        outcome_text(None) == "OK"@,
        outcome_text(Some(error)) == "[ERR("@ + error + ")]"@,
        failed == 0 ==> closing_text(failed) == "Okay all booked!"@,
        failed > 0 ==> closing_text(failed) == "Not okay, "@ + decimal(failed) + " failed"@,
{
}

/// One amount more is shown on a line of its own: the issue and how long.
pub proof fn law_amounts_line_by_line(list: Seq<(Seq<char>, nat)>, issue: Seq<char>, nanos: nat)
    ensures
        amounts_shown(Seq::empty()) == Seq::<char>::empty(),
        amounts_shown(list.push((issue, nanos))) == amounts_shown(list) + issue + ": "@ + clock(
            nanos,
        ) + "\n"@,
{
    let all = list.push((issue, nanos));
    assert(all.drop_last() =~= list);
    assert(amounts_shown(all) =~= amounts_shown(list) + issue + ": "@ + clock(nanos) + "\n"@);
}

/// One outcome is added to those before, and counts as failed exactly if there is an error.
pub proof fn law_outcome_is_added(progress: ProgressModel, error: Option<Seq<char>>)
    ensures
        progress.recorded(error).list == progress.list,
        progress.recorded(error).outcomes == progress.outcomes.push(outcome_text(error)),
        progress.recorded(error).failed == progress.failed + if error is Some {
            1int
        } else {
            0
        },
{
}

/// There is one line for each amount.
pub proof fn law_line_for_each_amount(progress: ProgressModel)
    ensures
        progress.lines().len() == progress.list.len(),
{
}

} // verus!
