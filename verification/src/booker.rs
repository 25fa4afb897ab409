//! What is asked of JIRA, and what is made of its answers.

use crate::calendar::{
    format_utc, lemma_calendar_range, utc_instant, year_text, Date, Instant, SECS_PER_DAY,
};
use crate::duration::{Duration, NANOS_PER_SEC};
use crate::text::{decimal, decimal_text, zero_padded};
use vstd::prelude::*;

verus! {

/// Where an answer stands in the whole list of results.
#[derive(Clone, Copy, Debug, PartialEq, Eq, Structural)]
pub struct JiraAnswer {
    pub start_at: usize,
    pub max_results: usize,
    pub total: usize,
}

/// What is known of an issue.
#[derive(Clone, Debug)]
pub struct Fields {
    pub summary: String,
}

/// An issue.
#[derive(Clone, Debug)]
pub struct Entry {
    pub key: String,
    pub fields: Fields,
}

/// The contents of an issue.
#[verifier::ext_equal]
pub struct IssueModel {
    pub key: Seq<char>,
    pub summary: Seq<char>,
}

impl View for Entry {
    type V = IssueModel;

    open spec fn view(&self) -> IssueModel {
        IssueModel { key: self.key@, summary: self.fields.summary@ }
    }
}

/// The contents of a list of issues.
pub open spec fn issue_models(issues: Seq<Entry>) -> Seq<IssueModel> {
    issues.map_values(|e: Entry| e@)
}

/// A page of issues.
#[derive(Debug)]
pub struct EntryQuery {
    pub jira: JiraAnswer,
    pub issues: Vec<Entry>,
}

/// A sprint.
#[derive(Debug)]
pub struct Sprint {
    pub start_date: Instant,
    pub end_date: Instant,
    pub goal: String,
    pub id: usize,
    pub name: String,
}

/// A page of sprints.
#[derive(Debug)]
pub struct SprintQuery {
    pub jira: JiraAnswer,
    pub values: Vec<Sprint>,
}

/// Something to be read from JIRA.
#[derive(Debug)]
pub struct GetRequest {
    pub url: String,
    pub query: Vec<(String, String)>,
}

/// The contents of a request.
#[verifier::ext_equal]
pub struct RequestModel {
    pub url: Seq<char>,
    pub query: Seq<(Seq<char>, Seq<char>)>,
}

impl View for GetRequest {
    type V = RequestModel;

    open spec fn view(&self) -> RequestModel {
        RequestModel {
            url: self.url@,
            query: self.query@.map_values(|p: (String, String)| (p.0@, p.1@)),
        }
    }
}

/// Time to be booked on an issue.
#[derive(Debug)]
pub struct Worklog {
    pub url: String,
    pub started: String,
    pub time_spent_seconds: u64,
}

/// The instant at which a day starts, in UTC.
pub open spec fn day_start(day: Date) -> Instant {
    Instant { secs: (day.unix_day() * SECS_PER_DAY) as i64, nanos: 0 }
}

/// The last millisecond of a day, in UTC.
pub open spec fn day_end(day: Date) -> Instant {
    Instant {
        secs: (day.unix_day() * SECS_PER_DAY + SECS_PER_DAY - 1) as i64,
        nanos: 999_000_000,
    }
}

/// Whether a sprint counts on a day: it ends or starts within the day, or it goes on before and
/// after it.
pub open spec fn sprint_active(day: Date, start: Instant, end: Instant) -> bool {
    ||| day_start(day).before(end) && end.before(day_end(day))
    ||| day_start(day).before(start) && start.before(day_end(day))
    ||| start.before(day_start(day)) && !end.before(day_end(day))
}

/// Whether a sprint counts on a day.
pub fn check_sprint_active(
    day_to_check: &Date,
    sprint_start: Instant,
    sprint_end: Instant,
) -> (r: bool)
    requires
        day_to_check.valid(),
    ensures
        r == sprint_active(*day_to_check, sprint_start, sprint_end),
{
    let start = utc_instant(*day_to_check, 0, 0, 0, 0);
    let end = utc_instant(*day_to_check, 23, 59, 59, 999);
    (start.is_before(&sprint_end) && sprint_end.is_before(&end)) || (start.is_before(&sprint_start)
        && sprint_start.is_before(&end)) || (sprint_start.is_before(&start) && !sprint_end.is_before(
        &end,
    ))
}

/// The ids of the sprints that count on a day, in order.
pub open spec fn active_ids(sprints: Seq<Sprint>, day: Date) -> Seq<usize>
    decreases sprints.len(),
{
    if sprints.len() == 0 {
        Seq::empty()
    } else {
        let before = active_ids(sprints.drop_last(), day);
        let last = sprints.last();
        if sprint_active(day, last.start_date, last.end_date) {
            before.push(last.id)
        } else {
            before
        }
    }
}

/// The ids of the sprints that count on a day.
pub fn active_sprints(sprints: &Vec<Sprint>, day: &Date) -> (r: Vec<usize>)
    requires
        day.valid(),
    ensures
        r@ == active_ids(sprints@, *day),
{
    let mut ids: Vec<usize> = Vec::new();
    assert(sprints@.take(0).len() == 0);
    for i in 0..sprints.len()
        invariant
            day.valid(),
            ids@ == active_ids(sprints@.take(i as int), *day),
    {
        let sprint = &sprints[i];
        assert(sprints@.take(i + 1).drop_last() =~= sprints@.take(i as int));
        if check_sprint_active(day, sprint.start_date, sprint.end_date) {
            ids.push(sprint.id);
        }
    }
    assert(sprints@.take(sprints@.len() as int) =~= sprints@);
    ids
}

/// The address of something to be read.
pub open spec fn agile_address(base_url: Seq<char>, path: Seq<char>) -> Seq<char> {
    base_url + "/rest/agile/1.0"@ + path
}

/// The address of something to be written.
pub open spec fn api_address(base_url: Seq<char>, path: Seq<char>) -> Seq<char> {
    base_url + "/rest/api/latest"@ + path
}

/// The request for the sprints of a board, from the one at `start_with` on.
pub open spec fn sprint_request(
    base_url: Seq<char>,
    board_id: Seq<char>,
    start_with: nat,
) -> RequestModel {
    RequestModel {
        url: agile_address(base_url, "/board/"@ + board_id + "/sprint"@),
        query: seq![("startAt"@, decimal(start_with))],
    }
}

/// The request for the issues of a sprint, from the one at `start_with` on.
pub open spec fn issue_request(
    base_url: Seq<char>,
    sprint: nat,
    filter: Seq<char>,
    start_with: nat,
) -> RequestModel {
    RequestModel {
        url: agile_address(base_url, "/sprint/"@ + decimal(sprint) + "/issue"@),
        query: seq![
            ("jql"@, filter),
            ("fields"@, "summary"@),
            ("maxResults"@, "2000"@),
            ("startAt"@, decimal(start_with)),
        ],
    }
}

/// The request for one issue.
pub open spec fn single_request(base_url: Seq<char>, issue: Seq<char>) -> RequestModel {
    RequestModel {
        url: agile_address(base_url, "/issue/"@ + issue),
        query: seq![("fields"@, "summary"@)],
    }
}

/// The address of something to be read.
fn agile_url(base_url: &str, path: &str) -> (r: String)
    ensures
        r@ == agile_address(base_url@, path@),
{
    String::from_str(base_url).concat("/rest/agile/1.0").concat(path)
}

/// One parameter of a request.
fn parameter(name: &str, value: &str) -> (r: (String, String))
    ensures
        r.0@ == name@,
        r.1@ == value@,
{
    (String::from_str(name), String::from_str(value))
}

/// What is to be found out next.
#[derive(Clone, Copy, Debug, PartialEq, Eq, Structural)]
pub enum Stage {
    /// The sprints of the board.
    Sprints,
    /// The issues of the sprints that count.
    Issues,
    /// Nothing more.
    Done,
}

/// The search for the issues of the sprints that count on a day.
#[derive(Debug)]
pub struct SprintSearch {
    pub base_url: String,
    pub board_id: String,
    pub day: Date,
    pub filter: String,
    pub stage: Stage,
    pub sprints: Vec<Sprint>,
    pub active: Vec<usize>,
    pub current: usize,
    pub start_with: usize,
    pub issues: Vec<Entry>,
}

/// How far a search has come.
#[verifier::ext_equal]
pub struct SearchModel {
    pub base_url: Seq<char>,
    pub board_id: Seq<char>,
    pub day: Date,
    pub filter: Seq<char>,
    pub stage: Stage,
    pub sprints: Seq<Sprint>,
    pub active: Seq<usize>,
    pub current: nat,
    pub start_with: nat,
    pub issues: Seq<Entry>,
}

impl View for SprintSearch {
    type V = SearchModel;

    open spec fn view(&self) -> SearchModel {
        SearchModel {
            base_url: self.base_url@,
            board_id: self.board_id@,
            day: self.day,
            filter: self.filter@,
            stage: self.stage,
            sprints: self.sprints@,
            active: self.active@,
            current: self.current as nat,
            start_with: self.start_with as nat,
            issues: self.issues@,
        }
    }
}

impl SearchModel {
    /// The day exists, and while issues are asked for there is a sprint to ask for.
    pub open spec fn wf(&self) -> bool {
        &&& self.day.valid()
        &&& self.stage == Stage::Issues ==> self.current < self.active.len()
    }

    /// What is to be asked next.
    pub open spec fn request(&self) -> Option<RequestModel> {
        match self.stage {
            Stage::Sprints => Some(sprint_request(self.base_url, self.board_id, self.start_with)),
            Stage::Issues => Some(
                issue_request(
                    self.base_url,
                    self.active[self.current as int] as nat,
                    self.filter,
                    self.start_with,
                ),
            ),
            Stage::Done => None,
        }
    }

    /// The search after a page of sprints. The next page is asked for until there are as many
    /// sprints as there are in all; then the issues of those that count are.
    pub open spec fn with_sprints(&self, total: nat, page: Seq<Sprint>) -> SearchModel {
        let sprints = self.sprints + page;
        if sprints.len() < total {
            SearchModel { sprints, start_with: sprints.len(), ..*self }
        } else {
            let active = active_ids(sprints, self.day);
            SearchModel {
                sprints,
                active,
                current: 0,
                start_with: 0,
                stage: if active.len() == 0 {
                    Stage::Done
                } else {
                    Stage::Issues
                },
                ..*self
            }
        }
    }

    /// The search after a page of issues. The next page is asked for until there are as many
    /// issues, of all sprints so far, as this sprint has in all; then the next sprint follows.
    pub open spec fn with_issues(&self, total: nat, page: Seq<Entry>) -> SearchModel {
        let issues = self.issues + page;
        if issues.len() < total {
            SearchModel { issues, start_with: issues.len(), ..*self }
        } else {
            SearchModel {
                issues,
                current: self.current + 1,
                start_with: 0,
                stage: if self.current + 1 < self.active.len() {
                    Stage::Issues
                } else {
                    Stage::Done
                },
                ..*self
            }
        }
    }
}

/// Whether more is needed when `page` results come on top of `known` out of `total`.
fn need_more_data(page: usize, known: usize, total: usize) -> (r: bool)
    ensures
        r == (page + known < total),
{
    known < total && page < total - known
}

/// The search for the issues of the sprints of a board that count on a day.
pub fn get_sprint_issues_for_date(
    base_url: &str,
    board_id: &str,
    day_to_query: &Date,
    issue_jql_filter: &str,
) -> (r: SprintSearch)
    requires
        day_to_query.valid(),
    ensures
        r@.wf(),
        r@ == (SearchModel {
            base_url: base_url@,
            board_id: board_id@,
            day: *day_to_query,
            filter: issue_jql_filter@,
            stage: Stage::Sprints,
            sprints: Seq::empty(),
            active: Seq::empty(),
            current: 0,
            start_with: 0,
            issues: Seq::empty(),
        }),
{
    SprintSearch {
        base_url: String::from_str(base_url),
        board_id: String::from_str(board_id),
        day: *day_to_query,
        filter: String::from_str(issue_jql_filter),
        stage: Stage::Sprints,
        sprints: Vec::new(),
        active: Vec::new(),
        current: 0,
        start_with: 0,
        issues: Vec::new(),
    }
}

impl SprintSearch {
    /// What is to be asked next, if there is anything.
    pub fn next_request(&self) -> (r: Option<GetRequest>)
        requires
            self@.wf(),
        ensures
            match r {
                Some(request) => self@.request() == Some(request@),
                None => self@.request() is None,
            },
    {
        match self.stage {
            Stage::Sprints => {
                let path = String::from_str("/board/").concat(self.board_id.as_str()).concat(
                    "/sprint",
                );
                let url = agile_url(self.base_url.as_str(), path.as_str());
                let start = decimal_text(self.start_with as u64);
                let mut query: Vec<(String, String)> = Vec::new();
                query.push(parameter("startAt", start.as_str()));
                let request = GetRequest { url, query };
                assert(request@ =~= self@.request()->0);
                Some(request)
            },
            Stage::Issues => {
                let sprint = decimal_text(self.active[self.current] as u64);
                let path = String::from_str("/sprint/").concat(sprint.as_str()).concat("/issue");
                let url = agile_url(self.base_url.as_str(), path.as_str());
                let start = decimal_text(self.start_with as u64);
                let mut query: Vec<(String, String)> = Vec::new();
                query.push(parameter("jql", self.filter.as_str()));
                query.push(parameter("fields", "summary"));
                query.push(parameter("maxResults", "2000"));
                query.push(parameter("startAt", start.as_str()));
                let request = GetRequest { url, query };
                assert(request@ =~= self@.request()->0);
                Some(request)
            },
            Stage::Done => None,
        }
    }

    /// Takes a page of sprints.
    pub fn take_sprints(&mut self, answer: SprintQuery)
        requires
            old(self)@.wf(),
            old(self)@.stage == Stage::Sprints,
        ensures
            final(self)@ == old(self)@.with_sprints(answer.jira.total as nat, answer.values@),
            final(self)@.wf(),
    {
        let mut values = answer.values;
        let more = need_more_data(values.len(), self.sprints.len(), answer.jira.total);
        self.sprints.append(&mut values);
        if more {
            self.start_with = self.sprints.len();
        } else {
            self.active = active_sprints(&self.sprints, &self.day);
            self.current = 0;
            self.start_with = 0;
            self.stage = if self.active.is_empty() {
                Stage::Done
            } else {
                Stage::Issues
            };
        }
    }

    /// Takes a page of issues.
    pub fn take_issues(&mut self, answer: EntryQuery)
        requires
            old(self)@.wf(),
            old(self)@.stage == Stage::Issues,
        ensures
            final(self)@ == old(self)@.with_issues(answer.jira.total as nat, answer.issues@),
            final(self)@.wf(),
    {
        let mut issues = answer.issues;
        let more = need_more_data(issues.len(), self.issues.len(), answer.jira.total);
        self.issues.append(&mut issues);
        if more {
            self.start_with = self.issues.len();
        } else {
            let count: usize = self.active.len();
            self.current = self.current + 1;
            self.start_with = 0;
            self.stage = if self.current < count {
                Stage::Issues
            } else {
                Stage::Done
            };
        }
    }
}

/// The requests for single issues, one for each.
pub fn get_issues(base_url: &str, issues: &Vec<String>) -> (r: Vec<GetRequest>)
    ensures
        r@.len() == issues@.len(),
        forall|i: int|
            0 <= i < r@.len() ==> (#[trigger] r@[i])@ == single_request(base_url@, issues@[i]@),
{
    let mut requests: Vec<GetRequest> = Vec::new();
    for i in 0..issues.len()
        invariant
            requests@.len() == i,
            forall|j: int|
                0 <= j < i ==> (#[trigger] requests@[j])@ == single_request(
                    base_url@,
                    issues@[j]@,
                ),
    {
        let path = String::from_str("/issue/").concat(issues[i].as_str());
        let url = agile_url(base_url, path.as_str());
        let mut query: Vec<(String, String)> = Vec::new();
        query.push(parameter("fields", "summary"));
        let request = GetRequest { url, query };
        assert(request@ =~= single_request(base_url@, issues@[i as int]@));
        requests.push(request);
    }
    requests
}

/// The answers that there are, in order.
pub open spec fn given(answers: Seq<Option<Entry>>) -> Seq<Entry>
    decreases answers.len(),
{
    if answers.len() == 0 {
        Seq::empty()
    } else {
        match answers.last() {
            Some(entry) => given(answers.drop_last()).push(entry),
            None => given(answers.drop_last()),
        }
    }
}

/// The issues that were found. Those that were not are left out.
pub fn found_issues(answers: Vec<Option<Entry>>) -> (r: Vec<Entry>)
    ensures
        r@ == given(answers@),
{
    let mut found: Vec<Entry> = Vec::new();
    assert(answers@.take(0).len() == 0);
    for answer in iter: answers
        invariant
            found@ == given(iter.seq().take(iter.index() as int)),
    {
        proof {
            let n = iter.index() as int;
            assert(iter.seq().take(n + 1).drop_last() =~= iter.seq().take(n));
            assert(iter.seq().take(n + 1).last() == answer);
        }
        if let Some(entry) = answer {
            found.push(entry);
        }
    }
    assert(answers@.take(answers@.len() as int) =~= answers@);
    found
}

/// What is said of an answer with a status of an error.
pub open spec fn failure_text(status: nat, data: Seq<char>) -> Seq<char> {
    "API call failed with status "@ + decimal(status) + ": "@ + data
}

/// Whether an answer is good: its status is none of an error.
pub fn check_status(status: u16, data: &str) -> (r: Result<(), String>)
    ensures
        match r {
            Ok(_) => status < 400,
            Err(message) => status >= 400 && message@ == failure_text(status as nat, data@),
        },
{
    if status >= 400 {
        Err(
            String::from_str("API call failed with status ").concat(
                decimal_text(status as u64).as_str(),
            ).concat(": ").concat(data),
        )
    } else {
        Ok(())
    }
}

/// The message of the error that reading a text as JSON gives, if it gives one.
pub uninterp spec fn json_failure(data: Seq<char>) -> Option<Seq<char>>;

/// Calls `serde_json::from_str` for a `serde_json::Value`, and keeps the message of its error.
///
/// Whether a text is JSON, and what the error says, is given by the text.
#[verifier::external_body]
fn json_error(data: &str) -> (r: Option<String>)
    ensures
        match r {
            Some(message) => json_failure(data@) == Some(message@),
            None => json_failure(data@) is None,
        },
{
    serde_json::from_str::<serde_json::Value>(data).err().map(|e| e.to_string())
}

/// Whether an answer is good, given the message of the error if it is no JSON: a status of an
/// error comes first.
pub fn judge_answer(status: u16, data: &str, error: Option<String>) -> (r: Result<(), String>)
    ensures
        match r {
            Ok(_) => status < 400 && error is None,
            Err(message) => if status >= 400 {
                message@ == failure_text(status as nat, data@)
            } else {
                error == Some(message)
            },
        },
{
    match check_status(status, data) {
        Ok(_) => match error {
            Some(message) => Err(message),
            None => Ok(()),
        },
        Err(message) => Err(message),
    }
}

/// Whether an answer is good: its status is none of an error, and it is JSON.
pub fn check_answer(status: u16, data: &str) -> (r: Result<(), String>)
    ensures
        match r {
            Ok(_) => status < 400 && json_failure(data@) is None,
            Err(message) => if status >= 400 {
                message@ == failure_text(status as nat, data@)
            } else {
                json_failure(data@) == Some(message@)
            },
        },
{
    judge_answer(status, data, json_error(data))
}

/// The time at which booked work starts: nine o'clock.
pub open spec fn started_text(date: Date) -> Seq<char> {
    year_text(date.year as int) + seq!['-'] + zero_padded(date.month as nat, 2) + seq!['-']
        + zero_padded(date.day as nat, 2) + seq!['T'] + zero_padded(9, 2) + seq![':']
        + zero_padded(0, 2) + seq![':'] + zero_padded(0, 2) + ".000+0000"@
}

/// The time to be booked on an issue.
pub fn book_time(base_url: &str, issue: &str, date: &Date, time_spent: &Duration) -> (r: Worklog)
    requires
        date.valid(),
        time_spent.wf(),
    ensures
        r.url@ == api_address(base_url@, "/issue/"@ + issue@ + "/worklog"@),
        r.started@ == started_text(*date),
        r.time_spent_seconds == time_spent@ / (NANOS_PER_SEC as nat),
{
    let path = String::from_str("/issue/").concat(issue).concat("/worklog");
    let url = String::from_str(base_url).concat("/rest/api/latest").concat(path.as_str());
    proof {
        reveal_strlit("%d.%m.%Y");
        reveal_strlit("%FT%T%.3f%z");
        assert("%FT%T%.3f%z"@.len() != "%d.%m.%Y"@.len());
    }
    let started = format_utc(date.year, date.month, date.day, 9, 0, 0, "%FT%T%.3f%z");
    Worklog { url, started, time_spent_seconds: time_spent.as_secs() }
}

/// The place of the issue with the key, if there is one: the first of several.
pub open spec fn key_index(table: Seq<IssueModel>, key: Seq<char>) -> Option<int>
    decreases table.len(),
{
    if table.len() == 0 {
        None
    } else {
        match key_index(table.drop_last(), key) {
            Some(i) => Some(i),
            None => if table.last().key == key {
                Some(table.len() - 1)
            } else {
                None
            },
        }
    }
}

/// The table with an issue in the place of the one with the same key, or else behind the others.
pub open spec fn put(table: Seq<IssueModel>, issue: IssueModel) -> Seq<IssueModel> {
    match key_index(table, issue.key) {
        Some(i) => table.update(i, issue),
        None => table.push(issue),
    }
}

/// The table with all of `issues` put into it.
pub open spec fn extended(table: Seq<IssueModel>, issues: Seq<IssueModel>) -> Seq<IssueModel>
    decreases issues.len(),
{
    if issues.len() == 0 {
        table
    } else {
        put(extended(table, issues.drop_last()), issues.last())
    }
}

/// No key occurs twice.
pub open spec fn unique_keys(table: Seq<IssueModel>) -> bool {
    forall|i: int, j: int|
        0 <= i < j < table.len() ==> (#[trigger] table[i]).key != (#[trigger] table[j]).key
}

/// A place that is found has the key, and none before it has. Where none is found, none has it.
pub proof fn lemma_key_index(table: Seq<IssueModel>, key: Seq<char>)
    ensures
        match key_index(table, key) {
            Some(i) => {
                &&& 0 <= i < table.len()
                &&& table[i].key == key
                &&& forall|j: int| 0 <= j < i ==> (#[trigger] table[j]).key != key
            },
            None => forall|j: int| 0 <= j < table.len() ==> (#[trigger] table[j]).key != key,
        },
    decreases table.len(),
{
    if table.len() > 0 {
        let front = table.drop_last();
        lemma_key_index(front, key);
        match key_index(front, key) {
            Some(i) => {
                assert(front[i].key == key);
                assert forall|j: int| 0 <= j < i implies (#[trigger] table[j]).key != key by {
                    assert(front[j].key != key);
                }
            },
            None => {
                assert forall|j: int| 0 <= j < table.len() - 1 implies (#[trigger] table[j]).key
                    != key by {
                    assert(front[j].key != key);
                }
            },
        }
    }
}

/// The place of the issue with the key, if there is one.
pub fn find_issue(table: &Vec<Entry>, key: &String) -> (r: Option<usize>)
    ensures
        match r {
            Some(i) => key_index(issue_models(table@), key@) == Some(i as int),
            None => key_index(issue_models(table@), key@) is None,
        },
{
    let ghost all = issue_models(table@);
    proof {
        lemma_key_index(all, key@);
    }
    for i in 0..table.len()
        invariant
            all == issue_models(table@),
            forall|j: int| 0 <= j < i ==> (#[trigger] all[j]).key != key@,
    {
        assert(all[i as int] == table@[i as int]@);
        if table[i].key == *key {
            proof {
                lemma_key_index(all, key@);
            }
            return Some(i);
        }
    }
    None
}

/// Puts `issues` into the table, the later in the place of the earlier with the same key.
pub fn extend_table(table: &mut Vec<Entry>, issues: Vec<Entry>)
    ensures
        issue_models(final(table)@) == extended(issue_models(old(table)@), issue_models(issues@)),
{
    let ghost before = issue_models(table@);
    let ghost all = issue_models(issues@);
    assert(all.take(0).len() == 0);
    for issue in iter: issues
        invariant
            all == issue_models(iter.seq()),
            issue_models(table@) == extended(before, all.take(iter.index() as int)),
    {
        let ghost n = iter.index() as int;
        let ghost now = issue_models(table@);
        let ghost model = issue@;
        proof {
            assert(all.take(n + 1).drop_last() =~= all.take(n));
            assert(all[n] == iter.seq()[n]@);
            assert(all.take(n + 1).last() == model);
            lemma_key_index(now, model.key);
        }
        match find_issue(table, &issue.key) {
            Some(i) => {
                table.set(i, issue);
                assert(issue_models(table@) =~= now.update(i as int, model));
            },
            None => {
                table.push(issue);
                assert(issue_models(table@) =~= now.push(model));
            },
        }
    }
    assert(all.take(all.len() as int) =~= all);
}

/// Putting issues into a table keeps its keys unique.
pub proof fn law_table_keys_unique(table: Seq<IssueModel>, issues: Seq<IssueModel>)
    requires
        unique_keys(table),
    ensures
        unique_keys(extended(table, issues)),
    decreases issues.len(),
{
    if issues.len() > 0 {
        let before = extended(table, issues.drop_last());
        law_table_keys_unique(table, issues.drop_last());
        lemma_key_index(before, issues.last().key);
        let after = put(before, issues.last());
        assert forall|i: int, j: int| 0 <= i < j < after.len() implies (#[trigger] after[i]).key
            != (#[trigger] after[j]).key by {
            if j < before.len() {
                assert(before[i].key != before[j].key);
            }
        }
    }
}

/// An issue that was put into a table last is found in it.
pub proof fn law_table_finds_last(table: Seq<IssueModel>, issue: IssueModel)
    ensures
        key_index(put(table, issue), issue.key) is Some,
        put(table, issue)[key_index(put(table, issue), issue.key)->0] == issue,
{
    let after = put(table, issue);
    lemma_key_index(table, issue.key);
    lemma_key_index(after, issue.key);
    match key_index(table, issue.key) {
        Some(i) => {
            assert(after[i].key == issue.key);
            let k = key_index(after, issue.key)->0;
            assert(k < i ==> after[k].key == table[k].key);
        },
        None => {
            assert(after[table.len() as int].key == issue.key);
            let k = key_index(after, issue.key)->0;
            assert(k < table.len() ==> after[k].key == table[k].key);
        },
    }
}

/// Whatever pages come, a search returns the issues of all its pages, in the order in which they
/// came, and asks for the next page exactly while fewer are known than there are.
pub proof fn law_search_collects_pages(search: SearchModel, total: nat, page: Seq<Entry>)
    requires
        search.wf(),
        search.stage == Stage::Issues,
    ensures
        search.with_issues(total, page).issues == search.issues + page,
        search.issues.len() + page.len() < total <==> search.with_issues(total, page).stage
            == Stage::Issues && search.with_issues(total, page).current == search.current,
        search.issues.len() + page.len() < total ==> search.with_issues(total, page).request()
            == Some(
            issue_request(
                search.base_url,
                search.active[search.current as int] as nat,
                search.filter,
                search.issues.len() + page.len(),
            ),
        ),
        search.with_issues(total, page).stage == Stage::Done <==> (search.issues.len()
            + page.len() >= total && search.current + 1 == search.active.len()),
        // the next sprint is asked for from its first issue on
        search.issues.len() + page.len() >= total && search.current + 1 < search.active.len()
            ==> search.with_issues(total, page).request() == Some(
            issue_request(
                search.base_url,
                search.active[(search.current + 1) as int] as nat,
                search.filter,
                0,
            ),
        ),
        search.with_issues(total, page).active == search.active,
        search.with_issues(total, page).sprints == search.sprints,
        search.with_issues(total, page).day == search.day,
{
}

/// The same for the sprints: once all are known, the issues of those that count are asked for.
pub proof fn law_search_collects_sprints(search: SearchModel, total: nat, page: Seq<Sprint>)
    requires
        search.wf(),
        search.stage == Stage::Sprints,
    ensures
        search.with_sprints(total, page).sprints == search.sprints + page,
        search.sprints.len() + page.len() < total <==> search.with_sprints(total, page).stage
            == Stage::Sprints,
        search.sprints.len() + page.len() < total ==> search.with_sprints(total, page).request()
            == Some(
            sprint_request(search.base_url, search.board_id, search.sprints.len() + page.len()),
        ),
        search.sprints.len() + page.len() >= total ==> search.with_sprints(total, page).active
            == active_ids(search.sprints + page, search.day),
        // the first sprint that counts is asked for from its first issue on
        search.sprints.len() + page.len() >= total ==> search.with_sprints(total, page).request()
            == if active_ids(search.sprints + page, search.day).len() > 0 {
            Some(
                issue_request(
                    search.base_url,
                    active_ids(search.sprints + page, search.day)[0] as nat,
                    search.filter,
                    0,
                ),
            )
        } else {
            None
        },
        search.with_sprints(total, page).issues == search.issues,
        search.with_sprints(total, page).day == search.day,
{
}

/// A sprint that is over when the day starts, or that starts when the day is over, does not
/// count; one that goes on before the day and beyond it does.
pub proof fn law_sprint_outside_day(day: Date, start: Instant, end: Instant)
    requires
        day.valid(),
        !end.before(start),
    ensures
        !day_start(day).before(end) ==> !sprint_active(day, start, end),
        !start.before(day_end(day)) ==> !sprint_active(day, start, end),
        start.before(day_start(day)) && day_end(day).before(end) ==> sprint_active(day, start, end),
{
    lemma_calendar_range(day);
}

/// A search that is given pages of sprints asks each time from where it has come to, so that each
/// sprint is read once: after two pages, from the number of both together on.
pub proof fn law_sprint_pages_follow(
    search: SearchModel,
    total: nat,
    first: Seq<Sprint>,
    second: Seq<Sprint>,
)
    requires
        search.stage == Stage::Sprints,
        search.sprints.len() + first.len() + second.len() < total,
    ensures
        ({
            let after = search.with_sprints(total, first).with_sprints(total, second);
            &&& after.sprints == search.sprints + first + second
            &&& after.request() is Some
            &&& after.request()->0.query == seq![
                ("startAt"@, decimal(search.sprints.len() + first.len() + second.len())),
            ]
        }),
{
    let after = search.with_sprints(total, first).with_sprints(total, second);
    assert(after.sprints =~= search.sprints + first + second);
}

/// The same for the pages of the issues of a sprint.
pub proof fn law_issue_pages_follow(
    search: SearchModel,
    total: nat,
    first: Seq<Entry>,
    second: Seq<Entry>,
)
    requires
        search.wf(),
        search.stage == Stage::Issues,
        search.issues.len() + first.len() + second.len() < total,
    ensures
        ({
            let after = search.with_issues(total, first).with_issues(total, second);
            &&& after.issues == search.issues + first + second
            &&& after.request() is Some
            &&& after.request()->0.query[3] == (
                "startAt"@,
                decimal(search.issues.len() + first.len() + second.len()),
            )
        }),
{
    let after = search.with_issues(total, first).with_issues(total, second);
    assert(after.issues =~= search.issues + first + second);
}

/// Where the requests go, and what they ask for.
pub proof fn law_requests(
    base_url: Seq<char>,
    board: Seq<char>,
    sprint: nat,
    filter: Seq<char>,
    issue: Seq<char>,
    start: nat,
)
    ensures
        sprint_request(base_url, board, start).url == base_url + "/rest/agile/1.0"@ + "/board/"@
            + board + "/sprint"@,
        sprint_request(base_url, board, start).query == seq![("startAt"@, decimal(start))],
        issue_request(base_url, sprint, filter, start).url == base_url + "/rest/agile/1.0"@
            + "/sprint/"@ + decimal(sprint) + "/issue"@,
        issue_request(base_url, sprint, filter, start).query == seq![
            ("jql"@, filter),
            ("fields"@, "summary"@),
            ("maxResults"@, "2000"@),
            ("startAt"@, decimal(start)),
        ],
        single_request(base_url, issue).url == base_url + "/rest/agile/1.0"@ + "/issue/"@ + issue,
        single_request(base_url, issue).query == seq![("fields"@, "summary"@)],
        api_address(base_url, "/issue/"@ + issue + "/worklog"@) == base_url + "/rest/api/latest"@
            + "/issue/"@ + issue + "/worklog"@,
{
    assert(sprint_request(base_url, board, start).url =~= base_url + "/rest/agile/1.0"@
        + "/board/"@ + board + "/sprint"@);
    assert(issue_request(base_url, sprint, filter, start).url =~= base_url + "/rest/agile/1.0"@
        + "/sprint/"@ + decimal(sprint) + "/issue"@);
    assert(single_request(base_url, issue).url =~= base_url + "/rest/agile/1.0"@ + "/issue/"@
        + issue);
    assert(api_address(base_url, "/issue/"@ + issue + "/worklog"@) =~= base_url
        + "/rest/api/latest"@ + "/issue/"@ + issue + "/worklog"@);
}

/// Whether an instant comes before a second and nanoseconds of it.
pub open spec fn earlier(instant: Instant, secs: int, nanos: int) -> bool {
    instant.secs < secs || (instant.secs == secs && instant.nanos < nanos)
}

/// Of one sprint more the id is added, behind the others, exactly if it starts or ends within the
/// day, from its first instant to its last millisecond and neither of these, or if it starts
/// before the day and does not end before that millisecond.
pub proof fn law_active_sprints(sprints: Seq<Sprint>, sprint: Sprint, day: Date)
    requires
        day.valid(),
    ensures
        active_ids(Seq::empty(), day) == Seq::<usize>::empty(),
        ({
            let first = day.unix_day() * 86_400;
            let last = first + 86_399;
            let (start, end) = (sprint.start_date, sprint.end_date);
            let ends_within = !earlier(end, first, 1) && earlier(end, last, 999_000_000);
            let starts_within = !earlier(start, first, 1) && earlier(start, last, 999_000_000);
            let goes_on = earlier(start, first, 0) && !earlier(end, last, 999_000_000);
            active_ids(sprints.push(sprint), day) == active_ids(sprints, day) + if ends_within
                || starts_within || goes_on {
                seq![sprint.id]
            } else {
                Seq::empty()
            }
        }),
{
    lemma_calendar_range(day);
    assert(sprints.push(sprint).drop_last() =~= sprints);
    assert(active_ids(sprints, day) + Seq::<usize>::empty() =~= active_ids(sprints, day));
    let before = active_ids(sprints, day);
    assert(before.push(sprint.id) =~= before + seq![sprint.id]);
}

/// Answers that there are stay, in their order, and the others are left out.
pub proof fn law_given_answers(answers: Seq<Option<Entry>>, answer: Option<Entry>)
    ensures
        given(Seq::empty()) == Seq::<Entry>::empty(),
        given(answers.push(answer)) == if answer is Some {
            given(answers).push(answer->0)
        } else {
            given(answers)
        },
{
    assert(answers.push(answer).drop_last() =~= answers);
}

/// Putting an issue into a table leaves all issues with other keys where they were.
pub proof fn law_table_keeps_others(table: Seq<IssueModel>, issue: IssueModel, i: int)
    requires
        0 <= i < table.len(),
        table[i].key != issue.key,
    ensures
        put(table, issue)[i] == table[i],
        table.len() <= put(table, issue).len() <= table.len() + 1,
        put(table, issue).len() == table.len() <==> exists|j: int|
            0 <= j < table.len() && (#[trigger] table[j]).key == issue.key,
{
    lemma_key_index(table, issue.key);
}

/// One issue more is put into a table last.
pub proof fn law_table_takes_in_order(
    table: Seq<IssueModel>,
    issues: Seq<IssueModel>,
    issue: IssueModel,
)
    ensures
        extended(table, Seq::empty()) == table,
        extended(table, issues.push(issue)) == put(extended(table, issues), issue),
{
    assert(issues.push(issue).drop_last() =~= issues);
}

/// An issue that is looked up is one with that key, and none is found only if none has it.
pub proof fn law_issue_lookup(table: Seq<IssueModel>, key: Seq<char>)
    ensures
        match key_index(table, key) {
            Some(i) => 0 <= i < table.len() && table[i].key == key,
            None => forall|j: int| 0 <= j < table.len() ==> (#[trigger] table[j]).key != key,
        },
{
    lemma_key_index(table, key);
}

/// Booked work starts at nine o'clock, on the day itself.
pub proof fn law_booked_from_nine(date: Date)
    ensures
        started_text(date) == year_text(date.year as int) + "-"@ + zero_padded(
            date.month as nat,
            2,
        ) + "-"@ + zero_padded(date.day as nat, 2) + "T09:00:00.000+0000"@,
{
    reveal_strlit("-");
    reveal_strlit("T09:00:00.000+0000");
    reveal_strlit(".000+0000");
    assert(decimal(9) == seq!['9']);
    assert(decimal(0) == seq!['0']);
    assert(zero_padded(9, 2) =~= seq!['0', '9']);
    assert(zero_padded(0, 2) =~= seq!['0', '0']);
    assert(started_text(date) =~= year_text(date.year as int) + "-"@ + zero_padded(
        date.month as nat,
        2,
    ) + "-"@ + zero_padded(date.day as nat, 2) + "T09:00:00.000+0000"@);
}

/// What is said of a failed call names its status and holds all of its answer.
pub proof fn law_failure_holds_answer(status: nat, data: Seq<char>)
    ensures
        failure_text(status, data) == "API call failed with status "@ + decimal(status) + (": "@
            + data),
{
    assert(failure_text(status, data) =~= "API call failed with status "@ + decimal(status)
        + (": "@ + data));
}

/// Whatever answers come, what is searched for stays, and the current request is the one for the
/// stage of the search: none at its end, and from where it has come to before.
pub proof fn law_search_keeps_question(
    search: SearchModel,
    total: nat,
    sprints: Seq<Sprint>,
    issues: Seq<Entry>,
)
    ensures
        search.with_sprints(total, sprints).base_url == search.base_url,
        search.with_sprints(total, sprints).board_id == search.board_id,
        search.with_sprints(total, sprints).filter == search.filter,
        search.with_sprints(total, sprints).day == search.day,
        search.with_issues(total, issues).base_url == search.base_url,
        search.with_issues(total, issues).board_id == search.board_id,
        search.with_issues(total, issues).filter == search.filter,
        search.with_issues(total, issues).day == search.day,
        search.stage == Stage::Done <==> search.request() is None,
        search.stage == Stage::Sprints ==> search.request() == Some(
            sprint_request(search.base_url, search.board_id, search.start_with),
        ),
        search.stage == Stage::Issues ==> search.request() == Some(
            issue_request(
                search.base_url,
                search.active[search.current as int] as nat,
                search.filter,
                search.start_with,
            ),
        ),
{
}

} // verus!
