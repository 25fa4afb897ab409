use timekeeper::booker::{
    active_sprints, book_time, check_answer, check_status, extend_table, find_issue, found_issues, get_issues,
    get_sprint_issues_for_date, judge_answer, Entry, EntryQuery, Fields, GetRequest, JiraAnswer, Sprint,
    SprintQuery, SprintSearch, Stage,
};
use timekeeper::calendar::{Date, Instant};
use timekeeper::duration::Duration;
use timekeeper::progress::{amounts_text, Progress};
use timekeeper::xdo::{check_code, XDoHandle};

const MIDNIGHT: i64 = 1_715_731_200;

fn day() -> Date {
    Date { year: 2024, month: 5, day: 15 }
}

fn sprint(id: usize, active: bool) -> Sprint {
    let start = if active { MIDNIGHT - 86_400 } else { MIDNIGHT + 10 * 86_400 };
    Sprint {
        start_date: Instant { secs: start, nanos: 0 },
        end_date: Instant { secs: MIDNIGHT + 20 * 86_400, nanos: 0 },
        goal: "goal".to_string(),
        id,
        name: "name".to_string(),
    }
}

fn answer(total: usize) -> JiraAnswer {
    JiraAnswer { start_at: 0, max_results: 50, total }
}

fn issue(key: &str) -> Entry {
    Entry { key: key.to_string(), fields: Fields { summary: format!("summary of {}", key) } }
}

fn search() -> SprintSearch {
    get_sprint_issues_for_date("https://x", "999", &day(), "type = Task")
}

fn pair(name: &str, value: &str) -> (String, String) {
    (name.to_string(), value.to_string())
}

fn asked(request: Option<GetRequest>) -> (String, String) {
    let request = request.unwrap();
    let start = request.query.iter().find(|p| p.0 == "startAt").unwrap().1.clone();
    (request.url, start)
}

#[test]
fn sprints_of_the_board_are_asked_first() {
    let request = search().next_request().unwrap();
    assert_eq!(request.url, "https://x/rest/agile/1.0/board/999/sprint");
    assert_eq!(request.query, vec![pair("startAt", "0")]);
}

#[test]
fn search_goes_through_all_pages() {
    let mut s = search();
    s.take_sprints(SprintQuery { jira: answer(3), values: vec![sprint(10, true), sprint(11, false)] });
    assert_eq!(
        asked(s.next_request()),
        pair("https://x/rest/agile/1.0/board/999/sprint", "2")
    );
    s.take_sprints(SprintQuery { jira: answer(3), values: vec![sprint(12, true)] });
    assert_eq!(s.active, vec![10, 12]);
    let request = s.next_request().unwrap();
    assert_eq!(request.url, "https://x/rest/agile/1.0/sprint/10/issue");
    assert_eq!(
        request.query,
        vec![
            pair("jql", "type = Task"),
            pair("fields", "summary"),
            pair("maxResults", "2000"),
            pair("startAt", "0"),
        ]
    );
    s.take_issues(EntryQuery { jira: answer(2), issues: vec![issue("A")] });
    assert_eq!(asked(s.next_request()), pair("https://x/rest/agile/1.0/sprint/10/issue", "1"));
    s.take_issues(EntryQuery { jira: answer(2), issues: vec![issue("B")] });
    assert_eq!(asked(s.next_request()), pair("https://x/rest/agile/1.0/sprint/12/issue", "0"));
    // the issues of all sprints count against the total of this one
    s.take_issues(EntryQuery { jira: answer(3), issues: vec![issue("C")] });
    assert_eq!(s.stage, Stage::Done);
    assert!(s.next_request().is_none());
    let keys: Vec<&str> = s.issues.iter().map(|i| i.key.as_str()).collect();
    assert_eq!(keys, vec!["A", "B", "C"]);
}

#[test]
fn search_ends_without_sprints_that_count() {
    let mut s = search();
    s.take_sprints(SprintQuery { jira: answer(1), values: vec![sprint(10, false)] });
    assert_eq!(s.stage, Stage::Done);
    assert_eq!(s.issues.len(), 0);
    assert_eq!(active_sprints(&vec![sprint(1, true), sprint(2, false)], &day()), vec![1]);
}

#[test]
fn single_issues_are_asked_for() {
    let requests = get_issues("https://x", &vec!["A-1".to_string(), "B-2".to_string()]);
    assert_eq!(requests.len(), 2);
    assert_eq!(requests[1].url, "https://x/rest/agile/1.0/issue/B-2");
    assert_eq!(requests[1].query, vec![pair("fields", "summary")]);
    let found = found_issues(vec![Some(issue("A")), None, Some(issue("C"))]);
    let keys: Vec<&str> = found.iter().map(|i| i.key.as_str()).collect();
    assert_eq!(keys, vec!["A", "C"]);
}

#[test]
fn error_status_is_an_error() {
    assert_eq!(check_status(200, "fine"), Ok(()));
    assert_eq!(check_status(399, "fine"), Ok(()));
    assert_eq!(
        check_status(400, "no"),
        Err("API call failed with status 400: no".to_string())
    );
    assert_eq!(
        check_status(503, ""),
        Err("API call failed with status 503: ".to_string())
    );
}

#[test]
fn answer_must_be_json() {
    assert_eq!(check_answer(200, "{\"key\": 1}"), Ok(()));
    let error = serde_json::from_str::<serde_json::Value>("").unwrap_err().to_string();
    assert_eq!(check_answer(204, ""), Err(error));
    assert_eq!(
        check_answer(500, "no json"),
        Err("API call failed with status 500: no json".to_string())
    );
    assert_eq!(judge_answer(200, "x", None), Ok(()));
    assert_eq!(judge_answer(200, "x", Some("bad".to_string())), Err("bad".to_string()));
    assert!(judge_answer(400, "x", None).is_err());
}

#[test]
fn time_is_booked_from_nine() {
    let log = book_time("https://x", "A-1", &day(), &Duration::new(3_600, 999_999_999));
    assert_eq!(log.url, "https://x/rest/api/latest/issue/A-1/worklog");
    assert_eq!(log.started, "2024-05-15T09:00:00.000+0000");
    assert_eq!(log.time_spent_seconds, 3_600);
}

#[test]
fn last_issue_with_a_key_is_known() {
    let mut table = vec![issue("A")];
    let mut again = table[0].clone();
    again.fields.summary = "again".to_string();
    extend_table(&mut table, vec![issue("B"), again]);
    assert_eq!(table.len(), 2);
    assert_eq!(table[find_issue(&table, &"A".to_string()).unwrap()].fields.summary, "again");
    assert_eq!(find_issue(&table, &"C".to_string()), None);
}

fn amounts() -> Vec<(String, Duration)> {
    vec![
        ("A-1".to_string(), Duration::from_secs(300)),
        ("B-1".to_string(), Duration::from_secs(3_600)),
    ]
}

fn shown(progress: &Progress) -> Vec<String> {
    progress.lines().into_iter().map(|line| line.0).collect()
}

#[test]
fn bookings_are_tried_one_after_the_other() {
    let mut progress = Progress::start(amounts());
    assert_eq!(shown(&progress), vec!["[ ] A-1", "[ ] B-1"]);
    let log = progress.next_worklog("https://x", &day()).unwrap();
    assert_eq!(log.url, "https://x/rest/api/latest/issue/A-1/worklog");
    assert_eq!(log.time_spent_seconds, 300);
    progress.record(Some("no way".to_string()));
    assert_eq!(shown(&progress), vec!["[[ERR(no way)]] A-1", "[ ] B-1"]);
    let log = progress.next_worklog("https://x", &day()).unwrap();
    assert_eq!(log.url, "https://x/rest/api/latest/issue/B-1/worklog");
    progress.record(None);
    assert_eq!(shown(&progress), vec!["[[ERR(no way)]] A-1", "[OK] B-1"]);
    assert!(progress.next_worklog("https://x", &day()).is_none());
    assert_eq!(progress.closing_title(), "Not okay, 1 failed");
    assert_eq!(
        amounts_text(&progress.lines()),
        "[[ERR(no way)]] A-1: 00:05:00\n[OK] B-1: 01:00:00\n"
    );
}

#[test]
fn all_booked_is_okay() {
    let mut progress = Progress::start(amounts());
    progress.record(None);
    progress.record(None);
    assert_eq!(progress.closing_title(), "Okay all booked!");
    assert_eq!(Progress::start(vec![]).closing_title(), "Okay all booked!");
    assert!(Progress::start(vec![]).next_worklog("", &day()).is_none());
    assert_eq!(amounts_text(&vec![]), "");
}

#[test]
fn last_outcome_of_an_issue_is_shown() {
    let mut list = amounts();
    list.push(("A-1".to_string(), Duration::from_secs(1)));
    let mut progress = Progress::start(list);
    progress.record(None);
    progress.record(None);
    progress.record(Some("twice".to_string()));
    assert_eq!(
        shown(&progress),
        vec!["[[ERR(twice)]] A-1", "[OK] B-1", "[[ERR(twice)]] A-1"]
    );
}

#[test]
fn window_codes_are_checked() {
    assert_eq!(check_code(0), Ok(()));
    assert_eq!(check_code(1), Err("xdo failed with code: 1".to_string()));
    assert_eq!(check_code(-3), Err("xdo failed with code: -3".to_string()));
    assert_eq!(XDoHandle::new(None), Err("could not create handle".to_string()));
    assert_eq!(
        XDoHandle::new(Some((2, 77))),
        Err("xdo failed with code: 2".to_string())
    );
    let handle = XDoHandle::new(Some((0, 77))).unwrap();
    assert_eq!(handle.require_user_attention(1), (77, 1));
}
