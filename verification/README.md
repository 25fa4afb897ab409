# Timekeeper

A terminal program for a TimeFlip2: it shows what the device has logged, lets
you add notes to it, and books the time in JIRA.

- `src/` is the library: the rules of the program, written in Verus. It decides
  which log entries are listed, what each key does, how entries become bookings,
  how bookings are rounded and shifted, which requests go to JIRA and what is
  shown. Its contracts are proved, but for those of the wrappers below.
- `app/` is the program around it: the device, the calls to JIRA, the files and
  the terminal.
- `tests/` runs the library.

## Modules of the library

| Module | What it holds |
| --- | --- |
| `text`, `duration`, `calendar` | texts, spans of time, days and instants |
| `stateful_list` | a list with a selection |
| `entries`, `app` | log entries with notes, and the list of them |
| `config`, `patterns` | the sides of the device, regular expressions |
| `booker` | requests to JIRA and their answers |
| `booking`, `suggestions`, `shares` | bookings of a day, and how entries lead to them |
| `progress` | booking one after the other |
| `session` | what keys and events do |
| `views`, `booking_view`, `layout` | what is shown, and where |
| `xdo` | asking for attention |

## What is believed

Twelve private functions call code that is not verified, and their contracts are
taken on trust: `format_utc`, `utc_instant`, `instant_after`, `local_date` and
`local_text` call chrono, `pattern_error`, `find_all` and `is_found` call regex, `to_uppercase`
and `to_lowercase` call the standard library, `split` calls ratatui and
`json_error` calls serde_json. The comment above each says what it claims.

## Configuration

The configuration file of the device is extended by `jira_user`, `jira_token`,
`jira_base_url` and `jira_board_id`.

`jira_jql_issue_filter` says which issues of a sprint are looked at.

`booker_issue_regex` is applied to the notes of an entry. What it matches is
taken as the key of an issue.

`[[sides_additional_info]]` says more of a side: with `jira_summary_regex`, time
on it is booked on the issue whose summary matches; with `bookable = false`, it
is not booked, but makes up for what is rounded elsewhere.

```toml
jira_user = "your-user@domain.com"
jira_token = "your-token"
jira_base_url = "https://your-domain.atlassian.net"
jira_board_id = "999"
jira_jql_issue_filter = ""
booker_issue_regex = 'PROJECT\-[0-9]+'

[[sides_additional_info]]
facet = 1
jira_summary_regex = "Meetings"
```
