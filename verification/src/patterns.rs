//! Regular expressions on notes and summaries.

use crate::text::texts;
use regex::RegexBuilder;
use vstd::prelude::*;

verus! {

/// The message of the error that compiling a pattern without regard to case gives, if it gives
/// one.
pub uninterp spec fn regex_error(pattern: Seq<char>) -> Option<Seq<char>>;

/// The parts of a text that match a pattern without regard to case, from left to right; none, if
/// the pattern does not compile.
pub uninterp spec fn regex_find_all(pattern: Seq<char>, text: Seq<char>) -> Seq<Seq<char>>;

/// Whether a part of a text matches a pattern without regard to case; not so, if the pattern
/// does not compile.
pub uninterp spec fn regex_found(pattern: Seq<char>, text: Seq<char>) -> bool;

/// A text in upper case.
pub uninterp spec fn uppercase(text: Seq<char>) -> Seq<char>;

/// A text in lower case.
pub uninterp spec fn lowercase(text: Seq<char>) -> Seq<char>;

/// Calls `regex::RegexBuilder::build`, and keeps the message of its error.
///
/// Whether a pattern compiles, and what its error says, is given by the pattern.
#[verifier::external_body]
pub(crate) fn pattern_error(pattern: &str) -> (r: Option<String>)
    ensures
        match r {
            Some(message) => regex_error(pattern@) == Some(message@),
            None => regex_error(pattern@) is None,
        },
{
    RegexBuilder::new(pattern)
        .case_insensitive(true)
        .build()
        .err()
        .map(|e| e.to_string())
}

/// Calls `regex::Regex::find_iter` on the compiled pattern, and copies the text of each match.
///
/// The matches are given by the pattern and the text. A pattern that does not compile has none.
#[verifier::external_body]
fn find_all(pattern: &str, text: &str) -> (r: Vec<String>)
    ensures
        texts(r@) == regex_find_all(pattern@, text@),
{
    match RegexBuilder::new(pattern).case_insensitive(true).build() {
        Ok(regex) => regex.find_iter(text).map(|m| m.as_str().to_string()).collect(),
        Err(_) => Vec::new(),
    }
}

/// Calls `regex::Regex::find` on the compiled pattern, and tells whether there is a match.
///
/// That is given by the pattern and the text. A pattern that does not compile has none.
#[verifier::external_body]
fn is_found(pattern: &str, text: &str) -> (r: bool)
    ensures
        r == regex_found(pattern@, text@),
{
    match RegexBuilder::new(pattern).case_insensitive(true).build() {
        Ok(regex) => regex.find(text).is_some(),
        Err(_) => false,
    }
}

/// Calls `str::to_uppercase`. The result is given by the text.
#[verifier::external_body]
fn to_uppercase(text: &str) -> (r: String)
    ensures
        r@ == uppercase(text@),
{
    text.to_uppercase()
}

/// Calls `str::to_lowercase`. The result is given by the text.
#[verifier::external_body]
fn to_lowercase(text: &str) -> (r: String)
    ensures
        r@ == lowercase(text@),
{
    text.to_lowercase()
}

/// Texts in upper case.
pub open spec fn uppercased(list: Seq<Seq<char>>) -> Seq<Seq<char>> {
    list.map_values(|m: Seq<char>| uppercase(m))
}

/// The issues that a line of notes names: what the pattern matches, in upper case.
pub open spec fn line_keys(pattern: Seq<char>, line: Seq<char>) -> Seq<Seq<char>> {
    uppercased(regex_find_all(pattern, line))
}

/// The issues that notes name, line by line.
pub open spec fn note_keys(pattern: Seq<char>, lines: Seq<Seq<char>>) -> Seq<Seq<char>>
    decreases lines.len(),
{
    if lines.len() == 0 {
        Seq::empty()
    } else {
        note_keys(pattern, lines.drop_last()) + line_keys(pattern, lines.last())
    }
}

/// The issues that notes name, or the message of the error if the pattern does not compile.
pub fn issue_keys(pattern: &str, lines: &Vec<String>) -> (r: Result<Vec<String>, String>)
    ensures
        match r {
            Ok(keys) => {
                &&& regex_error(pattern@) is None
                &&& texts(keys@) == note_keys(pattern@, texts(lines@))
            },
            Err(message) => regex_error(pattern@) == Some(message@),
        },
{
    if let Some(message) = pattern_error(pattern) {
        return Err(message);
    }
    let ghost all = texts(lines@);
    let mut keys: Vec<String> = Vec::new();
    assert(all.take(0).len() == 0);
    assert(texts(keys@) =~= Seq::empty());
    for i in 0..lines.len()
        invariant
            all == texts(lines@),
            texts(keys@) == note_keys(pattern@, all.take(i as int)),
    {
        let found = find_all(pattern, lines[i].as_str());
        let ghost before = texts(keys@);
        let ghost matched = texts(found@);
        for j in 0..found.len()
            invariant
                matched == texts(found@),
                texts(keys@) == before + uppercased(matched.take(j as int)),
        {
            let ghost sofar = texts(keys@);
            keys.push(to_uppercase(found[j].as_str()));
            proof {
                let key = uppercase(matched[j as int]);
                assert(texts(keys@) =~= sofar.push(key));
                assert(uppercased(matched.take(j + 1)) =~= uppercased(matched.take(j as int)).push(
                    key,
                ));
                assert(texts(keys@) =~= before + uppercased(matched.take(j + 1)));
            }
        }
        proof {
            assert(matched.take(found@.len() as int) =~= matched);
            assert(all.take(i + 1).drop_last() =~= all.take(i as int));
            assert(all.take(i + 1).last() == lines@[i as int]@);
        }
    }
    assert(all.take(all.len() as int) =~= all);
    Ok(keys)
}

/// Whether a summary matches, in lower case.
pub open spec fn summary_matches(pattern: Seq<char>, summary: Seq<char>) -> bool {
    regex_found(pattern, lowercase(summary))
}

/// Tells of each summary whether it matches.
pub fn matching_summaries(pattern: &str, summaries: &Vec<String>) -> (r: Vec<bool>)
    ensures
        r@.len() == summaries@.len(),
        forall|i: int|
            0 <= i < r@.len() ==> #[trigger] r@[i] == summary_matches(pattern@, summaries@[i]@),
{
    let mut matches: Vec<bool> = Vec::new();
    for i in 0..summaries.len()
        invariant
            matches@.len() == i,
            forall|j: int|
                0 <= j < i ==> #[trigger] matches@[j] == summary_matches(pattern@, summaries@[j]@),
    {
        let lower = to_lowercase(summaries[i].as_str());
        matches.push(is_found(pattern, lower.as_str()));
    }
    matches
}

/// Notes name what the pattern finds in each of their lines, from the first line to the last and
/// from left to right, in upper case.
pub proof fn law_notes_name_matches(pattern: Seq<char>, lines: Seq<Seq<char>>, line: Seq<char>)
    ensures
        note_keys(pattern, Seq::empty()) == Seq::<Seq<char>>::empty(),
        ({
            let before = note_keys(pattern, lines);
            let after = note_keys(pattern, lines.push(line));
            let found = regex_find_all(pattern, line);
            &&& after.len() == before.len() + found.len()
            &&& forall|i: int| 0 <= i < before.len() ==> #[trigger] after[i] == before[i]
            &&& forall|j: int|
                0 <= j < found.len() ==> after[before.len() + j] == uppercase(#[trigger] found[j])
        }),
{
    assert(lines.push(line).drop_last() =~= lines);
    assert(lines.push(line).last() == line);
}

} // verus!
