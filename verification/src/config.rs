//! What the configuration says of the sides of the device.

use crate::entries::Facet;
use crate::patterns::{pattern_error, regex_error};
use vstd::prelude::*;
use vstd::utf8::encode_utf8;

verus! {

/// A side of the device, with the name that the user has given it.
#[derive(Debug)]
pub struct Side {
    pub facet: Facet,
    pub name: Option<String>,
}

/// The sides of the device, and what each facet is called where it has no name.
#[derive(Debug)]
pub struct Config {
    pub sides: Vec<Side>,
    pub labels: Vec<String>,
}

/// The number of bytes of a text.
pub open spec fn byte_len(text: Seq<char>) -> nat {
    encode_utf8(text).len()
}

/// The number of bytes of a text.
pub fn text_bytes(text: &str) -> (r: usize)
    ensures
        r == byte_len(text@),
{
    text.as_bytes().len()
}

impl Config {
    /// Every side has a label.
    pub open spec fn wf(&self) -> bool {
        &&& self.sides@.len() <= self.labels@.len()
        &&& forall|i: int|
            0 <= i < self.sides@.len() ==> (#[trigger] self.sides@[i]).facet.index
                < self.labels@.len()
    }

    /// There is a side for the facet.
    pub open spec fn knows(&self, facet: int) -> bool {
        0 <= facet < self.sides@.len()
    }

    /// What a facet is called: as its side is named, or else by its label.
    pub open spec fn called(&self, facet: int) -> Seq<char> {
        match self.sides@[facet].name {
            Some(name) => name@,
            None => self.labels@[facet]@,
        }
    }

    /// What a side is called: by its name, or else by the label of its facet.
    pub open spec fn side_called(&self, side: int) -> Seq<char> {
        match self.sides@[side].name {
            Some(name) => name@,
            None => self.labels@[self.sides@[side].facet.index as int]@,
        }
    }

    /// The length in bytes of the longest of the first `n` sides.
    pub open spec fn longest(&self, n: nat) -> nat
        decreases n,
    {
        if n == 0 {
            0
        } else {
            let before = self.longest((n - 1) as nat);
            let len = byte_len(self.side_called(n - 1));
            if len > before {
                len
            } else {
                before
            }
        }
    }
}

/// What the facet is called.
pub fn facet_name(facet: &Facet, config: &Config) -> (r: String)
    requires
        config.wf(),
        config.knows(facet.index as int),
    ensures
        r@ == config.called(facet.index as int),
{
    let i: usize = facet.index as usize;
    match &config.sides[i].name {
        Some(name) => name.clone(),
        None => config.labels[i].clone(),
    }
}

/// The length in bytes of the longest name of a side.
pub fn longest_facet_name(config: &Config) -> (r: usize)
    requires
        config.wf(),
    ensures
        r == config.longest(config.sides@.len()),
{
    let mut longest: usize = 0;
    for i in 0..config.sides.len()
        invariant
            config.wf(),
            longest == config.longest(i as nat),
    {
        let side = &config.sides[i];
        assert(config.sides@[i as int].facet.index < config.labels@.len());
        let len: usize = match &side.name {
            Some(name) => text_bytes(name.as_str()),
            None => text_bytes(config.labels[side.facet.index as usize].as_str()),
        };
        if len > longest {
            longest = len;
        }
    }
    longest
}

/// The longest name is at least as long as each, and as long as one of them.
pub proof fn law_longest_facet_name(config: Config, n: nat)
    requires
        n <= config.sides@.len(),
    ensures
        forall|i: int| 0 <= i < n ==> byte_len(#[trigger] config.side_called(i)) <= config.longest(n),
        n > 0 ==> exists|i: int|
            0 <= i < n && byte_len(#[trigger] config.side_called(i)) == config.longest(n),
        n == 0 ==> config.longest(n) == 0,
    decreases n,
{
    if n > 0 {
        law_longest_facet_name(config, (n - 1) as nat);
        assert(byte_len(config.side_called(n - 1)) <= config.longest(n));
        if config.longest(n) != byte_len(config.side_called(n - 1)) && n > 1 {
            let i = choose|i: int|
                0 <= i < n - 1 && byte_len(#[trigger] config.side_called(i)) == config.longest(
                    (n - 1) as nat,
                );
            assert(byte_len(config.side_called(i)) == config.longest(n));
        }
    }
}

/// What the configuration file says of a side, apart from its name.
#[derive(Debug)]
pub struct ParsedSide {
    pub facet: Facet,
    pub jira_summary_regex: Option<String>,
    pub bookable: Option<bool>,
}

/// What is known of a side: the pattern of the summaries of its issues, and whether time on it
/// can be booked.
#[derive(Debug)]
pub struct SideAdditionalInfo {
    pub facet: Facet,
    pub jira_summary_regex: Option<String>,
    pub bookable: bool,
}

/// The contents of what is known of a side.
#[verifier::ext_equal]
pub struct SideModel {
    pub facet: u8,
    pub jira_summary_regex: Option<Seq<char>>,
    pub bookable: bool,
}

/// The text of a string that may be missing.
pub open spec fn optional_text(text: Option<String>) -> Option<Seq<char>> {
    match text {
        Some(s) => Some(s@),
        None => None,
    }
}

impl View for SideAdditionalInfo {
    type V = SideModel;

    open spec fn view(&self) -> SideModel {
        SideModel {
            facet: self.facet.index,
            jira_summary_regex: optional_text(self.jira_summary_regex),
            bookable: self.bookable,
        }
    }
}

/// What is known of the sides, by facet: of several on one facet, the last counts.
pub open spec fn info_map(infos: Seq<SideAdditionalInfo>) -> Map<u8, SideModel>
    decreases infos.len(),
{
    if infos.len() == 0 {
        Map::empty()
    } else {
        info_map(infos.drop_last()).insert(infos.last().facet.index, infos.last()@)
    }
}

impl ParsedSide {
    /// What is known of the side: where nothing is said, time on it can be booked.
    pub open spec fn info(&self) -> SideModel {
        SideModel {
            facet: self.facet.index,
            jira_summary_regex: optional_text(self.jira_summary_regex),
            bookable: match self.bookable {
                Some(bookable) => bookable,
                None => true,
            },
        }
    }

    /// The message of the error of its pattern, if that does not compile.
    pub open spec fn error(&self) -> Option<Seq<char>> {
        match self.jira_summary_regex {
            Some(pattern) => regex_error(pattern@),
            None => None,
        }
    }
}

/// What is said of the sides, by facet: of several on one facet, the last counts.
pub open spec fn parsed_map(sides: Seq<ParsedSide>) -> Map<u8, SideModel>
    decreases sides.len(),
{
    if sides.len() == 0 {
        Map::empty()
    } else {
        parsed_map(sides.drop_last()).insert(sides.last().facet.index, sides.last().info())
    }
}

/// The message of the first error among the patterns of the sides.
pub open spec fn first_error(sides: Seq<ParsedSide>) -> Option<Seq<char>>
    decreases sides.len(),
{
    if sides.len() == 0 {
        None
    } else {
        match first_error(sides.drop_last()) {
            Some(message) => Some(message),
            None => sides.last().error(),
        }
    }
}

/// What is known of the sides, given the message of the error of each pattern that does not
/// compile: the first of them is the result, if there is one.
pub fn collect_side_infos(sides: Vec<ParsedSide>, errors: Vec<Option<String>>) -> (r: Result<
    Vec<SideAdditionalInfo>,
    String,
>)
    requires
        sides@.len() == errors@.len(),
    ensures
        match r {
            Ok(infos) => {
                &&& forall|i: int| 0 <= i < errors@.len() ==> (#[trigger] errors@[i]) is None
                &&& info_map(infos@) == parsed_map(sides@)
            },
            Err(message) => exists|i: int|
                0 <= i < errors@.len() && (#[trigger] errors@[i]) == Some(message) && forall|j: int|
                    0 <= j < i ==> (#[trigger] errors@[j]) is None,
        },
{
    for i in 0..errors.len()
        invariant
            forall|j: int| 0 <= j < i ==> (#[trigger] errors@[j]) is None,
    {
        if let Some(message) = &errors[i] {
            return Err(message.clone());
        }
    }
    let mut infos: Vec<SideAdditionalInfo> = Vec::new();
    assert(sides@.take(0).len() == 0);
    for side in iter: sides
        invariant
            infos@.len() == iter.index(),
            info_map(infos@) == parsed_map(iter.seq().take(iter.index() as int)),
    {
        let ghost n = iter.index() as int;
        let ghost before = infos@;
        let bookable: bool = match side.bookable {
            Some(bookable) => bookable,
            None => true,
        };
        proof {
            assert(iter.seq().take(n + 1).drop_last() =~= iter.seq().take(n));
            assert(iter.seq().take(n + 1).last() == side);
        }
        infos.push(
            SideAdditionalInfo {
                facet: side.facet,
                jira_summary_regex: side.jira_summary_regex,
                bookable,
            },
        );
        assert(infos@.drop_last() =~= before);
    }
    assert(sides@.take(sides@.len() as int) =~= sides@);
    Ok(infos)
}

/// What is known of the sides by what the configuration file says of them, or the message of the
/// error if a pattern does not compile.
pub fn sides_additional_info(sides: Vec<ParsedSide>) -> (r: Result<
    Vec<SideAdditionalInfo>,
    String,
>)
    ensures
        match r {
            Ok(infos) => first_error(sides@) is None && info_map(infos@) == parsed_map(sides@),
            Err(message) => first_error(sides@) == Some(message@),
        },
{
    let mut errors: Vec<Option<String>> = Vec::new();
    for i in 0..sides.len()
        invariant
            errors@.len() == i,
            forall|j: int|
                0 <= j < i ==> optional_text(#[trigger] errors@[j]) == sides@[j].error(),
    {
        let error = match &sides[i].jira_summary_regex {
            Some(pattern) => pattern_error(pattern.as_str()),
            None => None,
        };
        errors.push(error);
    }
    proof {
        lemma_first_error(sides@, errors@);
    }
    collect_side_infos(sides, errors)
}

proof fn lemma_first_error(sides: Seq<ParsedSide>, errors: Seq<Option<String>>)
    requires
        sides.len() == errors.len(),
        forall|j: int|
            0 <= j < sides.len() ==> optional_text(#[trigger] errors[j]) == sides[j].error(),
    ensures
        (forall|i: int| 0 <= i < errors.len() ==> (#[trigger] errors[i]) is None) ==> first_error(
            sides,
        ) is None,
        forall|i: int|
            0 <= i < errors.len() && (#[trigger] errors[i]) is Some && (forall|j: int|
                0 <= j < i ==> (#[trigger] errors[j]) is None) ==> first_error(sides)
                == optional_text(errors[i]),
    decreases sides.len(),
{
    if sides.len() > 0 {
        let front = errors.drop_last();
        lemma_first_error(sides.drop_last(), front);
        let last = sides.len() - 1;
        assert(optional_text(errors[last]) == sides[last].error());
        if forall|i: int| 0 <= i < errors.len() ==> (#[trigger] errors[i]) is None {
            assert forall|i: int| 0 <= i < front.len() implies (#[trigger] front[i]) is None by {
                assert(errors[i] is None);
            }
            assert(errors[last] is None);
        }
        assert forall|i: int|
            0 <= i < errors.len() && (#[trigger] errors[i]) is Some && (forall|j: int|
                0 <= j < i ==> (#[trigger] errors[j]) is None) implies first_error(sides)
            == optional_text(errors[i]) by {
            assert forall|j: int| 0 <= j < i implies (#[trigger] front[j]) is None by {
                assert(errors[j] is None);
            }
            if i < last {
                assert(front[i] is Some);
            }
        }
    }
}

/// What is known of the side of `facet`.
pub fn find_side<'a>(infos: &'a Vec<SideAdditionalInfo>, facet: &Facet) -> (r: Option<
    &'a SideAdditionalInfo,
>)
    ensures
        match r {
            Some(info) => info_map(infos@).contains_key(facet.index) && info_map(
                infos@,
            )[facet.index] == info@,
            None => !info_map(infos@).contains_key(facet.index),
        },
{
    let mut i: usize = infos.len();
    assert(infos@.take(i as int) =~= infos@);
    while i > 0
        invariant
            i <= infos@.len(),
            info_map(infos@).contains_key(facet.index) == info_map(
                infos@.take(i as int),
            ).contains_key(facet.index),
            info_map(infos@).contains_key(facet.index) ==> info_map(infos@)[facet.index]
                == info_map(infos@.take(i as int))[facet.index],
        decreases i,
    {
        assert(infos@.take(i as int).drop_last() =~= infos@.take(i - 1));
        assert(infos@.take(i as int).last() == infos@[i - 1]);
        if infos[i - 1].facet.index == facet.index {
            return Some(&infos[i - 1]);
        }
        i -= 1;
    }
    None
}

/// A facet is called as its side is named, or else by its label, and so is a side.
pub proof fn law_names(config: Config, i: int)
    requires
        config.wf(),
        0 <= i < config.sides@.len(),
    ensures
        config.sides@[i].name matches Some(name) ==> config.called(i) == name@
            && config.side_called(i) == name@,
        config.sides@[i].name is None ==> config.called(i) == config.labels@[i]@
            && config.side_called(i) == config.labels@[config.sides@[i].facet.index as int]@,
{
}

/// What the file says of one side more counts for its facet, and nothing else changes: its
/// pattern as it stands, and time can be booked on it unless it says otherwise.
pub proof fn law_last_word_on_side(sides: Seq<ParsedSide>, side: ParsedSide)
    ensures
        parsed_map(Seq::empty()) == Map::<u8, SideModel>::empty(),
        parsed_map(sides.push(side)).contains_key(side.facet.index),
        parsed_map(sides.push(side))[side.facet.index].jira_summary_regex == optional_text(
            side.jira_summary_regex,
        ),
        parsed_map(sides.push(side))[side.facet.index].bookable == (side.bookable != Some(false)),
        forall|facet: u8|
            facet != side.facet.index ==> (#[trigger] parsed_map(sides.push(side)).contains_key(
                facet,
            ) <==> parsed_map(sides).contains_key(facet)),
        forall|facet: u8|
            facet != side.facet.index && parsed_map(sides).contains_key(facet)
                ==> #[trigger] parsed_map(sides.push(side))[facet] == parsed_map(sides)[facet],
{
    assert(sides.push(side).drop_last() =~= sides);
}

/// The same of what is known of the sides.
pub proof fn law_last_known_of_side(infos: Seq<SideAdditionalInfo>, info: SideAdditionalInfo)
    ensures
        info_map(Seq::empty()) == Map::<u8, SideModel>::empty(),
        info_map(infos.push(info)) == info_map(infos).insert(
            info.facet.index,
            SideModel {
                facet: info.facet.index,
                jira_summary_regex: match info.jira_summary_regex {
                    Some(pattern) => Some(pattern@),
                    None => None,
                },
                bookable: info.bookable,
            },
        ),
{
    assert(infos.push(info).drop_last() =~= infos);
}

/// The first pattern that does not compile gives the error, and there is none only if all
/// compile.
pub proof fn law_first_error(sides: Seq<ParsedSide>, side: ParsedSide)
    ensures
        first_error(Seq::empty()) is None,
        first_error(sides) is Some ==> first_error(sides.push(side)) == first_error(sides),
        first_error(sides) is None ==> first_error(sides.push(side)) == match side.jira_summary_regex {
            Some(pattern) => regex_error(pattern@),
            None => None,
        },
{
    assert(sides.push(side).drop_last() =~= sides);
}

/// The bytes of a text are those of its characters: one for each of ASCII, and up to four.
pub proof fn law_bytes(text: Seq<char>, c: char)
    ensures
        byte_len(Seq::empty()) == 0,
        byte_len(seq![c] + text) == byte_len(text) + if (c as u32) < 0x80 {
            1int
        } else if (c as u32) < 0x800 {
            2int
        } else if (c as u32) < 0x10000 {
            3int
        } else {
            4int
        },
{
    let all = seq![c] + text;
    assert(all.drop_first() =~= text);
    assert(all[0] == c);
}

} // verus!
