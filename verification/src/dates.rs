//! The date normalizer: canonicalizes locale-specific calendar dates and
//! hands the canonical text to the calendar library.

use crate::models::CalendarDate;
use crate::text::{
    chars_of, contains_sub, eq_chars, lower_chars, lower_of, push_all, spec_find, spec_split_ws,
    split_ws, string_of,
};
use chrono::Datelike;
use chrono::Timelike;
use vstd::prelude::*;

verus! {

// --- trusted calendar parsing ---

/// What the calendar library answers for an English `month day, year`
/// string: `Some((year, month, day))` or `None`.
pub uninterp spec fn english_date_of(s: Seq<char>) -> Option<(int, int, int)>;

/// Relies on `chrono::NaiveDate::parse_from_str` with the fixed layout
/// `"%B %d, %Y"` (English month name, day number, comma, year): the result
/// is a function of the input string alone; a parsed month lies in 1..=12
/// and a parsed day in 1..=31, as `chrono::Datelike` documents.
#[verifier::external_body]
pub(crate) fn parse_month_day_year(s: &str) -> (r: Option<CalendarDate>)
    ensures
        match r {
            Some(d) => english_date_of(s@) == Some(
                (d.year as int, d.month as int, d.day as int),
            ) && 1 <= d.month <= 12 && 1 <= d.day <= 31,
            None => english_date_of(s@) is None,
        },
{
    match chrono::NaiveDate::parse_from_str(s, "%B %d, %Y") {
        Ok(d) => Some(
            CalendarDate { year: d.year(), month: d.month() as u8, day: d.day() as u8 },
        ),
        Err(_) => None,
    }
}

/// What the calendar library answers for a 12-hour clock string:
/// `Some((hour, minute, second))` on the 24-hour scale, or `None`.
pub uninterp spec fn clock_time_of(s: Seq<char>) -> Option<(int, int, int)>;

/// Relies on `chrono::NaiveTime::parse_from_str` with the fixed layout
/// `"%l %M %p"` (12-hour clock, minutes, AM/PM): the result is a function
/// of the input string alone; a parsed hour lies below 24 and minute and
/// second below 60, as `chrono::Timelike` documents.
#[verifier::external_body]
pub(crate) fn parse_clock_12h(s: &str) -> (r: Option<(u8, u8, u8)>)
    ensures
        match r {
            Some(t) => clock_time_of(s@) == Some((t.0 as int, t.1 as int, t.2 as int)) && t.0 < 24
                && t.1 < 60 && t.2 < 60,
            None => clock_time_of(s@) is None,
        },
{
    match chrono::NaiveTime::parse_from_str(s, "%l %M %p") {
        Ok(t) => Some((t.hour() as u8, t.minute() as u8, t.second() as u8)),
        Err(_) => None,
    }
}

// --- the French month lookup table ---

pub open spec fn french_month_names() -> Seq<Seq<char>> {
    seq![
        "janvier"@,
        "février"@,
        "mars"@,
        "avril"@,
        "mai"@,
        "juin"@,
        "juillet"@,
        "août"@,
        "septembre"@,
        "octobre"@,
        "novembre"@,
        "décembre"@,
    ]
}

pub open spec fn english_month_names() -> Seq<Seq<char>> {
    seq![
        "january"@,
        "february"@,
        "march"@,
        "april"@,
        "may"@,
        "june"@,
        "july"@,
        "august"@,
        "september"@,
        "october"@,
        "november"@,
        "december"@,
    ]
}

fn french_month_table() -> (r: Vec<Vec<char>>)
    ensures
        r.deep_view() == french_month_names(),
{
    let mut r: Vec<Vec<char>> = Vec::new();
    r.push(chars_of("janvier"));
    r.push(chars_of("février"));
    r.push(chars_of("mars"));
    r.push(chars_of("avril"));
    r.push(chars_of("mai"));
    r.push(chars_of("juin"));
    r.push(chars_of("juillet"));
    r.push(chars_of("août"));
    r.push(chars_of("septembre"));
    r.push(chars_of("octobre"));
    r.push(chars_of("novembre"));
    r.push(chars_of("décembre"));
    proof {
        assert(r.deep_view() =~~= french_month_names());
    }
    r
}

fn english_month_table() -> (r: Vec<Vec<char>>)
    ensures
        r.deep_view() == english_month_names(),
{
    let mut r: Vec<Vec<char>> = Vec::new();
    r.push(chars_of("january"));
    r.push(chars_of("february"));
    r.push(chars_of("march"));
    r.push(chars_of("april"));
    r.push(chars_of("may"));
    r.push(chars_of("june"));
    r.push(chars_of("july"));
    r.push(chars_of("august"));
    r.push(chars_of("september"));
    r.push(chars_of("october"));
    r.push(chars_of("november"));
    r.push(chars_of("december"));
    proof {
        assert(r.deep_view() =~~= english_month_names());
    }
    r
}

// --- locale canonicalization ---

/// Whether the lowered date text mentions any French month name.
pub open spec fn mentions_french_month(low: Seq<char>) -> bool {
    exists|i: int|
        0 <= i < french_month_names().len() && spec_find(
            low,
            french_month_names()[i],
            0,
        ) is Some
}

/// The index of the first French month name equal to the token, if any.
pub open spec fn french_month_index_from(token: Seq<char>, i: int) -> Option<int>
    decreases 12 - i,
{
    if i < 0 || i >= 12 {
        None
    } else if french_month_names()[i] == token {
        Some(i)
    } else {
        french_month_index_from(token, i + 1)
    }
}

/// The index of the French month that the token names, if any.
pub open spec fn french_month_index(token: Seq<char>) -> Option<int> {
    french_month_index_from(token, 0)
}

/// What the date normalizer yields: the lowered input unchanged when no
/// French month name occurs in it, else `day french-month year` rewritten
/// as `english-month day, year`; `None` when the French date is malformed.
pub open spec fn spec_convert_french_date(s: Seq<char>) -> Option<Seq<char>> {
    let low = lower_of(s);
    if !mentions_french_month(low) {
        Some(low)
    } else {
        let parts = spec_split_ws(low);
        if parts.len() < 3 {
            None
        } else {
            match french_month_index(parts[1]) {
                None => None,
                Some(i) => Some(
                    english_month_names()[i] + seq![' '] + parts[0] + seq![',', ' '] + parts[2],
                ),
            }
        }
    }
}

/// Language canonicalization tries each known locale in turn; French is
/// the only one besides English.
pub open spec fn spec_convert_language_date(s: Seq<char>) -> Option<Seq<char>> {
    spec_convert_french_date(s)
}

/// Canonicalizes a possibly French date to English `month day, year` form;
/// any other input is passed through lowercased.
pub(crate) fn convert_french_chars(v: &Vec<char>) -> (r: Option<Vec<char>>)
    ensures
        match r {
            Some(c) => spec_convert_french_date(v@) == Some(c@),
            None => spec_convert_french_date(v@) is None,
        },
{
    let low = lower_chars(v);
    let french = french_month_table();
    let mut found: bool = false;
    let mut i: usize = 0;
    while i < french.len()
        invariant
            low@ == lower_of(v@),
            french.deep_view() == french_month_names(),
            i <= french@.len(),
            found == exists|k: int|
                0 <= k < i && spec_find(low@, french_month_names()[k], 0) is Some,
        decreases french@.len() - i,
    {
        proof {
            assert(french.deep_view().len() == french@.len());
            assert(french.deep_view()[i as int] == french@[i as int]@);
        }
        if !found && contains_sub(&low, &french[i]) {
            found = true;
            proof {
                assert(spec_find(low@, french_month_names()[i as int], 0) is Some);
            }
        }
        i = i + 1;
    }
    proof {
        assert(found == mentions_french_month(low@));
    }
    if !found {
        return Some(low);
    }
    let parts = split_ws(&low);
    if parts.len() < 3 {
        proof {
            assert(parts.deep_view().len() == parts@.len());
        }
        return None;
    }
    proof {
        assert(parts.deep_view().len() == parts@.len());
        assert(parts.deep_view()[0] == parts@[0]@);
        assert(parts.deep_view()[1] == parts@[1]@);
        assert(parts.deep_view()[2] == parts@[2]@);
    }
    let english = english_month_table();
    let ghost token = parts.deep_view()[1];
    let mut j: usize = 0;
    while j < french.len()
        invariant
            low@ == lower_of(v@),
            mentions_french_month(low@),
            french.deep_view() == french_month_names(),
            english.deep_view() == english_month_names(),
            parts.deep_view() == spec_split_ws(low@),
            parts@.len() >= 3,
            parts.deep_view().len() == parts@.len(),
            token == parts@[1]@,
            j <= french@.len(),
            french_month_index(token) == french_month_index_from(token, j as int),
        decreases french@.len() - j,
    {
        proof {
            assert(french.deep_view().len() == french@.len());
            assert(english.deep_view().len() == english@.len());
            assert(french.deep_view()[j as int] == french@[j as int]@);
        }
        if eq_chars(&parts[1], &french[j]) {
            proof {
                assert(french_month_names()[j as int] == token);
                assert(french_month_index(token) == Some(j as int));
            }
            let mut out: Vec<char> = Vec::new();
            push_all(&mut out, &english[j]);
            out.push(' ');
            push_all(&mut out, &parts[0]);
            out.push(',');
            out.push(' ');
            push_all(&mut out, &parts[2]);
            proof {
                assert(english.deep_view()[j as int] == english@[j as int]@);
                assert(parts.deep_view()[0] == parts@[0]@);
                assert(parts.deep_view()[2] == parts@[2]@);
                assert(out@ =~= english_month_names()[j as int] + seq![' '] + parts@[0]@ + seq![
                    ',',
                    ' ',
                ] + parts@[2]@);
                let lowv = lower_of(v@);
                let sparts = spec_split_ws(lowv);
                assert(mentions_french_month(lowv));
                assert(sparts.len() >= 3);
                assert(sparts[0] == parts@[0]@ && sparts[1] == parts@[1]@ && sparts[2] == parts@[2]@);
                assert(french_month_index(sparts[1]) == Some(j as int));
                assert(spec_convert_french_date(v@) == Some(out@));
            }
            return Some(out);
        }
        j = j + 1;
    }
    proof {
        assert(french_month_index(token) is None);
    }
    None
}

/// Rewrites a French-rendered date into the canonical English ordering;
/// any other date is passed through lowercased.
pub fn convert_french_date(date: &str) -> (r: Option<String>)
    ensures
        match r {
            Some(c) => spec_convert_french_date(date@) == Some(c@),
            None => spec_convert_french_date(date@) is None,
        },
{
    let v = chars_of(date);
    match convert_french_chars(&v) {
        Some(c) => Some(string_of(&c)),
        None => None,
    }
}

/// Canonicalizes a date string across the known locales.
pub fn convert_language_date(date: &str) -> (r: Option<String>)
    ensures
        match r {
            Some(c) => spec_convert_language_date(date@) == Some(c@),
            None => spec_convert_language_date(date@) is None,
        },
{
    convert_french_date(date)
}

// --- canonical date resolution ---

/// What a raw date string resolves to: language canonicalization followed
/// by the calendar library's answer, as `(year, month, day)`.
pub open spec fn spec_string_to_date(s: Seq<char>) -> Option<(int, int, int)> {
    match spec_convert_language_date(s) {
        None => None,
        Some(c) => english_date_of(c),
    }
}

/// Resolves a raw date string to a calendar date.
pub(crate) fn string_to_date(v: &Vec<char>) -> (r: Option<CalendarDate>)
    ensures
        match r {
            Some(d) => spec_string_to_date(v@) == Some(
                (d.year as int, d.month as int, d.day as int),
            ) && d.wf(),
            None => spec_string_to_date(v@) is None,
        },
{
    match convert_french_chars(v) {
        None => None,
        Some(c) => {
            let s = string_of(&c);
            parse_month_day_year(s.as_str())
        },
    }
}

} // verus!
