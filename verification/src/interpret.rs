//! The interpretation stage: separates moods from tags, extracts tag names
//! from note text, repairs line-wrap artifacts and assembles the diary.

use crate::dates::{clock_time_of, parse_clock_12h};
use crate::daylio::{daylio_predefined_mood_idx, spec_predefined_mood_idx};
use crate::models::{MoodDetail, SpecMoodDetail, md_seq_view};
use crate::parse::{ParsedDayEntry, ParsedPdf, SpecRawEntry};
use crate::text::{
    chars_of, digit_char, find_char, is_digit_char, join_chars, lower_of, replace_all, spec_digits_of,
    spec_digits_value, spec_find, spec_join, spec_replace, spec_split_ws, spec_trim, split_ws,
    string_of, sub_chars, u8_to_chars, parse_u32_digits,
};
use vstd::prelude::*;

verus! {

// --- clock-time normalization ---

/// The value of a small decimal token: every character a digit and the
/// value at most 255.
pub open spec fn spec_u8_token(s: Seq<char>) -> Option<u8> {
    if s.len() > 0 && (forall|i: int| 0 <= i < s.len() ==> digit_char(s[i]))
        && spec_digits_value(s) <= 255 {
        Some(spec_digits_value(s) as u8)
    } else {
        None
    }
}

/// Reads a small decimal token.
fn u8_token(v: &Vec<char>) -> (r: Option<u8>)
    ensures
        r == spec_u8_token(v@),
{
    let n = v.len();
    if n == 0 {
        return None;
    }
    let mut i: usize = 0;
    while i < n
        invariant
            n == v@.len(),
            i <= n,
            forall|j: int| 0 <= j < i ==> digit_char(v@[j]),
        decreases n - i,
    {
        if !is_digit_char(v[i]) {
            return None;
        }
        i = i + 1;
    }
    match parse_u32_digits(v) {
        None => None,
        Some(val) => {
            if val <= 255 {
                Some(val as u8)
            } else {
                None
            }
        },
    }
}

/// An hour token of `00` reads as midnight and becomes `12`.
pub open spec fn spec_fix_midnight(t: Seq<char>) -> Seq<char> {
    if t == seq!['0', '0'] {
        seq!['1', '2']
    } else {
        t
    }
}

fn fix_midnight(t: Vec<char>) -> (r: Vec<char>)
    ensures
        r@ == spec_fix_midnight(t@),
{
    if t.len() == 2 && t[0] == '0' && t[1] == '0' {
        let mut r: Vec<char> = Vec::new();
        r.push('1');
        r.push('2');
        proof {
            assert(t@ =~= seq!['0', '0']);
            assert(r@ =~= seq!['1', '2']);
        }
        r
    } else {
        proof {
            if t@ == seq!['0', '0'] {
                assert(t@.len() == 2 && t@[0] == '0' && t@[1] == '0');
            }
        }
        t
    }
}

/// What normalizing a clock string yields: `hour minute marker` stays as
/// it is apart from the midnight fix; a bare 24-hour `hour minute` pair is
/// folded onto the 12-hour clock with an `am`/`pm` marker.
pub open spec fn spec_convert_24h(s: Seq<char>) -> Option<Seq<char>> {
    let parts = spec_split_ws(s);
    if parts.len() < 2 {
        None
    } else if parts.len() >= 3 {
        Some(spec_fix_midnight(parts[0]) + seq![' '] + parts[1] + seq![' '] + parts[2])
    } else {
        match spec_u8_token(parts[0]) {
            None => None,
            Some(h) => if h > 12 {
                Some(
                    spec_fix_midnight(spec_digits_of(h - 12)) + seq![' '] + parts[1] + seq![' ']
                        + "pm"@,
                )
            } else {
                Some(spec_fix_midnight(parts[0]) + seq![' '] + parts[1] + seq![' '] + "am"@)
            },
        }
    }
}

fn convert_24h_chars(v: &Vec<char>) -> (r: Option<Vec<char>>)
    ensures
        match r {
            Some(c) => spec_convert_24h(v@) == Some(c@),
            None => spec_convert_24h(v@) is None,
        },
{
    let parts = split_ws(v);
    proof {
        assert(parts.deep_view().len() == parts@.len());
    }
    if parts.len() < 2 {
        return None;
    }
    proof {
        assert(parts.deep_view()[0] == parts@[0]@);
        assert(parts.deep_view()[1] == parts@[1]@);
    }
    let mut out: Vec<char> = Vec::new();
    if parts.len() >= 3 {
        proof {
            assert(parts.deep_view()[2] == parts@[2]@);
        }
        let hour = fix_midnight(parts[0].clone());
        crate::text::push_all(&mut out, &hour);
        out.push(' ');
        crate::text::push_all(&mut out, &parts[1]);
        out.push(' ');
        crate::text::push_all(&mut out, &parts[2]);
        proof {
            assert(out@ =~= spec_fix_midnight(parts@[0]@) + seq![' '] + parts@[1]@ + seq![' ']
                + parts@[2]@);
        }
        Some(out)
    } else {
        match u8_token(&parts[0]) {
            None => None,
            Some(h) => {
                if h > 12 {
                    let digits = u8_to_chars(h - 12);
                    let hour = fix_midnight(digits);
                    crate::text::push_all(&mut out, &hour);
                    out.push(' ');
                    crate::text::push_all(&mut out, &parts[1]);
                    out.push(' ');
                    let marker = chars_of("pm");
                    crate::text::push_all(&mut out, &marker);
                    proof {
                        assert(out@ =~= spec_fix_midnight(spec_digits_of(h - 12)) + seq![' ']
                            + parts@[1]@ + seq![' '] + "pm"@);
                    }
                    Some(out)
                } else {
                    let hour = fix_midnight(parts[0].clone());
                    crate::text::push_all(&mut out, &hour);
                    out.push(' ');
                    crate::text::push_all(&mut out, &parts[1]);
                    out.push(' ');
                    let marker = chars_of("am");
                    crate::text::push_all(&mut out, &marker);
                    proof {
                        assert(out@ =~= spec_fix_midnight(parts@[0]@) + seq![' '] + parts@[1]@
                            + seq![' '] + "am"@);
                    }
                    Some(out)
                }
            },
        }
    }
}

/// Folds a clock string onto the 12-hour clock the calendar library reads.
pub fn convert_24_hour_to_12_hour(time_str: &str) -> (r: Option<String>)
    ensures
        match r {
            Some(c) => spec_convert_24h(time_str@) == Some(c@),
            None => spec_convert_24h(time_str@) is None,
        },
{
    let v = chars_of(time_str);
    match convert_24h_chars(&v) {
        None => None,
        Some(c) => Some(string_of(&c)),
    }
}

// --- resolving one entry's date and time ---

/// What one raw entry's clock line resolves to: the weekday token is
/// dropped, colons become spaces, the clock is normalized, and the
/// calendar library reads the result; the entry's own date carries over.
pub open spec fn spec_entry_datetime(e: SpecRawEntry) -> Option<((int, int, int), (int, int, int))> {
    let toks = spec_split_ws(e.day_hour);
    let rest = if toks.len() == 0 {
        toks
    } else {
        toks.drop_first()
    };
    let joined = spec_join(rest, seq![' ']);
    let uncoloned = spec_replace(joined, seq![':'], seq![' ']);
    match spec_convert_24h(uncoloned) {
        None => None,
        Some(c) => match clock_time_of(c) {
            None => None,
            Some(t) => Some((e.date, t)),
        },
    }
}

/// Resolves one raw entry's date and clock line to a full date-time.
pub fn parse_date(entry: &ParsedDayEntry) -> (r: Option<crate::models::DiaryDateTime>)
    ensures
        match r {
            Some(dt) => spec_entry_datetime(entry@) == Some(
                (
                    (dt.year as int, dt.month as int, dt.day as int),
                    (dt.hour as int, dt.minute as int, dt.second as int),
                ),
            ) && dt.year == entry.date.year && dt.month == entry.date.month && dt.day
                == entry.date.day && dt.hour < 24 && dt.minute < 60 && dt.second < 60,
            None => spec_entry_datetime(entry@) is None,
        },
{
    let dh = chars_of(entry.day_hour.as_str());
    let toks = split_ws(&dh);
    let mut rest = toks;
    let ghost toksv = rest.deep_view();
    if rest.len() > 0 {
        let ghost rest0 = rest@;
        rest.remove(0);
        proof {
            assert forall|k: int| 0 <= k < rest@.len() implies rest.deep_view()[k]
                == toksv.drop_first()[k] by {
                assert(rest@[k] == rest0[k + 1]);
                assert(toksv[k + 1] == rest0[k + 1]@);
            }
            assert(rest.deep_view() =~= toksv.drop_first());
        }
    }
    let mut sep: Vec<char> = Vec::new();
    sep.push(' ');
    proof {
        assert(sep@ =~= seq![' ']);
    }
    let joined = join_chars(&rest, &sep);
    let mut colon: Vec<char> = Vec::new();
    colon.push(':');
    proof {
        assert(colon@ =~= seq![':']);
    }
    let uncoloned = replace_all(&joined, &colon, &sep);
    match convert_24h_chars(&uncoloned) {
        None => None,
        Some(c) => {
            let cs = string_of(&c);
            match parse_clock_12h(cs.as_str()) {
                None => None,
                Some(t) => Some(
                    crate::models::DiaryDateTime {
                        year: entry.date.year,
                        month: entry.date.month,
                        day: entry.date.day,
                        hour: t.0,
                        minute: t.1,
                        second: t.2,
                    },
                ),
            }
        },
    }
}

// --- wellbeing groups ---

/// What assigning wellbeing groups yields: a predefined mood takes its own
/// group; a custom mood inherits the group of the predefined mood most
/// recently seen before it, and group 0 when none has been seen yet.
pub open spec fn spec_mood_cat(moods: Seq<SpecMoodDetail>, prev: Option<u64>) -> Seq<
    SpecMoodDetail,
>
    decreases moods.len(),
{
    if moods.len() == 0 {
        Seq::empty()
    } else {
        let m = moods[0];
        let found = spec_predefined_mood_idx(lower_of(m.name));
        let p2 = if found is Some {
            found
        } else {
            prev
        };
        let v = match p2 {
            Some(x) => x,
            None => 0u64,
        };
        seq![
            SpecMoodDetail {
                name: m.name,
                icon_id: m.icon_id,
                wellbeing_value: Some(v),
                category: m.category,
            },
        ] + spec_mood_cat(moods.drop_first(), p2)
    }
}

/// Assigns each mood its wellbeing group, forward-propagating from the
/// most recently seen predefined mood.
pub fn update_mood_category(moods: &mut Vec<MoodDetail>)
    ensures
        md_seq_view(final(moods)@) == spec_mood_cat(md_seq_view(old(moods)@), None),
{
    let ghost full = md_seq_view(moods@);
    let mut out: Vec<MoodDetail> = Vec::new();
    let mut prev: Option<u64> = None;
    let mut i: usize = 0;
    proof {
        assert(full.subrange(0, full.len() as int) =~= full);
        assert(md_seq_view(out@) + spec_mood_cat(full, None) =~= spec_mood_cat(full, None));
    }
    while i < moods.len()
        invariant
            full == md_seq_view(moods@),
            full.len() == moods@.len(),
            i <= moods@.len(),
            spec_mood_cat(full, None) == md_seq_view(out@) + spec_mood_cat(
                full.subrange(i as int, full.len() as int),
                prev,
            ),
        decreases moods@.len() - i,
    {
        let ghost restv = full.subrange(i as int, full.len() as int);
        proof {
            assert(full[i as int] == moods@[i as int]@);
            assert(restv[0] == full[i as int]);
        }
        let found = daylio_predefined_mood_idx((&moods[i].name).as_str());
        let p2: Option<u64> = match found {
            Some(x) => Some(x),
            None => prev,
        };
        let v: u64 = match p2 {
            Some(x) => x,
            None => 0,
        };
        let category: Option<String> = match &moods[i].category {
            None => None,
            Some(c) => Some(c.clone()),
        };
        let updated = MoodDetail {
            name: moods[i].name.clone(),
            icon_id: moods[i].icon_id,
            wellbeing_value: Some(v),
            category,
        };
        let ghost out0 = md_seq_view(out@);
        let ghost uv = updated@;
        out.push(updated);
        i = i + 1;
        prev = p2;
        proof {
            assert(md_seq_view(out@) =~= out0.push(uv));
            assert(restv.drop_first() =~= full.subrange(i as int, full.len() as int));
            assert(out0 + (seq![uv] + spec_mood_cat(restv.drop_first(), p2)) =~= out0.push(uv)
                + spec_mood_cat(restv.drop_first(), p2));
        }
    }
    proof {
        assert(full.subrange(i as int, full.len() as int) =~= Seq::<SpecMoodDetail>::empty());
        assert(md_seq_view(out@) + Seq::<SpecMoodDetail>::empty() =~= md_seq_view(out@));
    }
    *moods = out;
}

// --- tag extraction ---

/// The names of a tag detail list, in order.
pub open spec fn tag_names_view(tags: Seq<crate::models::TagDetail>) -> Seq<Seq<char>> {
    tags.map_values(|t: crate::models::TagDetail| t@.name)
}

/// What scanning one line against the (longest-first) tag names yields:
/// the line with every matched name struck out, and the matched names in
/// matching order.
pub open spec fn spec_line_scan(line: Seq<char>, names: Seq<Seq<char>>) -> (Seq<char>, Seq<
    Seq<char>,
>)
    decreases names.len(),
{
    if names.len() == 0 {
        (line, Seq::empty())
    } else {
        let nm = names[0];
        let hit = spec_find(line, nm, 0) is Some;
        let line2 = if hit && nm.len() > 0 {
            spec_replace(line, nm, Seq::empty())
        } else {
            line
        };
        let rec = spec_line_scan(line2, names.drop_first());
        (rec.0, if hit {
            seq![nm] + rec.1
        } else {
            rec.1
        })
    }
}

/// Strikes every known tag name out of one line.
fn line_scan(line: Vec<char>, sorted: &Vec<Vec<char>>) -> (r: (Vec<char>, Vec<String>))
    ensures
        ({
            let sc = spec_line_scan(line@, sorted.deep_view());
            r.0@ == sc.0 && r.1.deep_view() == sc.1
        }),
{
    let ghost line0 = line@;
    let ghost namesv = sorted.deep_view();
    let mut cur = line;
    let mut found: Vec<String> = Vec::new();
    let mut j: usize = 0;
    proof {
        assert(namesv.skip(0) =~= namesv);
        match spec_line_scan(cur@, namesv.skip(0)) {
            sc => {
                assert(found.deep_view() + sc.1 =~= sc.1);
            },
        }
    }
    while j < sorted.len()
        invariant
            namesv == sorted.deep_view(),
            namesv.len() == sorted@.len(),
            j <= sorted@.len(),
            spec_line_scan(line0, namesv) == (
                spec_line_scan(cur@, namesv.skip(j as int)).0,
                found.deep_view() + spec_line_scan(cur@, namesv.skip(j as int)).1,
            ),
        decreases sorted@.len() - j,
    {
        let ghost rest = namesv.skip(j as int);
        proof {
            assert(namesv[j as int] == sorted@[j as int]@);
            assert(rest[0] == namesv[j as int]);
            assert(rest.drop_first() =~= namesv.skip(j + 1));
        }
        let nm = &sorted[j];
        if crate::text::contains_sub(&cur, nm) {
            let ghost f0 = found.deep_view();
            found.push(string_of(nm));
            proof {
                assert(found.deep_view() =~~= f0.push(nm@));
            }
            if nm.len() > 0 {
                let empty: Vec<char> = Vec::new();
                cur = replace_all(&cur, nm, &empty);
            }
            proof {
                let rec = spec_line_scan(cur@, namesv.skip(j + 1));
                assert(f0 + (seq![nm@] + rec.1) =~= f0.push(nm@) + rec.1);
            }
        }
        j = j + 1;
    }
    proof {
        assert(namesv.skip(j as int) =~= Seq::<Seq<char>>::empty());
        assert(found.deep_view() + Seq::<Seq<char>>::empty() =~= found.deep_view());
    }
    (cur, found)
}

/// What scanning the leading note lines yields: how many lines held only
/// tag names and whitespace, and every name matched in them.
pub open spec fn spec_collect_tag_lines(note: Seq<Seq<char>>, names: Seq<Seq<char>>) -> (
    int,
    Seq<Seq<char>>,
)
    decreases note.len(),
{
    if note.len() == 0 {
        (0, Seq::empty())
    } else {
        let sc = spec_line_scan(note[0], names);
        if spec_trim(sc.0).len() == 0 {
            let rec = spec_collect_tag_lines(note.drop_first(), names);
            (1 + rec.0, sc.1 + rec.1)
        } else {
            (0, Seq::empty())
        }
    }
}

/// Scans the leading note lines for tag-only lines.
fn collect_tag_lines(note: &Vec<String>, sorted: &Vec<Vec<char>>) -> (r: (usize, Vec<String>))
    ensures
        ({
            let c = spec_collect_tag_lines(note.deep_view(), sorted.deep_view());
            r.0 as int == c.0 && r.1.deep_view() == c.1 && r.0 <= note@.len()
        }),
{
    let ghost notev = note.deep_view();
    let ghost namesv = sorted.deep_view();
    let mut k: usize = 0;
    let mut found: Vec<String> = Vec::new();
    proof {
        assert(notev.skip(0) =~= notev);
        assert(found.deep_view() + spec_collect_tag_lines(notev, namesv).1
            =~= spec_collect_tag_lines(notev, namesv).1);
    }
    while k < note.len()
        invariant
            notev == note.deep_view(),
            namesv == sorted.deep_view(),
            notev.len() == note@.len(),
            k <= note@.len(),
            spec_collect_tag_lines(notev, namesv).0 == k + spec_collect_tag_lines(
                notev.skip(k as int),
                namesv,
            ).0,
            spec_collect_tag_lines(notev, namesv).1 == found.deep_view()
                + spec_collect_tag_lines(notev.skip(k as int), namesv).1,
        decreases note@.len() - k,
    {
        let ghost rest = notev.skip(k as int);
        proof {
            assert(notev[k as int] == note@[k as int]@);
            assert(rest[0] == notev[k as int]);
            assert(rest.drop_first() =~= notev.skip(k + 1));
        }
        let line = chars_of((&note[k]).as_str());
        let sc = line_scan(line, sorted);
        let trimmed = crate::text::trim_chars(&sc.0);
        if trimmed.len() > 0 {
            proof {
                assert(spec_collect_tag_lines(rest, namesv) == (
                    0int,
                    Seq::<Seq<char>>::empty(),
                ));
                assert(found.deep_view() + Seq::<Seq<char>>::empty() =~= found.deep_view());
            }
            return (k, found);
        }
        let ghost f0 = found.deep_view();
        let mut more = sc.1;
        let ghost morev = more.deep_view();
        let mut mi: usize = 0;
        while mi < more.len()
            invariant
                morev == more.deep_view(),
                morev.len() == more@.len(),
                mi <= more@.len(),
                found.deep_view() == f0 + morev.subrange(0, mi as int),
            decreases more@.len() - mi,
        {
            let ghost fcur = found.deep_view();
            proof {
                assert(morev[mi as int] == more@[mi as int]@);
            }
            found.push(more[mi].clone());
            mi = mi + 1;
            proof {
                assert(found.deep_view() =~~= fcur.push(morev[mi - 1]));
                assert(fcur.push(morev[mi - 1]) =~= f0 + morev.subrange(0, mi as int));
            }
        }
        proof {
            assert(morev.subrange(0, more@.len() as int) =~= morev);
            let rec = spec_collect_tag_lines(notev.skip(k + 1), namesv);
            assert((f0 + morev) + rec.1 =~= f0 + (morev + rec.1));
        }
        k = k + 1;
    }
    proof {
        assert(notev.skip(k as int) =~= Seq::<Seq<char>>::empty());
        assert(found.deep_view() + Seq::<Seq<char>>::empty() =~= found.deep_view());
    }
    (k, found)
}

/// Whether the candidate names a known tag, compared without regard to
/// case.
pub open spec fn candidate_known(t: Seq<char>, all_names: Seq<Seq<char>>) -> bool {
    exists|i: int| 0 <= i < all_names.len() && lower_of(all_names[i]) == lower_of(t)
}

/// The first (longest-first) tag name the lowered candidate contains.
pub open spec fn first_contained_from(t: Seq<char>, names: Seq<Seq<char>>, j: int) -> Option<int>
    decreases names.len() - j,
{
    if j < 0 || j >= names.len() {
        None
    } else if spec_find(lower_of(t), lower_of(names[j]), 0) is Some {
        Some(j)
    } else {
        first_contained_from(t, names, j + 1)
    }
}

/// The total length of a list of names.
pub open spec fn spec_sum_len(s: Seq<Seq<char>>) -> int
    decreases s.len(),
{
    if s.len() == 0 {
        0
    } else {
        spec_sum_len(s.drop_last()) + s.last().len()
    }
}

pub proof fn lemma_sum_len_nonneg(s: Seq<Seq<char>>)
    ensures
        spec_sum_len(s) >= 0,
    decreases s.len(),
{
    if s.len() > 0 {
        lemma_sum_len_nonneg(s.drop_last());
    }
}

/// What decomposing the parser-supplied candidates yields, newest first: a
/// candidate naming a known tag is taken as it stands; otherwise the
/// longest known tag name it contains is taken and the remainder is tried
/// again; an unrecognized remainder is discarded.
pub open spec fn spec_decompose(
    stack: Seq<Seq<char>>,
    all_names: Seq<Seq<char>>,
    sorted: Seq<Seq<char>>,
) -> Seq<Seq<char>>
    decreases spec_sum_len(stack), stack.len()
        when true
        via spec_decompose_decreases
{
    if stack.len() == 0 {
        Seq::empty()
    } else {
        let t = stack.last();
        let rest = stack.drop_last();
        if candidate_known(t, all_names) {
            seq![t] + spec_decompose(rest, all_names, sorted)
        } else {
            match first_contained_from(t, sorted, 0) {
                None => spec_decompose(rest, all_names, sorted),
                Some(j) => {
                    let nm = sorted[j];
                    let rem = spec_trim(
                        if nm.len() > 0 {
                            spec_replace(t, nm, Seq::empty())
                        } else {
                            t
                        },
                    );
                    if rem.len() > 0 && rem.len() < t.len() {
                        seq![nm] + spec_decompose(rest.push(rem), all_names, sorted)
                    } else {
                        seq![nm] + spec_decompose(rest, all_names, sorted)
                    }
                },
            }
        }
    }
}

#[via_fn]
proof fn spec_decompose_decreases(
    stack: Seq<Seq<char>>,
    all_names: Seq<Seq<char>>,
    sorted: Seq<Seq<char>>,
) {
    if stack.len() > 0 {
        let t = stack.last();
        let rest = stack.drop_last();
        lemma_sum_len_nonneg(rest);
        lemma_sum_len_nonneg(stack);
        assert(spec_sum_len(stack) == spec_sum_len(rest) + t.len());
        match first_contained_from(t, sorted, 0) {
            None => {},
            Some(j) => {
                let nm = sorted[j];
                let rem = spec_trim(
                    if nm.len() > 0 {
                        spec_replace(t, nm, Seq::empty())
                    } else {
                        t
                    },
                );
                if rem.len() > 0 && rem.len() < t.len() {
                    assert(rest.push(rem).drop_last() =~= rest);
                    assert(spec_sum_len(rest.push(rem)) == spec_sum_len(rest) + rem.len());
                }
            },
        }
    }
}

/// Validates and decomposes the parser-supplied tag candidates.
fn decompose_candidates(
    candidates: Vec<String>,
    all_names: &Vec<Vec<char>>,
    sorted: &Vec<Vec<char>>,
) -> (r: Vec<String>)
    ensures
        r.deep_view() == spec_decompose(
            candidates.deep_view(),
            all_names.deep_view(),
            sorted.deep_view(),
        ),
{
    let ghost allv = all_names.deep_view();
    let ghost sortedv = sorted.deep_view();
    let mut stack = candidates;
    let mut out: Vec<String> = Vec::new();
    proof {
        assert(out.deep_view() + spec_decompose(stack.deep_view(), allv, sortedv)
            =~= spec_decompose(stack.deep_view(), allv, sortedv));
    }
    loop
        invariant
            allv == all_names.deep_view(),
            sortedv == sorted.deep_view(),
            allv.len() == all_names@.len(),
            sortedv.len() == sorted@.len(),
            spec_decompose(candidates.deep_view(), allv, sortedv) == out.deep_view()
                + spec_decompose(stack.deep_view(), allv, sortedv),
        decreases spec_sum_len(stack.deep_view()), stack@.len(),
    {
        let ghost stackv = stack.deep_view();
        proof {
            lemma_sum_len_nonneg(stackv);
        }
        if stack.len() == 0 {
            proof {
                assert(out.deep_view() + Seq::<Seq<char>>::empty() =~= out.deep_view());
            }
            return out;
        }
        proof {
            assert(stackv[stackv.len() - 1] == stack@[stack@.len() - 1]@);
        }
        let t = match stack.pop() {
            Some(x) => x,
            None => {
                proof {
                    assert(false);
                }
                return out;
            },
        };
        proof {
            assert forall|k: int| 0 <= k < stack@.len() implies stack.deep_view()[k]
                == stackv.drop_last()[k] by {
                assert(stackv[k] == stack@[k]@);
            }
            assert(stack.deep_view() =~= stackv.drop_last());
            assert(t@ == stackv.last());
            lemma_sum_len_nonneg(stack.deep_view());
        }
        let tc = chars_of(t.as_str());
        let tl = crate::text::lower_chars(&tc);
        let mut known: bool = false;
        let mut i: usize = 0;
        while i < all_names.len()
            invariant
                allv == all_names.deep_view(),
                allv.len() == all_names@.len(),
                i <= all_names@.len(),
                tl@ == lower_of(t@),
                known == exists|k: int| 0 <= k < i && lower_of(allv[k]) == lower_of(t@),
            decreases all_names@.len() - i,
        {
            proof {
                assert(allv[i as int] == all_names@[i as int]@);
            }
            if !known {
                let nl = crate::text::lower_chars(&all_names[i]);
                if crate::text::eq_chars(&nl, &tl) {
                    known = true;
                    proof {
                        assert(lower_of(allv[i as int]) == lower_of(t@));
                    }
                }
            }
            i = i + 1;
        }
        proof {
            assert(known == candidate_known(t@, allv));
        }
        if known {
            let ghost out0 = out.deep_view();
            out.push(t);
            proof {
                assert(out.deep_view() =~~= out0.push(stackv.last()));
                let rec = spec_decompose(stack.deep_view(), allv, sortedv);
                assert(out0 + (seq![stackv.last()] + rec) =~= out0.push(stackv.last()) + rec);
            }
            continue ;
        }
        let mut hit: Option<usize> = None;
        let mut j: usize = 0;
        loop
            invariant_except_break
                sortedv == sorted.deep_view(),
                sortedv.len() == sorted@.len(),
                j <= sorted@.len(),
                tl@ == lower_of(t@),
                hit is None,
                first_contained_from(t@, sortedv, 0) == first_contained_from(
                    t@,
                    sortedv,
                    j as int,
                ),
            ensures
                sortedv.len() == sorted@.len(),
                match hit {
                    None => first_contained_from(t@, sortedv, 0) is None,
                    Some(jj) => jj < sorted@.len() && first_contained_from(t@, sortedv, 0)
                        == Some(jj as int),
                },
            decreases sorted@.len() - j,
        {
            if j >= sorted.len() {
                break ;
            }
            proof {
                assert(sortedv[j as int] == sorted@[j as int]@);
            }
            let nl = crate::text::lower_chars(&sorted[j]);
            if crate::text::contains_sub(&tl, &nl) {
                proof {
                    assert(first_contained_from(t@, sortedv, j as int) == Some(j as int));
                }
                hit = Some(j);
                break ;
            }
            j = j + 1;
        }
        match hit {
            None => {
            },
            Some(jj) => {
                proof {
                    assert(first_contained_from(t@, sortedv, 0) == Some(jj as int));
                    assert(sortedv[jj as int] == sorted@[jj as int]@);
                }
                let nm = &sorted[jj];
                let struck = if nm.len() > 0 {
                    let empty: Vec<char> = Vec::new();
                    replace_all(&tc, nm, &empty)
                } else {
                    let mut copy: Vec<char> = Vec::new();
                    crate::text::push_all(&mut copy, &tc);
                    proof {
                        assert(copy@ =~= tc@);
                    }
                    copy
                };
                let rem = crate::text::trim_chars(&struck);
                let ghost out0 = out.deep_view();
                out.push(string_of(nm));
                proof {
                    assert(out.deep_view() =~~= out0.push(sortedv[jj as int]));
                }
                let keep_rem: bool = rem.len() > 0 && rem.len() < tc.len();
                if keep_rem {
                    let ghost st0 = stack.deep_view();
                    stack.push(string_of(&rem));
                    proof {
                        assert(stack.deep_view() =~~= st0.push(rem@));
                        lemma_sum_len_nonneg(stack.deep_view());
                        assert(stack.deep_view().drop_last() =~= st0);
                        let rec = spec_decompose(stack.deep_view(), allv, sortedv);
                        assert(out0 + (seq![sortedv[jj as int]] + rec) =~= out0.push(
                            sortedv[jj as int],
                        ) + rec);
                    }
                } else {
                    proof {
                        let rec = spec_decompose(stack.deep_view(), allv, sortedv);
                        assert(out0 + (seq![sortedv[jj as int]] + rec) =~= out0.push(
                            sortedv[jj as int],
                        ) + rec);
                    }
                }
            },
        }
    }
}

/// What the tag extractor yields for one raw entry: the note with the
/// leading tag-only lines removed, and the deduplicated, ordered set of
/// tag names found in those lines or among the candidates.
pub open spec fn spec_extract_tags(e: SpecRawEntry, all_names: Seq<Seq<char>>) -> (Seq<char>, Seq<
    Seq<char>,
>) {
    let sorted = crate::text::len_desc_sort(all_names);
    let coll = spec_collect_tag_lines(e.note, sorted);
    let kept = e.note.skip(coll.0);
    let cand = spec_decompose(e.tags, all_names, sorted);
    let tags = crate::text::spec_dedup(crate::text::lex_sort(coll.1 + cand));
    (spec_join(kept, seq!['\n']), tags)
}

/// Extracts the tags of one raw entry and strips them from its note.
pub fn extract_tags(entry: &ParsedDayEntry, all_tags: &Vec<crate::models::TagDetail>) -> (r: (
    String,
    Vec<String>,
))
    ensures
        ({
            let ex = spec_extract_tags(entry@, tag_names_view(all_tags@));
            r.0@ == ex.0 && r.1.deep_view() == ex.1
        }),
{
    let ghost allv = tag_names_view(all_tags@);
    let mut names: Vec<Vec<char>> = Vec::new();
    let mut i: usize = 0;
    while i < all_tags.len()
        invariant
            allv == tag_names_view(all_tags@),
            allv.len() == all_tags@.len(),
            i <= all_tags@.len(),
            names@.len() == i,
            forall|k: int| 0 <= k < i ==> #[trigger] names@[k]@ == allv[k],
        decreases all_tags@.len() - i,
    {
        proof {
            assert(allv[i as int] == all_tags@[i as int]@.name);
        }
        names.push(chars_of((&all_tags[i].name).as_str()));
        i = i + 1;
    }
    proof {
        assert forall|k: int| 0 <= k < allv.len() implies names.deep_view()[k] == allv[k] by {
            assert(names.deep_view()[k] == names@[k]@);
        }
        assert(names.deep_view() =~= allv);
    }
    let mut names_copy: Vec<Vec<char>> = Vec::new();
    let mut ci: usize = 0;
    while ci < names.len()
        invariant
            names.deep_view().len() == names@.len(),
            ci <= names@.len(),
            names_copy@.len() == ci,
            forall|k: int| 0 <= k < ci ==> #[trigger] names_copy@[k]@ == names.deep_view()[k],
        decreases names@.len() - ci,
    {
        proof {
            assert(names.deep_view()[ci as int] == names@[ci as int]@);
        }
        let mut one: Vec<char> = Vec::new();
        crate::text::push_all(&mut one, &names[ci]);
        proof {
            assert(one@ =~= names@[ci as int]@);
        }
        names_copy.push(one);
        ci = ci + 1;
    }
    proof {
        assert forall|k: int| 0 <= k < names@.len() implies names_copy.deep_view()[k]
            == names.deep_view()[k] by {
            assert(names_copy.deep_view()[k] == names_copy@[k]@);
        }
        assert(names_copy.deep_view() =~= names.deep_view());
    }
    let sorted = crate::text::sort_by_len_desc(names_copy);
    let coll = collect_tag_lines(&entry.note, &sorted);
    let (k, line_tags) = coll;
    let ghost notev = entry.note.deep_view();
    let mut kept: Vec<Vec<char>> = Vec::new();
    let mut ki: usize = k;
    while ki < entry.note.len()
        invariant
            notev == entry.note.deep_view(),
            notev.len() == entry.note@.len(),
            k <= ki <= entry.note@.len(),
            kept.deep_view() == notev.subrange(k as int, ki as int),
        decreases entry.note@.len() - ki,
    {
        let ghost k0 = kept.deep_view();
        proof {
            assert(notev[ki as int] == entry.note@[ki as int]@);
        }
        kept.push(chars_of((&entry.note[ki]).as_str()));
        ki = ki + 1;
        proof {
            assert(kept.deep_view() =~~= k0.push(notev[ki - 1]));
            assert(k0.push(notev[ki - 1]) =~= notev.subrange(k as int, ki as int));
        }
    }
    proof {
        assert(kept.deep_view() =~= notev.skip(k as int));
    }
    let mut nl: Vec<char> = Vec::new();
    nl.push('\n');
    proof {
        assert(nl@ =~= seq!['\n']);
    }
    let note = string_of(&join_chars(&kept, &nl));
    let mut candidates: Vec<String> = Vec::new();
    let mut qi: usize = 0;
    while qi < entry.tags.len()
        invariant
            entry.tags.deep_view().len() == entry.tags@.len(),
            qi <= entry.tags@.len(),
            candidates@.len() == qi,
            forall|j: int| 0 <= j < qi ==> #[trigger] candidates@[j]@ == entry.tags.deep_view()[j],
        decreases entry.tags@.len() - qi,
    {
        proof {
            assert(entry.tags.deep_view()[qi as int] == entry.tags@[qi as int]@);
        }
        candidates.push(entry.tags[qi].clone());
        qi = qi + 1;
    }
    proof {
        assert forall|j: int| 0 <= j < entry.tags@.len() implies candidates.deep_view()[j]
            == entry.tags.deep_view()[j] by {
            assert(candidates.deep_view()[j] == candidates@[j]@);
        }
        assert(candidates.deep_view() =~= entry.tags.deep_view());
    }
    let decomposed = decompose_candidates(candidates, &names, &sorted);
    let mut all_found = line_tags;
    let ghost lf = all_found.deep_view();
    let ghost dv = decomposed.deep_view();
    let mut di: usize = 0;
    while di < decomposed.len()
        invariant
            dv == decomposed.deep_view(),
            dv.len() == decomposed@.len(),
            di <= decomposed@.len(),
            all_found.deep_view() == lf + dv.subrange(0, di as int),
        decreases decomposed@.len() - di,
    {
        let ghost a0 = all_found.deep_view();
        proof {
            assert(dv[di as int] == decomposed@[di as int]@);
        }
        all_found.push(decomposed[di].clone());
        di = di + 1;
        proof {
            assert(all_found.deep_view() =~~= a0.push(dv[di - 1]));
            assert(a0.push(dv[di - 1]) =~= lf + dv.subrange(0, di as int));
        }
    }
    proof {
        assert(dv.subrange(0, decomposed@.len() as int) =~= dv);
    }
    let sorted_found = crate::text::sort_strings(all_found);
    let deduped = crate::text::dedup_strings(&sorted_found);
    proof {
        assert(entry@.note == entry.note.deep_view());
        assert(entry@.tags == entry.tags.deep_view());
    }
    (note, deduped)
}

// --- note normalization ---

pub open spec fn opt_lower(c: Option<char>) -> bool {
    match c {
        None => false,
        Some(x) => crate::text::lowercase_char(x),
    }
}

pub open spec fn sentence_punct(c: Option<char>) -> bool {
    c == Some('.') || c == Some('!') || c == Some('?')
}

/// What the line-healing pass yields at each newline: a break between two
/// lowercase letters becomes a space; a break after a hyphen is dropped
/// with the following whitespace; a break before sentence-ending
/// punctuation is dropped; any other break is kept as a paragraph
/// boundary.
pub open spec fn spec_heal(cur: Seq<char>) -> Seq<char>
    decreases cur.len()
        when true
        via spec_heal_decreases
{
    let np = crate::text::find_char_from(cur, 0, '\n');
    if np >= cur.len() {
        cur
    } else {
        let before = cur.subrange(0, np);
        let after = cur.subrange(np, cur.len() as int);
        let prev_c: Option<char> = if before.len() > 0 {
            Some(before.last())
        } else {
            None
        };
        let next_c: Option<char> = if after.len() > 1 {
            Some(after[1])
        } else {
            None
        };
        if opt_lower(prev_c) && opt_lower(next_c) {
            before + seq![' '] + spec_heal(cur.subrange(np + 1, cur.len() as int))
        } else {
            let pm = crate::text::last_non_white(before);
            let k = crate::text::skip_white_from(after, 0);
            if pm == Some('-') {
                before + spec_heal(after.subrange(k, after.len() as int))
            } else if sentence_punct(
                if k < after.len() {
                    Some(after[k])
                } else {
                    None
                },
            ) {
                before + spec_heal(after.subrange(1, after.len() as int))
            } else {
                before + seq!['\n'] + spec_heal(after.subrange(1, after.len() as int))
            }
        }
    }
}

#[via_fn]
proof fn spec_heal_decreases(cur: Seq<char>) {
    crate::text::lemma_find_char_props(cur, 0, '\n');
    let np = crate::text::find_char_from(cur, 0, '\n');
    if np < cur.len() {
        let after = cur.subrange(np, cur.len() as int);
        crate::text::lemma_skip_white_bounds(after, 0);
        assert(after[0] == '\n');
        assert(crate::text::white_char('\n'));
        crate::text::lemma_skip_white_bounds(after, 1);
        assert(crate::text::skip_white_from(after, 0) >= 1);
    }
}

/// Heals line-wrap artifacts around each newline.
fn heal_lines(v: &Vec<char>) -> (r: Vec<char>)
    ensures
        r@ == spec_heal(v@),
{
    let n = v.len();
    let mut acc: Vec<char> = Vec::new();
    let mut pos: usize = 0;
    proof {
        assert(v@.subrange(0, n as int) =~= v@);
        assert(acc@ + spec_heal(v@) =~= spec_heal(v@));
    }
    loop
        invariant
            n == v@.len(),
            pos <= n,
            spec_heal(v@) == acc@ + spec_heal(v@.subrange(pos as int, n as int)),
        decreases n - pos,
    {
        let ghost suf = v@.subrange(pos as int, n as int);
        let np = find_char(v, pos, '\n');
        proof {
            crate::text::lemma_find_char_shift(v@, pos as int, '\n');
            crate::text::lemma_find_char_props(suf, 0, '\n');
        }
        if np >= n {
            proof {
                assert(spec_heal(suf) == suf);
            }
            crate::text::push_range(&mut acc, v, pos, n);
            return acc;
        }
        let ghost rel = np - pos;
        let ghost before = suf.subrange(0, np - pos);
        let ghost after = suf.subrange(np - pos, suf.len() as int);
        proof {
            assert(before =~= v@.subrange(pos as int, np as int));
            assert(after =~= v@.subrange(np as int, n as int));
        }
        let prev_low: bool = if np > pos {
            crate::text::is_lowercase_char(v[np - 1])
        } else {
            false
        };
        let next_low: bool = if np + 1 < n {
            crate::text::is_lowercase_char(v[np + 1])
        } else {
            false
        };
        proof {
            if np > pos {
                assert(before.last() == v@[np - 1]);
            }
            if np + 1 < n {
                assert(after[1] == v@[np + 1]);
            }
        }
        let ghost acc0 = acc@;
        if prev_low && next_low {
            crate::text::push_range(&mut acc, v, pos, np);
            acc.push(' ');
            pos = np + 1;
            proof {
                assert(suf.subrange(rel + 1, suf.len() as int) =~= v@.subrange(
                    pos as int,
                    n as int,
                ));
                assert(acc0 + (before + seq![' '] + spec_heal(v@.subrange(pos as int, n as int)))
                    =~= acc@ + spec_heal(v@.subrange(pos as int, n as int)));
            }
        } else {
            let pm = crate::text::last_non_white_in(v, pos, np);
            let k_abs = crate::text::skip_white(v, np);
            proof {
                crate::text::lemma_skip_white_shift(v@, np as int);
                crate::text::lemma_skip_white_bounds(after, 0);
                assert(after[0] == '\n');
                crate::text::lemma_skip_white_bounds(after, 1);
                assert(crate::text::skip_white_from(after, 0) >= 1);
                assert(k_abs - np == crate::text::skip_white_from(after, 0));
            }
            let is_hyphen: bool = match pm {
                Some(c) => c == '-',
                None => false,
            };
            if is_hyphen {
                crate::text::push_range(&mut acc, v, pos, np);
                pos = k_abs;
                proof {
                    assert(after.subrange(k_abs - np, after.len() as int) =~= v@.subrange(
                        pos as int,
                        n as int,
                    ));
                    assert(acc0 + (before + spec_heal(v@.subrange(pos as int, n as int))) =~= acc@
                        + spec_heal(v@.subrange(pos as int, n as int)));
                }
            } else {
                let punct: bool = if k_abs < n {
                    let c = v[k_abs];
                    c == '.' || c == '!' || c == '?'
                } else {
                    false
                };
                proof {
                    if k_abs < n {
                        assert(after[k_abs - np] == v@[k_abs as int]);
                    }
                }
                if punct {
                    crate::text::push_range(&mut acc, v, pos, np);
                    pos = np + 1;
                    proof {
                        assert(after.subrange(1, after.len() as int) =~= v@.subrange(
                            pos as int,
                            n as int,
                        ));
                        assert(acc0 + (before + spec_heal(v@.subrange(pos as int, n as int)))
                            =~= acc@ + spec_heal(v@.subrange(pos as int, n as int)));
                    }
                } else {
                    crate::text::push_range(&mut acc, v, pos, np);
                    acc.push('\n');
                    pos = np + 1;
                    proof {
                        assert(after.subrange(1, after.len() as int) =~= v@.subrange(
                            pos as int,
                            n as int,
                        ));
                        assert(acc0 + (before + seq!['\n'] + spec_heal(
                            v@.subrange(pos as int, n as int),
                        )) =~= acc@ + spec_heal(v@.subrange(pos as int, n as int)));
                    }
                }
            }
        }
    }
}

/// What collapsing double spaces to a fixed point yields.
pub open spec fn spec_collapse_spaces(s: Seq<char>) -> Seq<char>
    decreases s.len()
        when true
        via spec_collapse_decreases
{
    let s2 = spec_replace(s, seq![' ', ' '], seq![' ']);
    if s2 == s {
        s
    } else {
        spec_collapse_spaces(s2)
    }
}

#[via_fn]
proof fn spec_collapse_decreases(s: Seq<char>) {
    crate::text::lemma_replace_shorter(s, seq![' ', ' '], seq![' ']);
}

/// Collapses every run of two or more spaces to one.
fn collapse_spaces(v: &Vec<char>) -> (r: Vec<char>)
    ensures
        r@ == spec_collapse_spaces(v@),
{
    let mut pat: Vec<char> = Vec::new();
    pat.push(' ');
    pat.push(' ');
    let mut rep: Vec<char> = Vec::new();
    rep.push(' ');
    proof {
        assert(pat@ =~= seq![' ', ' ']);
        assert(rep@ =~= seq![' ']);
    }
    let mut cur = sub_chars(v, 0, v.len());
    proof {
        assert(cur@ =~= v@);
    }
    loop
        invariant
            pat@ == seq![' ', ' '],
            rep@ == seq![' '],
            spec_collapse_spaces(v@) == spec_collapse_spaces(cur@),
        decreases cur@.len(),
    {
        let next = replace_all(&cur, &pat, &rep);
        if crate::text::eq_chars(&next, &cur) {
            proof {
                assert(spec_collapse_spaces(cur@) == cur@);
            }
            return cur;
        }
        proof {
            crate::text::lemma_replace_shorter(cur@, pat@, rep@);
        }
        cur = next;
    }
}

/// The pieces `str::lines` splits a text into, before trimming.
pub open spec fn spec_lines_inner(t: Seq<char>) -> Seq<Seq<char>>
    decreases t.len()
        when true
        via spec_lines_inner_decreases
{
    let e = crate::text::find_char_from(t, 0, '\n');
    if e >= t.len() {
        seq![t]
    } else {
        seq![t.subrange(0, e)] + spec_lines_inner(t.subrange(e + 1, t.len() as int))
    }
}

#[via_fn]
proof fn spec_lines_inner_decreases(t: Seq<char>) {
    crate::text::lemma_find_char_props(t, 0, '\n');
}

/// The lines of a text: split at newlines, a final newline closing the
/// last line rather than opening an empty one.
pub open spec fn spec_split_lines(s: Seq<char>) -> Seq<Seq<char>> {
    if s.len() == 0 {
        Seq::empty()
    } else if s.last() == '\n' {
        spec_lines_inner(s.drop_last())
    } else {
        spec_lines_inner(s)
    }
}

/// Trims every line and rejoins them, then trims the whole.
fn tidy_lines(v: &Vec<char>) -> (r: Vec<char>)
    ensures
        r@ == spec_trim(
            spec_join(
                spec_split_lines(v@).map_values(|l: Seq<char>| spec_trim(l)),
                seq!['\n'],
            ),
        ),
{
    let n = v.len();
    if n == 0 {
        let empty: Vec<char> = Vec::new();
        proof {
            assert(spec_split_lines(v@).map_values(|l: Seq<char>| spec_trim(l))
                =~= Seq::<Seq<char>>::empty());
            assert(spec_join(Seq::<Seq<char>>::empty(), seq!['\n']) =~= Seq::<char>::empty());
            assert(spec_trim(Seq::<char>::empty()) =~= Seq::<char>::empty());
        }
        return empty;
    }
    let end: usize = if v[n - 1] == '\n' {
        n - 1
    } else {
        n
    };
    let t = sub_chars(v, 0, end);
    proof {
        if v@.last() == '\n' {
            assert(t@ =~= v@.drop_last());
        } else {
            assert(t@ =~= v@);
        }
        assert(spec_split_lines(v@) == spec_lines_inner(t@));
    }
    let mut pieces: Vec<Vec<char>> = Vec::new();
    let tn = t.len();
    let mut pos: usize = 0;
    proof {
        assert(t@.subrange(0, tn as int) =~= t@);
        assert(pieces.deep_view() + spec_lines_inner(t@) =~= spec_lines_inner(t@));
    }
    loop
        invariant_except_break
            tn == t@.len(),
            pos <= tn,
            spec_lines_inner(t@) == pieces.deep_view() + spec_lines_inner(
                t@.subrange(pos as int, tn as int),
            ),
        ensures
            pieces.deep_view() == spec_lines_inner(t@),
        decreases tn - pos,
    {
        let ghost suf = t@.subrange(pos as int, tn as int);
        let e = find_char(&t, pos, '\n');
        proof {
            crate::text::lemma_find_char_shift(t@, pos as int, '\n');
            crate::text::lemma_find_char_props(suf, 0, '\n');
        }
        let ghost p0 = pieces.deep_view();
        if e >= tn {
            let piece = sub_chars(&t, pos, tn);
            proof {
                assert(piece@ =~= suf);
                assert(spec_lines_inner(suf) == seq![suf]);
            }
            pieces.push(piece);
            proof {
                assert(pieces.deep_view() =~~= p0.push(suf));
                assert(p0 + seq![suf] =~= p0.push(suf));
                assert(pieces.deep_view() == spec_lines_inner(t@));
            }
            break ;
        }
        let piece = sub_chars(&t, pos, e);
        proof {
            assert(piece@ =~= suf.subrange(0, e - pos));
        }
        pieces.push(piece);
        proof {
            assert(pieces.deep_view() =~~= p0.push(suf.subrange(0, e - pos)));
            assert(suf.subrange(e - pos + 1, suf.len() as int) =~= t@.subrange(e + 1, tn as int));
            let rec = spec_lines_inner(t@.subrange(e + 1, tn as int));
            assert(p0 + (seq![suf.subrange(0, e - pos)] + rec) =~= p0.push(
                suf.subrange(0, e - pos),
            ) + rec);
        }
        pos = e + 1;
    }
    let ghost piecesv = pieces.deep_view();
    let mut trimmed: Vec<Vec<char>> = Vec::new();
    let mut i: usize = 0;
    while i < pieces.len()
        invariant
            piecesv == pieces.deep_view(),
            piecesv.len() == pieces@.len(),
            i <= pieces@.len(),
            trimmed.deep_view() == piecesv.subrange(0, i as int).map_values(
                |l: Seq<char>| spec_trim(l),
            ),
        decreases pieces@.len() - i,
    {
        let ghost tr0 = trimmed.deep_view();
        proof {
            assert(piecesv[i as int] == pieces@[i as int]@);
        }
        trimmed.push(crate::text::trim_chars(&pieces[i]));
        i = i + 1;
        proof {
            assert(trimmed.deep_view() =~~= tr0.push(spec_trim(piecesv[i - 1])));
            assert(tr0.push(spec_trim(piecesv[i - 1])) =~= piecesv.subrange(0, i as int).map_values(
                |l: Seq<char>| spec_trim(l),
            ));
        }
    }
    proof {
        assert(piecesv.subrange(0, pieces@.len() as int) =~= piecesv);
    }
    let mut nl: Vec<char> = Vec::new();
    nl.push('\n');
    proof {
        assert(nl@ =~= seq!['\n']);
    }
    let joined = crate::text::join_chars(&trimmed, &nl);
    crate::text::trim_chars(&joined)
}

/// What expanding the known ligature glyphs yields.
pub open spec fn spec_expand_ligatures(s: Seq<char>) -> Seq<char> {
    spec_replace(
        spec_replace(
            spec_replace(spec_replace(s, seq!['ﬃ'], seq!['f', 'f', 'i']), seq!['ﬂ'], seq!['f', 'l']),
            seq!['ﬁ'],
            seq!['f', 'i'],
        ),
        seq!['ﬀ'],
        seq!['f', 'f'],
    )
}

fn expand_ligatures(v: &Vec<char>) -> (r: Vec<char>)
    ensures
        r@ == spec_expand_ligatures(v@),
{
    let mut p1: Vec<char> = Vec::new();
    p1.push('ﬃ');
    let mut r1: Vec<char> = Vec::new();
    r1.push('f');
    r1.push('f');
    r1.push('i');
    let mut p2: Vec<char> = Vec::new();
    p2.push('ﬂ');
    let mut r2: Vec<char> = Vec::new();
    r2.push('f');
    r2.push('l');
    let mut p3: Vec<char> = Vec::new();
    p3.push('ﬁ');
    let mut r3: Vec<char> = Vec::new();
    r3.push('f');
    r3.push('i');
    let mut p4: Vec<char> = Vec::new();
    p4.push('ﬀ');
    let mut r4: Vec<char> = Vec::new();
    r4.push('f');
    r4.push('f');
    proof {
        assert(p1@ =~= seq!['ﬃ'] && r1@ =~= seq!['f', 'f', 'i']);
        assert(p2@ =~= seq!['ﬂ'] && r2@ =~= seq!['f', 'l']);
        assert(p3@ =~= seq!['ﬁ'] && r3@ =~= seq!['f', 'i']);
        assert(p4@ =~= seq!['ﬀ'] && r4@ =~= seq!['f', 'f']);
    }
    let s1 = replace_all(v, &p1, &r1);
    let s2 = replace_all(&s1, &p2, &r2);
    let s3 = replace_all(&s2, &p3, &r3);
    replace_all(&s3, &p4, &r4)
}

/// What the whole note normalizer yields: ligatures expanded, line breaks
/// healed, space runs collapsed, spaces before periods dropped, lines
/// trimmed and the whole trimmed.
pub open spec fn spec_simplify(s: Seq<char>) -> Seq<char> {
    let healed = spec_heal(spec_expand_ligatures(s));
    let collapsed = spec_collapse_spaces(healed);
    let dotted = spec_replace(collapsed, seq![' ', '.'], seq!['.']);
    spec_trim(
        spec_join(spec_split_lines(dotted).map_values(|l: Seq<char>| spec_trim(l)), seq!['\n']),
    )
}

/// Repairs the line-wrap artifacts the fixed page width left in a note.
pub fn simplify_note_heuristically(text: String) -> (r: String)
    ensures
        r@ == spec_simplify(text@),
{
    let v = chars_of(text.as_str());
    let lig = expand_ligatures(&v);
    let healed = heal_lines(&lig);
    let collapsed = collapse_spaces(&healed);
    let mut pat: Vec<char> = Vec::new();
    pat.push(' ');
    pat.push('.');
    let mut rep: Vec<char> = Vec::new();
    rep.push('.');
    proof {
        assert(pat@ =~= seq![' ', '.']);
        assert(rep@ =~= seq!['.']);
    }
    let dotted = replace_all(&collapsed, &pat, &rep);
    let tidy = tidy_lines(&dotted);
    string_of(&tidy)
}

// --- the moods/tags partition ---

/// An interpretation failure, attributed to what caused it.
#[derive(Debug, Clone, PartialEq, Eq)]
pub enum InterpretError {
    /// The document holds no day entries, so no moods/tags boundary can be
    /// inferred.
    NoEntries,
    /// An entry's mood label matches nothing in the statistics list.
    MoodNotFound { label: String },
    /// An entry's clock line cannot be read as a time of day.
    ClockTime { index: usize },
}

/// The first statistics position whose label equals the lowered mood
/// label, compared without regard to case.
pub open spec fn spec_stat_pos(stats: Seq<(Seq<char>, u32)>, low: Seq<char>, i: int) -> Option<
    int,
>
    decreases stats.len() - i,
{
    if i < 0 || i >= stats.len() {
        None
    } else if lower_of(stats[i].0) == low {
        Some(i)
    } else {
        spec_stat_pos(stats, low, i + 1)
    }
}

/// The moods/tags boundary: the greatest statistics position of any used
/// mood, or the first mood label that matches nothing.
pub open spec fn spec_boundary(
    stats: Seq<(Seq<char>, u32)>,
    entries: Seq<SpecRawEntry>,
    j: int,
    best: int,
) -> Result<int, Seq<char>>
    decreases entries.len() - j,
{
    if j < 0 || j >= entries.len() {
        Ok(best)
    } else {
        match spec_stat_pos(stats, lower_of(entries[j].mood), 0) {
            None => Err(entries[j].mood),
            Some(p) => spec_boundary(
                stats,
                entries,
                j + 1,
                if p > best {
                    p
                } else {
                    best
                },
            ),
        }
    }
}

pub proof fn lemma_stat_pos_bounds(stats: Seq<(Seq<char>, u32)>, low: Seq<char>, i: int)
    requires
        0 <= i,
    ensures
        match spec_stat_pos(stats, low, i) {
            Some(p) => i <= p < stats.len(),
            None => true,
        },
    decreases stats.len() - i,
{
    if i < stats.len() && lower_of(stats[i].0) != low {
        lemma_stat_pos_bounds(stats, low, i + 1);
    }
}

pub proof fn lemma_boundary_bounds(
    stats: Seq<(Seq<char>, u32)>,
    entries: Seq<SpecRawEntry>,
    j: int,
    best: int,
)
    requires
        0 <= j,
        -1 <= best < stats.len(),
    ensures
        match spec_boundary(stats, entries, j, best) {
            Ok(b) => best <= b < stats.len() && (j < entries.len() ==> 0 <= b),
            Err(_) => true,
        },
    decreases entries.len() - j,
{
    if j < entries.len() {
        lemma_stat_pos_bounds(stats, lower_of(entries[j].mood), 0);
        match spec_stat_pos(stats, lower_of(entries[j].mood), 0) {
            None => {},
            Some(p) => {
                lemma_boundary_bounds(
                    stats,
                    entries,
                    j + 1,
                    if p > best {
                        p
                    } else {
                        best
                    },
                );
            },
        }
    }
}

/// The moods-prefix of the statistics list, as bare mood details.
pub open spec fn spec_mood_prefix(stats: Seq<(Seq<char>, u32)>, b: int) -> Seq<SpecMoodDetail> {
    stats.subrange(0, b + 1).map_values(
        |st: (Seq<char>, u32)|
            SpecMoodDetail { name: st.0, icon_id: None, wellbeing_value: None, category: None },
    )
}

/// The tags-suffix of the statistics list, as tag details.
pub open spec fn spec_tag_suffix(stats: Seq<(Seq<char>, u32)>, b: int) -> Seq<
    crate::models::SpecTagDetail,
> {
    stats.skip(b + 1).map_values(
        |st: (Seq<char>, u32)| crate::models::SpecTagDetail { name: st.0, icon_id: None },
    )
}

/// The position of an entry's mood, found by trying the statistics list
/// front to back.
fn find_stat_pos(stats: &Vec<crate::parse::StatLine>, mood: &String) -> (r: Option<usize>)
    ensures
        ({
            let sv = crate::parse::stats_view(stats@);
            match r {
                Some(p) => p < stats@.len() && spec_stat_pos(sv, lower_of(mood@), 0) == Some(
                    p as int,
                ),
                None => spec_stat_pos(sv, lower_of(mood@), 0) is None,
            }
        }),
{
    let ghost sv = crate::parse::stats_view(stats@);
    let mc = chars_of(mood.as_str());
    let ml = crate::text::lower_chars(&mc);
    let mut i: usize = 0;
    while i < stats.len()
        invariant
            sv == crate::parse::stats_view(stats@),
            sv.len() == stats@.len(),
            i <= stats@.len(),
            ml@ == lower_of(mood@),
            spec_stat_pos(sv, lower_of(mood@), 0) == spec_stat_pos(sv, lower_of(mood@), i as int),
        decreases stats@.len() - i,
    {
        proof {
            assert(sv[i as int] == stats@[i as int]@);
        }
        let nc = chars_of((&stats[i].name).as_str());
        let nl = crate::text::lower_chars(&nc);
        if crate::text::eq_chars(&nl, &ml) {
            proof {
                assert(spec_stat_pos(sv, lower_of(mood@), i as int) == Some(i as int));
            }
            return Some(i);
        }
        i = i + 1;
    }
    None
}

/// Splits the flat statistics list into the moods-prefix (with wellbeing
/// groups assigned) and the tags-suffix, at the greatest statistics
/// position of any used mood.
pub fn split_tags_and_moods(parsed: &crate::parse::ParsedPdf) -> (r: Result<
    (Vec<crate::models::TagDetail>, Vec<MoodDetail>),
    InterpretError,
>)
    ensures
        ({
            let stats = crate::parse::stats_view(parsed.stats@);
            let entries = crate::parse::entries_view(parsed.day_entries@);
            if entries.len() == 0 {
                r == Err::<(Vec<crate::models::TagDetail>, Vec<MoodDetail>), InterpretError>(
                    InterpretError::NoEntries,
                )
            } else {
                match spec_boundary(stats, entries, 0, -1) {
                    Err(m) => r matches Err(e) && e matches InterpretError::MoodNotFound {
                        label,
                    } && label@ == m,
                    Ok(b) => r matches Ok(tm) && crate::models::td_seq_view(tm.0@)
                        == spec_tag_suffix(stats, b) && md_seq_view(tm.1@) == spec_mood_cat(
                        spec_mood_prefix(stats, b),
                        None,
                    ),
                }
            }
        }),
{
    let ghost stats = crate::parse::stats_view(parsed.stats@);
    let ghost entries = crate::parse::entries_view(parsed.day_entries@);
    let n_entries = parsed.day_entries.len();
    proof {
        assert(entries.len() == parsed.day_entries@.len());
        assert(stats.len() == parsed.stats@.len());
    }
    if n_entries == 0 {
        return Err(InterpretError::NoEntries);
    }
    let mut best: usize = 0;
    let mut j: usize = 0;
    let mut have_best: bool = false;
    proof {
        lemma_boundary_bounds(stats, entries, 0, -1);
    }
    loop
        invariant_except_break
            stats == crate::parse::stats_view(parsed.stats@),
            entries == crate::parse::entries_view(parsed.day_entries@),
            entries.len() == parsed.day_entries@.len(),
            stats.len() == parsed.stats@.len(),
            n_entries == parsed.day_entries@.len(),
            n_entries > 0,
            j <= n_entries,
            have_best ==> best < stats.len(),
            spec_boundary(stats, entries, 0, -1) == spec_boundary(
                stats,
                entries,
                j as int,
                if have_best {
                    best as int
                } else {
                    -1
                },
            ),
            !have_best ==> j == 0,
        ensures
            stats == crate::parse::stats_view(parsed.stats@),
            entries == crate::parse::entries_view(parsed.day_entries@),
            n_entries == parsed.day_entries@.len(),
            have_best && best < stats.len() && spec_boundary(stats, entries, 0, -1) == Ok::<
                int,
                Seq<char>,
            >(best as int),
        decreases n_entries - j,
    {
        if j >= n_entries {
            proof {
                assert(spec_boundary(
                    stats,
                    entries,
                    j as int,
                    if have_best {
                        best as int
                    } else {
                        -1int
                    },
                ) == Ok::<int, Seq<char>>(
                    if have_best {
                        best as int
                    } else {
                        -1int
                    },
                ));
                if !have_best {
                    assert(false);
                }
            }
            break ;
        }
        proof {
            assert(entries[j as int] == parsed.day_entries@[j as int]@);
        }
        match find_stat_pos(&parsed.stats, &parsed.day_entries[j].mood) {
            None => {
                return Err(
                    InterpretError::MoodNotFound { label: parsed.day_entries[j].mood.clone() },
                );
            },
            Some(p) => {
                if !have_best || p > best {
                    best = p;
                    have_best = true;
                } else {
                }
            },
        }
        j = j + 1;
    }
    let b = best;
    let sn = parsed.stats.len();
    let mut moods: Vec<MoodDetail> = Vec::new();
    let mut i: usize = 0;
    proof {
        assert(spec_mood_prefix(stats, b as int).len() == b + 1);
    }
    while i <= b
        invariant
            stats == crate::parse::stats_view(parsed.stats@),
            stats.len() == parsed.stats@.len(),
            sn == stats.len(),
            b < sn,
            b < stats.len(),
            i <= b + 1,
            md_seq_view(moods@) == spec_mood_prefix(stats, b as int).subrange(0, i as int),
        decreases b + 1 - i,
    {
        proof {
            assert(stats[i as int] == parsed.stats@[i as int]@);
            assert(spec_mood_prefix(stats, b as int)[i as int] == SpecMoodDetail {
                name: stats[i as int].0,
                icon_id: None,
                wellbeing_value: None,
                category: None,
            });
        }
        let ghost m0 = md_seq_view(moods@);
        moods.push(
            MoodDetail {
                name: parsed.stats[i].name.clone(),
                icon_id: None,
                wellbeing_value: None,
                category: None,
            },
        );
        i = i + 1;
        proof {
            assert(md_seq_view(moods@) =~= m0.push(spec_mood_prefix(stats, b as int)[i - 1]));
            assert(m0.push(spec_mood_prefix(stats, b as int)[i - 1]) =~= spec_mood_prefix(
                stats,
                b as int,
            ).subrange(0, i as int));
        }
    }
    proof {
        assert(spec_mood_prefix(stats, b as int).subrange(0, b + 1) =~= spec_mood_prefix(
            stats,
            b as int,
        ));
    }
    update_mood_category(&mut moods);
    let mut tags: Vec<crate::models::TagDetail> = Vec::new();
    let mut k: usize = b + 1;
    proof {
        assert(spec_tag_suffix(stats, b as int).len() == stats.len() - b - 1);
    }
    while k < parsed.stats.len()
        invariant
            stats == crate::parse::stats_view(parsed.stats@),
            stats.len() == parsed.stats@.len(),
            b < stats.len(),
            b + 1 <= k <= stats.len(),
            crate::models::td_seq_view(tags@) == spec_tag_suffix(stats, b as int).subrange(
                0,
                k - b - 1,
            ),
        decreases stats.len() - k,
    {
        proof {
            assert(stats[k as int] == parsed.stats@[k as int]@);
            assert(spec_tag_suffix(stats, b as int)[k - b - 1] == crate::models::SpecTagDetail {
                name: stats[k as int].0,
                icon_id: None,
            });
        }
        let ghost t0 = crate::models::td_seq_view(tags@);
        tags.push(crate::models::TagDetail { name: parsed.stats[k].name.clone(), icon_id: None });
        k = k + 1;
        proof {
            assert(crate::models::td_seq_view(tags@) =~= t0.push(
                spec_tag_suffix(stats, b as int)[k - b - 2],
            ));
            assert(t0.push(spec_tag_suffix(stats, b as int)[k - b - 2]) =~= spec_tag_suffix(
                stats,
                b as int,
            ).subrange(0, k - b - 1));
        }
    }
    proof {
        assert(spec_tag_suffix(stats, b as int).subrange(0, stats.len() - b - 1)
            =~= spec_tag_suffix(stats, b as int));
    }
    Ok((tags, moods))
}

// --- assembling the diary ---

/// The first mood detail whose name equals the lowered label, compared
/// without regard to case.
pub open spec fn spec_mood_find(moods: Seq<SpecMoodDetail>, low: Seq<char>, i: int) -> Option<int>
    decreases moods.len() - i,
{
    if i < 0 || i >= moods.len() {
        None
    } else if lower_of(moods[i].name) == low {
        Some(i)
    } else {
        spec_mood_find(moods, low, i + 1)
    }
}

/// How one entry fails to finalize.
pub struct SpecEntryFailure {
    pub index: int,
    pub clock: bool,
    pub mood: Seq<char>,
}

/// What finalizing the raw entries yields, in raw order: each entry's
/// date-time resolved, its mood reference resolved against the moods
/// list, its tags extracted and its note cleaned; or the first failure.
pub open spec fn spec_build_entries(
    entries: Seq<SpecRawEntry>,
    tag_names: Seq<Seq<char>>,
    moods: Seq<SpecMoodDetail>,
    i: int,
) -> Result<Seq<crate::models::SpecDayEntry>, SpecEntryFailure>
    decreases entries.len() - i,
{
    if i < 0 || i >= entries.len() {
        Ok(Seq::empty())
    } else {
        let e = entries[i];
        match spec_entry_datetime(e) {
            None => Err(SpecEntryFailure { index: i, clock: true, mood: e.mood }),
            Some(dt) => match spec_mood_find(moods, lower_of(e.mood), 0) {
                None => Err(SpecEntryFailure { index: i, clock: false, mood: e.mood }),
                Some(mi) => {
                    let ex = spec_extract_tags(e, tag_names);
                    match spec_build_entries(entries, tag_names, moods, i + 1) {
                        Err(f) => Err(f),
                        Ok(rest) => Ok(
                            seq![
                                crate::models::SpecDayEntry {
                                    date: crate::models::DiaryDateTime {
                                        year: dt.0.0 as i32,
                                        month: dt.0.1 as u8,
                                        day: dt.0.2 as u8,
                                        hour: dt.1.0 as u8,
                                        minute: dt.1.1 as u8,
                                        second: dt.1.2 as u8,
                                    },
                                    moods: seq![moods[mi].name],
                                    tags: ex.1,
                                    note: spec_simplify(ex.0),
                                },
                            ] + rest,
                        ),
                    }
                },
            },
        }
    }
}

/// The first mood detail carrying the label, compared without regard to
/// case.
fn find_mood(moods: &Vec<MoodDetail>, mood: &String) -> (r: Option<usize>)
    ensures
        ({
            let mv = md_seq_view(moods@);
            match r {
                Some(mi) => mi < moods@.len() && spec_mood_find(mv, lower_of(mood@), 0) == Some(
                    mi as int,
                ),
                None => spec_mood_find(mv, lower_of(mood@), 0) is None,
            }
        }),
{
    let ghost mv = md_seq_view(moods@);
    let mc = chars_of(mood.as_str());
    let ml = crate::text::lower_chars(&mc);
    let mut i: usize = 0;
    while i < moods.len()
        invariant
            mv == md_seq_view(moods@),
            mv.len() == moods@.len(),
            i <= moods@.len(),
            ml@ == lower_of(mood@),
            spec_mood_find(mv, lower_of(mood@), 0) == spec_mood_find(mv, lower_of(mood@), i as int),
        decreases moods@.len() - i,
    {
        proof {
            assert(mv[i as int] == moods@[i as int]@);
        }
        let nc = chars_of((&moods[i].name).as_str());
        let nl = crate::text::lower_chars(&nc);
        if crate::text::eq_chars(&nl, &ml) {
            proof {
                assert(spec_mood_find(mv, lower_of(mood@), i as int) == Some(i as int));
            }
            return Some(i);
        }
        i = i + 1;
    }
    None
}

/// Runs the interpretation stage: partitions the statistics, finalizes
/// every entry and returns the diary in its listing order.
pub fn interpret(parsed: ParsedPdf) -> (r: Result<crate::models::Diary, InterpretError>)
    ensures
        ({
            let stats = crate::parse::stats_view(parsed.stats@);
            let entries = crate::parse::entries_view(parsed.day_entries@);
            if entries.len() == 0 {
                r == Err::<crate::models::Diary, InterpretError>(InterpretError::NoEntries)
            } else {
                match spec_boundary(stats, entries, 0, -1) {
                    Err(m) => r matches Err(e) && e matches InterpretError::MoodNotFound {
                        label,
                    } && label@ == m,
                    Ok(b) => {
                        let moods0 = spec_mood_cat(spec_mood_prefix(stats, b), None);
                        let tags0 = spec_tag_suffix(stats, b);
                        let tag_names = tags0.map_values(
                            |t: crate::models::SpecTagDetail| t.name,
                        );
                        match spec_build_entries(entries, tag_names, moods0, 0) {
                            Err(f) => r matches Err(e) && (if f.clock {
                                e == (InterpretError::ClockTime { index: f.index as usize })
                            } else {
                                e matches InterpretError::MoodNotFound { label } && label@ == f.mood
                            }),
                            Ok(es) => r matches Ok(d) && crate::models::de_seq_view(d.day_entries@)
                                == crate::models::de_sort(es) && md_seq_view(d.moods@)
                                == crate::models::md_sort(moods0) && crate::models::td_seq_view(
                                d.tags@,
                            ) == crate::models::td_sort(tags0),
                        }
                    },
                }
            }
        }),
{
    let ghost stats = crate::parse::stats_view(parsed.stats@);
    let ghost entries = crate::parse::entries_view(parsed.day_entries@);
    let tm = match split_tags_and_moods(&parsed) {
        Err(e) => {
            return Err(e);
        },
        Ok(x) => x,
    };
    let (tags, moods) = tm;
    let ghost b = spec_boundary(stats, entries, 0, -1)->Ok_0;
    let ghost moods0 = spec_mood_cat(spec_mood_prefix(stats, b), None);
    let ghost tags0 = spec_tag_suffix(stats, b);
    let ghost tag_names = tags0.map_values(|t: crate::models::SpecTagDetail| t.name);
    proof {
        if entries.len() == 0 {
            assert(false);
        }
        match spec_boundary(stats, entries, 0, -1) {
            Err(_) => {
                assert(false);
            },
            Ok(bb) => {
                assert(b == bb);
            },
        }
        assert forall|q: int| 0 <= q < tags0.len() implies tag_names_view(tags@)[q]
            == tag_names[q] by {
            assert(crate::models::td_seq_view(tags@)[q] == tags@[q]@);
            assert(tag_names_view(tags@)[q] == tags@[q]@.name);
        }
        assert(tag_names_view(tags@).len() == crate::models::td_seq_view(tags@).len());
        assert(tag_names_view(tags@) =~= tag_names);
    }
    let mut out_entries: Vec<crate::models::DayEntry> = Vec::new();
    let mut i: usize = 0;
    let n = parsed.day_entries.len();
    proof {
        assert(entries.len() == parsed.day_entries@.len());
        match spec_build_entries(entries, tag_names, moods0, 0) {
            Err(_) => {},
            Ok(es) => {
                assert(crate::models::de_seq_view(out_entries@) + es =~= es);
            },
        }
    }
    while i < n
        invariant
            stats == crate::parse::stats_view(parsed.stats@),
            entries == crate::parse::entries_view(parsed.day_entries@),
            entries.len() == parsed.day_entries@.len(),
            n == parsed.day_entries@.len(),
            i <= n,
            entries.len() > 0,
            spec_boundary(stats, entries, 0, -1) == Ok::<int, Seq<char>>(b),
            moods0 == spec_mood_cat(spec_mood_prefix(stats, b), None),
            tags0 == spec_tag_suffix(stats, b),
            tag_names == tags0.map_values(|t: crate::models::SpecTagDetail| t.name),
            tag_names_view(tags@) == tag_names,
            md_seq_view(moods@) == moods0,
            moods0.len() == moods@.len(),
            crate::models::td_seq_view(tags@) == tags0,
            spec_build_entries(entries, tag_names, moods0, 0) == (match spec_build_entries(
                entries,
                tag_names,
                moods0,
                i as int,
            ) {
                Err(f) => Err::<Seq<crate::models::SpecDayEntry>, SpecEntryFailure>(f),
                Ok(rest) => Ok(crate::models::de_seq_view(out_entries@) + rest),
            }),
        decreases n - i,
    {
        proof {
            assert(entries[i as int] == parsed.day_entries@[i as int]@);
        }
        let entry = &parsed.day_entries[i];
        let dt = match parse_date(entry) {
            None => {
                return Err(InterpretError::ClockTime { index: i });
            },
            Some(x) => x,
        };
        let mi = match find_mood(&moods, &entry.mood) {
            None => {
                return Err(InterpretError::MoodNotFound { label: entry.mood.clone() });
            },
            Some(x) => x,
        };
        let ex = extract_tags(entry, &tags);
        let (raw_note, tag_strings) = ex;
        let note = simplify_note_heuristically(raw_note);
        let mut entry_tags: Vec<crate::models::Tag> = Vec::new();
        let mut ti: usize = 0;
        while ti < tag_strings.len()
            invariant
                tag_strings.deep_view().len() == tag_strings@.len(),
                ti <= tag_strings@.len(),
                entry_tags@.len() == ti,
                forall|q: int|
                    0 <= q < ti ==> (#[trigger] entry_tags@[q]).name@
                        == tag_strings.deep_view()[q],
            decreases tag_strings@.len() - ti,
        {
            proof {
                assert(tag_strings.deep_view()[ti as int] == tag_strings@[ti as int]@);
            }
            entry_tags.push(crate::models::Tag::new((&tag_strings[ti]).as_str()));
            ti = ti + 1;
        }
        let mut entry_moods: Vec<crate::models::Mood> = Vec::new();
        proof {
            assert(md_seq_view(moods@)[mi as int] == moods@[mi as int]@);
        }
        entry_moods.push(crate::models::Mood::new((&moods[mi].name).as_str()));
        let done = crate::models::DayEntry { date: dt, moods: entry_moods, tags: entry_tags, note };
        let ghost o0 = crate::models::de_seq_view(out_entries@);
        let ghost dv = done@;
        out_entries.push(done);
        i = i + 1;
        proof {
            let e = entries[i - 1];
            let dts = spec_entry_datetime(e)->0;
            let mis = spec_mood_find(moods0, lower_of(e.mood), 0)->0;
            let exs = spec_extract_tags(e, tag_names);
            assert(dv.moods =~= seq![moods0[mis].name]);
            assert(dv.tags =~= exs.1);
            assert(dv =~~= crate::models::SpecDayEntry {
                date: crate::models::DiaryDateTime {
                    year: dts.0.0 as i32,
                    month: dts.0.1 as u8,
                    day: dts.0.2 as u8,
                    hour: dts.1.0 as u8,
                    minute: dts.1.1 as u8,
                    second: dts.1.2 as u8,
                },
                moods: seq![moods0[mis].name],
                tags: exs.1,
                note: spec_simplify(exs.0),
            });
            assert(crate::models::de_seq_view(out_entries@) =~= o0.push(dv));
            match spec_build_entries(entries, tag_names, moods0, i as int) {
                Err(_) => {},
                Ok(rest) => {
                    assert(o0 + (seq![dv] + rest) =~= o0.push(dv) + rest);
                },
            }
        }
    }
    proof {
        assert(spec_build_entries(entries, tag_names, moods0, n as int) == Ok::<
            Seq<crate::models::SpecDayEntry>,
            SpecEntryFailure,
        >(Seq::empty()));
        assert(crate::models::de_seq_view(out_entries@) + Seq::<
            crate::models::SpecDayEntry,
        >::empty() =~= crate::models::de_seq_view(out_entries@));
    }
    let diary = crate::models::Diary { day_entries: out_entries, moods, tags };
    Ok(diary.sorted())
}

} // verus!
