//! The grammar-level parser: walks the layout-preserving text and recovers
//! the statistics block and the raw day entries, without interpreting them.
//!
//! The text is modelled as a `Seq<char>` with a cursor; every parsing
//! function has a spec-level twin that states exactly what it consumes and
//! what it yields.

use crate::dates::{spec_string_to_date, string_to_date};
use crate::models::CalendarDate;
use crate::text::{
    find_char, find_char_from, find_sub, lemma_find_char_props, lemma_find_props,
    lemma_skip_layout_bounds, skip_blank, skip_blank_from, skip_digits, skip_digits_from,
    skip_layout, skip_layout_from, spec_digits_value, spec_find, spec_trim, starts_with_at,
    string_of, sub_chars, trim_chars, parse_u32_digits,
};
use vstd::prelude::*;

verus! {

// --- raw shapes ---

/// One `label, count` line of the statistics block.
#[derive(Debug, Clone, PartialEq, Eq)]
pub struct StatLine {
    pub name: String,
    pub count: u32,
}

impl View for StatLine {
    type V = (Seq<char>, u32);

    open spec fn view(&self) -> (Seq<char>, u32) {
        (self.name@, self.count)
    }
}

impl StatLine {
    pub fn new(name: String, count: u32) -> (r: Self)
        ensures
            r@ == (name@, count),
    {
        StatLine { name, count }
    }
}

/// The unverified parse of one diary entry, in the order the PDF holds
/// them (newest first). `tags` carries optional candidate tag strings; the
/// parser itself leaves it empty and the interpreter validates whatever a
/// caller supplies there.
#[derive(Debug, Clone, PartialEq)]
pub struct ParsedDayEntry {
    pub date: CalendarDate,
    pub day_hour: String,
    pub mood: String,
    pub note: Vec<String>,
    pub tags: Vec<String>,
}

/// The mathematical shape of one raw entry.
pub struct SpecRawEntry {
    pub date: (int, int, int),
    pub day_hour: Seq<char>,
    pub mood: Seq<char>,
    pub note: Seq<Seq<char>>,
    pub tags: Seq<Seq<char>>,
}

impl View for ParsedDayEntry {
    type V = SpecRawEntry;

    open spec fn view(&self) -> SpecRawEntry {
        SpecRawEntry {
            date: (self.date.year as int, self.date.month as int, self.date.day as int),
            day_hour: self.day_hour@,
            mood: self.mood@,
            note: self.note.deep_view(),
            tags: self.tags.deep_view(),
        }
    }
}

pub open spec fn stats_view(v: Seq<StatLine>) -> Seq<(Seq<char>, u32)> {
    v.map_values(|st: StatLine| st@)
}

pub open spec fn entries_view(v: Seq<ParsedDayEntry>) -> Seq<SpecRawEntry> {
    v.map_values(|e: ParsedDayEntry| e@)
}

/// The whole uninterpreted parse of one document.
#[derive(Debug, Clone, PartialEq)]
pub struct ParsedPdf {
    pub stats: Vec<StatLine>,
    pub day_entries: Vec<ParsedDayEntry>,
}

// --- lines ---

/// What reading one line yields: the line up to the next newline, trimmed,
/// and the position after the newline; reading fails at end of input.
pub open spec fn spec_read_line(s: Seq<char>, pos: int) -> Option<(Seq<char>, int)> {
    let e = find_char_from(s, pos, '\n');
    if e >= s.len() {
        None
    } else {
        Some((spec_trim(s.subrange(pos, e)), e + 1))
    }
}

pub proof fn lemma_read_line_bounds(s: Seq<char>, pos: int)
    requires
        0 <= pos <= s.len(),
    ensures
        match spec_read_line(s, pos) {
            Some(lp) => pos < lp.1 <= s.len(),
            None => true,
        },
{
    lemma_find_char_props(s, pos, '\n');
}

/// Reads one line: everything up to the next newline, trimmed.
pub(crate) fn read_line(s: &Vec<char>, pos: usize) -> (r: Option<(Vec<char>, usize)>)
    requires
        pos <= s@.len(),
    ensures
        match r {
            Some(lp) => spec_read_line(s@, pos as int) == Some((lp.0@, lp.1 as int)) && pos < lp.1
                <= s@.len(),
            None => spec_read_line(s@, pos as int) is None,
        },
{
    let e = find_char(s, pos, '\n');
    if e >= s.len() {
        return None;
    }
    let raw = sub_chars(s, pos, e);
    let line = trim_chars(&raw);
    Some((line, e + 1))
}

// --- the header block ---

/// The header: lines up to a run of three newlines, which ends it.
pub open spec fn spec_parse_header(s: Seq<char>, pos: int) -> Option<(Seq<Seq<char>>, int)>
    decreases s.len() - pos
        when 0 <= pos <= s.len()
        via spec_parse_header_decreases
{
    if starts_with_at(s, seq!['\n', '\n', '\n'], pos) {
        Some((Seq::empty(), pos + 3))
    } else {
        match spec_read_line(s, pos) {
            None => None,
            Some(lp) => match spec_parse_header(s, lp.1) {
                None => None,
                Some(rest) => Some((seq![lp.0] + rest.0, rest.1)),
            },
        }
    }
}

#[via_fn]
proof fn spec_parse_header_decreases(s: Seq<char>, pos: int) {
    lemma_read_line_bounds(s, pos);
}

pub proof fn lemma_parse_header_bounds(s: Seq<char>, pos: int)
    requires
        0 <= pos <= s.len(),
    ensures
        match spec_parse_header(s, pos) {
            Some(rp) => pos <= rp.1 <= s.len(),
            None => true,
        },
    decreases s.len() - pos,
{
    if starts_with_at(s, seq!['\n', '\n', '\n'], pos) {
    } else {
        lemma_read_line_bounds(s, pos);
        match spec_read_line(s, pos) {
            None => {},
            Some(lp) => {
                lemma_parse_header_bounds(s, lp.1);
            },
        }
    }
}

/// Whether three newlines stand at `pos`.
fn check_newlines(s: &Vec<char>, pos: usize, k: usize) -> (r: bool)
    requires
        pos <= s@.len(),
        1 <= k <= 4,
    ensures
        k == 3 ==> r == starts_with_at(s@, seq!['\n', '\n', '\n'], pos as int),
        k == 4 ==> r == starts_with_at(s@, seq!['\n', '\n', '\n', '\n'], pos as int),
{
    let n = s.len();
    if k == 3 {
        let ghost p = seq!['\n', '\n', '\n'];
        if n - pos >= 3 && s[pos] == '\n' && s[pos + 1] == '\n' && s[pos + 2] == '\n' {
            proof {
                assert(s@.subrange(pos as int, pos + 3) =~= p);
            }
            true
        } else {
            proof {
                if pos + 3 <= n as int {
                    if s@.subrange(pos as int, pos + 3) == p {
                        assert(s@[pos as int] == p[0] && s@[pos + 1] == p[1] && s@[pos + 2]
                            == p[2]);
                    }
                }
            }
            false
        }
    } else if k == 4 {
        let ghost p = seq!['\n', '\n', '\n', '\n'];
        if n - pos >= 4 && s[pos] == '\n' && s[pos + 1] == '\n' && s[pos + 2] == '\n' && s[
            pos + 3] == '\n' {
            proof {
                assert(s@.subrange(pos as int, pos + 4) =~= p);
            }
            true
        } else {
            proof {
                if pos + 4 <= n as int {
                    if s@.subrange(pos as int, pos + 4) == p {
                        assert(s@[pos as int] == p[0] && s@[pos + 1] == p[1] && s@[pos + 2] == p[2]
                            && s@[pos + 3] == p[3]);
                    }
                }
            }
            false
        }
    } else {
        false
    }
}

pub open spec fn header_cont(acc: Seq<Seq<char>>, o: Option<(Seq<Seq<char>>, int)>) -> Option<
    (Seq<Seq<char>>, int),
> {
    match o {
        None => None,
        Some(rp) => Some((acc + rp.0, rp.1)),
    }
}

/// Consumes the header block, returning its trimmed lines and the
/// position after the three terminating newlines.
pub(crate) fn parse_header_at(s: &Vec<char>, pos: usize) -> (r: Option<(Vec<Vec<char>>, usize)>)
    requires
        pos <= s@.len(),
    ensures
        match r {
            Some(rp) => spec_parse_header(s@, pos as int) == Some((rp.0.deep_view(), rp.1 as int))
                && pos <= rp.1 <= s@.len(),
            None => spec_parse_header(s@, pos as int) is None,
        },
{
    let n = s.len();
    let mut acc: Vec<Vec<char>> = Vec::new();
    let mut cur: usize = pos;
    proof {
        match spec_parse_header(s@, pos as int) {
            None => {},
            Some(rp) => {
                assert(acc.deep_view() + rp.0 =~= rp.0);
            },
        }
    }
    loop
        invariant
            n == s@.len(),
            pos <= cur <= n,
            spec_parse_header(s@, pos as int) == header_cont(
                acc.deep_view(),
                spec_parse_header(s@, cur as int),
            ),
        decreases n - cur,
    {
        if check_newlines(s, cur, 3) {
            proof {
                assert(spec_parse_header(s@, cur as int) == Some(
                    (Seq::<Seq<char>>::empty(), cur + 3),
                ));
                assert(acc.deep_view() + Seq::<Seq<char>>::empty() =~= acc.deep_view());
                assert(cur + 3 <= n);
            }
            return Some((acc, cur + 3));
        }
        match read_line(s, cur) {
            None => {
                proof {
                    assert(spec_parse_header(s@, cur as int) is None);
                }
                return None;
            },
            Some(lp) => {
                let (line, p2) = lp;
                let ghost acc0 = acc.deep_view();
                acc.push(line);
                proof {
                    assert(acc.deep_view() =~~= acc0.push(line@));
                    lemma_parse_header_bounds(s@, p2 as int);
                    match spec_parse_header(s@, p2 as int) {
                        None => {},
                        Some(rp) => {
                            assert(acc0 + (seq![line@] + rp.0) =~= acc0.push(line@) + rp.0);
                        },
                    }
                }
                cur = p2;
            },
        }
    }
}

// --- the statistics block ---

/// What one statistics match yields: layout whitespace, a label up to a
/// double space, more layout whitespace, a digit run and the count glyph
/// (the multiplication sign, or an ASCII `x` substitute).
pub open spec fn spec_parse_stat_line(s: Seq<char>, pos: int) -> Option<((Seq<char>, u32), int)> {
    let p1 = skip_layout_from(s, pos);
    match spec_find(s, seq![' ', ' '], p1) {
        None => None,
        Some(i) => {
            let name = s.subrange(p1, i);
            let p2 = skip_layout_from(s, i);
            let d = skip_digits_from(s, p2);
            if d == p2 {
                None
            } else if spec_digits_value(s.subrange(p2, d)) > u32::MAX {
                None
            } else if d >= s.len() || !(s[d] == '×' || s[d] == 'x') {
                None
            } else {
                Some(((name, spec_digits_value(s.subrange(p2, d)) as u32), d + 1))
            }
        },
    }
}

pub proof fn lemma_parse_stat_line_bounds(s: Seq<char>, pos: int)
    requires
        0 <= pos <= s.len(),
    ensures
        match spec_parse_stat_line(s, pos) {
            Some(rp) => pos + 3 <= rp.1 <= s.len(),
            None => true,
        },
{
    lemma_skip_layout_bounds(s, pos);
    let p1 = skip_layout_from(s, pos);
    lemma_find_props(s, seq![' ', ' '], p1);
    match spec_find(s, seq![' ', ' '], p1) {
        None => {},
        Some(i) => {
            assert(s.subrange(i, i + 2)[0] == s[i]);
            assert(s[i] == ' ');
            lemma_skip_layout_bounds(s, i + 1);
            assert(skip_layout_from(s, i) == skip_layout_from(s, i + 1));
            let p2 = skip_layout_from(s, i);
            assert(p2 >= i + 1);
            lemma_skip_layout_bounds(s, p2);
        },
    }
}

/// Reads one statistics line.
pub(crate) fn parse_stat_line_at(s: &Vec<char>, pos: usize) -> (r: Option<(StatLine, usize)>)
    requires
        pos <= s@.len(),
    ensures
        match r {
            Some(rp) => spec_parse_stat_line(s@, pos as int) == Some((rp.0@, rp.1 as int)) && pos
                < rp.1 <= s@.len(),
            None => spec_parse_stat_line(s@, pos as int) is None,
        },
{
    proof {
        lemma_parse_stat_line_bounds(s@, pos as int);
    }
    let n = s.len();
    let p1 = skip_layout(s, pos);
    let mut pat: Vec<char> = Vec::new();
    pat.push(' ');
    pat.push(' ');
    proof {
        assert(pat@ =~= seq![' ', ' ']);
    }
    match find_sub(s, &pat, p1) {
        None => None,
        Some(i) => {
            let name = sub_chars(s, p1, i);
            let p2 = skip_layout(s, i);
            let d = skip_digits(s, p2);
            if d == p2 {
                return None;
            }
            let digits = sub_chars(s, p2, d);
            proof {
                lemma_skip_layout_bounds(s@, p2 as int);
            }
            match parse_u32_digits(&digits) {
                None => None,
                Some(count) => {
                    if d >= n {
                        return None;
                    }
                    let c = s[d];
                    if c == '×' || c == 'x' {
                        let st = StatLine { name: string_of(&name), count };
                        Some((st, d + 1))
                    } else {
                        None
                    }
                },
            }
        },
    }
}

/// The statistics block: matches until a run of four newlines ends it.
pub open spec fn spec_parse_stat_lines(s: Seq<char>, pos: int) -> Option<
    (Seq<(Seq<char>, u32)>, int),
>
    decreases s.len() - pos
        when 0 <= pos <= s.len()
        via spec_parse_stat_lines_decreases
{
    if starts_with_at(s, seq!['\n', '\n', '\n', '\n'], pos) {
        Some((Seq::empty(), pos + 4))
    } else {
        match spec_parse_stat_line(s, pos) {
            None => None,
            Some(stp) => match spec_parse_stat_lines(s, stp.1) {
                None => None,
                Some(rest) => Some((seq![stp.0] + rest.0, rest.1)),
            },
        }
    }
}

#[via_fn]
proof fn spec_parse_stat_lines_decreases(s: Seq<char>, pos: int) {
    lemma_parse_stat_line_bounds(s, pos);
}

pub proof fn lemma_parse_stat_lines_bounds(s: Seq<char>, pos: int)
    requires
        0 <= pos <= s.len(),
    ensures
        match spec_parse_stat_lines(s, pos) {
            Some(rp) => pos <= rp.1 <= s.len(),
            None => true,
        },
    decreases s.len() - pos,
{
    if starts_with_at(s, seq!['\n', '\n', '\n', '\n'], pos) {
    } else {
        lemma_parse_stat_line_bounds(s, pos);
        match spec_parse_stat_line(s, pos) {
            None => {},
            Some(stp) => {
                lemma_parse_stat_lines_bounds(s, stp.1);
            },
        }
    }
}

pub open spec fn stats_cont(acc: Seq<(Seq<char>, u32)>, o: Option<(Seq<(Seq<char>, u32)>, int)>)
    -> Option<(Seq<(Seq<char>, u32)>, int)> {
    match o {
        None => None,
        Some(rp) => Some((acc + rp.0, rp.1)),
    }
}

/// Consumes the statistics block, returning every `label, count` match in
/// reading order and the position after the four terminating newlines.
pub(crate) fn parse_stat_lines_at(s: &Vec<char>, pos: usize) -> (r: Option<(Vec<StatLine>, usize)>)
    requires
        pos <= s@.len(),
    ensures
        match r {
            Some(rp) => spec_parse_stat_lines(s@, pos as int) == Some(
                (stats_view(rp.0@), rp.1 as int),
            ) && pos <= rp.1 <= s@.len(),
            None => spec_parse_stat_lines(s@, pos as int) is None,
        },
{
    let n = s.len();
    let mut acc: Vec<StatLine> = Vec::new();
    let mut cur: usize = pos;
    proof {
        assert(stats_view(acc@) =~= Seq::<(Seq<char>, u32)>::empty());
        match spec_parse_stat_lines(s@, pos as int) {
            None => {},
            Some(rp) => {
                assert(stats_view(acc@) + rp.0 =~= rp.0);
            },
        }
    }
    loop
        invariant
            n == s@.len(),
            pos <= cur <= n,
            spec_parse_stat_lines(s@, pos as int) == stats_cont(
                stats_view(acc@),
                spec_parse_stat_lines(s@, cur as int),
            ),
        decreases n - cur,
    {
        if check_newlines(s, cur, 4) {
            proof {
                assert(spec_parse_stat_lines(s@, cur as int) == Some(
                    (Seq::<(Seq<char>, u32)>::empty(), cur + 4),
                ));
                assert(stats_view(acc@) + Seq::<(Seq<char>, u32)>::empty() =~= stats_view(acc@));
            }
            return Some((acc, cur + 4));
        }
        match parse_stat_line_at(s, cur) {
            None => {
                proof {
                    assert(spec_parse_stat_lines(s@, cur as int) is None);
                }
                return None;
            },
            Some(stp) => {
                let (st, p2) = stp;
                let ghost acc0 = stats_view(acc@);
                let ghost stv = st@;
                acc.push(st);
                proof {
                    assert(stats_view(acc@) =~= acc0.push(stv));
                    lemma_parse_stat_lines_bounds(s@, p2 as int);
                    match spec_parse_stat_lines(s@, p2 as int) {
                        None => {},
                        Some(rp) => {
                            assert(acc0 + (seq![stv] + rp.0) =~= acc0.push(stv) + rp.0);
                        },
                    }
                }
                cur = p2;
            },
        }
    }
}

/// Consumes the header block of a document: its trimmed lines and how
/// many characters it took, terminator included.
pub fn parse_header(text: &str) -> (r: Option<(Vec<String>, usize)>)
    ensures
        match r {
            Some(hp) => spec_parse_header(text@, 0) == Some((hp.0.deep_view(), hp.1 as int)),
            None => spec_parse_header(text@, 0) is None,
        },
{
    let v = crate::text::chars_of(text);
    match parse_header_at(&v, 0) {
        None => None,
        Some(hp) => {
            let (lines, p) = hp;
            let ghost lv = lines.deep_view();
            let mut out: Vec<String> = Vec::new();
            let mut i: usize = 0;
            while i < lines.len()
                invariant
                    lv == lines.deep_view(),
                    lv.len() == lines@.len(),
                    i <= lines@.len(),
                    out@.len() == i,
                    forall|k: int| 0 <= k < i ==> (#[trigger] out@[k])@ == lv[k],
                decreases lines@.len() - i,
            {
                proof {
                    assert(lv[i as int] == lines@[i as int]@);
                }
                out.push(string_of(&lines[i]));
                i = i + 1;
            }
            proof {
                assert forall|k: int| 0 <= k < lv.len() implies out.deep_view()[k] == lv[k] by {
                    assert(out.deep_view()[k] == out@[k]@);
                }
                assert(out.deep_view() =~= lv);
            }
            Some((out, p))
        },
    }
}

/// Reads a statistics block standing at the start of the text: every
/// `label, count` match and how many characters the block took.
pub fn parse_stat_lines(text: &str) -> (r: Option<(Vec<StatLine>, usize)>)
    ensures
        match r {
            Some(sp) => spec_parse_stat_lines(text@, 0) == Some((stats_view(sp.0@), sp.1 as int)),
            None => spec_parse_stat_lines(text@, 0) is None,
        },
{
    let v = crate::text::chars_of(text);
    match parse_stat_lines_at(&v, 0) {
        None => None,
        Some(sp) => Some(sp),
    }
}

// --- dates as separators ---

/// What recognizing a date at the cursor yields: the text up to the next
/// double space resolves as a date, and the cursor stops on that double
/// space (the date text itself is not consumed past it).
pub open spec fn spec_parse_date_at(s: Seq<char>, pos: int) -> Option<((int, int, int), int)> {
    match spec_find(s, seq![' ', ' '], pos) {
        None => None,
        Some(i) => match spec_string_to_date(s.subrange(pos, i)) {
            None => None,
            Some(d) => Some((d, i)),
        },
    }
}

pub proof fn lemma_parse_date_at_bounds(s: Seq<char>, pos: int)
    requires
        0 <= pos <= s.len(),
    ensures
        match spec_parse_date_at(s, pos) {
            Some(dp) => pos <= dp.1 <= s.len(),
            None => true,
        },
{
    lemma_find_props(s, seq![' ', ' '], pos);
}

/// Recognizes a date at the cursor.
pub(crate) fn parse_date_at(s: &Vec<char>, pos: usize) -> (r: Option<(CalendarDate, usize)>)
    requires
        pos <= s@.len(),
    ensures
        match r {
            Some(dp) => spec_parse_date_at(s@, pos as int) == Some(
                ((dp.0.year as int, dp.0.month as int, dp.0.day as int), dp.1 as int),
            ) && dp.0.wf() && pos <= dp.1 <= s@.len(),
            None => spec_parse_date_at(s@, pos as int) is None,
        },
{
    let mut pat: Vec<char> = Vec::new();
    pat.push(' ');
    pat.push(' ');
    proof {
        assert(pat@ =~= seq![' ', ' ']);
    }
    match find_sub(s, &pat, pos) {
        None => None,
        Some(i) => {
            let chunk = sub_chars(s, pos, i);
            match string_to_date(&chunk) {
                None => None,
                Some(d) => Some((d, i)),
            }
        },
    }
}

// --- page numbers ---

/// A page-number line: blanks, a digit run and a newline.
pub open spec fn spec_parse_page_number(s: Seq<char>, pos: int) -> Option<int> {
    let a = skip_blank_from(s, pos);
    let d = skip_digits_from(s, a);
    if d == a {
        None
    } else if d < s.len() && s[d] == '\n' {
        Some(d + 1)
    } else {
        None
    }
}

pub proof fn lemma_parse_page_number_bounds(s: Seq<char>, pos: int)
    requires
        0 <= pos <= s.len(),
    ensures
        match spec_parse_page_number(s, pos) {
            Some(p) => pos < p <= s.len(),
            None => true,
        },
{
    lemma_skip_layout_bounds(s, pos);
    let a = skip_blank_from(s, pos);
    lemma_skip_layout_bounds(s, a);
}

/// Recognizes a page-number line and returns the position after it.
pub(crate) fn parse_page_number_at(s: &Vec<char>, pos: usize) -> (r: Option<usize>)
    requires
        pos <= s@.len(),
    ensures
        match r {
            Some(p) => spec_parse_page_number(s@, pos as int) == Some(p as int) && pos < p
                <= s@.len(),
            None => spec_parse_page_number(s@, pos as int) is None,
        },
{
    proof {
        lemma_parse_page_number_bounds(s@, pos as int);
    }
    let n = s.len();
    let a = skip_blank(s, pos);
    let d = skip_digits(s, a);
    if d == a {
        return None;
    }
    if d < n && s[d] == '\n' {
        Some(d + 1)
    } else {
        None
    }
}

// --- note bodies ---

/// What tokenizing one note body yields: the non-empty trimmed body lines,
/// the next entry's date if one ended the body, and the end position.
pub struct SpecNoteResult {
    pub lines: Seq<Seq<char>>,
    pub next_date: Option<(int, int, int)>,
    pub end: int,
}

/// The body loop: at each step the next date or the end of input ends the
/// body; otherwise a page-number line is discarded or one body line is
/// read, with blank lines filtered out.
pub open spec fn spec_note_loop(s: Seq<char>, pos: int) -> Option<SpecNoteResult>
    decreases s.len() - pos
        when 0 <= pos <= s.len()
        via spec_note_loop_decreases
{
    match spec_parse_date_at(s, pos) {
        Some(dp) => Some(SpecNoteResult { lines: Seq::empty(), next_date: Some(dp.0), end: dp.1 }),
        None => if pos >= s.len() {
            Some(SpecNoteResult { lines: Seq::empty(), next_date: None, end: pos })
        } else {
            match spec_parse_page_number(s, pos) {
                Some(p2) => spec_note_loop(s, p2),
                None => match spec_read_line(s, pos) {
                    None => None,
                    Some(lp) => match spec_note_loop(s, lp.1) {
                        None => None,
                        Some(rest) => Some(
                            SpecNoteResult {
                                lines: if lp.0.len() > 0 {
                                    seq![lp.0] + rest.lines
                                } else {
                                    rest.lines
                                },
                                next_date: rest.next_date,
                                end: rest.end,
                            },
                        ),
                    },
                },
            }
        },
    }
}

#[via_fn]
proof fn spec_note_loop_decreases(s: Seq<char>, pos: int) {
    lemma_parse_page_number_bounds(s, pos);
    lemma_read_line_bounds(s, pos);
}

pub proof fn lemma_note_loop_bounds(s: Seq<char>, pos: int)
    requires
        0 <= pos <= s.len(),
    ensures
        match spec_note_loop(s, pos) {
            Some(nb) => pos <= nb.end <= s.len(),
            None => true,
        },
    decreases s.len() - pos,
{
    lemma_parse_date_at_bounds(s, pos);
    lemma_parse_page_number_bounds(s, pos);
    lemma_read_line_bounds(s, pos);
    match spec_parse_date_at(s, pos) {
        Some(_) => {},
        None => {
            if pos < s.len() {
                match spec_parse_page_number(s, pos) {
                    Some(p2) => {
                        lemma_note_loop_bounds(s, p2);
                    },
                    None => {
                        match spec_read_line(s, pos) {
                            None => {},
                            Some(lp) => {
                                lemma_note_loop_bounds(s, lp.1);
                            },
                        }
                    },
                }
            }
        },
    }
}

/// The note body: layout whitespace, then the body loop.
pub open spec fn spec_parse_note_body(s: Seq<char>, pos: int) -> Option<SpecNoteResult> {
    spec_note_loop(s, skip_layout_from(s, pos))
}

pub open spec fn date_view(d: Option<CalendarDate>) -> Option<(int, int, int)> {
    match d {
        None => None,
        Some(c) => Some((c.year as int, c.month as int, c.day as int)),
    }
}

pub open spec fn note_cont(acc: Seq<Seq<char>>, o: Option<SpecNoteResult>) -> Option<
    SpecNoteResult,
> {
    match o {
        None => None,
        Some(nb) => Some(
            SpecNoteResult { lines: acc + nb.lines, next_date: nb.next_date, end: nb.end },
        ),
    }
}

/// Tokenizes one note body.
pub(crate) fn parse_note_body_at(s: &Vec<char>, pos: usize) -> (r: Option<
    (Vec<String>, Option<CalendarDate>, usize),
>)
    requires
        pos <= s@.len(),
    ensures
        match r {
            Some(nb) => spec_parse_note_body(s@, pos as int) == Some(
                SpecNoteResult {
                    lines: nb.0.deep_view(),
                    next_date: date_view(nb.1),
                    end: nb.2 as int,
                },
            ) && pos <= nb.2 <= s@.len() && (nb.1 matches Some(d) ==> d.wf()),
            None => spec_parse_note_body(s@, pos as int) is None,
        },
{
    let n = s.len();
    let start = skip_layout(s, pos);
    let mut acc: Vec<String> = Vec::new();
    let mut cur: usize = start;
    proof {
        match spec_note_loop(s@, start as int) {
            None => {},
            Some(nb) => {
                assert(acc.deep_view() + nb.lines =~= nb.lines);
            },
        }
    }
    loop
        invariant
            n == s@.len(),
            pos <= start <= cur <= n,
            start == skip_layout_from(s@, pos as int),
            spec_note_loop(s@, start as int) == note_cont(
                acc.deep_view(),
                spec_note_loop(s@, cur as int),
            ),
        decreases n - cur,
    {
        match parse_date_at(s, cur) {
            Some(dp) => {
                proof {
                    assert(acc.deep_view() + Seq::<Seq<char>>::empty() =~= acc.deep_view());
                }
                return Some((acc, Some(dp.0), dp.1));
            },
            None => {},
        }
        if cur >= n {
            proof {
                assert(acc.deep_view() + Seq::<Seq<char>>::empty() =~= acc.deep_view());
            }
            return Some((acc, None, cur));
        }
        match parse_page_number_at(s, cur) {
            Some(p2) => {
                cur = p2;
                continue ;
            },
            None => {},
        }
        match read_line(s, cur) {
            None => {
                return None;
            },
            Some(lp) => {
                let (line, p2) = lp;
                if line.len() > 0 {
                    let ghost acc0 = acc.deep_view();
                    acc.push(string_of(&line));
                    proof {
                        assert(acc.deep_view() =~~= acc0.push(line@));
                        lemma_note_loop_bounds(s@, p2 as int);
                        match spec_note_loop(s@, p2 as int) {
                            None => {},
                            Some(rest) => {
                                assert(acc0 + (seq![line@] + rest.lines) =~= acc0.push(line@)
                                    + rest.lines);
                            },
                        }
                    }
                } else {
                    proof {
                        lemma_note_loop_bounds(s@, p2 as int);
                    }
                }
                cur = p2;
            },
        }
    }
}

// --- day entries ---

pub open spec fn entry_of(
    date: (int, int, int),
    mood: Seq<char>,
    day_hour: Seq<char>,
    note: Seq<Seq<char>>,
) -> SpecRawEntry {
    SpecRawEntry { date, day_hour, mood, note, tags: Seq::empty() }
}

/// The entry loop: the date recognized last time opens the entry whose
/// mood, clock line and body are read next; the body's closing date opens
/// the next entry, and end of input closes the last one.
pub open spec fn spec_day_loop(s: Seq<char>, pos: int, prev: Option<(int, int, int)>) -> Option<
    Seq<SpecRawEntry>,
>
    decreases s.len() - pos
        when 0 <= pos <= s.len()
        via spec_day_loop_decreases
{
    if pos >= s.len() {
        Some(Seq::empty())
    } else {
        match spec_read_line(s, pos) {
            None => None,
            Some(moodlp) => match spec_read_line(s, moodlp.1) {
                None => None,
                Some(dhlp) => match spec_parse_note_body(s, dhlp.1) {
                    None => None,
                    Some(nb) => match spec_day_loop(s, nb.end, nb.next_date) {
                        None => None,
                        Some(rest) => match prev {
                            Some(d) => Some(
                                seq![entry_of(d, moodlp.0, dhlp.0, nb.lines)] + rest,
                            ),
                            None => Some(rest),
                        },
                    },
                },
            },
        }
    }
}

#[via_fn]
proof fn spec_day_loop_decreases(s: Seq<char>, pos: int, prev: Option<(int, int, int)>) {
    lemma_read_line_bounds(s, pos);
    match spec_read_line(s, pos) {
        None => {},
        Some(moodlp) => {
            lemma_read_line_bounds(s, moodlp.1);
            match spec_read_line(s, moodlp.1) {
                None => {},
                Some(dhlp) => {
                    lemma_skip_layout_bounds(s, dhlp.1);
                    lemma_note_loop_bounds(s, skip_layout_from(s, dhlp.1));
                },
            }
        },
    }
}

/// All day entries: the first recognized date starts the lookahead, and
/// the loop materializes one raw entry per date.
pub open spec fn spec_parse_day_entries(s: Seq<char>, pos: int) -> Option<Seq<SpecRawEntry>> {
    match spec_parse_date_at(s, pos) {
        None => None,
        Some(dp) => spec_day_loop(s, dp.1, Some(dp.0)),
    }
}

pub open spec fn entries_cont(acc: Seq<SpecRawEntry>, o: Option<Seq<SpecRawEntry>>) -> Option<
    Seq<SpecRawEntry>,
> {
    match o {
        None => None,
        Some(rest) => Some(acc + rest),
    }
}

/// Segments the remaining text into raw day entries.
pub(crate) fn parse_day_entries_at(s: &Vec<char>, pos: usize) -> (r: Option<Vec<ParsedDayEntry>>)
    requires
        pos <= s@.len(),
    ensures
        match r {
            Some(es) => spec_parse_day_entries(s@, pos as int) == Some(entries_view(es@)),
            None => spec_parse_day_entries(s@, pos as int) is None,
        },
{
    let n = s.len();
    let first = parse_date_at(s, pos);
    let (d0, p0) = match first {
        None => {
            return None;
        },
        Some(dp) => dp,
    };
    let mut acc: Vec<ParsedDayEntry> = Vec::new();
    let mut prev: Option<CalendarDate> = Some(d0);
    let mut cur: usize = p0;
    proof {
        match spec_day_loop(s@, cur as int, date_view(prev)) {
            None => {},
            Some(rest) => {
                assert(entries_view(acc@) + rest =~= rest);
            },
        }
    }
    loop
        invariant
            n == s@.len(),
            cur <= n,
            spec_parse_day_entries(s@, pos as int) == entries_cont(
                entries_view(acc@),
                spec_day_loop(s@, cur as int, date_view(prev)),
            ),
        decreases n - cur,
    {
        if cur >= n {
            proof {
                assert(entries_view(acc@) + Seq::<SpecRawEntry>::empty() =~= entries_view(acc@));
            }
            return Some(acc);
        }
        let moodlp = match read_line(s, cur) {
            None => {
                return None;
            },
            Some(x) => x,
        };
        let dhlp = match read_line(s, moodlp.1) {
            None => {
                return None;
            },
            Some(x) => x,
        };
        let nb = match parse_note_body_at(s, dhlp.1) {
            None => {
                return None;
            },
            Some(x) => x,
        };
        let (note_lines, next_date, end) = nb;
        match prev {
            Some(d) => {
                let entry = ParsedDayEntry {
                    date: d,
                    day_hour: string_of(&dhlp.0),
                    mood: string_of(&moodlp.0),
                    note: note_lines,
                    tags: Vec::new(),
                };
                let ghost acc0 = entries_view(acc@);
                let ghost ev = entry@;
                acc.push(entry);
                proof {
                    assert(entries_view(acc@) =~= acc0.push(ev));
                    assert(ev.tags =~= Seq::<Seq<char>>::empty());
                    match spec_day_loop(s@, end as int, date_view(next_date)) {
                        None => {},
                        Some(rest) => {
                            assert(acc0 + (seq![ev] + rest) =~= acc0.push(ev) + rest);
                        },
                    }
                }
            },
            None => {
            },
        }
        prev = next_date;
        cur = end;
    }
}

// --- the whole document ---

/// A grammar failure: the stage that failed and the position at which that
/// stage began.
#[derive(Debug, Clone, PartialEq, Eq)]
pub enum ParseError {
    Header { position: usize },
    Statistics { position: usize },
    DayEntries { position: usize },
}

/// Recovers the statistics block and the raw day entries from the
/// layout-preserving text of one exported document.
pub fn parse(text: &str) -> (r: Result<ParsedPdf, ParseError>)
    ensures
        match spec_parse_header(text@, 0) {
            None => r == Err::<ParsedPdf, ParseError>(ParseError::Header { position: 0 }),
            Some(h) => match spec_parse_stat_lines(text@, h.1) {
                None => r == Err::<ParsedPdf, ParseError>(
                    ParseError::Statistics { position: h.1 as usize },
                ),
                Some(st) => match spec_parse_day_entries(text@, st.1) {
                    None => r == Err::<ParsedPdf, ParseError>(
                        ParseError::DayEntries { position: st.1 as usize },
                    ),
                    Some(es) => r matches Ok(doc) && stats_view(doc.stats@) == st.0
                        && entries_view(doc.day_entries@) == es,
                },
            },
        },
{
    let s = crate::text::chars_of(text);
    let h = match parse_header_at(&s, 0) {
        None => {
            return Err(ParseError::Header { position: 0 });
        },
        Some(x) => x,
    };
    let st = match parse_stat_lines_at(&s, h.1) {
        None => {
            return Err(ParseError::Statistics { position: h.1 });
        },
        Some(x) => x,
    };
    let es = match parse_day_entries_at(&s, st.1) {
        None => {
            return Err(ParseError::DayEntries { position: st.1 });
        },
        Some(x) => x,
    };
    Ok(ParsedPdf { stats: st.0, day_entries: es })
}

} // verus!
