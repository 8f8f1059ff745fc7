//! Character-level utilities shared by the parser and the interpreter.
//!
//! The pipeline works on `Vec<char>` values whose mathematical model is
//! `Seq<char>`; every function here has an exact functional contract.

use vstd::prelude::*;

verus! {

/// The Unicode `White_Space` set, which `str::trim` and
/// `char::is_whitespace` go by.
pub open spec fn white_char(c: char) -> bool {
    (c as u32) == 32 || (9 <= c as u32 && c as u32 <= 13) || (c as u32) == 0x85 || (c as u32)
        == 0xa0 || (c as u32) == 0x1680 || (0x2000 <= c as u32 && c as u32 <= 0x200a) || (c as u32)
        == 0x2028 || (c as u32) == 0x2029 || (c as u32) == 0x202f || (c as u32) == 0x205f || (
    c as u32) == 0x3000
}

/// Plain ASCII blank: space or tab.
pub open spec fn blank_char(c: char) -> bool {
    c == ' ' || c == '\t'
}

/// The characters that count as layout whitespace inside the statistics
/// block: space, tab, carriage return and newline.
pub open spec fn layout_char(c: char) -> bool {
    c == ' ' || c == '\t' || c == '\r' || c == '\n'
}

pub open spec fn digit_char(c: char) -> bool {
    48 <= c as u32 && c as u32 <= 57
}

pub open spec fn digit_val(c: char) -> int {
    c as u32 - 48
}

#[verifier::when_used_as_spec(white_char)]
pub fn is_white_char(c: char) -> (r: bool)
    ensures
        r == white_char(c),
{
    let u = c as u32;
    u == 32 || (9 <= u && u <= 13) || u == 0x85 || u == 0xa0 || u == 0x1680 || (0x2000 <= u && u
        <= 0x200a) || u == 0x2028 || u == 0x2029 || u == 0x202f || u == 0x205f || u == 0x3000
}

#[verifier::when_used_as_spec(blank_char)]
pub fn is_blank_char(c: char) -> (r: bool)
    ensures
        r == blank_char(c),
{
    c == ' ' || c == '\t'
}

#[verifier::when_used_as_spec(layout_char)]
pub fn is_layout_char(c: char) -> (r: bool)
    ensures
        r == layout_char(c),
{
    c == ' ' || c == '\t' || c == '\r' || c == '\n'
}

#[verifier::when_used_as_spec(digit_char)]
pub fn is_digit_char(c: char) -> (r: bool)
    ensures
        r == digit_char(c),
{
    let u = c as u32;
    48 <= u && u <= 57
}

// --- conversions between `&str` / `String` and `Vec<char>` ---

/// The characters of a string slice, in order.
pub fn chars_of(s: &str) -> (r: Vec<char>)
    ensures
        r@ == s@,
{
    let n = s.unicode_len();
    let mut r: Vec<char> = Vec::new();
    let mut i: usize = 0;
    while i < n
        invariant
            n == s@.len(),
            i <= n,
            r@ == s@.subrange(0, i as int),
        decreases n - i,
    {
        r.push(s.get_char(i));
        i = i + 1;
        proof {
            assert(r@ =~= s@.subrange(0, i as int));
        }
    }
    proof {
        assert(r@ =~= s@);
    }
    r
}

/// Relies on `String::push`: appends exactly the given character.
#[verifier::external_body]
fn push_char(s: &mut String, c: char)
    ensures
        final(s)@ == old(s)@.push(c),
{
    s.push(c);
}

/// A `String` holding exactly the given characters.
pub fn string_of(v: &Vec<char>) -> (r: String)
    ensures
        r@ == v@,
{
    let mut r = String::new();
    let mut i: usize = 0;
    while i < v.len()
        invariant
            i <= v@.len(),
            r@ == v@.subrange(0, i as int),
        decreases v@.len() - i,
    {
        push_char(&mut r, v[i]);
        i = i + 1;
        proof {
            assert(r@ =~= v@.subrange(0, i as int));
        }
    }
    proof {
        assert(r@ =~= v@);
    }
    r
}

// --- trimming ---

pub open spec fn spec_trim_start(s: Seq<char>) -> Seq<char>
    decreases s.len(),
{
    if s.len() > 0 && white_char(s[0]) {
        spec_trim_start(s.drop_first())
    } else {
        s
    }
}

pub open spec fn spec_trim_end(s: Seq<char>) -> Seq<char>
    decreases s.len(),
{
    if s.len() > 0 && white_char(s[s.len() - 1]) {
        spec_trim_end(s.drop_last())
    } else {
        s
    }
}

/// What `str::trim` leaves: the input without leading and trailing
/// whitespace.
pub open spec fn spec_trim(s: Seq<char>) -> Seq<char> {
    spec_trim_end(spec_trim_start(s))
}

proof fn lemma_trim_start_range(s: Seq<char>, k: int)
    requires
        0 <= k <= s.len(),
        forall|j: int| 0 <= j < k ==> white_char(s[j]),
        k < s.len() ==> !white_char(s[k]),
    ensures
        spec_trim_start(s) == s.subrange(k, s.len() as int),
    decreases k,
{
    if k == 0 {
        if s.len() > 0 && white_char(s[0]) {
            assert(false);
        }
        assert(s.subrange(0, s.len() as int) =~= s);
    } else {
        assert(white_char(s[0]));
        lemma_trim_start_range(s.drop_first(), k - 1);
        assert(s.drop_first().subrange(k - 1, s.drop_first().len() as int) =~= s.subrange(
            k,
            s.len() as int,
        ));
    }
}

proof fn lemma_trim_end_range(s: Seq<char>, k: int)
    requires
        0 <= k <= s.len(),
        forall|j: int| k <= j < s.len() ==> white_char(s[j]),
        k > 0 ==> !white_char(s[k - 1]),
    ensures
        spec_trim_end(s) == s.subrange(0, k),
    decreases s.len() - k,
{
    if k == s.len() {
        if s.len() > 0 && white_char(s[s.len() - 1]) {
            assert(false);
        }
        assert(s.subrange(0, s.len() as int) =~= s);
    } else {
        assert(white_char(s[s.len() - 1]));
        lemma_trim_end_range(s.drop_last(), k);
        assert(s.drop_last().subrange(0, k) =~= s.subrange(0, k));
    }
}

/// The input without leading and trailing whitespace, as `str::trim`
/// computes it.
pub fn trim_chars(v: &Vec<char>) -> (r: Vec<char>)
    ensures
        r@ == spec_trim(v@),
{
    let n = v.len();
    let mut a: usize = 0;
    while a < n && is_white_char(v[a])
        invariant
            n == v@.len(),
            a <= n,
            forall|j: int| 0 <= j < a ==> white_char(v@[j]),
        decreases n - a,
    {
        a = a + 1;
    }
    let mut b: usize = n;
    while b > a && is_white_char(v[b - 1])
        invariant
            n == v@.len(),
            a <= b <= n,
            forall|j: int| b <= j < n ==> white_char(v@[j]),
        decreases b,
    {
        b = b - 1;
    }
    let mut r: Vec<char> = Vec::new();
    let mut i: usize = a;
    while i < b
        invariant
            n == v@.len(),
            a <= i <= b <= n,
            r@ == v@.subrange(a as int, i as int),
        decreases b - i,
    {
        r.push(v[i]);
        i = i + 1;
        proof {
            assert(r@ =~= v@.subrange(a as int, i as int));
        }
    }
    proof {
        lemma_trim_start_range(v@, a as int);
        let t = v@.subrange(a as int, n as int);
        if b == a {
            lemma_trim_end_range(t, 0);
        } else {
            lemma_trim_end_range(t, b - a);
        }
        assert(t.subrange(0, b - a) =~= v@.subrange(a as int, b as int));
    }
    r
}

// --- substring search ---

/// Whether `p` occurs in `s` starting at index `i`.
pub open spec fn starts_with_at(s: Seq<char>, p: Seq<char>, i: int) -> bool {
    0 <= i && i + p.len() <= s.len() && s.subrange(i, i + p.len() as int) == p
}

/// The first index at or after `from` where `p` occurs in `s`.
pub open spec fn spec_find(s: Seq<char>, p: Seq<char>, from: int) -> Option<int>
    decreases s.len() - from + 1,
{
    if from < 0 || from + p.len() > s.len() {
        None
    } else if starts_with_at(s, p, from) {
        Some(from)
    } else {
        spec_find(s, p, from + 1)
    }
}

pub proof fn lemma_find_props(s: Seq<char>, p: Seq<char>, from: int)
    requires
        0 <= from,
    ensures
        match spec_find(s, p, from) {
            Some(i) => from <= i && starts_with_at(s, p, i) && forall|j: int|
                from <= j < i ==> !starts_with_at(s, p, j),
            None => forall|j: int| from <= j ==> !starts_with_at(s, p, j),
        },
    decreases s.len() - from + 1,
{
    if from + p.len() > s.len() {
    } else if starts_with_at(s, p, from) {
    } else {
        lemma_find_props(s, p, from + 1);
    }
}

/// Whether two character vectors hold the same characters.
pub fn eq_chars(a: &Vec<char>, b: &Vec<char>) -> (r: bool)
    ensures
        r == (a@ == b@),
{
    if a.len() != b.len() {
        proof {
            assert(a@.len() != b@.len());
        }
        return false;
    }
    let mut i: usize = 0;
    while i < a.len()
        invariant
            a@.len() == b@.len(),
            i <= a@.len(),
            forall|j: int| 0 <= j < i ==> a@[j] == b@[j],
        decreases a@.len() - i,
    {
        if a[i] != b[i] {
            return false;
        }
        i = i + 1;
    }
    proof {
        assert(a@ =~= b@);
    }
    true
}

/// Whether `p` occurs in `s` at position `i`.
pub fn check_at(s: &Vec<char>, p: &Vec<char>, i: usize) -> (r: bool)
    requires
        i + p@.len() <= s@.len(),
    ensures
        r == starts_with_at(s@, p@, i as int),
{
    let n = s.len();
    let mut j: usize = 0;
    while j < p.len()
        invariant
            n == s@.len(),
            i + p@.len() <= s@.len(),
            j <= p@.len(),
            forall|k: int| 0 <= k < j ==> s@[i + k] == p@[k],
        decreases p@.len() - j,
    {
        if s[i + j] != p[j] {
            proof {
                assert(s@.subrange(i as int, i + p@.len() as int)[j as int] != p@[j as int]);
            }
            return false;
        }
        j = j + 1;
    }
    proof {
        assert(s@.subrange(i as int, i + p@.len() as int) =~= p@);
    }
    true
}

/// The first occurrence of `p` in `s` at or after `from`.
pub fn find_sub(s: &Vec<char>, p: &Vec<char>, from: usize) -> (r: Option<usize>)
    ensures
        match r {
            Some(i) => from <= i && i + p@.len() <= s@.len() && spec_find(s@, p@, from as int)
                == Some(i as int),
            None => spec_find(s@, p@, from as int) is None,
        },
{
    let n = s.len();
    if p.len() == 0 {
        if from > n {
            return None;
        }
        proof {
            assert(s@.subrange(from as int, from as int) =~= p@);
        }
        return Some(from);
    }
    if p.len() > n {
        return None;
    }
    let limit = n - p.len();
    if from > limit {
        return None;
    }
    let mut i: usize = from;
    while i <= limit
        invariant
            n == s@.len(),
            p@.len() > 0,
            from <= i <= limit + 1,
            limit + p@.len() == s@.len(),
            spec_find(s@, p@, from as int) == spec_find(s@, p@, i as int),
        decreases limit + 1 - i,
    {
        if check_at(s, p, i) {
            return Some(i);
        }
        i = i + 1;
    }
    None
}

/// Whether `p` occurs anywhere in `s`.
pub fn contains_sub(s: &Vec<char>, p: &Vec<char>) -> (r: bool)
    ensures
        r == (spec_find(s@, p@, 0) is Some),
{
    match find_sub(s, p, 0) {
        Some(_) => true,
        None => false,
    }
}

// --- replacement ---

/// The input with every occurrence of `p` replaced by `q`, scanning left
/// to right without overlap, as `str::replace` computes it.
pub open spec fn spec_replace(s: Seq<char>, p: Seq<char>, q: Seq<char>) -> Seq<char>
    decreases s.len()
        when p.len() > 0
        via spec_replace_decreases
{
    match spec_find(s, p, 0) {
        None => s,
        Some(i) => s.subrange(0, i) + q + spec_replace(
            s.subrange(i + p.len(), s.len() as int),
            p,
            q,
        ),
    }
}

proof fn lemma_find_shift(s: Seq<char>, p: Seq<char>, cut: int, from: int)
    requires
        p.len() > 0,
        0 <= cut <= from,
        cut <= s.len(),
        forall|j: int| cut <= j < from ==> !starts_with_at(s, p, j),
    ensures
        spec_find(s, p, from) == match spec_find(s.subrange(cut, s.len() as int), p, 0) {
            None => None::<int>,
            Some(i) => Some(i + cut),
        },
{
    let t = s.subrange(cut, s.len() as int);
    lemma_find_props(s, p, from);
    lemma_find_props(t, p, 0);
    assert forall|j: int| 0 <= j && j + p.len() <= t.len() implies starts_with_at(t, p, j)
        == starts_with_at(s, p, j + cut) by {
        assert(t.subrange(j, j + p.len() as int) =~= s.subrange(j + cut, j + cut + p.len() as int));
    }
    match spec_find(s, p, from) {
        Some(i) => {
            assert(starts_with_at(t, p, i - cut));
            match spec_find(t, p, 0) {
                Some(k) => {
                    if k + cut < from {
                        assert(starts_with_at(s, p, k + cut));
                        assert(false);
                    }
                    if k + cut < i {
                        assert(false);
                    }
                    if k > i - cut {
                        assert(false);
                    }
                },
                None => {
                    assert(false);
                },
            }
        },
        None => {
            match spec_find(t, p, 0) {
                Some(k) => {
                    assert(starts_with_at(s, p, k + cut));
                    assert(false);
                },
                None => {},
            }
        },
    }
}

// --- character search ---

/// The first index at or after `from` holding `c`, or the length of `s`.
pub open spec fn find_char_from(s: Seq<char>, from: int, c: char) -> int
    decreases s.len() - from,
{
    if from < 0 || from >= s.len() {
        s.len() as int
    } else if s[from] == c {
        from
    } else {
        find_char_from(s, from + 1, c)
    }
}

pub proof fn lemma_find_char_props(s: Seq<char>, from: int, c: char)
    requires
        0 <= from <= s.len(),
    ensures
        from <= find_char_from(s, from, c) <= s.len(),
        find_char_from(s, from, c) < s.len() ==> s[find_char_from(s, from, c)] == c,
        forall|j: int| from <= j < find_char_from(s, from, c) ==> s[j] != c,
    decreases s.len() - from,
{
    if from < s.len() && s[from] != c {
        lemma_find_char_props(s, from + 1, c);
    }
}

/// The first position of `c` at or after `from`, or the length of `s`.
pub fn find_char(s: &Vec<char>, from: usize, c: char) -> (r: usize)
    requires
        from <= s@.len(),
    ensures
        r == find_char_from(s@, from as int, c),
        from <= r <= s@.len(),
        r < s@.len() ==> s@[r as int] == c,
        forall|j: int| from <= j < r ==> s@[j] != c,
    decreases s@.len() - from,
{
    proof {
        lemma_find_char_props(s@, from as int, c);
    }
    let n = s.len();
    let mut i: usize = from;
    while i < n
        invariant
            n == s@.len(),
            from <= i <= n,
            find_char_from(s@, from as int, c) == find_char_from(s@, i as int, c),
            forall|j: int| from <= j < i ==> s@[j] != c,
        decreases n - i,
    {
        if s[i] == c {
            proof {
                assert(find_char_from(s@, i as int, c) == i);
            }
            return i;
        }
        i = i + 1;
    }
    n
}

// --- whitespace skipping and splitting ---

/// The first index at or after `from` that does not satisfy `white_char`.
pub open spec fn skip_white_from(s: Seq<char>, from: int) -> int
    decreases s.len() - from,
{
    if from < 0 || from >= s.len() {
        s.len() as int
    } else if white_char(s[from]) {
        skip_white_from(s, from + 1)
    } else {
        from
    }
}

/// The first index at or after `from` that satisfies `white_char`.
pub open spec fn skip_token_from(s: Seq<char>, from: int) -> int
    decreases s.len() - from,
{
    if from < 0 || from >= s.len() {
        s.len() as int
    } else if !white_char(s[from]) {
        skip_token_from(s, from + 1)
    } else {
        from
    }
}

pub proof fn lemma_skip_white_bounds(s: Seq<char>, from: int)
    requires
        0 <= from <= s.len(),
    ensures
        from <= skip_white_from(s, from) <= s.len(),
        from <= skip_token_from(s, from) <= s.len(),
        skip_white_from(s, from) < s.len() ==> !white_char(s[skip_white_from(s, from)]),
        skip_token_from(s, from) < s.len() ==> white_char(s[skip_token_from(s, from)]),
        forall|j: int| from <= j < skip_white_from(s, from) ==> white_char(s[j]),
    decreases s.len() - from,
{
    if from < s.len() {
        lemma_skip_white_bounds(s, from + 1);
    }
}

/// The first occurrence of a character in a suffix, seen from the suffix.
pub proof fn lemma_find_char_shift(s: Seq<char>, pos: int, c: char)
    requires
        0 <= pos <= s.len(),
    ensures
        find_char_from(s, pos, c) - pos == find_char_from(s.subrange(pos, s.len() as int), 0, c),
{
    let t = s.subrange(pos, s.len() as int);
    lemma_find_char_props(s, pos, c);
    lemma_find_char_props(t, 0, c);
    let e1 = find_char_from(s, pos, c);
    let e2 = find_char_from(t, 0, c);
    if e1 < s.len() {
        assert(t[e1 - pos] == c);
        if e2 < e1 - pos {
            assert(s[e2 + pos] == t[e2]);
            assert(false);
        }
        if e2 > e1 - pos {
            assert(false);
        }
    } else {
        if e2 < t.len() {
            assert(s[e2 + pos] == t[e2]);
            assert(false);
        }
    }
}

/// The end of a whitespace run in a suffix, seen from the suffix.
pub proof fn lemma_skip_white_shift(s: Seq<char>, pos: int)
    requires
        0 <= pos <= s.len(),
    ensures
        skip_white_from(s, pos) - pos == skip_white_from(s.subrange(pos, s.len() as int), 0),
{
    let t = s.subrange(pos, s.len() as int);
    lemma_skip_white_bounds(s, pos);
    lemma_skip_white_bounds(t, 0);
    let e1 = skip_white_from(s, pos);
    let e2 = skip_white_from(t, 0);
    if e2 < e1 - pos {
        assert(t[e2] == s[e2 + pos]);
        assert(false);
    }
    if e2 > e1 - pos {
        assert(e1 < s.len());
        assert(t[e1 - pos] == s[e1]);
        assert(false);
    }
}

/// The last character of `s` that is not whitespace.
pub open spec fn last_non_white(s: Seq<char>) -> Option<char>
    decreases s.len(),
{
    if s.len() == 0 {
        None
    } else if !white_char(s.last()) {
        Some(s.last())
    } else {
        last_non_white(s.drop_last())
    }
}

/// The last non-whitespace character of `s[a..b]`.
pub fn last_non_white_in(s: &Vec<char>, a: usize, b: usize) -> (r: Option<char>)
    requires
        a <= b <= s@.len(),
    ensures
        r == last_non_white(s@.subrange(a as int, b as int)),
{
    let mut i: usize = b;
    while i > a
        invariant
            a <= i <= b <= s@.len(),
            last_non_white(s@.subrange(a as int, b as int)) == last_non_white(
                s@.subrange(a as int, i as int),
            ),
        decreases i,
    {
        let c = s[i - 1];
        proof {
            let t = s@.subrange(a as int, i as int);
            assert(t.last() == s@[i - 1]);
            assert(t.drop_last() =~= s@.subrange(a as int, i - 1));
        }
        if !is_white_char(c) {
            return Some(c);
        }
        i = i - 1;
    }
    proof {
        assert(s@.subrange(a as int, a as int).len() == 0);
    }
    None
}

/// The index past the leading whitespace run starting at `from`.
pub fn skip_white(s: &Vec<char>, from: usize) -> (r: usize)
    requires
        from <= s@.len(),
    ensures
        r == skip_white_from(s@, from as int),
        from <= r <= s@.len(),
{
    proof {
        lemma_skip_white_bounds(s@, from as int);
    }
    let n = s.len();
    let mut i: usize = from;
    while i < n && is_white_char(s[i])
        invariant
            n == s@.len(),
            from <= i <= n,
            skip_white_from(s@, from as int) == skip_white_from(s@, i as int),
        decreases n - i,
    {
        i = i + 1;
    }
    i
}

/// The index of the first whitespace character at or after `from`.
pub fn skip_token(s: &Vec<char>, from: usize) -> (r: usize)
    requires
        from <= s@.len(),
    ensures
        r == skip_token_from(s@, from as int),
        from <= r <= s@.len(),
{
    proof {
        lemma_skip_white_bounds(s@, from as int);
    }
    let n = s.len();
    let mut i: usize = from;
    while i < n && !is_white_char(s[i])
        invariant
            n == s@.len(),
            from <= i <= n,
            skip_token_from(s@, from as int) == skip_token_from(s@, i as int),
        decreases n - i,
    {
        i = i + 1;
    }
    i
}

/// The first index at or after `from` that does not satisfy `layout_char`.
pub open spec fn skip_layout_from(s: Seq<char>, from: int) -> int
    decreases s.len() - from,
{
    if from < 0 || from >= s.len() {
        s.len() as int
    } else if layout_char(s[from]) {
        skip_layout_from(s, from + 1)
    } else {
        from
    }
}

/// The first index at or after `from` that does not satisfy `blank_char`.
pub open spec fn skip_blank_from(s: Seq<char>, from: int) -> int
    decreases s.len() - from,
{
    if from < 0 || from >= s.len() {
        s.len() as int
    } else if blank_char(s[from]) {
        skip_blank_from(s, from + 1)
    } else {
        from
    }
}

/// The first index at or after `from` that does not satisfy `digit_char`.
pub open spec fn skip_digits_from(s: Seq<char>, from: int) -> int
    decreases s.len() - from,
{
    if from < 0 || from >= s.len() {
        s.len() as int
    } else if digit_char(s[from]) {
        skip_digits_from(s, from + 1)
    } else {
        from
    }
}

pub proof fn lemma_skip_layout_bounds(s: Seq<char>, from: int)
    requires
        0 <= from <= s.len(),
    ensures
        from <= skip_layout_from(s, from) <= s.len(),
        from <= skip_blank_from(s, from) <= s.len(),
        from <= skip_digits_from(s, from) <= s.len(),
        forall|j: int| from <= j < skip_digits_from(s, from) ==> digit_char(s[j]),
        skip_digits_from(s, from) < s.len() ==> !digit_char(s[skip_digits_from(s, from)]),
    decreases s.len() - from,
{
    if from < s.len() {
        lemma_skip_layout_bounds(s, from + 1);
    }
}

/// The index past the run of layout whitespace starting at `from`.
pub fn skip_layout(s: &Vec<char>, from: usize) -> (r: usize)
    requires
        from <= s@.len(),
    ensures
        r == skip_layout_from(s@, from as int),
        from <= r <= s@.len(),
{
    proof {
        lemma_skip_layout_bounds(s@, from as int);
    }
    let n = s.len();
    let mut i: usize = from;
    while i < n && is_layout_char(s[i])
        invariant
            n == s@.len(),
            from <= i <= n,
            skip_layout_from(s@, from as int) == skip_layout_from(s@, i as int),
        decreases n - i,
    {
        i = i + 1;
    }
    i
}

/// The index past the run of blanks starting at `from`.
pub fn skip_blank(s: &Vec<char>, from: usize) -> (r: usize)
    requires
        from <= s@.len(),
    ensures
        r == skip_blank_from(s@, from as int),
        from <= r <= s@.len(),
{
    proof {
        lemma_skip_layout_bounds(s@, from as int);
    }
    let n = s.len();
    let mut i: usize = from;
    while i < n && is_blank_char(s[i])
        invariant
            n == s@.len(),
            from <= i <= n,
            skip_blank_from(s@, from as int) == skip_blank_from(s@, i as int),
        decreases n - i,
    {
        i = i + 1;
    }
    i
}

/// The index past the run of decimal digits starting at `from`.
pub fn skip_digits(s: &Vec<char>, from: usize) -> (r: usize)
    requires
        from <= s@.len(),
    ensures
        r == skip_digits_from(s@, from as int),
        from <= r <= s@.len(),
{
    proof {
        lemma_skip_layout_bounds(s@, from as int);
    }
    let n = s.len();
    let mut i: usize = from;
    while i < n && is_digit_char(s[i])
        invariant
            n == s@.len(),
            from <= i <= n,
            skip_digits_from(s@, from as int) == skip_digits_from(s@, i as int),
        decreases n - i,
    {
        i = i + 1;
    }
    i
}

/// The whitespace-separated tokens of `s` from `from` on, as
/// `str::split_whitespace` yields them.
pub open spec fn spec_split_ws_from(s: Seq<char>, from: int) -> Seq<Seq<char>>
    decreases s.len() - from
        when 0 <= from <= s.len()
        via spec_split_ws_from_decreases
{
    let a = skip_white_from(s, from);
    if a >= s.len() {
        Seq::empty()
    } else {
        let b = skip_token_from(s, a);
        seq![s.subrange(a, b)] + spec_split_ws_from(s, b)
    }
}

#[via_fn]
proof fn spec_split_ws_from_decreases(s: Seq<char>, from: int) {
    lemma_skip_white_bounds(s, from);
    let a = skip_white_from(s, from);
    if a < s.len() {
        lemma_skip_white_bounds(s, a);
        assert(skip_token_from(s, a) > a);
    }
}

pub open spec fn spec_split_ws(s: Seq<char>) -> Seq<Seq<char>> {
    spec_split_ws_from(s, 0)
}

/// The whitespace-separated tokens of `s`.
pub fn split_ws(s: &Vec<char>) -> (r: Vec<Vec<char>>)
    ensures
        r.deep_view() == spec_split_ws(s@),
{
    let n = s.len();
    let mut r: Vec<Vec<char>> = Vec::new();
    let mut pos: usize = 0;
    proof {
        assert(r.deep_view() + spec_split_ws_from(s@, 0) =~= spec_split_ws_from(s@, 0));
    }
    loop
        invariant
            n == s@.len(),
            pos <= n,
            spec_split_ws(s@) == r.deep_view() + spec_split_ws_from(s@, pos as int),
        decreases n - pos,
    {
        let a = skip_white(s, pos);
        if a >= n {
            proof {
                assert(r.deep_view() + spec_split_ws_from(s@, pos as int) =~= r.deep_view());
            }
            return r;
        }
        proof {
            lemma_skip_white_bounds(s@, a as int);
        }
        let b = skip_token(s, a);
        let mut tok: Vec<char> = Vec::new();
        push_range(&mut tok, s, a, b);
        let ghost piece = s@.subrange(a as int, b as int);
        proof {
            assert(tok@ =~= piece);
        }
        let ghost dv0 = r.deep_view();
        r.push(tok);
        proof {
            assert(r.deep_view() =~~= dv0.push(piece));
            assert(spec_split_ws_from(s@, pos as int) == seq![piece] + spec_split_ws_from(
                s@,
                b as int,
            ));
            assert(dv0.push(piece) + spec_split_ws_from(s@, b as int) =~= dv0 + (seq![piece]
                + spec_split_ws_from(s@, b as int)));
        }
        pos = b;
    }
}

// --- joining ---

/// The concatenation of `parts` with `sep` between consecutive parts.
pub open spec fn spec_join(parts: Seq<Seq<char>>, sep: Seq<char>) -> Seq<char>
    decreases parts.len(),
{
    if parts.len() == 0 {
        Seq::empty()
    } else if parts.len() == 1 {
        parts[0]
    } else {
        parts[0] + sep + spec_join(parts.drop_first(), sep)
    }
}

/// Concatenates `parts`, writing `sep` between consecutive parts.
pub fn join_chars(parts: &Vec<Vec<char>>, sep: &Vec<char>) -> (r: Vec<char>)
    ensures
        r@ == spec_join(parts.deep_view(), sep@),
{
    let mut r: Vec<char> = Vec::new();
    if parts.len() == 0 {
        return r;
    }
    push_all(&mut r, &parts[0]);
    proof {
        assert(parts.deep_view()[0] == parts@[0]@);
        assert(r@ =~= parts.deep_view()[0]);
        assert(parts.deep_view().subrange(0, 1) =~= seq![parts.deep_view()[0]]);
    }
    let mut i: usize = 1;
    while i < parts.len()
        invariant
            1 <= i <= parts@.len(),
            parts.deep_view().len() == parts@.len(),
            r@ == spec_join(parts.deep_view().subrange(0, i as int), sep@),
        decreases parts@.len() - i,
    {
        let ghost done = parts.deep_view().subrange(0, i as int);
        push_all(&mut r, sep);
        push_all(&mut r, &parts[i]);
        i = i + 1;
        proof {
            let now = parts.deep_view().subrange(0, i as int);
            lemma_join_push(done, parts.deep_view()[i - 1], sep@);
            assert(now =~= done.push(parts.deep_view()[i - 1]));
        }
    }
    proof {
        assert(parts.deep_view().subrange(0, parts@.len() as int) =~= parts.deep_view());
    }
    r
}

pub proof fn lemma_join_push(parts: Seq<Seq<char>>, last: Seq<char>, sep: Seq<char>)
    requires
        parts.len() >= 1,
    ensures
        spec_join(parts.push(last), sep) == spec_join(parts, sep) + sep + last,
    decreases parts.len(),
{
    if parts.len() == 1 {
        assert(parts.push(last).drop_first() =~= seq![last]);
        assert(spec_join(seq![last], sep) == last);
        assert(parts.push(last)[0] == parts[0]);
        assert(parts[0] + sep + last =~= spec_join(parts, sep) + sep + last);
    } else {
        lemma_join_push(parts.drop_first(), last, sep);
        assert(parts.push(last).drop_first() =~= parts.drop_first().push(last));
        assert(parts.push(last)[0] == parts[0]);
        assert(parts[0] + sep + (spec_join(parts.drop_first(), sep) + sep + last) =~= (parts[0]
            + sep + spec_join(parts.drop_first(), sep)) + sep + last);
    }
}

// --- decimal digits ---

/// The numeric value of a run of decimal digits, read left to right.
pub open spec fn spec_digits_value(s: Seq<char>) -> int
    decreases s.len(),
{
    if s.len() == 0 {
        0
    } else {
        spec_digits_value(s.drop_last()) * 10 + digit_val(s.last())
    }
}

proof fn lemma_digits_value_step(s: Seq<char>, i: int)
    requires
        0 <= i < s.len(),
    ensures
        spec_digits_value(s.subrange(0, i + 1)) == spec_digits_value(s.subrange(0, i)) * 10
            + digit_val(s[i]),
{
    assert(s.subrange(0, i + 1).drop_last() =~= s.subrange(0, i));
    assert(s.subrange(0, i + 1).last() == s[i]);
}

proof fn lemma_digits_value_grows(s: Seq<char>, i: int, j: int)
    requires
        0 <= i <= j <= s.len(),
        forall|k: int| 0 <= k < s.len() ==> digit_char(s[k]),
        spec_digits_value(s.subrange(0, i)) >= 0,
    ensures
        spec_digits_value(s.subrange(0, j)) >= spec_digits_value(s.subrange(0, i)),
        spec_digits_value(s.subrange(0, j)) >= 0,
    decreases j - i,
{
    if i < j {
        lemma_digits_value_step(s, i);
        assert(digit_char(s[i]));
        lemma_digits_value_grows(s, i + 1, j);
    }
}

/// The value of the digit run `s`, if it fits a `u32`.
pub fn parse_u32_digits(s: &Vec<char>) -> (r: Option<u32>)
    requires
        forall|k: int| 0 <= k < s@.len() ==> digit_char(s@[k]),
    ensures
        match r {
            Some(v) => spec_digits_value(s@) == v as int,
            None => spec_digits_value(s@) > u32::MAX,
        },
{
    let n = s.len();
    let mut acc: u64 = 0;
    let mut i: usize = 0;
    proof {
        assert(s@.subrange(0, 0) =~= Seq::<char>::empty());
    }
    while i < n
        invariant
            n == s@.len(),
            i <= n,
            forall|k: int| 0 <= k < s@.len() ==> digit_char(s@[k]),
            acc as int == spec_digits_value(s@.subrange(0, i as int)),
            acc <= u32::MAX,
        decreases n - i,
    {
        let c = s[i];
        let d: u64 = (c as u32 as u64) - 48;
        proof {
            assert(digit_char(s@[i as int]));
        }
        acc = acc * 10 + d;
        i = i + 1;
        proof {
            lemma_digits_value_step(s@, i - 1);
        }
        if acc > 0xffff_ffff {
            proof {
                lemma_digits_value_grows(s@, i as int, n as int);
                assert(s@.subrange(0, n as int) =~= s@);
            }
            return None;
        }
    }
    proof {
        assert(s@.subrange(0, n as int) =~= s@);
    }
    Some(acc as u32)
}

/// The character for one decimal digit.
pub open spec fn digit_char_of(d: int) -> char {
    if d == 0 {
        '0'
    } else if d == 1 {
        '1'
    } else if d == 2 {
        '2'
    } else if d == 3 {
        '3'
    } else if d == 4 {
        '4'
    } else if d == 5 {
        '5'
    } else if d == 6 {
        '6'
    } else if d == 7 {
        '7'
    } else if d == 8 {
        '8'
    } else {
        '9'
    }
}

/// Writes the character for one decimal digit.
pub fn digit_to_char(d: u8) -> (r: char)
    requires
        d <= 9,
    ensures
        r == digit_char_of(d as int),
{
    if d == 0 {
        '0'
    } else if d == 1 {
        '1'
    } else if d == 2 {
        '2'
    } else if d == 3 {
        '3'
    } else if d == 4 {
        '4'
    } else if d == 5 {
        '5'
    } else if d == 6 {
        '6'
    } else if d == 7 {
        '7'
    } else if d == 8 {
        '8'
    } else {
        '9'
    }
}

/// The decimal digit characters of `n`, most significant first.
pub open spec fn spec_digits_of(n: int) -> Seq<char>
    decreases n,
{
    if n < 10 {
        seq![digit_char_of(n)]
    } else {
        spec_digits_of(n / 10).push(digit_char_of(n % 10))
    }
}

/// The decimal rendering of a small number.
pub fn u8_to_chars(n: u8) -> (r: Vec<char>)
    ensures
        r@ == spec_digits_of(n as int),
{
    let mut r: Vec<char> = Vec::new();
    if n >= 100 {
        r.push(digit_to_char(n / 100));
        r.push(digit_to_char((n / 10) % 10));
        r.push(digit_to_char(n % 10));
        proof {
            assert(n as int / 10 / 10 == n as int / 100) by (nonlinear_arith);
            assert(n as int / 10 % 10 == (n / 10) as int % 10);
            assert(spec_digits_of(n as int / 100) =~= seq![digit_char_of(n as int / 100)]);
            assert(spec_digits_of(n as int / 10) =~= seq![digit_char_of(n as int / 100)].push(
                digit_char_of(n as int / 10 % 10),
            ));
            assert(spec_digits_of(n as int) =~= spec_digits_of(n as int / 10).push(
                digit_char_of(n as int % 10),
            ));
            assert(r@ =~= spec_digits_of(n as int));
        }
    } else if n >= 10 {
        r.push(digit_to_char(n / 10));
        r.push(digit_to_char(n % 10));
        proof {
            assert(spec_digits_of(n as int / 10) =~= seq![digit_char_of(n as int / 10)]);
            assert(spec_digits_of(n as int) =~= seq![digit_char_of(n as int / 10)].push(
                digit_char_of(n as int % 10),
            ));
            assert(r@ =~= spec_digits_of(n as int));
        }
    } else {
        r.push(digit_to_char(n));
        proof {
            assert(spec_digits_of(n as int) =~= seq![digit_char_of(n as int)]);
            assert(r@ =~= spec_digits_of(n as int));
        }
    }
    r
}

// --- lexicographic order on character sequences ---

/// Code-point lexicographic order, the order `str` values sort in.
pub open spec fn lex_le(a: Seq<char>, b: Seq<char>) -> bool
    decreases a.len(),
{
    if a.len() == 0 {
        true
    } else if b.len() == 0 {
        false
    } else if (a[0] as u32) < (b[0] as u32) {
        true
    } else if (a[0] as u32) > (b[0] as u32) {
        false
    } else {
        lex_le(a.drop_first(), b.drop_first())
    }
}

/// Decides `lex_le` on character vectors.
pub fn lex_le_chars(a: &Vec<char>, b: &Vec<char>) -> (r: bool)
    ensures
        r == lex_le(a@, b@),
{
    let mut i: usize = 0;
    proof {
        assert(a@.subrange(0, a@.len() as int) =~= a@);
        assert(b@.subrange(0, b@.len() as int) =~= b@);
    }
    loop
        invariant
            i <= a@.len(),
            i <= b@.len(),
            lex_le(a@, b@) == lex_le(a@.subrange(i as int, a@.len() as int), b@.subrange(
                i as int,
                b@.len() as int,
            )),
        decreases a@.len() - i,
    {
        let ghost ar = a@.subrange(i as int, a@.len() as int);
        let ghost br = b@.subrange(i as int, b@.len() as int);
        if i >= a.len() {
            proof {
                assert(ar.len() == 0);
            }
            return true;
        }
        if i >= b.len() {
            proof {
                assert(br.len() == 0 && ar.len() > 0);
            }
            return false;
        }
        let ca = a[i] as u32;
        let cb = b[i] as u32;
        proof {
            assert(ar[0] == a@[i as int] && br[0] == b@[i as int]);
            assert(ar.drop_first() =~= a@.subrange(i + 1, a@.len() as int));
            assert(br.drop_first() =~= b@.subrange(i + 1, b@.len() as int));
        }
        if ca < cb {
            return true;
        }
        if ca > cb {
            return false;
        }
        i = i + 1;
    }
}

// --- trusted lowercase conversions ---

pub uninterp spec fn lower_of(s: Seq<char>) -> Seq<char>;

/// Relies on `str::to_lowercase`: the result is the Unicode lowercase
/// conversion, a function of the input characters alone.
#[verifier::external_body]
pub(crate) fn lowercase(s: &str) -> (r: String)
    ensures
        r@ == lower_of(s@),
{
    s.to_lowercase()
}

/// The Unicode lowercase conversion of a character vector.
pub(crate) fn lower_chars(v: &Vec<char>) -> (r: Vec<char>)
    ensures
        r@ == lower_of(v@),
{
    let s = string_of(v);
    let l = lowercase(s.as_str());
    chars_of(l.as_str())
}

pub uninterp spec fn lowercase_char(c: char) -> bool;

/// Relies on `char::is_lowercase`: whether the character has the Unicode
/// `Lowercase` property, a function of the character alone.
#[verifier::external_body]
pub(crate) fn is_lowercase_char(c: char) -> (r: bool)
    ensures
        r == lowercase_char(c),
{
    c.is_lowercase()
}

/// Replacing a nonempty pattern with something shorter never grows the
/// text, and strictly shrinks it when the pattern occurs.
pub proof fn lemma_replace_shorter(s: Seq<char>, p: Seq<char>, q: Seq<char>)
    requires
        p.len() > 0,
        q.len() < p.len(),
    ensures
        spec_replace(s, p, q).len() <= s.len(),
        spec_find(s, p, 0) is Some ==> spec_replace(s, p, q).len() < s.len(),
        spec_find(s, p, 0) is None ==> spec_replace(s, p, q) == s,
    decreases s.len(),
{
    lemma_find_props(s, p, 0);
    match spec_find(s, p, 0) {
        None => {},
        Some(i) => {
            lemma_replace_shorter(s.subrange(i + p.len(), s.len() as int), p, q);
        },
    }
}

/// Appends `s[a..b]` to `r`.
pub fn push_range(r: &mut Vec<char>, s: &Vec<char>, a: usize, b: usize)
    requires
        a <= b <= s@.len(),
    ensures
        final(r)@ == old(r)@ + s@.subrange(a as int, b as int),
{
    let ghost r0 = r@;
    let mut i: usize = a;
    while i < b
        invariant
            a <= i <= b <= s@.len(),
            r@ == r0 + s@.subrange(a as int, i as int),
        decreases b - i,
    {
        r.push(s[i]);
        i = i + 1;
        proof {
            assert(r@ =~= r0 + s@.subrange(a as int, i as int));
        }
    }
}

/// The characters `s[a..b]` as a fresh vector.
pub fn sub_chars(s: &Vec<char>, a: usize, b: usize) -> (r: Vec<char>)
    requires
        a <= b <= s@.len(),
    ensures
        r@ == s@.subrange(a as int, b as int),
{
    let mut r: Vec<char> = Vec::new();
    push_range(&mut r, s, a, b);
    proof {
        assert(r@ =~= s@.subrange(a as int, b as int));
    }
    r
}

/// Appends the whole of `s` to `r`.
pub fn push_all(r: &mut Vec<char>, s: &Vec<char>)
    ensures
        final(r)@ == old(r)@ + s@,
{
    proof {
        assert(s@.subrange(0, s@.len() as int) =~= s@);
    }
    push_range(r, s, 0, s.len());
}

#[via_fn]
proof fn spec_replace_decreases(s: Seq<char>, p: Seq<char>, q: Seq<char>) {
    lemma_find_props(s, p, 0);
}

/// The input with every occurrence of `p` replaced by `q`.
pub fn replace_all(s: &Vec<char>, p: &Vec<char>, q: &Vec<char>) -> (r: Vec<char>)
    requires
        p@.len() > 0,
    ensures
        r@ == spec_replace(s@, p@, q@),
{
    let n = s.len();
    let mut r: Vec<char> = Vec::new();
    let mut pos: usize = 0;
    proof {
        assert(s@.subrange(0, s@.len() as int) =~= s@);
        assert(r@ + spec_replace(s@, p@, q@) =~= spec_replace(s@, p@, q@));
    }
    loop
        invariant
            n == s@.len(),
            p@.len() > 0,
            pos <= s@.len(),
            spec_replace(s@, p@, q@) == r@ + spec_replace(
                s@.subrange(pos as int, s@.len() as int),
                p@,
                q@,
            ),
        decreases s@.len() - pos,
    {
        let ghost rest = s@.subrange(pos as int, s@.len() as int);
        match find_sub(s, p, pos) {
            None => {
                proof {
                    lemma_find_shift(s@, p@, pos as int, pos as int);
                    assert(spec_find(rest, p@, 0) is None);
                }
                push_range(&mut r, s, pos, s.len());
                return r;
            },
            Some(i) => {
                proof {
                    lemma_find_props(s@, p@, pos as int);
                    lemma_find_shift(s@, p@, pos as int, pos as int);
                    assert(spec_find(rest, p@, 0) == Some(i - pos));
                }
                let ghost r0 = r@;
                push_range(&mut r, s, pos, i);
                push_all(&mut r, q);
                let newpos = i + p.len();
                proof {
                    let pl = p@.len() as int;
                    assert(rest.subrange(0, i - pos) =~= s@.subrange(pos as int, i as int));
                    assert(rest.subrange(i - pos + pl, rest.len() as int) =~= s@.subrange(
                        newpos as int,
                        s@.len() as int,
                    ));
                    assert(spec_replace(rest, p@, q@) == rest.subrange(0, i - pos) + q@
                        + spec_replace(rest.subrange(i - pos + pl, rest.len() as int), p@, q@));
                    assert(r@ + spec_replace(s@.subrange(newpos as int, s@.len() as int), p@, q@)
                        =~= r0 + spec_replace(rest, p@, q@));
                }
                pos = newpos;
            },
        }
    }
}

// --- sorting and deduplication of character sequences ---

/// Whether two strings hold the same characters.
pub fn string_eq(a: &String, b: &String) -> (r: bool)
    ensures
        r == (a@ == b@),
{
    let av = chars_of(a.as_str());
    let bv = chars_of(b.as_str());
    eq_chars(&av, &bv)
}

/// Where a stable insertion puts `x` in lexicographic order: after every
/// element it is not strictly below.
pub open spec fn lex_insert(r: Seq<Seq<char>>, x: Seq<char>) -> Seq<Seq<char>>
    decreases r.len(),
{
    if r.len() > 0 && !lex_le(r.last(), x) {
        lex_insert(r.drop_last(), x).push(r.last())
    } else {
        r.push(x)
    }
}

/// The stable insertion sort in lexicographic order.
pub open spec fn lex_sort(s: Seq<Seq<char>>) -> Seq<Seq<char>>
    decreases s.len(),
{
    if s.len() == 0 {
        Seq::empty()
    } else {
        lex_insert(lex_sort(s.drop_last()), s.last())
    }
}

proof fn lemma_lex_insert_at(r: Seq<Seq<char>>, x: Seq<char>, j: int)
    requires
        0 <= j <= r.len(),
        forall|k: int| j <= k < r.len() ==> !lex_le(#[trigger] r[k], x),
        j > 0 ==> lex_le(r[j - 1], x),
    ensures
        lex_insert(r, x) == r.insert(j, x),
    decreases r.len() - j,
{
    if j == r.len() {
        assert(r.insert(j, x) =~= r.push(x));
        if r.len() > 0 {
            assert(lex_le(r[r.len() - 1], x));
        }
    } else {
        assert(!lex_le(r.last(), x));
        lemma_lex_insert_at(r.drop_last(), x, j);
        assert(r.drop_last().insert(j, x).push(r.last()) =~= r.insert(j, x));
    }
}

/// Sorts strings lexicographically, stably.
pub fn sort_strings(v: Vec<String>) -> (r: Vec<String>)
    ensures
        r.deep_view() == lex_sort(v.deep_view()),
{
    let mut rest = v;
    let total = rest.len();
    let mut r: Vec<String> = Vec::new();
    let ghost full = rest.deep_view();
    let mut taken: usize = 0;
    proof {
        assert(full.subrange(0, 0) =~= Seq::<Seq<char>>::empty());
        assert(lex_sort(full.subrange(0, 0)) =~= r.deep_view());
    }
    while rest.len() > 0
        invariant
            full.len() == total,
            taken + rest@.len() == full.len(),
            rest.deep_view() == full.subrange(taken as int, full.len() as int),
            r.deep_view() == lex_sort(full.subrange(0, taken as int)),
        decreases rest@.len(),
    {
        let ghost rest0 = rest@;
        let ghost restv = rest.deep_view();
        let x = rest.remove(0);
        proof {
            assert(restv[0] == rest0[0]@);
            assert(x@ == full[taken as int]);
            assert forall|k: int| 0 <= k < rest@.len() implies rest.deep_view()[k]
                == full.subrange(taken + 1, full.len() as int)[k] by {
                assert(rest@[k] == rest0[k + 1]);
                assert(restv[k + 1] == rest0[k + 1]@);
            }
            assert(rest.deep_view() =~= full.subrange(taken + 1, full.len() as int));
        }
        let xc = chars_of(x.as_str());
        let mut j: usize = r.len();
        loop
            invariant_except_break
                j <= r@.len(),
                r.deep_view().len() == r@.len(),
                xc@ == x@,
                forall|k: int| j <= k < r@.len() ==> !lex_le(#[trigger] r.deep_view()[k], x@),
            ensures
                j <= r@.len(),
                forall|k: int| j <= k < r@.len() ==> !lex_le(#[trigger] r.deep_view()[k], x@),
                j > 0 ==> lex_le(r.deep_view()[j - 1], x@),
            decreases j,
        {
            if j == 0 {
                break ;
            }
            let rc = chars_of(r[j - 1].as_str());
            proof {
                assert(r.deep_view()[j - 1] == r@[j - 1]@);
            }
            if lex_le_chars(&rc, &xc) {
                break ;
            }
            j = j - 1;
        }
        let ghost r0 = r.deep_view();
        r.insert(j, x);
        taken = taken + 1;
        proof {
            lemma_lex_insert_at(r0, x@, j as int);
            assert(r.deep_view() =~~= r0.insert(j as int, x@));
            let pre = full.subrange(0, taken as int);
            assert(pre.drop_last() =~= full.subrange(0, taken - 1));
            assert(pre.last() == full[taken - 1]);
        }
    }
    proof {
        assert(full.subrange(0, taken as int) =~= full);
    }
    r
}

/// The order tag names are tried in when matching: longer names first.
pub open spec fn len_desc_le(a: Seq<char>, b: Seq<char>) -> bool {
    a.len() >= b.len()
}

/// Where a stable insertion puts `x` under `len_desc_le`.
pub open spec fn len_desc_insert(r: Seq<Seq<char>>, x: Seq<char>) -> Seq<Seq<char>>
    decreases r.len(),
{
    if r.len() > 0 && !len_desc_le(r.last(), x) {
        len_desc_insert(r.drop_last(), x).push(r.last())
    } else {
        r.push(x)
    }
}

/// The stable insertion sort by decreasing length.
pub open spec fn len_desc_sort(s: Seq<Seq<char>>) -> Seq<Seq<char>>
    decreases s.len(),
{
    if s.len() == 0 {
        Seq::empty()
    } else {
        len_desc_insert(len_desc_sort(s.drop_last()), s.last())
    }
}

proof fn lemma_len_desc_insert_at(r: Seq<Seq<char>>, x: Seq<char>, j: int)
    requires
        0 <= j <= r.len(),
        forall|k: int| j <= k < r.len() ==> !len_desc_le(#[trigger] r[k], x),
        j > 0 ==> len_desc_le(r[j - 1], x),
    ensures
        len_desc_insert(r, x) == r.insert(j, x),
    decreases r.len() - j,
{
    if j == r.len() {
        assert(r.insert(j, x) =~= r.push(x));
        if r.len() > 0 {
            assert(len_desc_le(r[r.len() - 1], x));
        }
    } else {
        assert(!len_desc_le(r.last(), x));
        lemma_len_desc_insert_at(r.drop_last(), x, j);
        assert(r.drop_last().insert(j, x).push(r.last()) =~= r.insert(j, x));
    }
}

/// Sorts character vectors by decreasing length, stably.
pub fn sort_by_len_desc(v: Vec<Vec<char>>) -> (r: Vec<Vec<char>>)
    ensures
        r.deep_view() == len_desc_sort(v.deep_view()),
{
    let mut rest = v;
    let total = rest.len();
    let mut r: Vec<Vec<char>> = Vec::new();
    let ghost full = rest.deep_view();
    let mut taken: usize = 0;
    proof {
        assert(full.subrange(0, 0) =~= Seq::<Seq<char>>::empty());
        assert(len_desc_sort(full.subrange(0, 0)) =~= r.deep_view());
    }
    while rest.len() > 0
        invariant
            full.len() == total,
            taken + rest@.len() == full.len(),
            rest.deep_view() == full.subrange(taken as int, full.len() as int),
            r.deep_view() == len_desc_sort(full.subrange(0, taken as int)),
        decreases rest@.len(),
    {
        let ghost rest0 = rest@;
        let ghost restv = rest.deep_view();
        let x = rest.remove(0);
        proof {
            assert(restv[0] == rest0[0]@);
            assert(x@ == full[taken as int]);
            assert forall|k: int| 0 <= k < rest@.len() implies rest.deep_view()[k]
                == full.subrange(taken + 1, full.len() as int)[k] by {
                assert(rest@[k] == rest0[k + 1]);
                assert(restv[k + 1] == rest0[k + 1]@);
            }
            assert(rest.deep_view() =~= full.subrange(taken + 1, full.len() as int));
        }
        let mut j: usize = r.len();
        while j > 0 && !(r[j - 1].len() >= x.len())
            invariant
                j <= r@.len(),
                r.deep_view().len() == r@.len(),
                forall|k: int| j <= k < r@.len() ==> !len_desc_le(#[trigger] r.deep_view()[k], x@),
            decreases j,
        {
            proof {
                assert(r.deep_view()[j - 1] == r@[j - 1]@);
            }
            j = j - 1;
        }
        let ghost r0 = r.deep_view();
        proof {
            if j > 0 {
                assert(r.deep_view()[j - 1] == r@[j - 1]@);
            }
        }
        r.insert(j, x);
        taken = taken + 1;
        proof {
            lemma_len_desc_insert_at(r0, x@, j as int);
            assert(r.deep_view() =~~= r0.insert(j as int, x@));
            let pre = full.subrange(0, taken as int);
            assert(pre.drop_last() =~= full.subrange(0, taken - 1));
            assert(pre.last() == full[taken - 1]);
        }
    }
    proof {
        assert(full.subrange(0, taken as int) =~= full);
    }
    r
}

/// The input with runs of equal adjacent strings collapsed to one, as
/// `Vec::dedup` leaves it.
pub open spec fn spec_dedup(s: Seq<Seq<char>>) -> Seq<Seq<char>>
    decreases s.len(),
{
    if s.len() <= 1 {
        s
    } else if s.last() == s[s.len() - 2] {
        spec_dedup(s.drop_last())
    } else {
        spec_dedup(s.drop_last()).push(s.last())
    }
}

/// Collapses runs of equal adjacent strings.
pub fn dedup_strings(v: &Vec<String>) -> (r: Vec<String>)
    ensures
        r.deep_view() == spec_dedup(v.deep_view()),
{
    let mut r: Vec<String> = Vec::new();
    let mut i: usize = 0;
    let ghost full = v.deep_view();
    proof {
        assert(full.subrange(0, 0) =~= Seq::<Seq<char>>::empty());
        assert(spec_dedup(full.subrange(0, 0)) =~= r.deep_view());
    }
    while i < v.len()
        invariant
            full == v.deep_view(),
            full.len() == v@.len(),
            i <= v@.len(),
            r.deep_view() == spec_dedup(full.subrange(0, i as int)),
            i > 0 ==> r@.len() > 0 && full[i - 1] == r.deep_view().last(),
        decreases v@.len() - i,
    {
        proof {
            assert(full[i as int] == v@[i as int]@);
        }
        let keep: bool = if i == 0 {
            true
        } else {
            let ghost rv = r.deep_view();
            proof {
                assert(rv.last() == rv[rv.len() - 1]);
                assert(rv[rv.len() - 1] == r@[r@.len() - 1]@);
            }
            !string_eq(&r[r.len() - 1], &v[i])
        };
        let ghost r0 = r.deep_view();
        if keep {
            r.push(v[i].clone());
        }
        i = i + 1;
        proof {
            let pre = full.subrange(0, i as int);
            assert(pre.drop_last() =~= full.subrange(0, i - 1));
            assert(pre.last() == full[i - 1]);
            if keep {
                assert(r.deep_view() =~~= r0.push(full[i - 1]));
            }
        }
    }
    proof {
        assert(full.subrange(0, i as int) =~= full);
    }
    r
}

} // verus!
