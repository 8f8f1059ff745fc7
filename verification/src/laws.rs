//! Properties of the pipeline that go beyond any single function's
//! contract, proved once and for all.

use crate::interpret::{
    spec_boundary, spec_collapse_spaces, spec_expand_ligatures, spec_heal, spec_lines_inner,
    spec_simplify, spec_split_lines, spec_stat_pos,
};
use crate::text::{
    find_char_from, lemma_find_char_props, lemma_find_props, lemma_replace_shorter, lower_of,
    spec_find, spec_join, spec_replace, spec_trim, spec_trim_end, spec_trim_start, starts_with_at,
    white_char,
};
use vstd::prelude::*;

verus! {

/// The character does not occur in the text.
pub open spec fn char_free(s: Seq<char>, c: char) -> bool {
    forall|i: int| 0 <= i < s.len() ==> s[i] != c
}

/// The two-character pattern does not occur in the text.
pub open spec fn pattern_free(s: Seq<char>, p: Seq<char>) -> bool {
    forall|j: int| !starts_with_at(s, p, j)
}

proof fn lemma_pattern_free_find(s: Seq<char>, p: Seq<char>)
    ensures
        pattern_free(s, p) <==> spec_find(s, p, 0) is None,
{
    lemma_find_props(s, p, 0);
    match spec_find(s, p, 0) {
        Some(i) => {
            assert(starts_with_at(s, p, i));
        },
        None => {
            assert forall|j: int| !starts_with_at(s, p, j) by {
                if starts_with_at(s, p, j) {
                    assert(0 <= j);
                }
            }
        },
    }
}

proof fn lemma_char_free_as_pattern(s: Seq<char>, c: char)
    ensures
        char_free(s, c) <==> pattern_free(s, seq![c]),
{
    if char_free(s, c) {
        assert forall|j: int| !starts_with_at(s, seq![c], j) by {
            if starts_with_at(s, seq![c], j) {
                assert(s.subrange(j, j + 1)[0] == s[j]);
            }
        }
    }
    if pattern_free(s, seq![c]) {
        assert forall|i: int| 0 <= i < s.len() implies s[i] != c by {
            if s[i] == c {
                assert(s.subrange(i, i + 1) =~= seq![c]);
                assert(starts_with_at(s, seq![c], i));
            }
        }
    }
}

/// A replacement introduces no character that neither the text nor the
/// replacement holds.
proof fn lemma_replace_char_free(s: Seq<char>, p: Seq<char>, q: Seq<char>, c: char)
    requires
        p.len() > 0,
        char_free(s, c),
        char_free(q, c),
    ensures
        char_free(spec_replace(s, p, q), c),
    decreases s.len(),
{
    lemma_find_props(s, p, 0);
    match spec_find(s, p, 0) {
        None => {},
        Some(i) => {
            let rest = s.subrange(i + p.len(), s.len() as int);
            lemma_replace_char_free(rest, p, q, c);
            let r = s.subrange(0, i) + q + spec_replace(rest, p, q);
            assert forall|k: int| 0 <= k < r.len() implies r[k] != c by {
                if k < i {
                    assert(r[k] == s[k]);
                } else if k < i + q.len() {
                    assert(r[k] == q[k - i]);
                } else {
                    assert(r[k] == spec_replace(rest, p, q)[k - i - q.len()]);
                }
            }
        },
    }
}

/// Replacing every occurrence of a character leaves none, when the
/// replacement does not hold it.
proof fn lemma_replace_kills_char(s: Seq<char>, c: char, q: Seq<char>)
    requires
        char_free(q, c),
    ensures
        char_free(spec_replace(s, seq![c], q), c),
    decreases s.len(),
{
    lemma_find_props(s, seq![c], 0);
    match spec_find(s, seq![c], 0) {
        None => {
            lemma_char_free_as_pattern(s, c);
            lemma_pattern_free_find(s, seq![c]);
        },
        Some(i) => {
            let rest = s.subrange(i + 1, s.len() as int);
            lemma_replace_kills_char(rest, c, q);
            let r = s.subrange(0, i) + q + spec_replace(rest, seq![c], q);
            assert forall|k: int| 0 <= k < r.len() implies r[k] != c by {
                if k < i {
                    assert(r[k] == s[k]);
                    if s[k] == c {
                        assert(s.subrange(k, k + 1) =~= seq![c]);
                        assert(starts_with_at(s, seq![c], k));
                    }
                } else if k < i + q.len() {
                    assert(r[k] == q[k - i]);
                } else {
                    assert(r[k] == spec_replace(rest, seq![c], q)[k - i - q.len()]);
                }
            }
        },
    }
}

/// A character absent from the whole text is absent from any piece of it.
proof fn lemma_char_free_subrange(s: Seq<char>, c: char, a: int, b: int)
    requires
        char_free(s, c),
        0 <= a <= b <= s.len(),
    ensures
        char_free(s.subrange(a, b), c),
{
}

/// A pattern absent from the whole text is absent from any piece of it.
proof fn lemma_pattern_free_subrange(s: Seq<char>, p: Seq<char>, a: int, b: int)
    requires
        pattern_free(s, p),
        0 <= a <= b <= s.len(),
    ensures
        pattern_free(s.subrange(a, b), p),
{
    let t = s.subrange(a, b);
    assert forall|j: int| !starts_with_at(t, p, j) by {
        if starts_with_at(t, p, j) {
            assert(s.subrange(a + j, a + j + p.len() as int) =~= t.subrange(
                j,
                j + p.len() as int,
            ));
            assert(starts_with_at(s, p, a + j));
        }
    }
}

proof fn lemma_trim_start_char_free(s: Seq<char>, c: char)
    requires
        char_free(s, c),
    ensures
        char_free(spec_trim_start(s), c),
    decreases s.len(),
{
    if s.len() > 0 && white_char(s[0]) {
        lemma_char_free_subrange(s, c, 1, s.len() as int);
        assert(s.drop_first() =~= s.subrange(1, s.len() as int));
        lemma_trim_start_char_free(s.drop_first(), c);
    }
}

proof fn lemma_trim_end_char_free(s: Seq<char>, c: char)
    requires
        char_free(s, c),
    ensures
        char_free(spec_trim_end(s), c),
    decreases s.len(),
{
    if s.len() > 0 && white_char(s[s.len() - 1]) {
        lemma_char_free_subrange(s, c, 0, s.len() - 1);
        assert(s.drop_last() =~= s.subrange(0, s.len() - 1));
        lemma_trim_end_char_free(s.drop_last(), c);
    }
}

proof fn lemma_trim_char_free(s: Seq<char>, c: char)
    requires
        char_free(s, c),
    ensures
        char_free(spec_trim(s), c),
{
    lemma_trim_start_char_free(s, c);
    lemma_trim_end_char_free(spec_trim_start(s), c);
}

proof fn lemma_trim_start_pattern_free(s: Seq<char>, p: Seq<char>)
    requires
        pattern_free(s, p),
    ensures
        pattern_free(spec_trim_start(s), p),
    decreases s.len(),
{
    if s.len() > 0 && white_char(s[0]) {
        lemma_pattern_free_subrange(s, p, 1, s.len() as int);
        assert(s.drop_first() =~= s.subrange(1, s.len() as int));
        lemma_trim_start_pattern_free(s.drop_first(), p);
    }
}

proof fn lemma_trim_end_pattern_free(s: Seq<char>, p: Seq<char>)
    requires
        pattern_free(s, p),
    ensures
        pattern_free(spec_trim_end(s), p),
    decreases s.len(),
{
    if s.len() > 0 && white_char(s[s.len() - 1]) {
        lemma_pattern_free_subrange(s, p, 0, s.len() - 1);
        assert(s.drop_last() =~= s.subrange(0, s.len() - 1));
        lemma_trim_end_pattern_free(s.drop_last(), p);
    }
}

proof fn lemma_trim_pattern_free(s: Seq<char>, p: Seq<char>)
    requires
        pattern_free(s, p),
    ensures
        pattern_free(spec_trim(s), p),
{
    lemma_trim_start_pattern_free(s, p);
    lemma_trim_end_pattern_free(spec_trim_start(s), p);
}

// --- trimming twice ---

proof fn lemma_trim_start_fix(s: Seq<char>)
    ensures
        spec_trim_start(s).len() > 0 ==> !white_char(spec_trim_start(s)[0]),
        spec_trim_start(spec_trim_start(s)) == spec_trim_start(s),
    decreases s.len(),
{
    if s.len() > 0 && white_char(s[0]) {
        lemma_trim_start_fix(s.drop_first());
    }
}

proof fn lemma_trim_end_fix(s: Seq<char>)
    ensures
        spec_trim_end(s).len() > 0 ==> !white_char(spec_trim_end(s).last()),
        spec_trim_end(spec_trim_end(s)) == spec_trim_end(s),
    decreases s.len(),
{
    if s.len() > 0 && white_char(s[s.len() - 1]) {
        lemma_trim_end_fix(s.drop_last());
    }
}

proof fn lemma_trim_end_keeps_head(s: Seq<char>)
    ensures
        spec_trim_end(s).len() > 0 ==> spec_trim_end(s)[0] == s[0],
    decreases s.len(),
{
    if s.len() > 0 && white_char(s[s.len() - 1]) {
        lemma_trim_end_keeps_head(s.drop_last());
    }
}

/// Trimming is idempotent.
pub proof fn lemma_trim_idempotent(s: Seq<char>)
    ensures
        spec_trim(spec_trim(s)) == spec_trim(s),
{
    let t1 = spec_trim_start(s);
    let t = spec_trim_end(t1);
    lemma_trim_start_fix(s);
    lemma_trim_end_fix(t1);
    lemma_trim_end_keeps_head(t1);
    if t.len() > 0 {
        assert(t[0] == t1[0]);
        assert(!white_char(t[0]));
        assert(spec_trim_start(t) == t);
    } else {
        assert(spec_trim_start(t) == t);
    }
    assert(spec_trim_end(spec_trim_start(t)) == t);
}

// --- space collapsing and the space-before-period pass ---

proof fn lemma_collapse_result_free(s: Seq<char>)
    ensures
        pattern_free(spec_collapse_spaces(s), seq![' ', ' ']),
    decreases s.len(),
{
    let p: Seq<char> = seq![' ', ' '];
    let q: Seq<char> = seq![' '];
    let s2 = spec_replace(s, p, q);
    lemma_replace_shorter(s, p, q);
    if s2 == s {
        lemma_pattern_free_find(s, p);
        match spec_find(s, p, 0) {
            Some(_) => {
                assert(false);
            },
            None => {},
        }
    } else {
        lemma_collapse_result_free(s2);
    }
}

proof fn lemma_collapse_identity(s: Seq<char>)
    requires
        pattern_free(s, seq![' ', ' ']),
    ensures
        spec_collapse_spaces(s) == s,
{
    lemma_pattern_free_find(s, seq![' ', ' ']);
}

proof fn lemma_collapse_char_free(s: Seq<char>, c: char)
    requires
        char_free(s, c),
        c != ' ',
    ensures
        char_free(spec_collapse_spaces(s), c),
    decreases s.len(),
{
    let p: Seq<char> = seq![' ', ' '];
    let q: Seq<char> = seq![' '];
    let s2 = spec_replace(s, p, q);
    lemma_replace_shorter(s, p, q);
    lemma_replace_char_free(s, p, q, c);
    if s2 == s {
    } else {
        lemma_collapse_char_free(s2, c);
    }
}

proof fn lemma_dot_pass_free(s: Seq<char>)
    requires
        pattern_free(s, seq![' ', ' ']),
    ensures
        pattern_free(spec_replace(s, seq![' ', '.'], seq!['.']), seq![' ', '.']),
        pattern_free(spec_replace(s, seq![' ', '.'], seq!['.']), seq![' ', ' ']),
    decreases s.len(),
{
    let sp: Seq<char> = seq![' ', '.'];
    let dot: Seq<char> = seq!['.'];
    let ss: Seq<char> = seq![' ', ' '];
    lemma_find_props(s, sp, 0);
    match spec_find(s, sp, 0) {
        None => {
            lemma_pattern_free_find(s, sp);
        },
        Some(i) => {
            assert(s.subrange(i, i + 2)[0] == s[i] && s.subrange(i, i + 2)[1] == s[i + 1]);
            assert(s[i] == ' ' && s[i + 1] == '.');
            let a = s.subrange(0, i);
            let rest = s.subrange(i + 2, s.len() as int);
            lemma_pattern_free_subrange(s, ss, i + 2, s.len() as int);
            lemma_dot_pass_free(rest);
            let rr = spec_replace(rest, sp, dot);
            let r = a + dot + rr;
            assert(spec_replace(s, sp, dot) == r);
            assert forall|j: int| !starts_with_at(r, sp, j) && !starts_with_at(r, ss, j) by {
                if 0 <= j && j + 2 <= r.len() {
                    let c0 = r[j];
                    let c1 = r[j + 1];
                    if starts_with_at(r, sp, j) || starts_with_at(r, ss, j) {
                        assert(r.subrange(j, j + 2)[0] == c0 && r.subrange(j, j + 2)[1] == c1);
                        if j + 1 < i {
                            assert(c0 == s[j] && c1 == s[j + 1]);
                            assert(s.subrange(j, j + 2) =~= r.subrange(j, j + 2));
                            assert(starts_with_at(s, sp, j) || starts_with_at(s, ss, j));
                            assert(!starts_with_at(s, sp, j));
                            assert(false);
                        } else if j + 1 == i {
                            assert(c0 == s[j] && c1 == '.');
                            if c0 == ' ' {
                                assert(s.subrange(i - 1, i + 1) =~= ss);
                                assert(starts_with_at(s, ss, i - 1));
                            }
                            assert(false);
                        } else if j == i {
                            assert(c0 == '.');
                            assert(false);
                        } else {
                            assert(c0 == rr[j - i - 1] && c1 == rr[j - i]);
                            assert(rr.subrange(j - i - 1, j - i + 1) =~= r.subrange(j, j + 2));
                            assert(starts_with_at(rr, sp, j - i - 1) || starts_with_at(
                                rr,
                                ss,
                                j - i - 1,
                            ));
                            assert(false);
                        }
                    }
                }
            }
        },
    }
}

// --- the ligature pass ---

proof fn lemma_lig_clean(s: Seq<char>)
    ensures
        char_free(spec_expand_ligatures(s), 'ﬃ'),
        char_free(spec_expand_ligatures(s), 'ﬂ'),
        char_free(spec_expand_ligatures(s), 'ﬁ'),
        char_free(spec_expand_ligatures(s), 'ﬀ'),
{
    let s1 = spec_replace(s, seq!['ﬃ'], seq!['f', 'f', 'i']);
    let s2 = spec_replace(s1, seq!['ﬂ'], seq!['f', 'l']);
    let s3 = spec_replace(s2, seq!['ﬁ'], seq!['f', 'i']);
    lemma_replace_kills_char(s, 'ﬃ', seq!['f', 'f', 'i']);
    lemma_replace_char_free(s1, seq!['ﬂ'], seq!['f', 'l'], 'ﬃ');
    lemma_replace_kills_char(s1, 'ﬂ', seq!['f', 'l']);
    lemma_replace_char_free(s2, seq!['ﬁ'], seq!['f', 'i'], 'ﬃ');
    lemma_replace_char_free(s2, seq!['ﬁ'], seq!['f', 'i'], 'ﬂ');
    lemma_replace_kills_char(s2, 'ﬁ', seq!['f', 'i']);
    lemma_replace_char_free(s3, seq!['ﬀ'], seq!['f', 'f'], 'ﬃ');
    lemma_replace_char_free(s3, seq!['ﬀ'], seq!['f', 'f'], 'ﬂ');
    lemma_replace_char_free(s3, seq!['ﬀ'], seq!['f', 'f'], 'ﬁ');
    lemma_replace_kills_char(s3, 'ﬀ', seq!['f', 'f']);
}

proof fn lemma_lig_identity(s: Seq<char>)
    requires
        char_free(s, 'ﬃ'),
        char_free(s, 'ﬂ'),
        char_free(s, 'ﬁ'),
        char_free(s, 'ﬀ'),
    ensures
        spec_expand_ligatures(s) == s,
{
    lemma_char_free_as_pattern(s, 'ﬃ');
    lemma_pattern_free_find(s, seq!['ﬃ']);
    lemma_char_free_as_pattern(s, 'ﬂ');
    lemma_pattern_free_find(s, seq!['ﬂ']);
    lemma_char_free_as_pattern(s, 'ﬁ');
    lemma_pattern_free_find(s, seq!['ﬁ']);
    lemma_char_free_as_pattern(s, 'ﬀ');
    lemma_pattern_free_find(s, seq!['ﬀ']);
}

proof fn lemma_lig_char_free(s: Seq<char>, c: char)
    requires
        char_free(s, c),
        c != 'f',
        c != 'l',
        c != 'i',
    ensures
        char_free(spec_expand_ligatures(s), c),
{
    let s1 = spec_replace(s, seq!['ﬃ'], seq!['f', 'f', 'i']);
    let s2 = spec_replace(s1, seq!['ﬂ'], seq!['f', 'l']);
    let s3 = spec_replace(s2, seq!['ﬁ'], seq!['f', 'i']);
    lemma_replace_char_free(s, seq!['ﬃ'], seq!['f', 'f', 'i'], c);
    lemma_replace_char_free(s1, seq!['ﬂ'], seq!['f', 'l'], c);
    lemma_replace_char_free(s2, seq!['ﬁ'], seq!['f', 'i'], c);
    lemma_replace_char_free(s3, seq!['ﬀ'], seq!['f', 'f'], c);
}

// --- line healing on break-free text ---

proof fn lemma_heal_identity(s: Seq<char>)
    requires
        char_free(s, '\n'),
    ensures
        spec_heal(s) == s,
{
    lemma_find_char_props(s, 0, '\n');
    let e = find_char_from(s, 0, '\n');
    if e < s.len() {
        assert(s[e] == '\n');
        assert(false);
    }
}

/// What the final line pass does to break-free text: nothing but trim it.
proof fn lemma_tidy_single_line(d: Seq<char>)
    requires
        char_free(d, '\n'),
    ensures
        spec_trim(
            spec_join(spec_split_lines(d).map_values(|l: Seq<char>| spec_trim(l)), seq!['\n']),
        ) == spec_trim(d),
{
    if d.len() == 0 {
        assert(spec_split_lines(d).map_values(|l: Seq<char>| spec_trim(l))
            =~= Seq::<Seq<char>>::empty());
        assert(spec_join(Seq::<Seq<char>>::empty(), seq!['\n']) =~= Seq::<char>::empty());
        assert(spec_trim(d) =~= Seq::<char>::empty());
    } else {
        assert(d.last() != '\n');
        lemma_find_char_props(d, 0, '\n');
        let e = find_char_from(d, 0, '\n');
        if e < d.len() {
            assert(d[e] == '\n');
            assert(false);
        }
        assert(spec_lines_inner(d) == seq![d]);
        assert(spec_split_lines(d) == seq![d]);
        assert(seq![d].map_values(|l: Seq<char>| spec_trim(l)) =~= seq![spec_trim(d)]);
        assert(spec_join(seq![spec_trim(d)], seq!['\n']) == spec_trim(d));
        lemma_trim_idempotent(d);
    }
}

/// Applying the note normalizer twice yields the same output as applying
/// it once, for any note that holds no line break. (With a break in play
/// idempotence can fail: in `"abc \ndef"` the space before the break
/// keeps the first pass from joining the two words, the pass itself trims
/// that space away, and a second pass then joins them.)
pub proof fn law_note_normalizer_idempotent_without_breaks(s: Seq<char>)
    requires
        char_free(s, '\n'),
    ensures
        spec_simplify(spec_simplify(s)) == spec_simplify(s),
{
    let ss: Seq<char> = seq![' ', ' '];
    let sp: Seq<char> = seq![' ', '.'];
    let dot: Seq<char> = seq!['.'];
    let l1 = spec_expand_ligatures(s);
    lemma_lig_char_free(s, '\n');
    lemma_lig_clean(s);
    lemma_heal_identity(l1);
    let c1 = spec_collapse_spaces(l1);
    lemma_collapse_char_free(l1, '\n');
    lemma_collapse_char_free(l1, 'ﬃ');
    lemma_collapse_char_free(l1, 'ﬂ');
    lemma_collapse_char_free(l1, 'ﬁ');
    lemma_collapse_char_free(l1, 'ﬀ');
    lemma_collapse_result_free(l1);
    let d1 = spec_replace(c1, sp, dot);
    lemma_replace_char_free(c1, sp, dot, '\n');
    lemma_replace_char_free(c1, sp, dot, 'ﬃ');
    lemma_replace_char_free(c1, sp, dot, 'ﬂ');
    lemma_replace_char_free(c1, sp, dot, 'ﬁ');
    lemma_replace_char_free(c1, sp, dot, 'ﬀ');
    lemma_dot_pass_free(c1);
    lemma_tidy_single_line(d1);
    let out = spec_trim(d1);
    assert(spec_simplify(s) == out);
    lemma_trim_char_free(d1, '\n');
    lemma_trim_char_free(d1, 'ﬃ');
    lemma_trim_char_free(d1, 'ﬂ');
    lemma_trim_char_free(d1, 'ﬁ');
    lemma_trim_char_free(d1, 'ﬀ');
    lemma_trim_pattern_free(d1, ss);
    lemma_trim_pattern_free(d1, sp);
    lemma_lig_identity(out);
    lemma_heal_identity(out);
    lemma_collapse_identity(out);
    lemma_pattern_free_find(out, sp);
    assert(spec_replace(out, sp, dot) == out);
    lemma_tidy_single_line(out);
    lemma_trim_idempotent(d1);
    assert(spec_simplify(out) == spec_trim(out));
    assert(spec_trim(out) == out);
}

// --- the tag extractor on tag-only prefixes ---

/// A line the scanner accepts as tag-only: striking every known name out
/// of it leaves only whitespace.
pub open spec fn tag_only_line(line: Seq<char>, names: Seq<Seq<char>>) -> bool {
    spec_trim(crate::interpret::spec_line_scan(line, names).0).len() == 0
}

/// The names matched in the first `n` lines, in scanning order.
pub open spec fn prefix_matches(note: Seq<Seq<char>>, names: Seq<Seq<char>>, n: int) -> Seq<
    Seq<char>,
>
    decreases n,
{
    if n <= 0 || note.len() == 0 {
        Seq::empty()
    } else {
        crate::interpret::spec_line_scan(note[0], names).1 + prefix_matches(
            note.drop_first(),
            names,
            n - 1,
        )
    }
}

proof fn lemma_collect_exact(note: Seq<Seq<char>>, names: Seq<Seq<char>>, n: int)
    requires
        0 <= n <= note.len(),
        forall|i: int| 0 <= i < n ==> tag_only_line(#[trigger] note[i], names),
        n < note.len() ==> !tag_only_line(note[n], names),
    ensures
        crate::interpret::spec_collect_tag_lines(note, names).0 == n,
        crate::interpret::spec_collect_tag_lines(note, names).1 == prefix_matches(note, names, n),
    decreases note.len(),
{
    if note.len() == 0 {
    } else if n == 0 {
        assert(!tag_only_line(note[0], names));
    } else {
        assert(tag_only_line(note[0], names));
        let rest = note.drop_first();
        assert forall|i: int| 0 <= i < n - 1 implies tag_only_line(#[trigger] rest[i], names) by {
            assert(rest[i] == note[i + 1]);
        }
        if n - 1 < rest.len() {
            assert(rest[n - 1] == note[n]);
        }
        lemma_collect_exact(rest, names, n - 1);
    }
}

proof fn lemma_seq_contains_push(s: Seq<Seq<char>>, x: Seq<char>, y: Seq<char>)
    ensures
        s.push(x).contains(y) <==> (s.contains(y) || y == x),
{
    if s.push(x).contains(y) {
        let i = choose|i: int| 0 <= i < s.push(x).len() && s.push(x)[i] == y;
        if i < s.len() {
            assert(s[i] == y);
        }
    }
    if s.contains(y) {
        let i = choose|i: int| 0 <= i < s.len() && s[i] == y;
        assert(s.push(x)[i] == y);
    }
    if y == x {
        assert(s.push(x)[s.len() as int] == y);
    }
}

proof fn lemma_seq_contains_drop_last(s: Seq<Seq<char>>, y: Seq<char>)
    requires
        s.len() > 0,
    ensures
        s.contains(y) <==> (s.drop_last().contains(y) || y == s.last()),
{
    if s.contains(y) {
        let i = choose|i: int| 0 <= i < s.len() && s[i] == y;
        if i < s.len() - 1 {
            assert(s.drop_last()[i] == y);
        }
    }
    if s.drop_last().contains(y) {
        let i = choose|i: int| 0 <= i < s.drop_last().len() && s.drop_last()[i] == y;
        assert(s[i] == y);
    }
}

proof fn lemma_lex_insert_contains(r: Seq<Seq<char>>, x: Seq<char>, y: Seq<char>)
    ensures
        crate::text::lex_insert(r, x).contains(y) <==> (r.contains(y) || y == x),
    decreases r.len(),
{
    if r.len() > 0 && !crate::text::lex_le(r.last(), x) {
        lemma_lex_insert_contains(r.drop_last(), x, y);
        lemma_seq_contains_push(crate::text::lex_insert(r.drop_last(), x), r.last(), y);
        lemma_seq_contains_drop_last(r, y);
    } else {
        lemma_seq_contains_push(r, x, y);
    }
}

proof fn lemma_lex_sort_contains(s: Seq<Seq<char>>, y: Seq<char>)
    ensures
        crate::text::lex_sort(s).contains(y) <==> s.contains(y),
    decreases s.len(),
{
    if s.len() > 0 {
        lemma_lex_sort_contains(s.drop_last(), y);
        lemma_lex_insert_contains(crate::text::lex_sort(s.drop_last()), s.last(), y);
        lemma_seq_contains_drop_last(s, y);
    }
}

proof fn lemma_dedup_contains(s: Seq<Seq<char>>, y: Seq<char>)
    ensures
        crate::text::spec_dedup(s).contains(y) <==> s.contains(y),
    decreases s.len(),
{
    if s.len() > 1 {
        lemma_dedup_contains(s.drop_last(), y);
        lemma_seq_contains_drop_last(s, y);
        if s.last() == s[s.len() - 2] {
            if y == s.last() {
                assert(s.drop_last()[s.len() - 2] == s[s.len() - 2]);
                assert(s.drop_last().contains(y));
            }
        } else {
            lemma_seq_contains_push(crate::text::spec_dedup(s.drop_last()), s.last(), y);
        }
    }
}

/// On a note whose first `n` lines the scanner accepts as tag-only and
/// whose next line it does not, and with no parser-supplied candidates,
/// the tag extractor removes exactly those `n` lines, hands the rest of
/// the note back untouched, and reports exactly the set of names matched
/// in the removed lines.
///
/// The acceptance condition is the scanner's own: striking the known
/// names out longest-first leaves whitespace. A line that merely reads as
/// a whitespace-separated arrangement of known names need not qualify
/// when one name overlaps the seam of others.
pub proof fn law_tag_only_prefix_round_trip(
    e: crate::parse::SpecRawEntry,
    all_names: Seq<Seq<char>>,
    n: int,
)
    requires
        e.tags.len() == 0,
        0 <= n <= e.note.len(),
        forall|i: int|
            0 <= i < n ==> tag_only_line(
                #[trigger] e.note[i],
                crate::text::len_desc_sort(all_names),
            ),
        n < e.note.len() ==> !tag_only_line(e.note[n], crate::text::len_desc_sort(all_names)),
    ensures
        ({
            let ex = crate::interpret::spec_extract_tags(e, all_names);
            let matched = prefix_matches(e.note, crate::text::len_desc_sort(all_names), n);
            ex.0 == spec_join(e.note.skip(n), seq!['\n']) && (forall|y: Seq<char>|
                ex.1.contains(y) <==> matched.contains(y))
        }),
{
    let sorted = crate::text::len_desc_sort(all_names);
    lemma_collect_exact(e.note, sorted, n);
    let matched = prefix_matches(e.note, sorted, n);
    assert(e.tags =~= Seq::<Seq<char>>::empty());
    assert(crate::interpret::spec_decompose(e.tags, all_names, sorted)
        =~= Seq::<Seq<char>>::empty());
    assert(matched + Seq::<Seq<char>>::empty() =~= matched);
    assert forall|y: Seq<char>|
        crate::interpret::spec_extract_tags(e, all_names).1.contains(y) <==> matched.contains(
            y,
        ) by {
        lemma_lex_sort_contains(matched, y);
        lemma_dedup_contains(crate::text::lex_sort(matched), y);
    }
}

// --- single-name tag lines ---

/// Every character of the text is whitespace.
pub open spec fn white_seq(s: Seq<char>) -> bool {
    forall|i: int| 0 <= i < s.len() ==> white_char(s[i])
}

/// No character of the text is whitespace.
pub open spec fn nonwhite_seq(s: Seq<char>) -> bool {
    forall|i: int| 0 <= i < s.len() ==> !white_char(s[i])
}

/// Every name is nonempty and free of whitespace.
pub open spec fn names_ok(names: Seq<Seq<char>>) -> bool {
    forall|k: int|
        0 <= k < names.len() ==> (#[trigger] names[k]).len() > 0 && nonwhite_seq(names[k])
}

/// Names listed longest first.
pub open spec fn len_sorted(names: Seq<Seq<char>>) -> bool {
    forall|a: int, b: int|
        0 <= a <= b < names.len() ==> (#[trigger] names[a]).len() >= (#[trigger] names[b]).len()
}

proof fn lemma_len_desc_insert_sorted(r: Seq<Seq<char>>, x: Seq<char>)
    requires
        len_sorted(r),
    ensures
        len_sorted(crate::text::len_desc_insert(r, x)),
        forall|y: Seq<char>|
            crate::text::len_desc_insert(r, x).contains(y) <==> (r.contains(y) || y == x),
    decreases r.len(),
{
    let out = crate::text::len_desc_insert(r, x);
    if r.len() > 0 && !crate::text::len_desc_le(r.last(), x) {
        assert forall|a: int, b: int|
            0 <= a <= b < r.drop_last().len() implies (#[trigger] r.drop_last()[a]).len() >= (
        #[trigger] r.drop_last()[b]).len() by {
            assert(r.drop_last()[a] == r[a] && r.drop_last()[b] == r[b]);
        }
        lemma_len_desc_insert_sorted(r.drop_last(), x);
        let inner = crate::text::len_desc_insert(r.drop_last(), x);
        assert(out == inner.push(r.last()));
        assert forall|a: int, b: int|
            0 <= a <= b < out.len() implies (#[trigger] out[a]).len() >= (#[trigger] out[b]).len()
        by {
            if b < inner.len() {
                assert(out[a] == inner[a] && out[b] == inner[b]);
            } else {
                assert(out[b] == r.last());
                if a < inner.len() {
                    assert(out[a] == inner[a]);
                    assert(inner.contains(inner[a])) by {
                        assert(inner[a] == inner[a]);
                    }
                    if inner[a] == x {
                        assert(x.len() > r.last().len());
                    } else {
                        assert(r.drop_last().contains(inner[a]));
                        let w = choose|w: int|
                            0 <= w < r.drop_last().len() && r.drop_last()[w] == inner[a];
                        assert(r[w] == inner[a]);
                        assert(r[w].len() >= r[r.len() - 1].len());
                    }
                }
            }
        }
        assert forall|y: Seq<char>| out.contains(y) <==> (r.contains(y) || y == x) by {
            lemma_seq_contains_push(inner, r.last(), y);
            lemma_seq_contains_drop_last(r, y);
        }
    } else {
        assert(out == r.push(x));
        assert forall|a: int, b: int|
            0 <= a <= b < out.len() implies (#[trigger] out[a]).len() >= (#[trigger] out[b]).len()
        by {
            if b < r.len() {
                assert(out[a] == r[a] && out[b] == r[b]);
            } else {
                assert(out[b] == x);
                if a < r.len() {
                    assert(out[a] == r[a]);
                    assert(r[a].len() >= r[r.len() - 1].len());
                }
            }
        }
        assert forall|y: Seq<char>| out.contains(y) <==> (r.contains(y) || y == x) by {
            lemma_seq_contains_push(r, x, y);
        }
    }
}

proof fn lemma_len_desc_sort_props(s: Seq<Seq<char>>)
    ensures
        len_sorted(crate::text::len_desc_sort(s)),
        forall|y: Seq<char>| crate::text::len_desc_sort(s).contains(y) <==> s.contains(y),
    decreases s.len(),
{
    if s.len() > 0 {
        lemma_len_desc_sort_props(s.drop_last());
        lemma_len_desc_insert_sorted(crate::text::len_desc_sort(s.drop_last()), s.last());
        assert forall|y: Seq<char>|
            crate::text::len_desc_sort(s).contains(y) <==> s.contains(y) by {
            lemma_seq_contains_drop_last(s, y);
        }
    }
}

/// An occurrence of a whitespace-free name in `w1 + m + w2` lies inside
/// the `m` block.
proof fn lemma_occurrence_in_block(w1: Seq<char>, m: Seq<char>, w2: Seq<char>, n: Seq<char>, j: int)
    requires
        white_seq(w1),
        white_seq(w2),
        n.len() > 0,
        nonwhite_seq(n),
        starts_with_at(w1 + m + w2, n, j),
    ensures
        w1.len() <= j,
        j + n.len() <= w1.len() + m.len(),
        n.len() == m.len() ==> j == w1.len() && n == m,
{
    let line = w1 + m + w2;
    assert forall|k: int| 0 <= k < n.len() implies line[j + k] == n[k] by {
        assert(line.subrange(j, j + n.len() as int)[k] == line[j + k]);
    }
    assert(line[j] == n[0] && !white_char(n[0]));
    if j < w1.len() {
        assert(line[j] == w1[j]);
        assert(false);
    }
    assert(line[j + n.len() - 1] == n[n.len() - 1] && !white_char(n[n.len() - 1]));
    if j + n.len() > w1.len() + m.len() {
        assert(line[j + n.len() - 1] == w2[j + n.len() - 1 - w1.len() - m.len()]);
        assert(false);
    }
    if n.len() == m.len() {
        assert(j == w1.len());
        assert forall|k: int| 0 <= k < n.len() implies n[k] == m[k] by {
            assert(line[j + k] == m[k]);
        }
        assert(n =~= m);
    }
}

/// A whitespace-free nonempty name does not occur in all-white text.
proof fn lemma_no_occurrence_in_white(w: Seq<char>, n: Seq<char>)
    requires
        white_seq(w),
        n.len() > 0,
        nonwhite_seq(n),
    ensures
        spec_find(w, n, 0) is None,
{
    lemma_find_props(w, n, 0);
    match spec_find(w, n, 0) {
        None => {},
        Some(j) => {
            assert(w.subrange(j, j + n.len() as int)[0] == w[j]);
            assert(w[j] == n[0]);
            assert(false);
        },
    }
}

/// Scanning all-white text strikes nothing and finds nothing.
proof fn lemma_scan_all_white(w: Seq<char>, names: Seq<Seq<char>>)
    requires
        white_seq(w),
        names_ok(names),
    ensures
        crate::interpret::spec_line_scan(w, names) == (w, Seq::<Seq<char>>::empty()),
    decreases names.len(),
{
    if names.len() > 0 {
        lemma_no_occurrence_in_white(w, names[0]);
        assert forall|k: int|
            0 <= k < names.drop_first().len() implies (#[trigger] names.drop_first()[k]).len() > 0
            && nonwhite_seq(names.drop_first()[k]) by {
            assert(names.drop_first()[k] == names[k + 1]);
        }
        lemma_scan_all_white(w, names.drop_first());
    }
}

/// Scanning a line that holds exactly one known name surrounded by
/// whitespace strikes exactly that name and leaves the whitespace.
proof fn lemma_scan_single_name(
    w1: Seq<char>,
    m: Seq<char>,
    w2: Seq<char>,
    names: Seq<Seq<char>>,
)
    requires
        white_seq(w1),
        white_seq(w2),
        m.len() > 0,
        nonwhite_seq(m),
        names_ok(names),
        len_sorted(names),
        names.contains(m),
    ensures
        crate::interpret::spec_line_scan(w1 + m + w2, names) == (w1 + w2, seq![m]),
    decreases names.len(),
{
    let line = w1 + m + w2;
    let mi = choose|mi: int| 0 <= mi < names.len() && names[mi] == m;
    let nm = names[0];
    let rest = names.drop_first();
    assert forall|k: int|
        0 <= k < rest.len() implies (#[trigger] rest[k]).len() > 0 && nonwhite_seq(rest[k]) by {
        assert(rest[k] == names[k + 1]);
    }
    assert forall|a: int, b: int|
        0 <= a <= b < rest.len() implies (#[trigger] rest[a]).len() >= (#[trigger] rest[b]).len()
    by {
        assert(rest[a] == names[a + 1] && rest[b] == names[b + 1]);
    }
    if nm == m {
        assert(line.subrange(w1.len() as int, (w1.len() + m.len()) as int) =~= m);
        assert(starts_with_at(line, m, w1.len() as int));
        lemma_find_props(line, m, 0);
        match spec_find(line, m, 0) {
            None => {
                assert(false);
            },
            Some(i) => {
                lemma_occurrence_in_block(w1, m, w2, m, i);
                assert(i == w1.len());
                let tail = line.subrange(i + m.len(), line.len() as int);
                assert(tail =~= w2);
                lemma_no_occurrence_in_white(w2, m);
                assert(spec_replace(w2, m, Seq::<char>::empty()) == w2);
                assert(spec_replace(line, m, Seq::<char>::empty()) =~= w1 + w2);
                lemma_scan_all_white(w1 + w2, rest);
                assert(seq![m] + Seq::<Seq<char>>::empty() =~= seq![m]);
            },
        }
    } else {
        assert(mi >= 1);
        assert(names[0].len() >= names[mi].len());
        lemma_find_props(line, nm, 0);
        match spec_find(line, nm, 0) {
            None => {},
            Some(j) => {
                lemma_occurrence_in_block(w1, m, w2, nm, j);
                assert(nm.len() <= m.len());
                assert(nm.len() == m.len());
                assert(nm == m);
                assert(false);
            },
        }
        assert(rest[mi - 1] == names[mi]);
        assert(rest.contains(m));
        lemma_scan_single_name(w1, m, w2, rest);
    }
}

/// The names matched on the first `n` lines, when the scanner reports one
/// name per line.
proof fn lemma_prefix_matches_single(
    note: Seq<Seq<char>>,
    names: Seq<Seq<char>>,
    line_names: Seq<Seq<char>>,
    n: int,
)
    requires
        0 <= n <= note.len(),
        n <= line_names.len(),
        forall|i: int|
            0 <= i < n ==> crate::interpret::spec_line_scan(#[trigger] note[i], names).1 == seq![
                line_names[i],
            ],
    ensures
        prefix_matches(note, names, n) == line_names.take(n),
    decreases n,
{
    if n == 0 || note.len() == 0 {
        assert(prefix_matches(note, names, n) =~= line_names.take(n));
    } else {
        let rest = note.drop_first();
        let rest_names = line_names.drop_first();
        assert forall|i: int|
            0 <= i < n - 1 implies crate::interpret::spec_line_scan(#[trigger] rest[i], names).1
            == seq![rest_names[i]] by {
            assert(rest[i] == note[i + 1] && rest_names[i] == line_names[i + 1]);
        }
        lemma_prefix_matches_single(rest, names, rest_names, n - 1);
        assert(prefix_matches(note, names, n) =~= seq![line_names[0]] + rest_names.take(n - 1));
        assert(seq![line_names[0]] + rest_names.take(n - 1) =~= line_names.take(n));
    }
}

proof fn lemma_trim_white_empty(w: Seq<char>)
    requires
        white_seq(w),
    ensures
        spec_trim(w).len() == 0,
    decreases w.len(),
{
    if w.len() > 0 {
        assert(white_char(w[0]));
        lemma_trim_white_empty(w.drop_first());
        assert(spec_trim_start(w) == spec_trim_start(w.drop_first()));
    } else {
        assert(spec_trim_start(w) == w);
        assert(spec_trim_end(w) == w);
    }
}

/// On a note whose first `n` lines each hold exactly one known tag name
/// surrounded by whitespace, whose next line the scanner rejects, and
/// with no parser-supplied candidates and every known name nonempty and
/// whitespace-free, the extractor removes exactly those `n` lines, hands
/// the rest of the note back untouched, and reports exactly the set of
/// names those lines held. (With several names on one line the round trip
/// can fail: with known names `c`, `d` and `c d`, the line `c d c d`
/// reads as the arrangement `c d` then `c` then `d`, yet striking the
/// longest name removes both of its occurrences and `c` and `d` go
/// unreported.)
pub proof fn law_single_name_lines_round_trip(
    e: crate::parse::SpecRawEntry,
    all_names: Seq<Seq<char>>,
    line_names: Seq<Seq<char>>,
    n: int,
)
    requires
        e.tags.len() == 0,
        0 <= n <= e.note.len(),
        n <= line_names.len(),
        names_ok(all_names),
        forall|i: int| 0 <= i < n ==> all_names.contains(#[trigger] line_names[i]),
        forall|i: int|
            0 <= i < n ==> exists|w1: Seq<char>, w2: Seq<char>|
                white_seq(w1) && white_seq(w2) && #[trigger] e.note[i] == w1 + line_names[i] + w2,
        n < e.note.len() ==> !tag_only_line(e.note[n], crate::text::len_desc_sort(all_names)),
    ensures
        ({
            let ex = crate::interpret::spec_extract_tags(e, all_names);
            ex.0 == spec_join(e.note.skip(n), seq!['\n']) && (forall|y: Seq<char>|
                ex.1.contains(y) <==> line_names.take(n).contains(y))
        }),
{
    let sorted = crate::text::len_desc_sort(all_names);
    lemma_len_desc_sort_props(all_names);
    assert forall|k: int|
        0 <= k < sorted.len() implies (#[trigger] sorted[k]).len() > 0 && nonwhite_seq(
        sorted[k]) by {
        assert(sorted[k] == sorted[k]);
        assert(sorted.contains(sorted[k]));
        assert(all_names.contains(sorted[k]));
        let w = choose|w: int| 0 <= w < all_names.len() && all_names[w] == sorted[k];
        assert(all_names[w].len() > 0 && nonwhite_seq(all_names[w]));
    }
    assert forall|i: int| 0 <= i < n implies tag_only_line(#[trigger] e.note[i], sorted)
        && crate::interpret::spec_line_scan(e.note[i], sorted).1 == seq![line_names[i]] by {
        let (w1, w2) = choose|w1: Seq<char>, w2: Seq<char>|
            white_seq(w1) && white_seq(w2) && e.note[i] == w1 + line_names[i] + w2;
        let m = line_names[i];
        let w = choose|w: int| 0 <= w < all_names.len() && all_names[w] == m;
        assert(m.len() > 0 && nonwhite_seq(m));
        assert(sorted.contains(m));
        lemma_scan_single_name(w1, m, w2, sorted);
        assert(white_seq(w1 + w2));
        lemma_trim_white_empty(w1 + w2);
    }
    lemma_collect_exact(e.note, sorted, n);
    lemma_prefix_matches_single(e.note, sorted, line_names, n);
    assert(e.tags =~= Seq::<Seq<char>>::empty());
    assert(crate::interpret::spec_decompose(e.tags, all_names, sorted)
        =~= Seq::<Seq<char>>::empty());
    let matched = prefix_matches(e.note, sorted, n);
    assert(matched + Seq::<Seq<char>>::empty() =~= matched);
    assert forall|y: Seq<char>|
        crate::interpret::spec_extract_tags(e, all_names).1.contains(y) <==> line_names.take(
            n,
        ).contains(y) by {
        lemma_lex_sort_contains(matched, y);
        lemma_dedup_contains(crate::text::lex_sort(matched), y);
    }
}

proof fn lemma_boundary_fold(
    stats: Seq<(Seq<char>, u32)>,
    entries: Seq<crate::parse::SpecRawEntry>,
    j: int,
    best: int,
    b: int,
)
    requires
        0 <= j <= entries.len(),
        spec_boundary(stats, entries, j, best) == Ok::<int, Seq<char>>(b),
    ensures
        best <= b,
        forall|k: int|
            j <= k < entries.len() ==> (#[trigger] spec_stat_pos(
                stats,
                lower_of(entries[k].mood),
                0,
            )) is Some && spec_stat_pos(stats, lower_of(entries[k].mood), 0)->0 <= b,
        b == best || exists|k: int|
            j <= k < entries.len() && spec_stat_pos(stats, lower_of(entries[k].mood), 0) == Some(
                b,
            ),
    decreases entries.len() - j,
{
    if j < entries.len() {
        match spec_stat_pos(stats, lower_of(entries[j].mood), 0) {
            None => {
                assert(false);
            },
            Some(p) => {
                let best2 = if p > best {
                    p
                } else {
                    best
                };
                lemma_boundary_fold(stats, entries, j + 1, best2, b);
                if b != best {
                    if b == best2 && best2 == p {
                        assert(spec_stat_pos(stats, lower_of(entries[j].mood), 0) == Some(b));
                    }
                }
            },
        }
    }
}

/// The moods/tags boundary is exactly the greatest case-insensitive
/// statistics position of any used mood: every used mood sits at or
/// before it, and some used mood sits exactly on it. How many tag-only
/// statistics entries are interleaved before it makes no difference,
/// since only the used moods' positions enter the fold.
pub proof fn law_boundary_is_max_used_mood_position(
    stats: Seq<(Seq<char>, u32)>,
    entries: Seq<crate::parse::SpecRawEntry>,
    b: int,
)
    requires
        entries.len() > 0,
        spec_boundary(stats, entries, 0, -1) == Ok::<int, Seq<char>>(b),
    ensures
        forall|k: int|
            0 <= k < entries.len() ==> (#[trigger] spec_stat_pos(
                stats,
                lower_of(entries[k].mood),
                0,
            )) is Some && spec_stat_pos(stats, lower_of(entries[k].mood), 0)->0 <= b,
        exists|k: int|
            0 <= k < entries.len() && spec_stat_pos(stats, lower_of(entries[k].mood), 0) == Some(
                b,
            ),
{
    lemma_boundary_fold(stats, entries, 0, -1, b);
    crate::interpret::lemma_boundary_bounds(stats, entries, 0, -1);
    assert(b >= 0);
}

proof fn lemma_mood_cat_names(moods: Seq<crate::models::SpecMoodDetail>, prev: Option<u64>)
    ensures
        crate::interpret::spec_mood_cat(moods, prev).len() == moods.len(),
        forall|i: int|
            0 <= i < moods.len() ==> crate::interpret::spec_mood_cat(moods, prev)[i].name == (
            #[trigger] moods[i]).name,
    decreases moods.len(),
{
    if moods.len() > 0 {
        let m = moods[0];
        let found = crate::daylio::spec_predefined_mood_idx(lower_of(m.name));
        let p2 = if found is Some {
            found
        } else {
            prev
        };
        lemma_mood_cat_names(moods.drop_first(), p2);
        let r = crate::interpret::spec_mood_cat(moods, prev);
        assert forall|i: int| 0 <= i < moods.len() implies r[i].name == (
        #[trigger] moods[i]).name by {
            if i > 0 {
                assert(r[i] == crate::interpret::spec_mood_cat(moods.drop_first(), p2)[i - 1]);
                assert(moods.drop_first()[i - 1] == moods[i]);
            }
        }
    }
}

proof fn lemma_stat_pos_match(stats: Seq<(Seq<char>, u32)>, low: Seq<char>, i: int)
    requires
        0 <= i,
    ensures
        match spec_stat_pos(stats, low, i) {
            Some(p) => lower_of(stats[p].0) == low,
            None => true,
        },
    decreases stats.len() - i,
{
    if i < stats.len() && lower_of(stats[i].0) != low {
        lemma_stat_pos_match(stats, low, i + 1);
    }
}

proof fn lemma_mood_find_some(
    moods: Seq<crate::models::SpecMoodDetail>,
    low: Seq<char>,
    i: int,
    w: int,
)
    requires
        0 <= i <= w < moods.len(),
        lower_of(moods[w].name) == low,
    ensures
        crate::interpret::spec_mood_find(moods, low, i) is Some,
    decreases moods.len() - i,
{
    if lower_of(moods[i].name) != low {
        lemma_mood_find_some(moods, low, i + 1, w);
    }
}

/// Referential integrity of the partition: once the moods/tags boundary
/// is found, every used mood label resolves to a mood detail in the
/// moods-prefix, so finalizing entries can only fail on a clock line,
/// never on a dangling mood reference.
pub proof fn law_used_moods_resolve(
    stats: Seq<(Seq<char>, u32)>,
    entries: Seq<crate::parse::SpecRawEntry>,
    b: int,
)
    requires
        entries.len() > 0,
        spec_boundary(stats, entries, 0, -1) == Ok::<int, Seq<char>>(b),
    ensures
        forall|k: int|
            0 <= k < entries.len() ==> crate::interpret::spec_mood_find(
                crate::interpret::spec_mood_cat(crate::interpret::spec_mood_prefix(stats, b), None),
                lower_of((#[trigger] entries[k]).mood),
                0,
            ) is Some,
{
    law_boundary_is_max_used_mood_position(stats, entries, b);
    crate::interpret::lemma_boundary_bounds(stats, entries, 0, -1);
    let prefix = crate::interpret::spec_mood_prefix(stats, b);
    let moods0 = crate::interpret::spec_mood_cat(prefix, None);
    lemma_mood_cat_names(prefix, None);
    assert forall|k: int|
        0 <= k < entries.len() implies crate::interpret::spec_mood_find(
        moods0,
        lower_of((#[trigger] entries[k]).mood),
        0,
    ) is Some by {
        let low = lower_of(entries[k].mood);
        lemma_stat_pos_match(stats, low, 0);
        crate::interpret::lemma_stat_pos_bounds(stats, low, 0);
        let p = spec_stat_pos(stats, low, 0)->0;
        assert(0 <= p <= b);
        assert(prefix[p].name == stats.subrange(0, b + 1)[p].0);
        assert(stats.subrange(0, b + 1)[p] == stats[p]);
        assert(moods0[p].name == stats[p].0);
        assert(lower_of(moods0[p].name) == low);
        lemma_mood_find_some(moods0, low, 0, p);
    }
}

/// A mood label that matches nothing in the statistics list is fatal: the
/// boundary fold answers an error, never a default, so `interpret`
/// returns a failure for such a document.
pub proof fn law_missing_mood_is_fatal(
    stats: Seq<(Seq<char>, u32)>,
    entries: Seq<crate::parse::SpecRawEntry>,
    j: int,
    best: int,
)
    requires
        0 <= j < entries.len(),
        spec_stat_pos(stats, lower_of(entries[j].mood), 0) is None,
        best >= -1,
    ensures
        spec_boundary(stats, entries, 0, best) is Err,
{
    lemma_missing_mood_from(stats, entries, 0, j, best);
}

proof fn lemma_missing_mood_from(
    stats: Seq<(Seq<char>, u32)>,
    entries: Seq<crate::parse::SpecRawEntry>,
    i: int,
    j: int,
    best: int,
)
    requires
        0 <= i <= j < entries.len(),
        spec_stat_pos(stats, lower_of(entries[j].mood), 0) is None,
    ensures
        spec_boundary(stats, entries, i, best) is Err,
    decreases j - i,
{
    if i < j {
        match spec_stat_pos(stats, lower_of(entries[i].mood), 0) {
            None => {},
            Some(p) => {
                lemma_missing_mood_from(
                    stats,
                    entries,
                    i + 1,
                    j,
                    if p > best {
                        p
                    } else {
                        best
                    },
                );
            },
        }
    }
}

} // verus!
