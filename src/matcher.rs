//! Left-to-right, non-overlapping search for a literal pattern in a line.

use vstd::prelude::*;
use vstd::string::*;
use vstd::utf8::*;

verus! {

/// ASCII lower-casing of one byte; every other byte is left alone.
pub open spec fn fold_byte(b: u8) -> u8 {
    if 65 <= b && b <= 90 {
        (b + 32) as u8
    } else {
        b
    }
}

/// ASCII lower-casing of a byte sequence, byte for byte.
pub open spec fn fold_bytes(s: Seq<u8>) -> Seq<u8> {
    s.map_values(|b: u8| fold_byte(b))
}

/// The bytes that are actually compared: folded when the search ignores case.
pub open spec fn search_bytes(s: Seq<u8>, ignore_case: bool) -> Seq<u8> {
    if ignore_case {
        fold_bytes(s)
    } else {
        s
    }
}

/// Whether `p` occurs in `t` at position `i`.
pub open spec fn occurs_at(t: Seq<u8>, p: Seq<u8>, i: int) -> bool {
    0 <= i && i + p.len() <= t.len() && t.subrange(i, i + p.len()) == p
}

/// The spans found by scanning `t` from position `pos` onwards: on a hit the
/// scan jumps past the whole occurrence, otherwise it moves one byte on.
pub open spec fn spans_from(t: Seq<u8>, p: Seq<u8>, pos: int) -> Seq<(usize, usize)>
    decreases t.len() - pos,
{
    if p.len() == 0 || pos < 0 || pos + p.len() > t.len() {
        seq![]
    } else if occurs_at(t, p, pos) {
        seq![(pos as usize, (pos + p.len()) as usize)] + spans_from(t, p, pos + p.len())
    } else {
        spans_from(t, p, pos + 1)
    }
}

/// The spans of the pattern in the line, by byte offsets.
pub open spec fn match_spans(line: Seq<u8>, pattern: Seq<u8>, ignore_case: bool) -> Seq<(usize, usize)> {
    spans_from(search_bytes(line, ignore_case), search_bytes(pattern, ignore_case), 0)
}

/// Spans lie inside a text of length `len`, in increasing order, and do not overlap.
pub open spec fn spans_ordered(spans: Seq<(usize, usize)>, len: int) -> bool {
    &&& forall|k: int| 0 <= k < spans.len() ==> #[trigger] spans[k].0 <= spans[k].1 <= len
    &&& forall|j: int, k: int| 0 <= j < k < spans.len() ==> #[trigger] spans[j].1 <= #[trigger] spans[k].0
}

/// ASCII lower-casing of one byte.
fn fold_byte_exec(b: u8) -> (r: u8)
    ensures
        r == fold_byte(b),
{
    if 65 <= b && b <= 90 {
        b + 32
    } else {
        b
    }
}

fn folded_copy(s: &[u8], ignore_case: bool) -> (r: Vec<u8>)
    ensures
        r@ == search_bytes(s@, ignore_case),
{
    let mut r: Vec<u8> = Vec::new();
    let mut i: usize = 0;
    while i < s.len()
        invariant
            i <= s@.len(),
            r@.len() == i,
            forall|k: int| 0 <= k < i ==> r@[k] == search_bytes(s@, ignore_case)[k],
        decreases s@.len() - i,
    {
        let b = s[i];
        if ignore_case {
            r.push(fold_byte_exec(b));
        } else {
            r.push(b);
        }
        i = i + 1;
    }
    assert(r@ =~= search_bytes(s@, ignore_case));
    r
}

fn occurs_at_exec(t: &Vec<u8>, p: &Vec<u8>, pos: usize) -> (r: bool)
    requires
        pos + p@.len() <= t@.len(),
    ensures
        r == occurs_at(t@, p@, pos as int),
{
    let m = p.len();
    let n = t.len();
    let mut k: usize = 0;
    while k < m
        invariant
            k <= m,
            n == t@.len(),
            m == p@.len(),
            pos + m <= t@.len(),
            forall|j: int| 0 <= j < k ==> t@[pos + j] == p@[j],
        decreases m - k,
    {
        if t[pos + k] != p[k] {
            assert(t@.subrange(pos as int, pos + m)[k as int] != p@[k as int]);
            return false;
        }
        k = k + 1;
    }
    assert(t@.subrange(pos as int, pos + m) =~= p@);
    true
}

/// Finds every occurrence of `search_pattern` in `line_text`, scanning left
/// to right and never re-entering a matched region. Offsets are bytes.
pub fn find_matches_in_line(line_text: &str, search_pattern: &str, ignore_case: bool) -> (r: Vec<(usize, usize)>)
    ensures
        r@ == match_spans(line_text.spec_bytes(), search_pattern.spec_bytes(), ignore_case),
{
    let mut match_positions: Vec<(usize, usize)> = Vec::new();
    let text = folded_copy(line_text.as_bytes(), ignore_case);
    let pat = folded_copy(search_pattern.as_bytes(), ignore_case);
    let ghost t = text@;
    let ghost p = pat@;
    if pat.len() == 0 || pat.len() > text.len() {
        return match_positions;
    }
    let m = pat.len();
    let mut pos: usize = 0;
    while pos <= text.len() - m
        invariant
            m == p.len() > 0,
            t == text@,
            p == pat@,
            m <= t.len(),
            pos <= t.len(),
            match_positions@ + spans_from(t, p, pos as int) == spans_from(t, p, 0),
        decreases t.len() - pos,
    {
        if occurs_at_exec(&text, &pat, pos) {
            let ghost before = match_positions@;
            match_positions.push((pos, pos + m));
            assert(match_positions@ + spans_from(t, p, pos + m) =~= before + spans_from(t, p, pos as int));
            pos = pos + m;
        } else {
            pos = pos + 1;
        }
    }
    assert(match_positions@ =~= match_positions@ + spans_from(t, p, pos as int));
    match_positions
}

proof fn lemma_spans_from_facts(t: Seq<u8>, p: Seq<u8>, pos: int)
    requires
        p.len() > 0,
        0 <= pos,
        t.len() <= usize::MAX,
    ensures
        forall|k: int|
            0 <= k < spans_from(t, p, pos).len() ==> {
                let s = #[trigger] spans_from(t, p, pos)[k];
                &&& pos <= s.0
                &&& s.1 == s.0 + p.len()
                &&& s.1 <= t.len()
                &&& occurs_at(t, p, s.0 as int)
            },
        forall|j: int, k: int|
            0 <= j < k < spans_from(t, p, pos).len() ==> #[trigger] spans_from(t, p, pos)[j].1
                <= #[trigger] spans_from(t, p, pos)[k].0,
    decreases t.len() - pos,
{
    if pos + p.len() > t.len() {
        assert(spans_from(t, p, pos).len() == 0);
    } else if occurs_at(t, p, pos) {
        lemma_spans_from_facts(t, p, pos + p.len());
        let rest = spans_from(t, p, pos + p.len());
        let s = spans_from(t, p, pos);
        assert(s == seq![(pos as usize, (pos + p.len()) as usize)] + rest);
        assert(s[0].0 == pos && s[0].1 == pos + p.len());
        assert forall|k: int| 1 <= k < s.len() implies s[k] == rest[k - 1] by {}
        assert forall|j: int, k: int| 0 <= j < k < s.len() implies #[trigger] s[j].1
            <= #[trigger] s[k].0 by {
            if j > 0 {
                assert(rest[j - 1].1 <= rest[k - 1].0);
            } else {
                assert(pos + p.len() <= rest[k - 1].0);
            }
        }
    } else {
        lemma_spans_from_facts(t, p, pos + 1);
        assert(spans_from(t, p, pos) == spans_from(t, p, pos + 1));
    }
}

/// The spans found in a line lie inside it, each as long as the pattern,
/// each an occurrence of the (possibly folded) pattern, and they never overlap.
pub proof fn lemma_match_spans_facts(line: Seq<u8>, pattern: Seq<u8>, ignore_case: bool)
    requires
        line.len() <= usize::MAX,
    ensures
        ({
            let s = match_spans(line, pattern, ignore_case);
            let t = search_bytes(line, ignore_case);
            let p = search_bytes(pattern, ignore_case);
            &&& t.len() == line.len()
            &&& p.len() == pattern.len()
            &&& forall|k: int|
                0 <= k < s.len() ==> {
                    &&& (#[trigger] s[k]).1 == s[k].0 + pattern.len()
                    &&& s[k].1 <= line.len()
                    &&& occurs_at(t, p, s[k].0 as int)
                }
            &&& forall|j: int, k: int| 0 <= j < k < s.len() ==> #[trigger] s[j].1 <= #[trigger] s[k].0
        }),
{
    let t = search_bytes(line, ignore_case);
    let p = search_bytes(pattern, ignore_case);
    if p.len() > 0 {
        lemma_spans_from_facts(t, p, 0);
    }
}

/// The spans are in range, pairwise disjoint, and strictly increasing in start.
pub proof fn lemma_spans_ordered(line: Seq<u8>, pattern: Seq<u8>, ignore_case: bool)
    requires
        line.len() <= usize::MAX,
        pattern.len() > 0,
    ensures
        spans_ordered(match_spans(line, pattern, ignore_case), line.len() as int),
        forall|j: int, k: int|
            0 <= j < k < match_spans(line, pattern, ignore_case).len() ==> #[trigger] match_spans(
                line,
                pattern,
                ignore_case,
            )[j].0 < #[trigger] match_spans(line, pattern, ignore_case)[k].0,
{
    lemma_match_spans_facts(line, pattern, ignore_case);
}

/// An empty pattern never matches, whatever the line and the case mode.
pub proof fn lemma_empty_pattern_no_spans(line: Seq<u8>, ignore_case: bool)
    ensures
        match_spans(line, Seq::<u8>::empty(), ignore_case).len() == 0,
{
    assert(search_bytes(Seq::<u8>::empty(), ignore_case).len() == 0);
}

/// A non-empty pattern equal to the whole line matches exactly once, over all of it.
pub proof fn lemma_whole_line_one_span(line: Seq<u8>, ignore_case: bool)
    requires
        0 < line.len() <= usize::MAX,
    ensures
        match_spans(line, line, ignore_case) == seq![(0usize, line.len() as usize)],
{
    let t = search_bytes(line, ignore_case);
    assert(t.len() == line.len());
    assert(t.subrange(0, t.len() as int) =~= t);
    assert(occurs_at(t, t, 0));
    assert(spans_from(t, t, t.len() as int) == Seq::<(usize, usize)>::empty());
    assert(spans_from(t, t, 0) =~= seq![(0usize, line.len() as usize)]);
}

proof fn lemma_fold_same_kind(a: u8, b: u8)
    requires
        fold_byte(a) == fold_byte(b),
    ensures
        (a < 128) == (b < 128),
        a >= 128 ==> a == b,
{
}

proof fn lemma_fold_equal_suffix_valid(s: Seq<u8>, p: Seq<u8>)
    requires
        valid_utf8(s),
        valid_utf8(p),
        p.len() <= s.len(),
        forall|k: int| 0 <= k < p.len() ==> fold_byte(#[trigger] s[k]) == fold_byte(p[k]),
    ensures
        valid_utf8(s.subrange(p.len() as int, s.len() as int)),
    decreases p.len(),
{
    if p.len() == 0 {
        assert(s.subrange(0, s.len() as int) =~= s);
    } else {
        assert(fold_byte(s[0]) == fold_byte(p[0]));
        lemma_fold_same_kind(s[0], p[0]);
        let w = length_of_first_scalar(p);
        assert(length_of_first_scalar(s) == w);
        let ps = pop_first_scalar(p);
        let ss = pop_first_scalar(s);
        assert forall|k: int| 0 <= k < ps.len() implies fold_byte(#[trigger] ss[k]) == fold_byte(
            ps[k],
        ) by {
            assert(ss[k] == s[k + w]);
            assert(ps[k] == p[k + w]);
        }
        lemma_fold_equal_suffix_valid(ss, ps);
        assert(ss.subrange(ps.len() as int, ss.len() as int) =~= s.subrange(
            p.len() as int,
            s.len() as int,
        ));
    }
}

/// When the line and the pattern are the UTF-8 text of strings, every span
/// starts and ends on a character boundary of the line.
pub proof fn lemma_spans_on_char_boundaries(line: Seq<char>, pattern: Seq<char>, ignore_case: bool)
    requires
        encode_utf8(line).len() <= usize::MAX,
    ensures
        forall|k: int|
            0 <= k < match_spans(encode_utf8(line), encode_utf8(pattern), ignore_case).len()
                ==> is_char_boundary(
                encode_utf8(line),
                (#[trigger] match_spans(encode_utf8(line), encode_utf8(pattern), ignore_case)[k]).0 as int,
            ) && is_char_boundary(
                encode_utf8(line),
                match_spans(encode_utf8(line), encode_utf8(pattern), ignore_case)[k].1 as int,
            ),
{
    broadcast use group_utf8_lib;

    let l = encode_utf8(line);
    let p = encode_utf8(pattern);
    let s = match_spans(l, p, ignore_case);
    lemma_match_spans_facts(l, p, ignore_case);
    assert forall|k: int| 0 <= k < s.len() implies is_char_boundary(
        l,
        (#[trigger] s[k]).0 as int,
    ) && is_char_boundary(l, s[k].1 as int) by {
        let i = s[k].0 as int;
        let m = p.len() as int;
        let t = search_bytes(l, ignore_case);
        let q = search_bytes(p, ignore_case);
        assert(occurs_at(t, q, i));
        assert forall|j: int| 0 <= j < m implies fold_byte(#[trigger] l[i + j]) == fold_byte(
            p[j],
        ) by {
            assert(t.subrange(i, i + m)[j] == q[j]);
        }
        assert(m > 0);
        is_char_boundary_start_end_of_seq(p);
        is_char_boundary_iff_not_is_continuation_byte(p, 0);
        assert(fold_byte(l[i + 0]) == fold_byte(p[0]));
        lemma_fold_same_kind(l[i], p[0]);
        is_char_boundary_iff_not_is_continuation_byte(l, i);
        assert(is_char_boundary(l, i));
        valid_utf8_split(l, i);
        let rest = l.subrange(i, l.len() as int);
        assert forall|j: int| 0 <= j < m implies fold_byte(#[trigger] rest[j]) == fold_byte(
            p[j],
        ) by {
            assert(rest[j] == l[i + j]);
        }
        lemma_fold_equal_suffix_valid(rest, p);
        let after = rest.subrange(m, rest.len() as int);
        assert(after =~= l.subrange(i + m, l.len() as int));
        if i + m < l.len() {
            assert(after[0] == l[i + m]);
            is_char_boundary_iff_not_is_continuation_byte(l, i + m);
        } else {
            is_char_boundary_start_end_of_seq(l);
        }
    }
}

} // verus!
