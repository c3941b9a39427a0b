//! Marks the matched parts of a line for display.

use colored::Colorize;
use vstd::prelude::*;
use vstd::string::*;
use vstd::utf8::*;

verus! {

broadcast use group_utf8_lib;

/// The characters whose UTF-8 bytes are `b[a..c]`.
pub open spec fn text_of(b: Seq<u8>, a: int, c: int) -> Seq<char> {
    decode_utf8(b.subrange(a, c))
}

/// Spans that are ordered, disjoint, inside the text, and cut it only at
/// character boundaries.
pub open spec fn spans_fit(b: Seq<u8>, spans: Seq<(usize, usize)>) -> bool {
    &&& forall|k: int|
        0 <= k < spans.len() ==> {
            &&& #[trigger] spans[k].0 <= spans[k].1 <= b.len()
            &&& is_char_boundary(b, spans[k].0 as int)
            &&& is_char_boundary(b, spans[k].1 as int)
        }
    &&& forall|j: int, k: int| 0 <= j < k < spans.len() ==> #[trigger] spans[j].1 <= #[trigger] spans[k].0
}

/// Where the unmatched text before span `k` begins.
pub open spec fn gap_start(spans: Seq<(usize, usize)>, k: int) -> int {
    if k <= 0 {
        0
    } else {
        spans[k - 1].1 as int
    }
}

/// The output for the first `k` spans: each gap followed by the rendering
/// that `painted` gives of the span after it.
pub open spec fn render_upto(b: Seq<u8>, spans: Seq<(usize, usize)>, painted: Seq<Seq<char>>, k: int) -> Seq<char>
    decreases k,
{
    if k <= 0 {
        seq![]
    } else {
        render_upto(b, spans, painted, k - 1) + text_of(b, gap_start(spans, k - 1), spans[k - 1].0 as int)
            + painted[k - 1]
    }
}

/// The whole output: every gap and rendered span, then the text after the last span.
pub open spec fn render(b: Seq<u8>, spans: Seq<(usize, usize)>, painted: Seq<Seq<char>>) -> Seq<char> {
    render_upto(b, spans, painted, spans.len() as int) + text_of(b, gap_start(spans, spans.len() as int), b.len() as int)
}

/// The matched text of each span, without any marking.
pub open spec fn plain_segments(b: Seq<u8>, spans: Seq<(usize, usize)>) -> Seq<Seq<char>> {
    Seq::new(spans.len(), |k: int| text_of(b, spans[k].0 as int, spans[k].1 as int))
}

/// The escape sequence that turns the foreground red.
pub open spec fn red_on() -> Seq<char> {
    seq!['\u{1b}', '[', '3', '1', 'm']
}

/// The escape sequence that ends any styling.
pub open spec fn style_reset() -> Seq<char> {
    seq!['\u{1b}', '[', '0', 'm']
}

pub open spec fn holds_reset(s: Seq<char>) -> bool {
    exists|i: int| 0 <= i && i + 4 <= s.len() && #[trigger] s.subrange(i, i + 4) == style_reset()
}

/// What red emphasis may make of a segment: with colours off the segment
/// itself, with colours on the segment between the red and reset escapes.
pub open spec fn red_form(seg: Seq<char>, out: Seq<char>) -> bool {
    !holds_reset(seg) ==> (out == seg || out == red_on() + seg + style_reset())
}

/// `out` is the line with each span replaced by a red rendering of it.
pub open spec fn highlighted_as(b: Seq<u8>, spans: Seq<(usize, usize)>, out: Seq<char>) -> bool {
    exists|painted: Seq<Seq<char>>|
        {
            &&& painted.len() == spans.len()
            &&& forall|k: int|
                0 <= k < spans.len() ==> red_form(
                    text_of(b, spans[k].0 as int, spans[k].1 as int),
                    #[trigger] painted[k],
                )
            &&& out == render(b, spans, painted)
        }
}

/// Relies on colored's `Colorize::red` and the `Display` of `ColoredString`:
/// with colouring off the text comes back unchanged; with it on, a text that
/// holds no reset sequence comes back between `ESC[31m` and `ESC[0m`.
#[verifier::external_body]
fn paint_red(s: &str) -> (r: String)
    ensures
        red_form(s@, r@),
{
    s.red().to_string()
}

proof fn lemma_boundary_local(b: Seq<u8>, j: int)
    requires
        valid_utf8(b),
        0 <= j <= b.len(),
    ensures
        is_char_boundary(b, j) <==> (j == b.len() || !is_continuation_byte(b[j])),
{
    is_char_boundary_start_end_of_seq(b);
    if j < b.len() {
        is_char_boundary_iff_not_is_continuation_byte(b, j);
    }
}

/// Cutting at a boundary inside `b[a..]` is a boundary of that suffix.
proof fn lemma_boundary_in_suffix(b: Seq<u8>, a: int, j: int)
    requires
        valid_utf8(b),
        0 <= a <= j <= b.len(),
        is_char_boundary(b, a),
        is_char_boundary(b, j),
    ensures
        valid_utf8(b.subrange(a, b.len() as int)),
        is_char_boundary(b.subrange(a, b.len() as int), j - a),
{
    valid_utf8_split(b, a);
    let y = b.subrange(a, b.len() as int);
    lemma_boundary_local(b, j);
    lemma_boundary_local(y, j - a);
    if j < b.len() {
        assert(y[j - a] == b[j]);
    }
}

/// Text between boundaries splits at a boundary between them.
proof fn lemma_text_concat(b: Seq<u8>, a: int, m: int, c: int)
    requires
        valid_utf8(b),
        0 <= a <= m <= c <= b.len(),
        is_char_boundary(b, a),
        is_char_boundary(b, m),
        is_char_boundary(b, c),
    ensures
        text_of(b, a, m) + text_of(b, m, c) == text_of(b, a, c),
{
    lemma_boundary_in_suffix(b, a, c);
    let y = b.subrange(a, b.len() as int);
    valid_utf8_split(y, c - a);
    let x = y.subrange(0, c - a);
    assert(x =~= b.subrange(a, c));
    lemma_boundary_local(b, m);
    lemma_boundary_local(x, m - a);
    if m < c {
        assert(x[m - a] == b[m]);
    }
    decode_utf8_split(x, m - a);
    assert(x.subrange(0, m - a) =~= b.subrange(a, m));
    assert(x.subrange(m - a, x.len() as int) =~= b.subrange(m, c));
}

proof fn lemma_render_upto_plain(b: Seq<u8>, spans: Seq<(usize, usize)>, k: int)
    requires
        valid_utf8(b),
        spans_fit(b, spans),
        0 <= k <= spans.len(),
    ensures
        render_upto(b, spans, plain_segments(b, spans), k) == text_of(b, 0, gap_start(spans, k)),
        is_char_boundary(b, gap_start(spans, k)),
        0 <= gap_start(spans, k) <= b.len(),
    decreases k,
{
    is_char_boundary_start_end_of_seq(b);
    if k > 0 {
        lemma_render_upto_plain(b, spans, k - 1);
        let g = gap_start(spans, k - 1);
        let s = spans[k - 1];
        if k - 1 > 0 {
            assert(spans[k - 2].1 <= spans[k - 1].0);
        }
        lemma_text_concat(b, 0, g, s.0 as int);
        lemma_text_concat(b, 0, s.0 as int, s.1 as int);
    } else {
        assert(b.subrange(0, 0) =~= Seq::<u8>::empty());
    }
}

/// Replacing every marked span by its plain text gives back the line exactly.
pub proof fn lemma_strip_markers_restores_line(line: Seq<char>, spans: Seq<(usize, usize)>)
    requires
        spans_fit(encode_utf8(line), spans),
    ensures
        render(encode_utf8(line), spans, plain_segments(encode_utf8(line), spans)) == line,
{
    let b = encode_utf8(line);
    lemma_render_upto_plain(b, spans, spans.len() as int);
    is_char_boundary_start_end_of_seq(b);
    lemma_text_concat(b, 0, gap_start(spans, spans.len() as int), b.len() as int);
    assert(b.subrange(0, b.len() as int) =~= b);
}

/// The text with every red and reset escape sequence taken out.
pub open spec fn strip_markers(s: Seq<char>) -> Seq<char>
    decreases s.len(),
{
    if s.len() == 0 {
        seq![]
    } else if s.len() >= 5 && s.subrange(0, 5) == red_on() {
        strip_markers(s.subrange(5, s.len() as int))
    } else if s.len() >= 4 && s.subrange(0, 4) == style_reset() {
        strip_markers(s.subrange(4, s.len() as int))
    } else {
        seq![s[0]] + strip_markers(s.drop_first())
    }
}

pub open spec fn escape_free(s: Seq<char>) -> bool {
    forall|i: int| 0 <= i < s.len() ==> #[trigger] s[i] != '\u{1b}'
}

proof fn lemma_strip_clean_prefix(x: Seq<char>, y: Seq<char>)
    requires
        escape_free(x),
    ensures
        strip_markers(x + y) == x + strip_markers(y),
    decreases x.len(),
{
    if x.len() > 0 {
        let s = x + y;
        assert(s[0] == x[0]);
        assert(s.len() >= 5 ==> s.subrange(0, 5)[0] != red_on()[0]);
        assert(s.len() >= 4 ==> s.subrange(0, 4)[0] != style_reset()[0]);
        assert(s.drop_first() =~= x.drop_first() + y);
        lemma_strip_clean_prefix(x.drop_first(), y);
        assert(seq![x[0]] + (x.drop_first() + strip_markers(y)) =~= x + strip_markers(y));
    } else {
        assert(x + y =~= y);
    }
}

proof fn lemma_strip_painted(seg: Seq<char>, painted: Seq<char>, y: Seq<char>)
    requires
        escape_free(seg),
        red_form(seg, painted),
    ensures
        strip_markers(painted + y) == seg + strip_markers(y),
{
    assert(!holds_reset(seg)) by {
        if holds_reset(seg) {
            let i = choose|i: int| 0 <= i && i + 4 <= seg.len() && #[trigger] seg.subrange(i, i + 4) == style_reset();
            assert(seg.subrange(i, i + 4)[0] == seg[i]);
        }
    }
    if painted == seg {
        lemma_strip_clean_prefix(seg, y);
    } else {
        let s = painted + y;
        assert(s.subrange(0, 5) =~= red_on());
        let rest = s.subrange(5, s.len() as int);
        assert(rest =~= seg + (style_reset() + y));
        lemma_strip_clean_prefix(seg, style_reset() + y);
        let t = style_reset() + y;
        assert(t.subrange(0, 4) =~= style_reset());
        if t.len() >= 5 {
            assert(t.subrange(0, 5)[2] != red_on()[2]);
        }
        assert(t.subrange(4, t.len() as int) =~= y);
    }
}

proof fn lemma_text_escape_free(b: Seq<u8>, a: int, c: int)
    requires
        valid_utf8(b),
        escape_free(decode_utf8(b)),
        0 <= a <= c <= b.len(),
        is_char_boundary(b, a),
        is_char_boundary(b, c),
    ensures
        escape_free(text_of(b, a, c)),
{
    is_char_boundary_start_end_of_seq(b);
    lemma_text_concat(b, 0, a, c);
    lemma_text_concat(b, 0, c, b.len() as int);
    assert(b.subrange(0, b.len() as int) =~= b);
    let pre = text_of(b, 0, a);
    let mid = text_of(b, a, c);
    let whole = decode_utf8(b);
    assert forall|i: int| 0 <= i < mid.len() implies #[trigger] mid[i] != '\u{1b}' by {
        assert(whole[pre.len() + i] == mid[i]);
    }
}

proof fn lemma_strip_render_upto(
    b: Seq<u8>,
    spans: Seq<(usize, usize)>,
    painted: Seq<Seq<char>>,
    k: int,
    y: Seq<char>,
)
    requires
        valid_utf8(b),
        escape_free(decode_utf8(b)),
        spans_fit(b, spans),
        painted.len() == spans.len(),
        forall|j: int|
            0 <= j < spans.len() ==> red_form(
                text_of(b, spans[j].0 as int, spans[j].1 as int),
                #[trigger] painted[j],
            ),
        0 <= k <= spans.len(),
    ensures
        strip_markers(render_upto(b, spans, painted, k) + y) == text_of(b, 0, gap_start(spans, k))
            + strip_markers(y),
        is_char_boundary(b, gap_start(spans, k)),
        0 <= gap_start(spans, k) <= b.len(),
    decreases k,
{
    is_char_boundary_start_end_of_seq(b);
    if k > 0 {
        let g = gap_start(spans, k - 1);
        let s = spans[k - 1];
        let gap = text_of(b, g, s.0 as int);
        let seg = text_of(b, s.0 as int, s.1 as int);
        let p = painted[k - 1];
        let tail = gap + p + y;
        lemma_strip_render_upto(b, spans, painted, k - 1, tail);
        if k - 1 > 0 {
            assert(spans[k - 2].1 <= spans[k - 1].0);
        }
        assert(render_upto(b, spans, painted, k) + y =~= render_upto(b, spans, painted, k - 1) + tail);
        lemma_text_escape_free(b, g, s.0 as int);
        lemma_text_escape_free(b, s.0 as int, s.1 as int);
        assert(tail =~= gap + (p + y));
        lemma_strip_clean_prefix(gap, p + y);
        lemma_strip_painted(seg, p, y);
        lemma_text_concat(b, 0, g, s.0 as int);
        lemma_text_concat(b, 0, s.0 as int, s.1 as int);
    } else {
        assert(b.subrange(0, 0) =~= Seq::<u8>::empty());
        assert(render_upto(b, spans, painted, 0) + y =~= y);
    }
}

/// Taking the red and reset escapes out of a highlighted line gives back the
/// line exactly, whenever the line itself holds no escape character.
pub proof fn lemma_highlight_strips_to_line(line: Seq<char>, spans: Seq<(usize, usize)>, out: Seq<char>)
    requires
        spans_fit(encode_utf8(line), spans),
        escape_free(line),
        highlighted_as(encode_utf8(line), spans, out),
    ensures
        strip_markers(out) == line,
{
    let b = encode_utf8(line);
    let painted = choose|painted: Seq<Seq<char>>|
        {
            &&& painted.len() == spans.len()
            &&& forall|k: int|
                0 <= k < spans.len() ==> red_form(
                    text_of(b, spans[k].0 as int, spans[k].1 as int),
                    #[trigger] painted[k],
                )
            &&& out == render(b, spans, painted)
        };
    let n = spans.len() as int;
    let g = gap_start(spans, n);
    let rest = text_of(b, g, b.len() as int);
    lemma_strip_render_upto(b, spans, painted, n, rest);
    is_char_boundary_start_end_of_seq(b);
    lemma_text_escape_free(b, g, b.len() as int);
    lemma_strip_clean_prefix(rest, Seq::<char>::empty());
    assert(rest + Seq::<char>::empty() =~= rest);
    assert(strip_markers(Seq::<char>::empty()) == Seq::<char>::empty());
    lemma_text_concat(b, 0, g, b.len() as int);
    assert(b.subrange(0, b.len() as int) =~= b);
    assert(text_of(b, 0, g) + rest + Seq::<char>::empty() =~= text_of(b, 0, g) + rest);
}

pub open spec fn painted_texts(painted: Seq<String>) -> Seq<Seq<char>> {
    painted.map_values(|p: String| p@)
}

/// Joins a line back together with each span replaced by its rendering in
/// `painted`: the unmatched text stays as it is.
pub fn join_painted(line: &str, spans: &[(usize, usize)], painted: &Vec<String>) -> (r: String)
    requires
        spans_fit(line.spec_bytes(), spans@),
        painted@.len() == spans@.len(),
    ensures
        r@ == render(line.spec_bytes(), spans@, painted_texts(painted@)),
{
    let ghost b = line.spec_bytes();
    let ghost ps = painted_texts(painted@);
    proof {
        assert(b.subrange(0, b.len() as int) =~= b);
        is_char_boundary_start_end_of_seq(b);
    }
    let mut result = String::new();
    let mut rest: &str = line;
    let mut last_processed_position: usize = 0;
    let mut i: usize = 0;
    while i < spans.len()
        invariant
            b == line.spec_bytes(),
            ps == painted_texts(painted@),
            spans_fit(b, spans@),
            painted@.len() == spans@.len(),
            i <= spans@.len(),
            last_processed_position == gap_start(spans@, i as int),
            last_processed_position <= b.len(),
            is_char_boundary(b, last_processed_position as int),
            rest.spec_bytes() == b.subrange(last_processed_position as int, b.len() as int),
            result@ == render_upto(b, spans@, ps, i as int),
        decreases spans@.len() - i,
    {
        let (match_start, match_end) = spans[i];
        proof {
            if i > 0 {
                assert(spans@[i - 1].1 <= spans@[i as int].0);
            }
            lemma_boundary_in_suffix(b, last_processed_position as int, match_start as int);
        }
        let (before, tail) = rest.split_at(match_start - last_processed_position);
        proof {
            assert(tail.spec_bytes() =~= b.subrange(match_start as int, b.len() as int));
            assert(before.spec_bytes() =~= b.subrange(last_processed_position as int, match_start as int));
            lemma_boundary_in_suffix(b, match_start as int, match_end as int);
        }
        let (_segment, after) = tail.split_at(match_end - match_start);
        proof {
            assert(after.spec_bytes() =~= b.subrange(match_end as int, b.len() as int));
        }
        result.append(before);
        result.append(painted[i].as_str());
        rest = after;
        last_processed_position = match_end;
        i = i + 1;
    }
    result.append(rest);
    result
}

/// Builds the display form of a line: the unmatched text as it is and each
/// matched span in red.
pub fn colorize_hits(original_line: &str, match_ranges: &[(usize, usize)]) -> (r: String)
    requires
        spans_fit(original_line.spec_bytes(), match_ranges@),
    ensures
        match_ranges@.len() == 0 ==> r@ == original_line@,
        highlighted_as(original_line.spec_bytes(), match_ranges@, r@),
{
    let ghost b = original_line.spec_bytes();
    let ghost spans = match_ranges@;
    proof {
        assert(b.subrange(0, b.len() as int) =~= b);
        is_char_boundary_start_end_of_seq(b);
    }
    if match_ranges.len() == 0 {
        let r = String::from_str(original_line);
        let ghost none = Seq::<Seq<char>>::empty();
        assert(render(b, spans, none) == r@);
        assert(none.len() == spans.len());
        return r;
    }
    let mut painted: Vec<String> = Vec::new();
    let mut i: usize = 0;
    while i < match_ranges.len()
        invariant
            b == original_line.spec_bytes(),
            spans == match_ranges@,
            spans_fit(b, spans),
            i <= spans.len(),
            painted@.len() == i,
            forall|k: int|
                0 <= k < i ==> red_form(
                    text_of(b, spans[k].0 as int, spans[k].1 as int),
                    #[trigger] painted@[k]@,
                ),
        decreases spans.len() - i,
    {
        let (match_start, match_end) = match_ranges[i];
        proof {
            lemma_boundary_in_suffix(b, 0, match_start as int);
            assert(b.subrange(0, b.len() as int) == original_line.spec_bytes());
        }
        let (_before, tail) = original_line.split_at(match_start);
        proof {
            assert(tail.spec_bytes() =~= b.subrange(match_start as int, b.len() as int));
            lemma_boundary_in_suffix(b, match_start as int, match_end as int);
        }
        let (segment, _after) = tail.split_at(match_end - match_start);
        proof {
            assert(segment.spec_bytes() =~= b.subrange(match_start as int, match_end as int));
        }
        painted.push(paint_red(segment));
        i = i + 1;
    }
    let r = join_painted(original_line, match_ranges, &painted);
    proof {
        let ps = painted_texts(painted@);
        assert forall|k: int| 0 <= k < spans.len() implies red_form(
            text_of(b, spans[k].0 as int, spans[k].1 as int),
            #[trigger] ps[k],
        ) by {
            assert(ps[k] == painted@[k]@);
        }
        assert(ps.len() == spans.len());
    }
    r
}

} // verus!
