//! Deciding which lines are reported and how each reported line reads.

use crate::args::{texts, Config};
use crate::highlight::{colorize_hits, highlighted_as, spans_fit};
use crate::matcher::{find_matches_in_line, lemma_match_spans_facts, lemma_spans_on_char_boundaries, match_spans};
use vstd::prelude::*;
use vstd::string::*;
use vstd::utf8::*;

verus! {

/// Whether a line with `n_spans` matches is reported.
pub open spec fn emits(n_spans: nat, invert_match: bool) -> bool {
    if invert_match {
        n_spans == 0
    } else {
        n_spans > 0
    }
}

/// Reports a line when it matched, or, when inverted, when it did not.
pub fn should_emit(spans: &Vec<(usize, usize)>, invert_match: bool) -> (r: bool)
    ensures
        r == emits(spans@.len(), invert_match),
{
    if invert_match {
        spans.len() == 0
    } else {
        spans.len() != 0
    }
}

/// Inverting the match turns every decision around.
pub proof fn lemma_invert_flips_decision(spans: Seq<(usize, usize)>)
    ensures
        emits(spans.len(), true) == !emits(spans.len(), false),
{
}

pub open spec fn digit_char(d: nat) -> char {
    seq!['0', '1', '2', '3', '4', '5', '6', '7', '8', '9'][d as int]
}

/// The decimal digits of `n`, most significant first, with no leading zero.
pub open spec fn decimal_of(n: nat) -> Seq<char>
    decreases n,
{
    if n < 10 {
        seq![digit_char(n)]
    } else {
        decimal_of(n / 10) + seq![digit_char(n % 10)]
    }
}

/// The one-character text of a decimal digit.
fn digit_text(d: usize) -> (r: &'static str)
    requires
        d < 10,
    ensures
        r@ == seq![digit_char(d as nat)],
{
    if d == 0 {
        proof {
            reveal_strlit("0");
        }
        "0"
    } else if d == 1 {
        proof {
            reveal_strlit("1");
        }
        "1"
    } else if d == 2 {
        proof {
            reveal_strlit("2");
        }
        "2"
    } else if d == 3 {
        proof {
            reveal_strlit("3");
        }
        "3"
    } else if d == 4 {
        proof {
            reveal_strlit("4");
        }
        "4"
    } else if d == 5 {
        proof {
            reveal_strlit("5");
        }
        "5"
    } else if d == 6 {
        proof {
            reveal_strlit("6");
        }
        "6"
    } else if d == 7 {
        proof {
            reveal_strlit("7");
        }
        "7"
    } else if d == 8 {
        proof {
            reveal_strlit("8");
        }
        "8"
    } else {
        proof {
            reveal_strlit("9");
        }
        "9"
    }
}

/// Appends the decimal digits of `n` to `out`.
fn append_decimal(out: &mut String, n: usize)
    ensures
        final(out)@ == old(out)@ + decimal_of(n as nat),
    decreases n,
{
    let ghost before = out@;
    if n >= 10 {
        append_decimal(out, n / 10);
    }
    let digit = digit_text(n % 10);
    out.append(digit);
    proof {
        if n >= 10 {
            assert(out@ =~= before + (decimal_of((n / 10) as nat) + seq![digit_char((n % 10) as nat)]));
        } else {
            assert(out@ =~= before + seq![digit_char(n as nat)]);
        }
    }
}

pub open spec fn separator() -> Seq<char> {
    seq![':', ' ']
}

/// The reported line: `path: number: text`, `path: text`, `number: text` or
/// `text`, as the two switches say.
pub open spec fn assembled(
    path: Seq<char>,
    number: nat,
    print_filenames: bool,
    line_numbers: bool,
    text: Seq<char>,
) -> Seq<char> {
    if print_filenames && line_numbers {
        path + separator() + decimal_of(number) + separator() + text
    } else if print_filenames {
        path + separator() + text
    } else if line_numbers {
        decimal_of(number) + separator() + text
    } else {
        text
    }
}

/// Puts the file name and the line number, as asked for, in front of the text.
pub fn assemble_output(
    text: &str,
    line_number: usize,
    file_path: &str,
    print_filenames: bool,
    line_numbers: bool,
) -> (r: String)
    ensures
        r@ == assembled(file_path@, line_number as nat, print_filenames, line_numbers, text@),
{
    proof {
        reveal_strlit(": ");
        assert(": "@ =~= separator());
    }
    let mut out = String::new();
    if print_filenames {
        out.append(file_path);
        out.append(": ");
    }
    if line_numbers {
        append_decimal(&mut out, line_number);
        out.append(": ");
    }
    out.append(text);
    proof {
        if print_filenames && line_numbers {
            assert(out@ =~= file_path@ + separator() + decimal_of(line_number as nat) + separator()
                + text@);
        } else if print_filenames {
            assert(out@ =~= file_path@ + separator() + text@);
        } else if line_numbers {
            assert(out@ =~= decimal_of(line_number as nat) + separator() + text@);
        } else {
            assert(out@ =~= text@);
        }
    }
    out
}

/// The text shown for a line: highlighted when colours are asked for and
/// something matched, the line itself otherwise.
pub open spec fn shown_as(line: Seq<char>, spans: Seq<(usize, usize)>, colored_output: bool, t: Seq<char>) -> bool {
    if colored_output && spans.len() > 0 {
        highlighted_as(encode_utf8(line), spans, t)
    } else {
        t == line
    }
}

/// `out` is how the line with these spans is reported.
pub open spec fn formatted_as(
    line: Seq<char>,
    spans: Seq<(usize, usize)>,
    number: nat,
    path: Seq<char>,
    config: Config,
    out: Seq<char>,
) -> bool {
    exists|t: Seq<char>|
        shown_as(line, spans, config.colored_output, t) && out == assembled(
            path,
            number,
            config.print_filenames,
            config.line_numbers,
            t,
        )
}

/// Formats one reported line.
pub fn format_line(
    line: &str,
    spans: &Vec<(usize, usize)>,
    line_number: usize,
    file_path: &str,
    config: &Config,
) -> (r: String)
    requires
        spans_fit(line.spec_bytes(), spans@),
    ensures
        formatted_as(line@, spans@, line_number as nat, file_path@, *config, r@),
{
    if config.colored_output && spans.len() != 0 {
        let text = colorize_hits(line, spans.as_slice());
        let r = assemble_output(
            text.as_str(),
            line_number,
            file_path,
            config.print_filenames,
            config.line_numbers,
        );
        assert(shown_as(line@, spans@, config.colored_output, text@));
        r
    } else {
        let r = assemble_output(line, line_number, file_path, config.print_filenames, config.line_numbers);
        assert(shown_as(line@, spans@, config.colored_output, line@));
        r
    }
}

/// The spans of the configured pattern in a line.
pub open spec fn spans_in(line: Seq<char>, config: Config) -> Seq<(usize, usize)> {
    match_spans(encode_utf8(line), encode_utf8(config.pattern@), config.case_insensitive)
}

/// Whether the line is reported under this configuration.
pub open spec fn reported(line: Seq<char>, config: Config) -> bool {
    emits(spans_in(line, config).len(), config.invert_match)
}

/// Decides one line and, when it is reported, formats it.
pub fn scan_line(line: &str, line_number: usize, file_path: &str, config: &Config) -> (r: Option<String>)
    requires
        line.spec_bytes().len() <= usize::MAX,
    ensures
        r is Some <==> reported(line@, *config),
        r matches Some(s) ==> formatted_as(
            line@,
            spans_in(line@, *config),
            line_number as nat,
            file_path@,
            *config,
            s@,
        ),
{
    let matches_found = find_matches_in_line(line, config.pattern.as_str(), config.case_insensitive);
    if should_emit(&matches_found, config.invert_match) {
        proof {
            broadcast use group_utf8_lib;

            let b = line.spec_bytes();
            lemma_match_spans_facts(b, encode_utf8(config.pattern@), config.case_insensitive);
            lemma_spans_on_char_boundaries(line@, config.pattern@, config.case_insensitive);
        }
        Some(format_line(line, &matches_found, line_number, file_path, config))
    } else {
        None
    }
}

/// `out` is what a file with these lines reports, in order, with lines
/// numbered from one.
pub open spec fn scanned_as(lines: Seq<Seq<char>>, path: Seq<char>, config: Config, out: Seq<Seq<char>>) -> bool
    decreases lines.len(),
{
    if lines.len() == 0 {
        out.len() == 0
    } else {
        let line = lines.last();
        if reported(line, config) {
            &&& out.len() > 0
            &&& scanned_as(lines.drop_last(), path, config, out.drop_last())
            &&& formatted_as(line, spans_in(line, config), lines.len(), path, config, out.last())
        } else {
            scanned_as(lines.drop_last(), path, config, out)
        }
    }
}

/// Scans the lines of one file and returns the reported lines in order.
pub fn search_lines(lines: &Vec<String>, file_path: &str, config: &Config) -> (r: Vec<String>)
    requires
        lines@.len() < usize::MAX,
        forall|k: int| 0 <= k < lines@.len() ==> encode_utf8((#[trigger] lines@[k])@).len() <= usize::MAX,
    ensures
        scanned_as(texts(lines@), file_path@, *config, texts(r@)),
{
    let ghost all = texts(lines@);
    let mut out: Vec<String> = Vec::new();
    let mut i: usize = 0;
    proof {
        assert(all.subrange(0, 0) =~= Seq::<Seq<char>>::empty());
        assert(texts(out@) =~= Seq::<Seq<char>>::empty());
    }
    while i < lines.len()
        invariant
            all == texts(lines@),
            i <= all.len(),
            lines@.len() < usize::MAX,
            forall|k: int| 0 <= k < lines@.len() ==> encode_utf8((#[trigger] lines@[k])@).len() <= usize::MAX,
            scanned_as(all.subrange(0, i as int), file_path@, *config, texts(out@)),
        decreases all.len() - i,
    {
        let line = lines[i].as_str();
        let ghost prev = texts(out@);
        proof {
            assert(all.subrange(0, i + 1).drop_last() =~= all.subrange(0, i as int));
            assert(all.subrange(0, i + 1).last() == line@);
        }
        match scan_line(line, i + 1, file_path, config) {
            Some(text) => {
                out.push(text);
                proof {
                    assert(texts(out@).drop_last() =~= prev);
                }
            },
            None => {},
        }
        i = i + 1;
    }
    proof {
        assert(all.subrange(0, all.len() as int) =~= all);
    }
    out
}

} // verus!
