use litgrep::args::{parse_arguments, ArgumentError, Config};
use litgrep::highlight::{colorize_hits, join_painted};
use litgrep::matcher::find_matches_in_line;
use litgrep::output::{assemble_output, format_line, scan_line, search_lines, should_emit};
use litgrep::text::{is_junk_file, same_text};

fn config(pattern: &str) -> Config {
    Config {
        pattern: pattern.to_string(),
        files: vec!["a.txt".to_string()],
        case_insensitive: false,
        line_numbers: false,
        invert_match: false,
        recursive_directory: false,
        print_filenames: false,
        colored_output: false,
    }
}

fn strings(items: &[&str]) -> Vec<String> {
    items.iter().map(|s| s.to_string()).collect()
}

fn strip_escapes(s: &str) -> String {
    s.replace("\x1b[31m", "").replace("\x1b[0m", "")
}

#[test]
fn ignore_case_finds_hello() {
    assert_eq!(find_matches_in_line("Hello World", "hello", true), vec![(0, 5)]);
}

#[test]
fn case_sensitive_misses_hello() {
    assert_eq!(find_matches_in_line("Hello World", "hello", false), vec![]);
}

#[test]
fn matches_do_not_overlap() {
    assert_eq!(find_matches_in_line("aaaa", "aa", false), vec![(0, 2), (2, 4)]);
}

#[test]
fn empty_pattern_matches_nothing() {
    assert!(find_matches_in_line("abc", "", false).is_empty());
    assert!(find_matches_in_line("abc", "", true).is_empty());
    assert!(find_matches_in_line("", "", true).is_empty());
}

#[test]
fn whole_line_is_one_span() {
    assert_eq!(find_matches_in_line("needle", "needle", false), vec![(0, 6)]);
    assert_eq!(find_matches_in_line("NeEdle", "nEedle", true), vec![(0, 6)]);
}

#[test]
fn pattern_longer_than_line() {
    assert!(find_matches_in_line("ab", "abc", false).is_empty());
}

#[test]
fn spans_increase_and_are_disjoint() {
    let spans = find_matches_in_line("abcabcxabc", "abc", false);
    assert_eq!(spans, vec![(0, 3), (3, 6), (7, 10)]);
    for w in spans.windows(2) {
        assert!(w[0].1 <= w[1].0);
        assert!(w[0].0 < w[1].0);
    }
}

#[test]
fn offsets_are_bytes() {
    assert_eq!(find_matches_in_line("héllo héllo", "llo", false), vec![(3, 6), (10, 13)]);
    assert_eq!(find_matches_in_line("ÉCOLE", "école", true), vec![]);
    assert_eq!(find_matches_in_line("xÉx", "É", true), vec![(1, 3)]);
}

#[test]
fn invert_flips_decision() {
    let some = vec![(0usize, 1usize)];
    let none: Vec<(usize, usize)> = vec![];
    assert!(should_emit(&some, false));
    assert!(!should_emit(&some, true));
    assert!(!should_emit(&none, false));
    assert!(should_emit(&none, true));
}

#[test]
fn filename_and_number_prefix() {
    assert_eq!(assemble_output("hit", 3, "a.txt", true, true), "a.txt: 3: hit");
}

#[test]
fn other_prefixes() {
    assert_eq!(assemble_output("hit", 3, "a.txt", true, false), "a.txt: hit");
    assert_eq!(assemble_output("hit", 120, "a.txt", false, true), "120: hit");
    assert_eq!(assemble_output("hit", 3, "a.txt", false, false), "hit");
}

#[test]
fn format_line_without_colour() {
    let mut c = config("hi");
    c.print_filenames = true;
    c.line_numbers = true;
    let spans = find_matches_in_line("hit", "hi", false);
    assert_eq!(format_line("hit", &spans, 3, "a.txt", &c), "a.txt: 3: hit");
}

#[test]
fn format_line_with_colour() {
    colored::control::set_override(true);
    let mut c = config("hi");
    c.colored_output = true;
    c.line_numbers = true;
    let spans = find_matches_in_line("hit", "hi", false);
    assert_eq!(format_line("hit", &spans, 7, "a.txt", &c), "7: \x1b[31mhi\x1b[0mt");
}

#[test]
fn highlight_marks_each_span() {
    colored::control::set_override(true);
    let out = colorize_hits("foo bar foo", &[(0, 3), (8, 11)]);
    assert_eq!(out, "\x1b[31mfoo\x1b[0m bar \x1b[31mfoo\x1b[0m");
}

#[test]
fn highlight_without_spans_is_identity() {
    colored::control::set_override(true);
    assert_eq!(colorize_hits("plain line", &[]), "plain line");
}

#[test]
fn highlight_strip_restores_line() {
    colored::control::set_override(true);
    for (line, pat) in [("foo bar foo", "foo"), ("aaaa", "aa"), ("xéx é", "é"), ("abc", "abc")] {
        let spans = find_matches_in_line(line, pat, false);
        assert!(!spans.is_empty());
        let out = colorize_hits(line, &spans);
        assert_ne!(out, line);
        assert_eq!(strip_escapes(&out), line);
    }
}

#[test]
fn scans_file_lines() {
    let lines = strings(&["foo bar", "baz", "foobar"]);
    let out = search_lines(&lines, "f.txt", &config("foo"));
    assert_eq!(out, strings(&["foo bar", "foobar"]));
}

#[test]
fn scans_file_lines_inverted() {
    let lines = strings(&["foo bar", "baz", "foobar"]);
    let mut c = config("foo");
    c.invert_match = true;
    assert_eq!(search_lines(&lines, "f.txt", &c), strings(&["baz"]));
}

#[test]
fn scan_numbers_lines_from_one() {
    let lines = strings(&["foo bar", "baz", "foobar"]);
    let mut c = config("foo");
    c.line_numbers = true;
    c.print_filenames = true;
    assert_eq!(
        search_lines(&lines, "f.txt", &c),
        strings(&["f.txt: 1: foo bar", "f.txt: 3: foobar"])
    );
}

#[test]
fn scan_of_empty_file() {
    let lines: Vec<String> = vec![];
    assert!(search_lines(&lines, "f.txt", &config("foo")).is_empty());
}

#[test]
fn scan_line_decides() {
    let c = config("foo");
    assert_eq!(scan_line("a foo", 2, "f.txt", &c), Some("a foo".to_string()));
    assert_eq!(scan_line("nothing", 2, "f.txt", &c), None);
}

#[test]
fn parse_full_command_line() {
    let args = strings(&["-i", "pat", "-n", "a.txt", "-v", "dir", "-r", "-f", "-c"]);
    let c = parse_arguments(&args).unwrap();
    assert_eq!(c.pattern, "pat");
    assert_eq!(c.files, strings(&["a.txt", "dir"]));
    assert!(c.case_insensitive && c.line_numbers && c.invert_match);
    assert!(c.recursive_directory && c.print_filenames && c.colored_output);
}

#[test]
fn parse_defaults() {
    let c = parse_arguments(&strings(&["pat", "a.txt"])).unwrap();
    assert_eq!(c.pattern, "pat");
    assert_eq!(c.files, strings(&["a.txt"]));
    assert!(!c.case_insensitive && !c.line_numbers && !c.invert_match);
    assert!(!c.recursive_directory && !c.print_filenames && !c.colored_output);
}

#[test]
fn parse_help() {
    assert_eq!(parse_arguments(&strings(&["pat", "a.txt", "-h"])).err(), Some(ArgumentError::HelpRequested));
    assert_eq!(parse_arguments(&strings(&["--help"])).err(), Some(ArgumentError::HelpRequested));
}

#[test]
fn parse_missing_pattern() {
    assert_eq!(parse_arguments(&strings(&["-i", "-n"])).err(), Some(ArgumentError::MissingPattern));
    assert_eq!(parse_arguments(&strings(&[])).err(), Some(ArgumentError::MissingPattern));
}

#[test]
fn parse_missing_files() {
    assert_eq!(parse_arguments(&strings(&["pat", "-c"])).err(), Some(ArgumentError::MissingFiles));
}

#[test]
fn junk_files() {
    assert!(is_junk_file(Some("._notes.txt")));
    assert!(is_junk_file(Some(".DS_Store")));
    assert!(!is_junk_file(Some(".DS_Store2")));
    assert!(!is_junk_file(Some("notes.txt")));
    assert!(is_junk_file(Some("._")));
    assert!(!is_junk_file(Some(".")));
    assert!(!is_junk_file(None));
}

#[test]
fn text_comparison() {
    assert!(same_text("-h", "-h"));
    assert!(!same_text("-h", "-hh"));
    assert!(!same_text("é", "e"));
}

#[test]
fn parse_empty_pattern() {
    assert_eq!(parse_arguments(&strings(&["", "a.txt"])).err(), Some(ArgumentError::MissingPattern));
    assert_eq!(parse_arguments(&strings(&["-n", "", "a.txt", "b.txt"])).err(), Some(ArgumentError::MissingPattern));
    assert_eq!(parse_arguments(&strings(&[""])).err(), Some(ArgumentError::MissingPattern));
}

#[test]
fn parse_empty_path_is_a_path() {
    let c = parse_arguments(&strings(&["pat", ""])).unwrap();
    assert_eq!(c.files, strings(&[""]));
}

#[test]
fn join_painted_places_renderings() {
    let painted = strings(&["<foo>", "[foo]"]);
    assert_eq!(join_painted("foo bar foo!", &[(0, 3), (8, 11)], &painted), "<foo> bar [foo]!");
}

#[test]
fn join_painted_keeps_unmarked_text() {
    let painted = strings(&["é"]);
    assert_eq!(join_painted("xéx", &[(1, 3)], &painted), "xéx");
    let none: Vec<String> = vec![];
    assert_eq!(join_painted("plain", &[], &none), "plain");
}

#[test]
fn line_numbers_in_decimal() {
    assert_eq!(assemble_output("t", 0, "p", false, true), "0: t");
    assert_eq!(assemble_output("t", 9, "p", false, true), "9: t");
    assert_eq!(assemble_output("t", 10, "p", false, true), "10: t");
    assert_eq!(assemble_output("t", 40507, "p", true, true), "p: 40507: t");
}
