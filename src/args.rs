//! The command line: options, the pattern, and the paths to search.

use crate::text::same_text;
use vstd::prelude::*;

verus! {

/// What a run searches for and how it reports.
pub struct Config {
    pub pattern: String,
    pub files: Vec<String>,
    pub case_insensitive: bool,
    pub line_numbers: bool,
    pub invert_match: bool,
    pub recursive_directory: bool,
    pub print_filenames: bool,
    pub colored_output: bool,
}

/// Why the command line cannot start a search; each one shows the usage text.
#[derive(Debug, Clone, Copy, PartialEq, Eq, Structural)]
pub enum ArgumentError {
    HelpRequested,
    MissingPattern,
    MissingFiles,
}

pub open spec fn texts(v: Seq<String>) -> Seq<Seq<char>> {
    v.map_values(|s: String| s@)
}

pub open spec fn is_help(a: Seq<char>) -> bool {
    a == seq!['-', 'h'] || a == seq!['-', '-', 'h', 'e', 'l', 'p']
}

pub open spec fn is_option(a: Seq<char>) -> bool {
    &&& a.len() == 2
    &&& a[0] == '-'
    &&& (a[1] == 'i' || a[1] == 'n' || a[1] == 'v' || a[1] == 'r' || a[1] == 'f' || a[1] == 'c')
}

/// The arguments that are neither options nor help requests, in order: the
/// first is the pattern, the rest are paths.
pub open spec fn operands(args: Seq<Seq<char>>) -> Seq<Seq<char>>
    decreases args.len(),
{
    if args.len() == 0 {
        seq![]
    } else if is_option(args.last()) || is_help(args.last()) {
        operands(args.drop_last())
    } else {
        operands(args.drop_last()).push(args.last())
    }
}

pub open spec fn names_option(args: Seq<Seq<char>>, letter: char) -> bool {
    exists|i: int| 0 <= i < args.len() && #[trigger] args[i] == seq!['-', letter]
}

pub open spec fn asks_help(args: Seq<Seq<char>>) -> bool {
    exists|i: int| 0 <= i < args.len() && is_help(#[trigger] args[i])
}

/// Whether the command line names a pattern, which must not be empty.
pub open spec fn has_pattern(args: Seq<Seq<char>>) -> bool {
    operands(args).len() > 0 && operands(args)[0].len() > 0
}

/// The configuration that a well-formed command line describes.
pub open spec fn configured_by(c: Config, args: Seq<Seq<char>>) -> bool {
    &&& c.pattern@.len() > 0
    &&& c.pattern@ == operands(args)[0]
    &&& texts(c.files@) == operands(args).drop_first()
    &&& c.case_insensitive == names_option(args, 'i')
    &&& c.line_numbers == names_option(args, 'n')
    &&& c.invert_match == names_option(args, 'v')
    &&& c.recursive_directory == names_option(args, 'r')
    &&& c.print_filenames == names_option(args, 'f')
    &&& c.colored_output == names_option(args, 'c')
}

proof fn lemma_names_option_push(s: Seq<Seq<char>>, a: Seq<char>, letter: char)
    ensures
        names_option(s.push(a), letter) == (names_option(s, letter) || a == seq!['-', letter]),
{
    let t = s.push(a);
    if names_option(s, letter) {
        let i = choose|i: int| 0 <= i < s.len() && #[trigger] s[i] == seq!['-', letter];
        assert(t[i] == s[i]);
    }
    if a == seq!['-', letter] {
        assert(t[s.len() as int] == a);
    }
    if names_option(t, letter) {
        let i = choose|i: int| 0 <= i < t.len() && #[trigger] t[i] == seq!['-', letter];
        if i < s.len() {
            assert(t[i] == s[i]);
        }
    }
}

proof fn lemma_asks_help_push(s: Seq<Seq<char>>, a: Seq<char>)
    ensures
        asks_help(s.push(a)) == (asks_help(s) || is_help(a)),
{
    let t = s.push(a);
    if asks_help(s) {
        let i = choose|i: int| 0 <= i < s.len() && is_help(#[trigger] s[i]);
        assert(t[i] == s[i]);
    }
    if is_help(a) {
        assert(t[s.len() as int] == a);
    }
    if asks_help(t) {
        let i = choose|i: int| 0 <= i < t.len() && is_help(#[trigger] t[i]);
        if i < s.len() {
            assert(t[i] == s[i]);
        }
    }
}

/// Reads the command line (without the program name). A help request
/// anywhere wins; otherwise options may stand anywhere, the first other
/// argument is the pattern, which must not be empty, and the others are
/// paths, of which there must be one.
pub fn parse_arguments(arguments: &Vec<String>) -> (r: Result<Config, ArgumentError>)
    ensures
        asks_help(texts(arguments@)) ==> r == Err::<Config, ArgumentError>(ArgumentError::HelpRequested),
        !asks_help(texts(arguments@)) && !has_pattern(texts(arguments@)) ==> r == Err::<
            Config,
            ArgumentError,
        >(ArgumentError::MissingPattern),
        !asks_help(texts(arguments@)) && has_pattern(texts(arguments@)) && operands(
            texts(arguments@),
        ).len() == 1 ==> r == Err::<Config, ArgumentError>(ArgumentError::MissingFiles),
        !asks_help(texts(arguments@)) && has_pattern(texts(arguments@)) && operands(
            texts(arguments@),
        ).len() >= 2 ==> (r matches Ok(c) && configured_by(c, texts(arguments@))),
{
    let ghost all = texts(arguments@);
    let mut user_config = Config {
        pattern: String::new(),
        files: Vec::new(),
        case_insensitive: false,
        line_numbers: false,
        invert_match: false,
        recursive_directory: false,
        print_filenames: false,
        colored_output: false,
    };
    let mut found_search_pattern = false;
    proof {
        reveal_strlit("-h");
        reveal_strlit("--help");
        reveal_strlit("-i");
        reveal_strlit("-n");
        reveal_strlit("-v");
        reveal_strlit("-r");
        reveal_strlit("-f");
        reveal_strlit("-c");
        assert("-h"@ =~= seq!['-', 'h']);
        assert("--help"@ =~= seq!['-', '-', 'h', 'e', 'l', 'p']);
        assert("-i"@ =~= seq!['-', 'i']);
        assert("-n"@ =~= seq!['-', 'n']);
        assert("-v"@ =~= seq!['-', 'v']);
        assert("-r"@ =~= seq!['-', 'r']);
        assert("-f"@ =~= seq!['-', 'f']);
        assert("-c"@ =~= seq!['-', 'c']);
        assert(all.subrange(0, 0) =~= Seq::<Seq<char>>::empty());
    }
    let mut i: usize = 0;
    while i < arguments.len()
        invariant
            all == texts(arguments@),
            i <= all.len(),
            "-h"@ == seq!['-', 'h'],
            "--help"@ == seq!['-', '-', 'h', 'e', 'l', 'p'],
            "-i"@ == seq!['-', 'i'],
            "-n"@ == seq!['-', 'n'],
            "-v"@ == seq!['-', 'v'],
            "-r"@ == seq!['-', 'r'],
            "-f"@ == seq!['-', 'f'],
            "-c"@ == seq!['-', 'c'],
            !asks_help(all.subrange(0, i as int)),
            found_search_pattern == (operands(all.subrange(0, i as int)).len() > 0),
            found_search_pattern ==> user_config.pattern@ == operands(all.subrange(0, i as int))[0],
            found_search_pattern ==> texts(user_config.files@) == operands(
                all.subrange(0, i as int),
            ).drop_first(),
            !found_search_pattern ==> user_config.files@.len() == 0,
            user_config.case_insensitive == names_option(all.subrange(0, i as int), 'i'),
            user_config.line_numbers == names_option(all.subrange(0, i as int), 'n'),
            user_config.invert_match == names_option(all.subrange(0, i as int), 'v'),
            user_config.recursive_directory == names_option(all.subrange(0, i as int), 'r'),
            user_config.print_filenames == names_option(all.subrange(0, i as int), 'f'),
            user_config.colored_output == names_option(all.subrange(0, i as int), 'c'),
        decreases all.len() - i,
    {
        let current_argument = arguments[i].as_str();
        let ghost a = all[i as int];
        let ghost before = all.subrange(0, i as int);
        let ghost ops = operands(before);
        proof {
            assert(a == current_argument@);
            assert(all.subrange(0, i + 1) =~= before.push(a));
            assert(all.subrange(0, i + 1).drop_last() =~= before);
            lemma_asks_help_push(before, a);
            lemma_names_option_push(before, a, 'i');
            lemma_names_option_push(before, a, 'n');
            lemma_names_option_push(before, a, 'v');
            lemma_names_option_push(before, a, 'r');
            lemma_names_option_push(before, a, 'f');
            lemma_names_option_push(before, a, 'c');
        }
        if same_text(current_argument, "-h") || same_text(current_argument, "--help") {
            proof {
                assert(is_help(all[i as int]));
            }
            return Err(ArgumentError::HelpRequested);
        }
        if same_text(current_argument, "-i") {
            user_config.case_insensitive = true;
        } else if same_text(current_argument, "-n") {
            user_config.line_numbers = true;
        } else if same_text(current_argument, "-v") {
            user_config.invert_match = true;
        } else if same_text(current_argument, "-r") {
            user_config.recursive_directory = true;
        } else if same_text(current_argument, "-f") {
            user_config.print_filenames = true;
        } else if same_text(current_argument, "-c") {
            user_config.colored_output = true;
        } else {
            proof {
                if is_option(a) {
                    assert(a =~= seq!['-', a[1]]);
                }
                assert(operands(all.subrange(0, i + 1)) == ops.push(a));
            }
            if !found_search_pattern {
                user_config.pattern = arguments[i].clone();
                found_search_pattern = true;
                proof {
                    assert(ops.push(a).drop_first() =~= Seq::<Seq<char>>::empty());
                    assert(texts(user_config.files@) =~= Seq::<Seq<char>>::empty());
                }
            } else {
                let ghost old_files = user_config.files@;
                user_config.files.push(arguments[i].clone());
                proof {
                    assert(texts(user_config.files@) =~= texts(old_files).push(a));
                    assert(ops.push(a).drop_first() =~= ops.drop_first().push(a));
                }
            }
        }
        i = i + 1;
    }
    proof {
        assert(all.subrange(0, all.len() as int) =~= all);
    }
    if !found_search_pattern || user_config.pattern.as_str().is_empty() {
        return Err(ArgumentError::MissingPattern);
    }
    if user_config.files.len() == 0 {
        proof {
            assert(texts(user_config.files@).len() == 0);
        }
        return Err(ArgumentError::MissingFiles);
    }
    proof {
        assert(texts(user_config.files@).len() == user_config.files@.len());
    }
    Ok(user_config)
}

} // verus!
