//! The command line.

use vstd::prelude::*;

use crate::config::BenchMode;
use crate::text::{chars_of, parse_number};

verus! {

/// What an argument asks for.
#[derive(Debug, Clone, Copy, PartialEq, Eq, Structural)]
pub enum Flag {
    Fast,
    Balanced,
    Precise,
    Verbose,
    /// The next argument caps the allocation.
    Limit,
    Help,
    Unknown,
}

/// What the command line says.
#[derive(Debug)]
pub struct ParsedArgs {
    pub mode: BenchMode,
    pub verbose: bool,
    /// Cap on the allocation in mebibytes.
    pub limit_mb: Option<usize>,
    /// Positions of the arguments that are no known flag.
    pub unknown: Vec<usize>,
    /// Help was asked for; what stands behind that flag was not read.
    pub help: bool,
}

/// The contents of `ParsedArgs`.
#[verifier::ext_equal]
pub struct ArgsView {
    pub mode: BenchMode,
    pub verbose: bool,
    pub limit_mb: Option<usize>,
    pub unknown: Seq<usize>,
    pub help: bool,
}

impl View for ParsedArgs {
    type V = ArgsView;

    open spec fn view(&self) -> ArgsView {
        ArgsView {
            mode: self.mode,
            verbose: self.verbose,
            limit_mb: self.limit_mb,
            unknown: self.unknown@,
            help: self.help,
        }
    }
}

/// The flag that `arg` spells, in its long or its short form.
pub open spec fn flag(arg: Seq<char>) -> Flag {
    if arg == "--fast"@ || arg == "-f"@ {
        Flag::Fast
    } else if arg == "--balanced"@ || arg == "-b"@ {
        Flag::Balanced
    } else if arg == "--precise"@ || arg == "-p"@ {
        Flag::Precise
    } else if arg == "--verbose"@ || arg == "-v"@ {
        Flag::Verbose
    } else if arg == "--limit"@ || arg == "-l"@ {
        Flag::Limit
    } else if arg == "--help"@ || arg == "-h"@ {
        Flag::Help
    } else {
        Flag::Unknown
    }
}

/// What holds where no argument is given.
pub open spec fn defaults() -> ArgsView {
    ArgsView {
        mode: crate::config::fast_mode(),
        verbose: false,
        limit_mb: None,
        unknown: Seq::empty(),
        help: false,
    }
}

/// What the arguments from position `i` on make of `so_far`. A later mode or
/// limit replaces an earlier one; a limit that is no number removes it, and a
/// limit flag without a value changes nothing.
pub open spec fn parsed_from(args: Seq<Seq<char>>, i: int, so_far: ArgsView) -> ArgsView
    decreases args.len() - i,
{
    if i >= args.len() {
        so_far
    } else {
        match flag(args[i]) {
            Flag::Fast => parsed_from(
                args,
                i + 1,
                ArgsView { mode: crate::config::fast_mode(), ..so_far },
            ),
            Flag::Balanced => parsed_from(
                args,
                i + 1,
                ArgsView { mode: crate::config::balanced_mode(), ..so_far },
            ),
            Flag::Precise => parsed_from(
                args,
                i + 1,
                ArgsView { mode: crate::config::precise_mode(), ..so_far },
            ),
            Flag::Verbose => parsed_from(args, i + 1, ArgsView { verbose: true, ..so_far }),
            Flag::Limit => if i + 1 < args.len() {
                parsed_from(
                    args,
                    i + 2,
                    ArgsView { limit_mb: crate::text::number(args[i + 1]), ..so_far },
                )
            } else {
                so_far
            },
            Flag::Help => ArgsView { help: true, ..so_far },
            Flag::Unknown => parsed_from(
                args,
                i + 1,
                ArgsView { unknown: so_far.unknown.push(i as usize), ..so_far },
            ),
        }
    }
}

/// What a whole command line says; its first element names the program.
pub open spec fn parsed(args: Seq<Seq<char>>) -> ArgsView {
    parsed_from(args, 1, defaults())
}

/// The contents of the arguments.
pub open spec fn contents(args: Seq<String>) -> Seq<Seq<char>> {
    args.map_values(|arg: String| arg@)
}

/// Whether `arg` is exactly `name`.
fn spells(arg: &String, name: &str) -> (same: bool)
    ensures
        same == (arg@ == name@),
{
    *arg == name.to_owned()
}

/// Recognises a flag.
pub fn classify(arg: &String) -> (found: Flag)
    ensures
        found == flag(arg@),
{
    if spells(arg, "--fast") || spells(arg, "-f") {
        Flag::Fast
    } else if spells(arg, "--balanced") || spells(arg, "-b") {
        Flag::Balanced
    } else if spells(arg, "--precise") || spells(arg, "-p") {
        Flag::Precise
    } else if spells(arg, "--verbose") || spells(arg, "-v") {
        Flag::Verbose
    } else if spells(arg, "--limit") || spells(arg, "-l") {
        Flag::Limit
    } else if spells(arg, "--help") || spells(arg, "-h") {
        Flag::Help
    } else {
        Flag::Unknown
    }
}

/// Reads the command line.
pub fn parse_args(args: &Vec<String>) -> (result: ParsedArgs)
    ensures
        result@ == parsed(contents(args@)),
{
    let mut result = ParsedArgs {
        mode: BenchMode::fast(),
        verbose: false,
        limit_mb: None,
        unknown: Vec::new(),
        help: false,
    };
    let mut i: usize = 1;
    assert(result@ =~= defaults());
    while i < args.len()
        invariant
            parsed_from(contents(args@), i as int, result@) == parsed(contents(args@)),
        decreases args@.len() - i,
    {
        assert(contents(args@)[i as int] == args@[i as int]@);
        match classify(&args[i]) {
            Flag::Fast => {
                result.mode = BenchMode::fast();
            },
            Flag::Balanced => {
                result.mode = BenchMode::balanced();
            },
            Flag::Precise => {
                result.mode = BenchMode::precise();
            },
            Flag::Verbose => {
                result.verbose = true;
            },
            Flag::Limit => {
                if args.len() - i < 2 {
                    return result;
                }
                i = i + 1;
                result.limit_mb = parse_number(&chars_of(args[i].as_str()));
            },
            Flag::Help => {
                result.help = true;
                return result;
            },
            Flag::Unknown => {
                result.unknown.push(i);
            },
        }
        i = i + 1;
    }
    result
}

/// Nothing that stands behind a request for help is read.
pub proof fn help_ends_parsing(args: Seq<Seq<char>>, more: Seq<Seq<char>>)
    requires
        parsed(args).help,
    ensures
        parsed(args + more) == parsed(args),
{
    lemma_help_ends_parsing(args, more, 1, defaults());
}

/// The same from any position on.
proof fn lemma_help_ends_parsing(
    args: Seq<Seq<char>>,
    more: Seq<Seq<char>>,
    i: int,
    so_far: ArgsView,
)
    requires
        0 <= i,
        !so_far.help,
        parsed_from(args, i, so_far).help,
    ensures
        parsed_from(args + more, i, so_far) == parsed_from(args, i, so_far),
    decreases args.len() - i,
{
    assert(i < args.len());
    assert((args + more)[i] == args[i]);
    match flag(args[i]) {
        Flag::Fast => {
            let next = ArgsView { mode: crate::config::fast_mode(), ..so_far };
            lemma_help_ends_parsing(args, more, i + 1, next);
        },
        Flag::Balanced => {
            let next = ArgsView { mode: crate::config::balanced_mode(), ..so_far };
            lemma_help_ends_parsing(args, more, i + 1, next);
        },
        Flag::Precise => {
            let next = ArgsView { mode: crate::config::precise_mode(), ..so_far };
            lemma_help_ends_parsing(args, more, i + 1, next);
        },
        Flag::Verbose => {
            lemma_help_ends_parsing(args, more, i + 1, ArgsView { verbose: true, ..so_far });
        },
        Flag::Limit => {
            assert(i + 1 < args.len());
            assert((args + more)[i + 1] == args[i + 1]);
            let next = ArgsView { limit_mb: crate::text::number(args[i + 1]), ..so_far };
            lemma_help_ends_parsing(args, more, i + 2, next);
        },
        Flag::Help => {},
        Flag::Unknown => {
            let next = ArgsView { unknown: so_far.unknown.push(i as usize), ..so_far };
            lemma_help_ends_parsing(args, more, i + 1, next);
        },
    }
}

/// Two states with the same mode, verbosity and limit, and the same word on
/// whether help was asked for.
pub open spec fn same_options(one: ArgsView, other: ArgsView) -> bool {
    one.mode == other.mode && one.verbose == other.verbose && one.limit_mb == other.limit_mb
        && one.help == other.help
}

/// Reading `args` from position `i` on comes to look for a flag at position
/// `p`, which is that of an argument or the end. It does not look for one
/// where a limit's value stands, nor behind a request for help.
pub open spec fn option_position(args: Seq<Seq<char>>, i: int, p: int) -> bool
    decreases args.len() - i,
{
    if i == p {
        i <= args.len()
    } else if i >= args.len() {
        false
    } else {
        match flag(args[i]) {
            Flag::Limit => i + 1 < args.len() && option_position(args, i + 2, p),
            Flag::Help => false,
            _ => option_position(args, i + 1, p),
        }
    }
}

/// `after` is `before` with an entry for position `p` at place `k`; what was
/// at `p` or behind it has moved on by one.
pub open spec fn entered_at(before: Seq<usize>, after: Seq<usize>, p: int, k: int) -> bool {
    &&& 0 <= k <= before.len()
    &&& after.len() == before.len() + 1
    &&& forall|j: int| 0 <= j < k ==> #[trigger] before[j] < p && after[j] == before[j]
    &&& after[k] == p
    &&& forall|j: int|
        k <= j < before.len() ==> #[trigger] before[j] >= p && after[j + 1] == before[j] + 1
}

/// An unknown argument put anywhere a flag is looked for changes no option.
/// It is reported, once, beside what is reported without it.
pub proof fn unknown_changes_no_option(args: Seq<Seq<char>>, arg: Seq<char>, p: int)
    requires
        flag(arg) == Flag::Unknown,
        args.len() < usize::MAX,
        option_position(args, 1, p),
    ensures
        same_options(parsed(args.insert(p, arg)), parsed(args)),
        exists|k: int| #[trigger]
            entered_at(parsed(args).unknown, parsed(args.insert(p, arg)).unknown, p, k),
{
    lemma_position_not_before(args, 1, p);
    lemma_read_up_to(args, arg, p, 1, defaults());
}

/// Reading does not go back.
proof fn lemma_position_not_before(args: Seq<Seq<char>>, i: int, p: int)
    requires
        option_position(args, i, p),
    ensures
        i <= p <= args.len(),
    decreases args.len() - i,
{
    if i != p {
        match flag(args[i]) {
            Flag::Limit => {
                lemma_position_not_before(args, i + 2, p);
            },
            _ => {
                lemma_position_not_before(args, i + 1, p);
            },
        }
    }
}

/// The same from a position `i` up to `p` on, with the place of the entry.
proof fn lemma_read_up_to(
    args: Seq<Seq<char>>,
    arg: Seq<char>,
    p: int,
    i: int,
    so_far: ArgsView,
) -> (k: int)
    requires
        flag(arg) == Flag::Unknown,
        args.len() < usize::MAX,
        0 <= i,
        option_position(args, i, p),
        forall|j: int| 0 <= j < so_far.unknown.len() ==> #[trigger] so_far.unknown[j] < i,
    ensures
        ({
            let after = parsed_from(args.insert(p, arg), i, so_far);
            let before = parsed_from(args, i, so_far);
            same_options(after, before) && entered_at(before.unknown, after.unknown, p, k)
        }),
    decreases args.len() - i,
{
    lemma_position_not_before(args, i, p);
    let longer = args.insert(p, arg);
    if i == p {
        let next = ArgsView { unknown: so_far.unknown.push(i as usize), ..so_far };
        let k = so_far.unknown.len() as int;
        assert(longer[i] == arg);
        lemma_read_behind(args, arg, p, i, so_far, next, k);
        k
    } else {
        assert(longer[i] == args[i]);
        match flag(args[i]) {
            Flag::Fast => {
                let next = ArgsView { mode: crate::config::fast_mode(), ..so_far };
                lemma_read_up_to(args, arg, p, i + 1, next)
            },
            Flag::Balanced => {
                let next = ArgsView { mode: crate::config::balanced_mode(), ..so_far };
                lemma_read_up_to(args, arg, p, i + 1, next)
            },
            Flag::Precise => {
                let next = ArgsView { mode: crate::config::precise_mode(), ..so_far };
                lemma_read_up_to(args, arg, p, i + 1, next)
            },
            Flag::Verbose => {
                let next = ArgsView { verbose: true, ..so_far };
                lemma_read_up_to(args, arg, p, i + 1, next)
            },
            Flag::Limit => {
                lemma_position_not_before(args, i + 2, p);
                assert(longer[i + 1] == args[i + 1]);
                let next = ArgsView { limit_mb: crate::text::number(args[i + 1]), ..so_far };
                lemma_read_up_to(args, arg, p, i + 2, next)
            },
            Flag::Help => 0,
            Flag::Unknown => {
                let next = ArgsView { unknown: so_far.unknown.push(i as usize), ..so_far };
                lemma_read_up_to(args, arg, p, i + 1, next)
            },
        }
    }
}

/// Behind the unknown argument both lines are read alike, one position apart.
proof fn lemma_read_behind(
    args: Seq<Seq<char>>,
    arg: Seq<char>,
    p: int,
    i: int,
    before: ArgsView,
    after: ArgsView,
    k: int,
)
    requires
        args.len() < usize::MAX,
        0 <= p <= i,
        p <= args.len(),
        same_options(after, before),
        entered_at(before.unknown, after.unknown, p, k),
    ensures
        ({
            let longer = parsed_from(args.insert(p, arg), i + 1, after);
            let shorter = parsed_from(args, i, before);
            same_options(longer, shorter) && entered_at(shorter.unknown, longer.unknown, p, k)
        }),
    decreases args.len() - i,
{
    let longer = args.insert(p, arg);
    if i < args.len() {
        assert(longer[i + 1] == args[i]);
        match flag(args[i]) {
            Flag::Fast => {
                let mode = crate::config::fast_mode();
                let (one, other) = (ArgsView { mode, ..before }, ArgsView { mode, ..after });
                lemma_read_behind(args, arg, p, i + 1, one, other, k);
            },
            Flag::Balanced => {
                let mode = crate::config::balanced_mode();
                let (one, other) = (ArgsView { mode, ..before }, ArgsView { mode, ..after });
                lemma_read_behind(args, arg, p, i + 1, one, other, k);
            },
            Flag::Precise => {
                let mode = crate::config::precise_mode();
                let (one, other) = (ArgsView { mode, ..before }, ArgsView { mode, ..after });
                lemma_read_behind(args, arg, p, i + 1, one, other, k);
            },
            Flag::Verbose => {
                let one = ArgsView { verbose: true, ..before };
                let other = ArgsView { verbose: true, ..after };
                lemma_read_behind(args, arg, p, i + 1, one, other, k);
            },
            Flag::Limit => {
                if i + 1 < args.len() {
                    assert(longer[i + 2] == args[i + 1]);
                    let limit_mb = crate::text::number(args[i + 1]);
                    let one = ArgsView { limit_mb, ..before };
                    let other = ArgsView { limit_mb, ..after };
                    lemma_read_behind(args, arg, p, i + 2, one, other, k);
                }
            },
            Flag::Help => {},
            Flag::Unknown => {
                let one = ArgsView { unknown: before.unknown.push(i as usize), ..before };
                let other = ArgsView { unknown: after.unknown.push((i + 1) as usize), ..after };
                lemma_read_behind(args, arg, p, i + 1, one, other, k);
            },
        }
    }
}

/// Each flag has exactly two spellings, and everything else is unknown.
pub proof fn flag_exact(arg: Seq<char>)
    ensures
        flag(arg) == Flag::Fast <==> arg == "--fast"@ || arg == "-f"@,
        flag(arg) == Flag::Balanced <==> arg == "--balanced"@ || arg == "-b"@,
        flag(arg) == Flag::Precise <==> arg == "--precise"@ || arg == "-p"@,
        flag(arg) == Flag::Verbose <==> arg == "--verbose"@ || arg == "-v"@,
        flag(arg) == Flag::Limit <==> arg == "--limit"@ || arg == "-l"@,
        flag(arg) == Flag::Help <==> arg == "--help"@ || arg == "-h"@,
{
    reveal_strlit("--fast");
    reveal_strlit("-f");
    reveal_strlit("--balanced");
    reveal_strlit("-b");
    reveal_strlit("--precise");
    reveal_strlit("-p");
    reveal_strlit("--verbose");
    reveal_strlit("-v");
    reveal_strlit("--limit");
    reveal_strlit("-l");
    reveal_strlit("--help");
    reveal_strlit("-h");
    assert("--fast"@[2] == 'f' && "--help"@[2] == 'h');
    assert("--precise"@[2] == 'p' && "--verbose"@[2] == 'v');
    assert("-f"@[1] == 'f' && "-b"@[1] == 'b' && "-p"@[1] == 'p' && "-v"@[1] == 'v' && "-l"@[1]
        == 'l' && "-h"@[1] == 'h');
    assert("--limit"@.len() == 7 && "--fast"@.len() == 6 && "-l"@.len() == 2);
    if arg == "--limit"@ || arg == "-l"@ {
        assert(arg != "--fast"@ && arg != "-f"@ && arg != "--balanced"@ && arg != "-b"@);
        assert(arg != "--precise"@ && arg != "-p"@ && arg != "--verbose"@ && arg != "-v"@);
    }
}

/// What was parsed shows every field as it is.
pub proof fn view_exact(args: ParsedArgs)
    ensures
        args@.mode == args.mode,
        args@.verbose == args.verbose,
        args@.limit_mb == args.limit_mb,
        args@.unknown == args.unknown@,
        args@.help == args.help,
{
}

/// The contents of the arguments are those of each, in order.
pub proof fn contents_exact(args: Seq<String>)
    ensures
        contents(args).len() == args.len(),
        forall|i: int| 0 <= i < args.len() ==> #[trigger] contents(args)[i] == args[i]@,
{
}

/// Without arguments the fast mode runs, not verbose, without a limit, and
/// nothing is reported. A flag is looked for behind the program's name.
pub proof fn defaults_exact(args: Seq<Seq<char>>)
    requires
        args.len() <= 1,
    ensures
        parsed(args).mode == crate::config::fast_mode(),
        !parsed(args).verbose,
        parsed(args).limit_mb is None,
        parsed(args).unknown.len() == 0,
        !parsed(args).help,
        args.len() == 1 ==> option_position(args, 1, 1),
{
}

/// An argument at the end of a command line, where a flag is looked for, has
/// the last word on what it names and leaves all else as it was: a mode
/// replaces the mode, verbosity and help are switched on, an unknown argument
/// is reported with its position, and a limit flag without a value does
/// nothing.
pub proof fn last_flag_decides(args: Seq<Seq<char>>, arg: Seq<char>)
    requires
        args.len() < usize::MAX,
        option_position(args, 1, args.len() as int),
    ensures
        ({
            let (before, after) = (parsed(args), parsed(args.push(arg)));
            let found = flag(arg);
            &&& !before.help
            &&& after.mode == if found == Flag::Fast {
                crate::config::fast_mode()
            } else if found == Flag::Balanced {
                crate::config::balanced_mode()
            } else if found == Flag::Precise {
                crate::config::precise_mode()
            } else {
                before.mode
            }
            &&& after.verbose == (before.verbose || found == Flag::Verbose)
            &&& after.limit_mb == before.limit_mb
            &&& after.help == (found == Flag::Help)
            &&& found != Flag::Unknown ==> after.unknown == before.unknown
            &&& found == Flag::Unknown ==> after.unknown == before.unknown.push(
                args.len() as usize,
            )
        }),
{
    let longer = args.push(arg);
    lemma_read_on(args, seq![arg], 1, defaults());
    assert(args + seq![arg] =~= longer);
    let end = args.len() as int;
    assert(longer[end] == arg);
    reveal_with_fuel(parsed_from, 2);
}

/// A limit flag with a value at the end of a command line, where a flag is
/// looked for, sets the limit to the number that the value writes, or takes it
/// away where that is none, and leaves all else as it was. The value is not
/// looked at in any other way.
pub proof fn last_limit_decides(args: Seq<Seq<char>>, arg: Seq<char>, value: Seq<char>)
    requires
        option_position(args, 1, args.len() as int),
        flag(arg) == Flag::Limit,
    ensures
        ({
            let (before, after) = (parsed(args), parsed(args.push(arg).push(value)));
            &&& after.limit_mb == crate::text::number(value)
            &&& after.mode == before.mode
            &&& after.verbose == before.verbose
            &&& after.unknown == before.unknown
            &&& !after.help
        }),
        option_position(args.push(arg).push(value), 1, args.len() as int + 2),
{
    let longer = args.push(arg).push(value);
    lemma_read_on(args, seq![arg, value], 1, defaults());
    assert(args + seq![arg, value] =~= longer);
    let end = args.len() as int;
    assert(longer[end] == arg && longer[end + 1] == value);
    reveal_with_fuel(parsed_from, 2);
    lemma_position_behind(args, seq![arg, value], 1);
    assert(option_position(longer, end + 2, end + 2));
    assert(option_position(longer, end, end + 2));
}

/// A flag is looked for at the end of a command line exactly if one was looked
/// for before its last argument, and that is neither a limit flag nor a request
/// for help.
pub proof fn end_looks_for_flag(args: Seq<Seq<char>>, arg: Seq<char>)
    requires
        args.len() > 0,
        option_position(args, 1, args.len() as int),
    ensures
        option_position(args.push(arg), 1, args.len() as int + 1) <==> flag(arg) != Flag::Limit
            && flag(arg) != Flag::Help,
{
    let longer = args.push(arg);
    let end = args.len() as int;
    assert(args + seq![arg] =~= longer);
    assert(longer[end] == arg);
    lemma_position_behind(args, seq![arg], 1);
    assert(option_position(longer, end + 1, end + 1));
    assert(option_position(longer, end, end + 1) <==> flag(arg) != Flag::Limit && flag(arg)
        != Flag::Help);
}

/// What follows a whole command line is read from its end on.
proof fn lemma_read_on(args: Seq<Seq<char>>, more: Seq<Seq<char>>, i: int, so_far: ArgsView)
    requires
        0 <= i,
        option_position(args, i, args.len() as int),
        !so_far.help,
    ensures
        !parsed_from(args, i, so_far).help,
        parsed_from(args + more, i, so_far) == parsed_from(
            args + more,
            args.len() as int,
            parsed_from(args, i, so_far),
        ),
    decreases args.len() - i,
{
    lemma_position_not_before(args, i, args.len() as int);
    if i < args.len() {
        assert((args + more)[i] == args[i]);
        match flag(args[i]) {
            Flag::Fast => {
                let next = ArgsView { mode: crate::config::fast_mode(), ..so_far };
                lemma_read_on(args, more, i + 1, next);
            },
            Flag::Balanced => {
                let next = ArgsView { mode: crate::config::balanced_mode(), ..so_far };
                lemma_read_on(args, more, i + 1, next);
            },
            Flag::Precise => {
                let next = ArgsView { mode: crate::config::precise_mode(), ..so_far };
                lemma_read_on(args, more, i + 1, next);
            },
            Flag::Verbose => {
                lemma_read_on(args, more, i + 1, ArgsView { verbose: true, ..so_far });
            },
            Flag::Limit => {
                assert((args + more)[i + 1] == args[i + 1]);
                let next = ArgsView { limit_mb: crate::text::number(args[i + 1]), ..so_far };
                lemma_read_on(args, more, i + 2, next);
            },
            Flag::Help => {},
            Flag::Unknown => {
                let next = ArgsView { unknown: so_far.unknown.push(i as usize), ..so_far };
                lemma_read_on(args, more, i + 1, next);
            },
        }
    }
}

/// Positions behind a whole command line are looked for from its end on.
proof fn lemma_position_behind(args: Seq<Seq<char>>, more: Seq<Seq<char>>, i: int)
    requires
        0 <= i,
        option_position(args, i, args.len() as int),
    ensures
        forall|p: int|
            p >= args.len() ==> option_position(args + more, i, p) == #[trigger] option_position(
                args + more,
                args.len() as int,
                p,
            ),
    decreases args.len() - i,
{
    lemma_position_not_before(args, i, args.len() as int);
    if i < args.len() {
        assert((args + more)[i] == args[i]);
        match flag(args[i]) {
            Flag::Limit => {
                lemma_position_behind(args, more, i + 2);
            },
            Flag::Help => {},
            _ => {
                lemma_position_behind(args, more, i + 1);
            },
        }
    }
}

} // verus!
