//! What a command line asks for, told argument by argument.
use vstd::prelude::*;

use crate::cli;
use crate::cli::{ArgsView, StepView, TurnView};
use crate::text;
use crate::update;
use crate::words;

verus! {

/// The argument is an option that takes the argument behind it as its value.
pub open spec fn takes_value(a: Seq<char>) -> bool {
    ||| a == "-t"@ || a == "--threads"@
    ||| a == "--exclude"@
    ||| a == "-X"@ || a == "--exclude-from"@
    ||| a == "-o"@ || a == "--output"@
    ||| a == "-f"@ || a == "--file"@
}

/// Where the argument behind the one at `at` stands, its value aside.
pub open spec fn behind(args: Seq<Seq<char>>, at: int) -> int {
    if takes_value(args[at]) {
        at + 2
    } else {
        at + 1
    }
}

/// The argument at `i` stands for itself, and is not the value of an option, where the command line is
/// read from `at` on.
pub open spec fn stands_alone(args: Seq<Seq<char>>, at: int, i: int) -> bool
    decreases i - at,
{
    i == at || (at < i && behind(args, at) <= i && stands_alone(args, behind(args, at), i))
}

/// The argument sets a flag: by its long name, or as one of the letters behind a single dash.
pub open spec fn sets(a: Seq<char>, letter: char, long: Seq<char>) -> bool {
    a == long || (a.len() >= 2 && a[0] == '-' && a[1] != '-' && a.skip(1).contains(letter))
}

/// Some argument that stands for itself before `end` sets the flag.
pub open spec fn some_sets(
    args: Seq<Seq<char>>,
    at: int,
    end: int,
    letter: char,
    long: Seq<char>,
) -> bool {
    exists|i: int|
        at <= i < end && #[trigger] stands_alone(args, at, i) && sets(args[i], letter, long)
}

/// The argument is the option by one of its two names.
pub open spec fn names(a: Seq<char>, short: Seq<char>, long: Seq<char>) -> bool {
    a == short || a == long
}

/// `value` is what the last use of an option before `end` gives, or what was there if it is not used.
pub open spec fn is_last_value(
    args: Seq<Seq<char>>,
    at: int,
    end: int,
    short: Seq<char>,
    long: Seq<char>,
    was: Option<Seq<char>>,
    value: Option<Seq<char>>,
) -> bool {
    ||| {
        &&& value == was
        &&& forall|i: int|
            at <= i < end && #[trigger] stands_alone(args, at, i) ==> !names(args[i], short, long)
    }
    ||| exists|i: int| #[trigger] is_last_use(args, at, end, short, long, i) && value == Some(
        args[i + 1],
    )
}

/// The option is used at `i`, and nowhere behind it before `end`.
pub open spec fn is_last_use(
    args: Seq<Seq<char>>,
    at: int,
    end: int,
    short: Seq<char>,
    long: Seq<char>,
    i: int,
) -> bool {
    &&& at <= i < end
    &&& stands_alone(args, at, i)
    &&& names(args[i], short, long)
    &&& forall|j: int|
        i < j < end && #[trigger] stands_alone(args, at, j) ==> !names(args[j], short, long)
}

/// The values of an option, in the order of its uses before `end`.
pub open spec fn values_of(args: Seq<Seq<char>>, at: int, end: int, name: Seq<char>) -> Seq<Seq<char>>
    decreases end - at,
{
    if at >= end {
        Seq::empty()
    } else {
        (if args[at] == name {
            seq![args[at + 1]]
        } else {
            Seq::empty()
        }) + (if behind(args, at) <= end {
            values_of(args, behind(args, at), end, name)
        } else {
            Seq::empty()
        })
    }
}

/// The argument names a directory: it is a lone dash, or does not start with one.
pub open spec fn is_operand(a: Seq<char>) -> bool {
    a.len() == 0 || a[0] != '-' || a.len() == 1
}

proof fn lemma_literals()
    ensures
        "-h"@ == seq!['-', 'h'],
        "-V"@ == seq!['-', 'V'],
        "-v"@ == seq!['-', 'v'],
        "-t"@ == seq!['-', 't'],
        "-a"@ == seq!['-', 'a'],
        "-x"@ == seq!['-', 'x'],
        "-r"@ == seq!['-', 'r'],
        "-X"@ == seq!['-', 'X'],
        "-o"@ == seq!['-', 'o'],
        "-f"@ == seq!['-', 'f'],
        "-"@ == seq!['-'],
        is_long("--help"@, 6, 'h', 'e'),
        is_long("--version"@, 9, 'v', 'e'),
        is_long("--threads"@, 9, 't', 'h'),
        is_long("--apparent-size"@, 15, 'a', 'p'),
        is_long("--apparent"@, 10, 'a', 'p'),
        is_long("--one-file-system"@, 17, 'o', 'n'),
        is_long("--read-only"@, 11, 'r', 'e'),
        is_long("--exclude"@, 9, 'e', 'x'),
        is_long("--exclude-from"@, 14, 'e', 'x'),
        is_long("--output"@, 8, 'o', 'u'),
        is_long("--file"@, 6, 'f', 'i'),
{
    reveal_strlit("-h");
    reveal_strlit("-V");
    reveal_strlit("-v");
    reveal_strlit("-t");
    reveal_strlit("-a");
    reveal_strlit("-x");
    reveal_strlit("-r");
    reveal_strlit("-X");
    reveal_strlit("-o");
    reveal_strlit("-f");
    reveal_strlit("-");
    reveal_strlit("--help");
    reveal_strlit("--version");
    reveal_strlit("--threads");
    reveal_strlit("--apparent-size");
    reveal_strlit("--apparent");
    reveal_strlit("--one-file-system");
    reveal_strlit("--read-only");
    reveal_strlit("--exclude");
    reveal_strlit("--exclude-from");
    reveal_strlit("--output");
    reveal_strlit("--file");
    assert("-h"@ =~= seq!['-', 'h']);
    assert("-V"@ =~= seq!['-', 'V']);
    assert("-v"@ =~= seq!['-', 'v']);
    assert("-t"@ =~= seq!['-', 't']);
    assert("-a"@ =~= seq!['-', 'a']);
    assert("-x"@ =~= seq!['-', 'x']);
    assert("-r"@ =~= seq!['-', 'r']);
    assert("-X"@ =~= seq!['-', 'X']);
    assert("-o"@ =~= seq!['-', 'o']);
    assert("-f"@ =~= seq!['-', 'f']);
    assert("-"@ =~= seq!['-']);
}

/// A long name of a given length that starts with the given letters.
spec fn is_long(a: Seq<char>, len: nat, first: char, second: char) -> bool {
    a.len() == len && a[0] == '-' && a[1] == '-' && a[2] == first && a[3] == second
}

/// What a bundle of flags sets.
proof fn lemma_bundle(st: ArgsView, flags: Seq<char>)
    ensures
        cli::bundled(st, flags) is Ok ==> {
            let to = cli::bundled(st, flags)->Ok_0;
            &&& to.read_only == (st.read_only || flags.contains('r'))
            &&& to.one_file_system == (st.one_file_system || flags.contains('x'))
            &&& to.disk_usage == (st.disk_usage && !flags.contains('a'))
            &&& to.path == st.path
            &&& to.threads == st.threads
            &&& to.excludes == st.excludes
            &&& to.export == st.export
            &&& to.import == st.import
        },
    decreases flags.len(),
{
    if flags.len() > 0 {
        let rest = flags.skip(1);
        assert forall|c: char| #[trigger] flags.contains(c) <==> flags[0] == c || rest.contains(c) by {
            if flags.contains(c) && flags[0] != c {
                let k = choose|k: int| 0 <= k < flags.len() && flags[k] == c;
                assert(rest[k - 1] == c);
            }
            if rest.contains(c) {
                let k = choose|k: int| 0 <= k < rest.len() && rest[k] == c;
                assert(flags[k + 1] == c);
            }
        }
        if flags[0] == 'a' {
            lemma_bundle(ArgsView { disk_usage: false, ..st }, rest);
        } else if flags[0] == 'x' {
            lemma_bundle(ArgsView { one_file_system: true, ..st }, rest);
        } else if flags[0] == 'r' {
            lemma_bundle(ArgsView { read_only: true, ..st }, rest);
        }
        assert(flags.contains('r') <==> flags[0] == 'r' || rest.contains('r'));
        assert(flags.contains('x') <==> flags[0] == 'x' || rest.contains('x'));
        assert(flags.contains('a') <==> flags[0] == 'a' || rest.contains('a'));
    }
}

/// One argument that the reading goes on behind: each flag and each value is set by its own option.
pub open spec fn does_its_own(args: Seq<Seq<char>>, at: int, st: ArgsView, to: ArgsView) -> bool {
    let a = args[at];
    &&& to.read_only == (st.read_only || sets(a, 'r', "--read-only"@))
    &&& to.one_file_system == (st.one_file_system || sets(a, 'x', "--one-file-system"@))
    &&& to.disk_usage == (st.disk_usage && !sets(a, 'a', "--apparent-size"@) && a
        != "--apparent"@)
    &&& to.excludes == if a == "--exclude"@ {
        st.excludes.push(args[at + 1])
    } else {
        st.excludes
    }
    &&& to.export == if names(a, "-o"@, "--output"@) {
        Some(args[at + 1])
    } else {
        st.export
    }
    &&& to.import == if names(a, "-f"@, "--file"@) {
        Some(args[at + 1])
    } else {
        st.import
    }
    &&& to.path == if is_operand(a) {
        Some(a)
    } else {
        st.path
    }
    &&& to.threads != st.threads ==> names(a, "-t"@, "--threads"@)
}

proof fn lemma_flag_letter(a: Seq<char>, c: char, letter: char)
    requires
        a == seq!['-', c],
    ensures
        a.skip(1).contains(letter) <==> c == letter,
{
    assert(a.skip(1) =~= seq![c]);
    if c == letter {
        assert(a.skip(1)[0] == letter);
    }
}

proof fn lemma_short(a: Seq<char>)
    ensures
        a == "-t"@ || a == "-X"@ || a == "-o"@ || a == "-f"@ ==> !a.skip(1).contains('r')
            && !a.skip(1).contains('x') && !a.skip(1).contains('a'),
        a == "-a"@ ==> !a.skip(1).contains('r') && !a.skip(1).contains('x') && a.skip(1).contains(
            'a',
        ),
        a == "-x"@ ==> !a.skip(1).contains('r') && a.skip(1).contains('x') && !a.skip(1).contains(
            'a',
        ),
        a == "-r"@ ==> a.skip(1).contains('r') && !a.skip(1).contains('x') && !a.skip(1).contains(
            'a',
        ),
{
    lemma_literals();
    if a.len() == 2 && a[0] == '-' {
        assert(a =~= seq!['-', a[1]]);
        lemma_flag_letter(a, a[1], 'r');
        lemma_flag_letter(a, a[1], 'x');
        lemma_flag_letter(a, a[1], 'a');
    }
}

/// What an argument does, and where the reading goes on or why it ends.
#[verifier::rlimit(40)]
proof fn lemma_turn(args: Seq<Seq<char>>, at: int, st: ArgsView)
    requires
        0 <= at < args.len(),
    ensures
        match cli::turn(args, at, st) {
            TurnView::On(next, to) => {
                &&& next == behind(args, at)
                &&& next <= args.len()
                &&& does_its_own(args, at, st, to)
                &&& !names(args[at], "-h"@, "--help"@)
                &&& !names(args[at], "-X"@, "--exclude-from"@)
            },
            TurnView::End(StepView::Help, end) => end == at && names(args[at], "-h"@, "--help"@),
            TurnView::End(StepView::Version, end) => end == at && (names(
                args[at],
                "-V"@,
                "--version"@,
            ) || args[at] == "-v"@),
            TurnView::End(StepView::Read(file), end) => {
                &&& end == at + 2
                &&& end <= args.len()
                &&& names(args[at], "-X"@, "--exclude-from"@)
                &&& file == args[at + 1]
            },
            TurnView::End(StepView::Fail(_), end) => end == at,
            TurnView::End(StepView::Done, _) => false,
        },
{
    let a = args[at];
    lemma_literals();
    lemma_short(a);
    if a.len() > 0 {
        lemma_bundle(st, a.skip(1));
        if a.len() == 1 && a[0] == '-' {
            lemma_dash(a);
            assert(a =~= seq!['-']);
        }
    }
}

proof fn lemma_dash(a: Seq<char>)
    requires
        a.len() == 1,
        a[0] == '-',
    ensures
        vstd::utf8::encode_utf8(a).len() == 1,
{
    reveal_with_fuel(vstd::utf8::encode_utf8, 3);
    assert(a.drop_first() =~= Seq::empty());
    assert(vstd::utf8::encode_scalar('-' as u32).len() == 1);
}

proof fn lemma_alone_step(args: Seq<Seq<char>>, at: int, i: int)
    requires
        at < i,
    ensures
        stands_alone(args, at, i) == stands_alone(args, behind(args, at), i),
        stands_alone(args, behind(args, at), i) ==> behind(args, at) <= i,
{
}

/// Whether some argument sets a flag is decided by the first one and those behind it.
proof fn lemma_some_sets(
    args: Seq<Seq<char>>,
    at: int,
    end: int,
    letter: char,
    long: Seq<char>,
)
    requires
        at < end,
    ensures
        some_sets(args, at, end, letter, long) == (sets(args[at], letter, long) || some_sets(
            args,
            behind(args, at),
            end,
            letter,
            long,
        )),
{
    let next = behind(args, at);
    if sets(args[at], letter, long) {
        assert(stands_alone(args, at, at));
    }
    if some_sets(args, next, end, letter, long) {
        let i = choose|i: int|
            next <= i < end && #[trigger] stands_alone(args, next, i) && sets(
                args[i],
                letter,
                long,
            );
        lemma_alone_step(args, at, i);
        assert(stands_alone(args, at, i));
    }
    if some_sets(args, at, end, letter, long) && !sets(args[at], letter, long) {
        let i = choose|i: int|
            at <= i < end && #[trigger] stands_alone(args, at, i) && sets(args[i], letter, long);
        lemma_alone_step(args, at, i);
        assert(stands_alone(args, next, i));
    }
}

/// Where the command line ends is behind or at where it was read from.
proof fn lemma_end(args: Seq<Seq<char>>, at: int, st: ArgsView)
    requires
        0 <= at <= args.len(),
    ensures
        at <= cli::parsed(args, at, st).1 <= args.len(),
    decreases args.len() - at,
{
    if at < args.len() {
        lemma_turn(args, at, st);
        match cli::turn(args, at, st) {
            TurnView::On(next, to) => {
                lemma_end(args, next, to);
            },
            TurnView::End(_, _) => {},
        }
    }
}

proof fn lemma_nothing_set(args: Seq<Seq<char>>, at: int, letter: char, long: Seq<char>)
    ensures
        !some_sets(args, at, at, letter, long),
{
}

/// A file of patterns sets no flag.
proof fn lemma_read_sets_nothing(args: Seq<Seq<char>>, at: int, letter: char, long: Seq<char>)
    requires
        names(args[at], "-X"@, "--exclude-from"@),
        letter == 'r' || letter == 'x' || letter == 'a',
        long == "--read-only"@ || long == "--one-file-system"@ || long == "--apparent-size"@ || long
            == "--apparent"@,
    ensures
        !some_sets(args, at, at + 2, letter, long),
{
    lemma_literals();
    lemma_short(args[at]);
    lemma_some_sets(args, at, at + 2, letter, long);
    lemma_nothing_set(args, at + 2, letter, long);
}

/// However the reading of a command line ends, it has found a flag set if and only if one of the arguments
/// it went past sets it, not counting the values of options: the read-only mode by `-r`, `--read-only` or
/// an `r` in a bundle, staying on one file system by `-x`, `--one-file-system` or an `x`, and apparent
/// sizes by `-a`, `--apparent-size`, `--apparent` or an `a`.
pub proof fn law_flags_are_set_by_their_options(args: Seq<Seq<char>>, at: int, st: ArgsView)
    requires
        0 <= at <= args.len(),
    ensures
        ({
            let (_, end, to) = cli::parsed(args, at, st);
            &&& to.read_only <==> st.read_only || some_sets(args, at, end, 'r', "--read-only"@)
            &&& to.one_file_system <==> st.one_file_system || some_sets(
                args,
                at,
                end,
                'x',
                "--one-file-system"@,
            )
            &&& to.disk_usage <==> st.disk_usage && !some_sets(
                args,
                at,
                end,
                'a',
                "--apparent-size"@,
            ) && !some_sets(args, at, end, 'a', "--apparent"@)
        }),
    decreases args.len() - at,
{
    let r = "--read-only"@;
    let x = "--one-file-system"@;
    let a = "--apparent-size"@;
    let b = "--apparent"@;
    lemma_nothing_set(args, at, 'r', r);
    lemma_nothing_set(args, at, 'x', x);
    lemma_nothing_set(args, at, 'a', a);
    lemma_nothing_set(args, at, 'a', b);
    if at < args.len() {
        lemma_turn(args, at, st);
        match cli::turn(args, at, st) {
            TurnView::On(next, to) => {
                let end = cli::parsed(args, next, to).1;
                law_flags_are_set_by_their_options(args, next, to);
                lemma_end(args, next, to);
                lemma_some_sets(args, at, end, 'r', r);
                lemma_some_sets(args, at, end, 'x', x);
                lemma_some_sets(args, at, end, 'a', a);
                lemma_some_sets(args, at, end, 'a', b);
            },
            TurnView::End(step, end) => {
                if step is Read {
                    lemma_read_sets_nothing(args, at, 'r', r);
                    lemma_read_sets_nothing(args, at, 'x', x);
                    lemma_read_sets_nothing(args, at, 'a', a);
                    lemma_read_sets_nothing(args, at, 'a', b);
                }
            },
        }
    }
}

/// Each long option does the same as its short form, wherever it stands.
pub proof fn law_long_and_short_do_the_same(args: Seq<Seq<char>>, at: int, st: ArgsView)
    requires
        0 <= at < args.len(),
    ensures
        ({
            let with = |a: &str| cli::turn(args.update(at, a@), at, st);
            &&& with("--read-only") == with("-r")
            &&& with("--one-file-system") == with("-x")
            &&& with("--apparent-size") == with("-a")
            &&& with("--apparent") == with("-a")
            &&& with("--help") == with("-h")
            &&& with("--version") == with("-V")
            &&& with("--threads") == with("-t")
            &&& with("--exclude-from") == with("-X")
            &&& with("--output") == with("-o")
            &&& with("--file") == with("-f")
            &&& with("-r") == TurnView::On(at + 1, ArgsView { read_only: true, ..st })
            &&& with("-x") == TurnView::On(at + 1, ArgsView { one_file_system: true, ..st })
            &&& with("-a") == TurnView::On(at + 1, ArgsView { disk_usage: false, ..st })
        }),
{
    lemma_literals();
    assert forall|a: &str| (#[trigger] args.update(at, a@))[at] == a@ by {}
    assert forall|a: &str|
        at + 1 < args.len() implies (#[trigger] args.update(at, a@))[at + 1] == args[at + 1] by {}
}

// ---- Values -----------------------------------------------------------------------------------------

proof fn lemma_last_value_step(
    args: Seq<Seq<char>>,
    at: int,
    end: int,
    short: Seq<char>,
    long: Seq<char>,
    was: Option<Seq<char>>,
    then: Option<Seq<char>>,
    value: Option<Seq<char>>,
)
    requires
        at < end,
        behind(args, at) <= end,
        then == if names(args[at], short, long) {
            Some(args[at + 1])
        } else {
            was
        },
        is_last_value(args, behind(args, at), end, short, long, then, value),
    ensures
        is_last_value(args, at, end, short, long, was, value),
{
    let next = behind(args, at);
    assert forall|i: int| at < i && #[trigger] stands_alone(args, at, i) implies stands_alone(
        args,
        next,
        i,
    ) && next <= i by {
        lemma_alone_step(args, at, i);
    }
    if exists|i: int| #[trigger]
        is_last_use(args, next, end, short, long, i) && value == Some(args[i + 1]) {
        let i = choose|i: int| #[trigger]
            is_last_use(args, next, end, short, long, i) && value == Some(args[i + 1]);
        lemma_alone_step(args, at, i);
        assert(is_last_use(args, at, end, short, long, i));
    } else if names(args[at], short, long) {
        assert(stands_alone(args, at, at));
        assert(is_last_use(args, at, end, short, long, at));
    } else {
        assert forall|i: int|
            at <= i < end && #[trigger] stands_alone(args, at, i) implies !names(
            args[i],
            short,
            long,
        ) by {
            if i > at {
                assert(stands_alone(args, next, i));
            }
        }
    }
}

/// Nothing was read.
proof fn lemma_no_value(
    args: Seq<Seq<char>>,
    at: int,
    short: Seq<char>,
    long: Seq<char>,
    was: Option<Seq<char>>,
)
    ensures
        is_last_value(args, at, at, short, long, was, was),
{
}

/// Each option with a value gives its value to what it is for: the patterns are the values of `--exclude`
/// in their order, and the files to write and to read are those of the last `-o` or `--output` and of
/// the last `-f` or `--file`.
pub proof fn law_values_go_to_their_options(args: Seq<Seq<char>>, at: int, st: ArgsView)
    requires
        0 <= at <= args.len(),
    ensures
        ({
            let (_, end, to) = cli::parsed(args, at, st);
            &&& to.excludes == st.excludes + values_of(args, at, end, "--exclude"@)
            &&& is_last_value(args, at, end, "-o"@, "--output"@, st.export, to.export)
            &&& is_last_value(args, at, end, "-f"@, "--file"@, st.import, to.import)
        }),
    decreases args.len() - at,
{
    assert(st.excludes + Seq::<Seq<char>>::empty() =~= st.excludes);
    lemma_no_value(args, at, "-o"@, "--output"@, st.export);
    lemma_no_value(args, at, "-f"@, "--file"@, st.import);
    if at < args.len() {
        lemma_turn(args, at, st);
        match cli::turn(args, at, st) {
            TurnView::On(next, mid) => {
                let (_, end, to) = cli::parsed(args, next, mid);
                law_values_go_to_their_options(args, next, mid);
                lemma_end(args, next, mid);
                lemma_last_value_step(
                    args,
                    at,
                    end,
                    "-o"@,
                    "--output"@,
                    st.export,
                    mid.export,
                    to.export,
                );
                lemma_last_value_step(
                    args,
                    at,
                    end,
                    "-f"@,
                    "--file"@,
                    st.import,
                    mid.import,
                    to.import,
                );
                let more = values_of(args, next, end, "--exclude"@);
                assert(to.excludes =~= st.excludes + values_of(args, at, end, "--exclude"@));
            },
            TurnView::End(step, end) => {
                if step is Read {
                    lemma_literals();
                    assert(values_of(args, end, end, "--exclude"@) =~= Seq::empty());
                    assert(args[at] != "--exclude"@);
                    assert(values_of(args, at, end, "--exclude"@) =~= Seq::empty());
                    lemma_no_value(args, end, "-o"@, "--output"@, st.export);
                    lemma_no_value(args, end, "-f"@, "--file"@, st.import);
                    lemma_last_value_step(
                        args,
                        at,
                        end,
                        "-o"@,
                        "--output"@,
                        st.export,
                        st.export,
                        st.export,
                    );
                    lemma_last_value_step(
                        args,
                        at,
                        end,
                        "-f"@,
                        "--file"@,
                        st.import,
                        st.import,
                        st.import,
                    );
                }
            },
        }
    }
}

/// `path` is the last directory that is named before `end`, or what was there if none is.
pub open spec fn is_last_operand(
    args: Seq<Seq<char>>,
    at: int,
    end: int,
    was: Option<Seq<char>>,
    path: Option<Seq<char>>,
) -> bool {
    ||| {
        &&& path == was
        &&& forall|i: int|
            at <= i < end && #[trigger] stands_alone(args, at, i) ==> !is_operand(args[i])
    }
    ||| exists|i: int|
        {
            &&& at <= i < end
            &&& #[trigger] stands_alone(args, at, i)
            &&& is_operand(args[i])
            &&& path == Some(args[i])
            &&& forall|j: int|
                i < j < end && #[trigger] stands_alone(args, at, j) ==> !is_operand(args[j])
        }
}

proof fn lemma_last_operand_step(
    args: Seq<Seq<char>>,
    at: int,
    end: int,
    was: Option<Seq<char>>,
    then: Option<Seq<char>>,
    path: Option<Seq<char>>,
)
    requires
        at < end,
        behind(args, at) <= end,
        then == if is_operand(args[at]) {
            Some(args[at])
        } else {
            was
        },
        is_last_operand(args, behind(args, at), end, then, path),
    ensures
        is_last_operand(args, at, end, was, path),
{
    let next = behind(args, at);
    assert forall|i: int| at < i && #[trigger] stands_alone(args, at, i) implies stands_alone(
        args,
        next,
        i,
    ) && next <= i by {
        lemma_alone_step(args, at, i);
    }
    assert(stands_alone(args, at, at));
    if exists|i: int|
        next <= i < end && #[trigger] stands_alone(args, next, i) && is_operand(args[i]) {
        let i = choose|i: int|
            {
                &&& next <= i < end
                &&& #[trigger] stands_alone(args, next, i)
                &&& is_operand(args[i])
                &&& path == Some(args[i])
                &&& forall|j: int|
                    i < j < end && #[trigger] stands_alone(args, next, j) ==> !is_operand(args[j])
            };
        lemma_alone_step(args, at, i);
        assert(stands_alone(args, at, i));
        assert forall|j: int| i < j < end && #[trigger] stands_alone(args, at, j) implies !is_operand(
            args[j],
        ) by {
            assert(stands_alone(args, next, j));
        }
    } else {
        assert forall|j: int| at < j < end && #[trigger] stands_alone(args, at, j) implies !is_operand(
            args[j],
        ) by {
            assert(stands_alone(args, next, j));
        }
    }
}

/// The directory to scan is the last one that is named: an argument that does not start with a dash, or is
/// a dash alone, and is not the value of an option.
pub proof fn law_the_last_operand_is_the_path(args: Seq<Seq<char>>, at: int, st: ArgsView)
    requires
        0 <= at <= args.len(),
    ensures
        ({
            let (_, end, to) = cli::parsed(args, at, st);
            is_last_operand(args, at, end, st.path, to.path)
        }),
    decreases args.len() - at,
{
    if at < args.len() {
        lemma_turn(args, at, st);
        match cli::turn(args, at, st) {
            TurnView::On(next, mid) => {
                let (_, end, to) = cli::parsed(args, next, mid);
                law_the_last_operand_is_the_path(args, next, mid);
                lemma_end(args, next, mid);
                lemma_last_operand_step(args, at, end, st.path, mid.path, to.path);
            },
            TurnView::End(step, end) => {
                if step is Read {
                    lemma_literals();
                    assert(is_last_operand(args, end, end, st.path, st.path));
                    lemma_last_operand_step(args, at, end, st.path, st.path, st.path);
                }
            },
        }
    }
}

/// The reading ends at what ends it: at the end of the command line, at the first argument that asks for
/// help or for the version, behind the first file of patterns, or at a mistake; and nothing that would
/// have ended it was gone past.
pub proof fn law_the_reading_ends_where_it_should(args: Seq<Seq<char>>, at: int, st: ArgsView)
    requires
        0 <= at <= args.len(),
    ensures
        ({
            let (step, end, _) = cli::parsed(args, at, st);
            &&& match step {
                StepView::Done => end == args.len(),
                StepView::Help => end < args.len() && stands_alone(args, at, end) && names(
                    args[end],
                    "-h"@,
                    "--help"@,
                ),
                StepView::Version => end < args.len() && stands_alone(args, at, end) && (names(
                    args[end],
                    "-V"@,
                    "--version"@,
                ) || args[end] == "-v"@),
                StepView::Read(file) => at <= end - 2 && end <= args.len() && stands_alone(
                    args,
                    at,
                    end - 2,
                ) && names(args[end - 2], "-X"@, "--exclude-from"@) && file == args[end - 1],
                StepView::Fail(_) => end < args.len() && stands_alone(args, at, end),
            }
            &&& forall|i: int|
                at <= i < end && #[trigger] stands_alone(args, at, i) ==> !names(
                    args[i],
                    "-h"@,
                    "--help"@,
                ) && (names(args[i], "-X"@, "--exclude-from"@) ==> step is Read && i == end - 2)
        }),
    decreases args.len() - at,
{
    if at < args.len() {
        lemma_turn(args, at, st);
        match cli::turn(args, at, st) {
            TurnView::On(next, mid) => {
                let (step, end, _) = cli::parsed(args, next, mid);
                law_the_reading_ends_where_it_should(args, next, mid);
                lemma_end(args, next, mid);
                assert forall|i: int|
                    at <= i < end && #[trigger] stands_alone(args, at, i) implies !names(
                    args[i],
                    "-h"@,
                    "--help"@,
                ) && (names(args[i], "-X"@, "--exclude-from"@) ==> step is Read && i == end
                    - 2) by {
                    if i > at {
                        lemma_alone_step(args, at, i);
                        assert(stands_alone(args, next, i));
                    }
                }
            },
            TurnView::End(step, end) => {
                lemma_literals();
                if step is Read {
                    assert forall|i: int|
                        at <= i < end && #[trigger] stands_alone(args, at, i) implies i == at by {
                        if i > at {
                            lemma_alone_step(args, at, i);
                        }
                    }
                }
            },
        }
    }
}

/// All letters are flags.
pub open spec fn all_flags(letters: Seq<char>) -> bool {
    forall|k: int|
        0 <= k < letters.len() ==> #[trigger] letters[k] == 'a' || letters[k] == 'x' || letters[k]
            == 'r'
}

proof fn lemma_all_flags(st: ArgsView, letters: Seq<char>)
    ensures
        cli::bundled(st, letters) is Ok <==> all_flags(letters),
    decreases letters.len(),
{
    if letters.len() > 0 {
        let rest = letters.skip(1);
        assert(all_flags(letters) ==> all_flags(rest)) by {
            if all_flags(letters) {
                assert forall|k: int| 0 <= k < rest.len() implies #[trigger] rest[k] == 'a'
                    || rest[k] == 'x' || rest[k] == 'r' by {
                    assert(rest[k] == letters[k + 1]);
                }
            }
        }
        assert(all_flags(rest) && (letters[0] == 'a' || letters[0] == 'x' || letters[0] == 'r')
            ==> all_flags(letters)) by {
            if all_flags(rest) && (letters[0] == 'a' || letters[0] == 'x' || letters[0] == 'r') {
                assert forall|k: int| 0 <= k < letters.len() implies #[trigger] letters[k] == 'a'
                    || letters[k] == 'x' || letters[k] == 'r' by {
                    if k > 0 {
                        assert(letters[k] == rest[k - 1]);
                    }
                }
            }
        }
        if letters[0] == 'a' {
            lemma_all_flags(ArgsView { disk_usage: false, ..st }, rest);
        } else if letters[0] == 'x' {
            lemma_all_flags(ArgsView { one_file_system: true, ..st }, rest);
        } else if letters[0] == 'r' {
            lemma_all_flags(ArgsView { read_only: true, ..st }, rest);
        }
    }
}

/// What is not a mistake is not taken for one: a directory, a bundle of flags alone, and an option with its
/// value, the number of threads aside, never end the reading with a mistake; and what starts with a dash
/// and is no option always does.
pub proof fn law_mistakes_are_mistakes(args: Seq<Seq<char>>, at: int, st: ArgsView)
    requires
        0 <= at < args.len(),
    ensures
        ({
            let a = args[at];
            let fails = cli::turn(args, at, st) matches TurnView::End(StepView::Fail(_), _);
            &&& is_operand(a) ==> !fails
            &&& a.len() >= 2 && a[0] == '-' && a[1] != '-' && all_flags(a.skip(1)) ==> !fails
            &&& takes_value(a) && at + 1 < args.len() && !names(a, "-t"@, "--threads"@) ==> !fails
            &&& takes_value(a) && at + 1 == args.len() ==> fails
            &&& a.len() >= 3 && a[0] == '-' && a[1] != '-' && !all_flags(a.skip(1)) ==> fails
        }),
{
    let a = args[at];
    lemma_literals();
    lemma_short(a);
    if a.len() > 0 {
        lemma_all_flags(st, a.skip(1));
        if a.len() == 1 && a[0] == '-' {
            lemma_dash(a);
            assert(a =~= seq!['-']);
        }
        if a.len() == 2 {
            assert(a =~= seq![a[0], a[1]]);
            assert(a.skip(1) =~= seq![a[1]]);
            if all_flags(a.skip(1)) {
                assert(a.skip(1)[0] == a[1]);
            }
        }
        if a.len() >= 3 && a[0] == '-' {
            lemma_long_enough(a);
        }
    }
}

proof fn lemma_long_enough(a: Seq<char>)
    requires
        a.len() >= 3,
    ensures
        vstd::utf8::encode_utf8(a).len() >= 3,
{
    reveal_with_fuel(vstd::utf8::encode_utf8, 5);
    let b = a.drop_first();
    let c = b.drop_first();
    assert(vstd::utf8::encode_scalar(a[0] as u32).len() >= 1);
    assert(vstd::utf8::encode_scalar(b[0] as u32).len() >= 1);
    assert(vstd::utf8::encode_scalar(c[0] as u32).len() >= 1);
}

/// A number of threads is taken as it is written, but for zero, in place of which there is one.
pub proof fn law_thread_counts(n: nat)
    requires
        n <= u64::MAX,
        n <= usize::MAX,
    ensures
        cli::thread_count(text::decimal(n)) == Some(
            if n == 0 {
                1usize
            } else {
                n as usize
            },
        ),
{
    update::lemma_decimal_is_read(n);
}

/// The patterns of a file are its lines without the white space around them, in their order, but for those
/// that are empty or start with a `#`.
pub proof fn law_patterns_of_a_file(lines: Seq<Seq<char>>, p: Seq<char>)
    ensures
        cli::patterns_of(lines).contains(p) <==> p.len() > 0 && p[0] != '#' && exists|k: int|
            0 <= k < lines.len() && words::trimmed(#[trigger] lines[k]) == p,
    decreases lines.len(),
{
    if lines.len() > 0 {
        let less = lines.drop_last();
        let last = words::trimmed(lines.last());
        let before = cli::patterns_of(less);
        let all = cli::patterns_of(lines);
        law_patterns_of_a_file(less, p);
        if all.contains(p) {
            let i = choose|i: int| 0 <= i < all.len() && all[i] == p;
            if i < before.len() {
                assert(before[i] == p);
                let k = choose|k: int|
                    0 <= k < less.len() && words::trimmed(#[trigger] less[k]) == p;
                assert(words::trimmed(lines[k]) == p);
            } else {
                assert(words::trimmed(lines[lines.len() - 1]) == p);
            }
        }
        if p.len() > 0 && p[0] != '#' && exists|k: int|
            0 <= k < lines.len() && words::trimmed(#[trigger] lines[k]) == p {
            let k = choose|k: int| 0 <= k < lines.len() && words::trimmed(#[trigger] lines[k]) == p;
            if k < less.len() {
                assert(words::trimmed(less[k]) == p);
                assert(before.contains(p));
                let i = choose|i: int| 0 <= i < before.len() && before[i] == p;
                assert(all[i] == p);
            } else {
                assert(all[before.len() as int] == p);
            }
        }
    }
}

/// What is asked for where nothing is said: the sizes on disk of everything from here on, across file
/// systems, with nothing left out, deletions allowed, and no dump written or read.
pub proof fn law_nothing_said_is_nothing_asked(threads: usize)
    ensures
        ({
            let st = cli::nothing_asked(threads);
            &&& cli::parsed(Seq::empty(), 0, st) == (StepView::Done, 0int, st)
            &&& st.threads == threads
            &&& st.disk_usage && !st.one_file_system && !st.read_only
            &&& st.excludes.len() == 0
            &&& st.path is None && st.export is None && st.import is None
        }),
{
}

} // verus!
