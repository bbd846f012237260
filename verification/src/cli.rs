//! The command line.
use vstd::prelude::*;

use crate::text;
use crate::update;
use crate::words;

verus! {

/// The usage text of the program.
pub open spec fn usage(version: Seq<char>) -> Seq<char> {
    "rcdu "@ + version
        + " — interactive, SSD-optimized disk usage explorer (ncdu-compatible)\n"@
        + "\n"@
        + "USAGE:\n"@
        + "    rcdu [PATH] [OPTIONS]\n"@
        + "\n"@
        + "ARGS:\n"@
        + "    PATH                     directory to scan (default: current directory)\n"@
        + "\n"@
        + "OPTIONS:\n"@
        + "    -t, --threads N          scanner threads (default: cores*4, tuned for SSDs)\n"@
        + "    -a, --apparent-size      show apparent size instead of on-disk usage\n"@
        + "    -x, --one-file-system    do not cross filesystem boundaries\n"@
        + "        --exclude PATTERN    exclude entries matching a glob (repeatable)\n"@
        + "    -X, --exclude-from FILE  read exclude patterns from FILE (one per line)\n"@
        + "    -r, --read-only          disable the delete feature\n"@
        + "    -o, --output FILE        scan without UI and write ncdu-compatible JSON ('-' = stdout)\n"@
        + "    -f, --file FILE          load a tree from ncdu JSON instead of scanning ('-' = stdin)\n"@
        + "    -h, --help               show this help\n"@
        + "    -V, --version            show version\n"@
        + "\n"@
        + "KEYS:\n"@
        + "    j/k, down/up    move          l/Enter/right   enter directory\n"@
        + "    h/Backspace     go up         s               toggle sort (size/name)\n"@
        + "    a               apparent/disk d               delete (confirm; needs full scan)\n"@
        + "    ?               help          g/G             top/bottom        q/Esc   quit"@
}

/// The usage text of the program.
pub fn help_text(version: &str) -> (out: String)
    ensures
        out@ == usage(version@),
{
    let mut out = text::joined("rcdu ", version);
    out.append(" — interactive, SSD-optimized disk usage explorer (ncdu-compatible)\n");
    out.append("\n");
    out.append("USAGE:\n");
    out.append("    rcdu [PATH] [OPTIONS]\n");
    out.append("\n");
    out.append("ARGS:\n");
    out.append("    PATH                     directory to scan (default: current directory)\n");
    out.append("\n");
    out.append("OPTIONS:\n");
    out.append("    -t, --threads N          scanner threads (default: cores*4, tuned for SSDs)\n");
    out.append("    -a, --apparent-size      show apparent size instead of on-disk usage\n");
    out.append("    -x, --one-file-system    do not cross filesystem boundaries\n");
    out.append("        --exclude PATTERN    exclude entries matching a glob (repeatable)\n");
    out.append("    -X, --exclude-from FILE  read exclude patterns from FILE (one per line)\n");
    out.append("    -r, --read-only          disable the delete feature\n");
    out.append("    -o, --output FILE        scan without UI and write ncdu-compatible JSON ('-' = stdout)\n");
    out.append("    -f, --file FILE          load a tree from ncdu JSON instead of scanning ('-' = stdin)\n");
    out.append("    -h, --help               show this help\n");
    out.append("    -V, --version            show version\n");
    out.append("\n");
    out.append("KEYS:\n");
    out.append("    j/k, down/up    move          l/Enter/right   enter directory\n");
    out.append("    h/Backspace     go up         s               toggle sort (size/name)\n");
    out.append("    a               apparent/disk d               delete (confirm; needs full scan)\n");
    out.append("    ?               help          g/G             top/bottom        q/Esc   quit");
    out
}

/// What the command line asks for.
pub struct Args {
    /// The directory to scan; the current one if it is left out.
    pub path: Option<String>,
    pub threads: usize,
    pub disk_usage: bool,
    pub one_file_system: bool,
    pub read_only: bool,
    pub excludes: Vec<String>,
    /// `-o FILE`: scan headless and write ncdu JSON, then exit. `-` means stdout.
    pub export: Option<String>,
    /// `-f FILE`: load a tree from ncdu JSON instead of scanning. `-` means stdin.
    pub import: Option<String>,
}

#[verifier::ext_equal]
pub struct ArgsView {
    pub path: Option<Seq<char>>,
    pub threads: usize,
    pub disk_usage: bool,
    pub one_file_system: bool,
    pub read_only: bool,
    pub excludes: Seq<Seq<char>>,
    pub export: Option<Seq<char>>,
    pub import: Option<Seq<char>>,
}

impl View for Args {
    type V = ArgsView;

    open spec fn view(&self) -> ArgsView {
        ArgsView {
            path: text::chars_if(self.path),
            threads: self.threads,
            disk_usage: self.disk_usage,
            one_file_system: self.one_file_system,
            read_only: self.read_only,
            excludes: words::text_views(self.excludes@),
            export: text::chars_if(self.export),
            import: text::chars_if(self.import),
        }
    }
}

/// How far the command line was read.
pub enum Step {
    /// To its end.
    Done,
    /// To a wish for help.
    Help,
    /// To a wish for the version.
    Version,
    /// To a mistake.
    Fail(String),
    /// To a file with exclude patterns, which has to be read first.
    Read(String),
}

#[verifier::ext_equal]
pub enum StepView {
    Done,
    Help,
    Version,
    Fail(Seq<char>),
    Read(Seq<char>),
}

impl View for Step {
    type V = StepView;

    open spec fn view(&self) -> StepView {
        match self {
            Step::Done => StepView::Done,
            Step::Help => StepView::Help,
            Step::Version => StepView::Version,
            Step::Fail(why) => StepView::Fail(why@),
            Step::Read(file) => StepView::Read(file@),
        }
    }
}

/// One argument is read: either the reading goes on behind the next arguments, or it ends.
#[verifier::ext_equal]
pub enum TurnView {
    On(int, ArgsView),
    End(StepView, int),
}

/// The flags of a bundle such as `-rx`, one after the other; the flag that there is none of, if any.
pub open spec fn bundled(st: ArgsView, flags: Seq<char>) -> Result<ArgsView, char>
    decreases flags.len(),
{
    if flags.len() == 0 {
        Ok(st)
    } else if flags[0] == 'a' {
        bundled(ArgsView { disk_usage: false, ..st }, flags.skip(1))
    } else if flags[0] == 'x' {
        bundled(ArgsView { one_file_system: true, ..st }, flags.skip(1))
    } else if flags[0] == 'r' {
        bundled(ArgsView { read_only: true, ..st }, flags.skip(1))
    } else {
        Err(flags[0])
    }
}

/// The value of an option that needs one.
pub open spec fn value_at(args: Seq<Seq<char>>, at: int) -> Option<Seq<char>> {
    if at + 1 < args.len() {
        Some(args[at + 1])
    } else {
        None
    }
}

pub open spec fn failed(why: Seq<char>, at: int) -> TurnView {
    TurnView::End(StepView::Fail(why), at)
}

/// The number of threads that a text asks for: at least one.
pub open spec fn thread_count(value: Seq<char>) -> Option<usize> {
    match update::number_of(value) {
        Some(n) => if n > usize::MAX {
            None
        } else if n < 1 {
            Some(1)
        } else {
            Some(n as usize)
        },
        None => None,
    }
}

pub open spec fn is_any(a: Seq<char>, x: &str, y: &str, z: &str) -> bool {
    a == x@ || a == y@ || a == z@
}

/// An argument that is no option with a name of its own.
pub open spec fn plain_turn(args: Seq<Seq<char>>, at: int, st: ArgsView) -> TurnView {
    let a = args[at];
    let dashed = a.len() > 0 && a[0] == '-';
    let double = a.len() > 1 && a[0] == '-' && a[1] == '-';
    if dashed && !double && vstd::utf8::encode_utf8(a).len() > 2 {
        match bundled(st, a.skip(1)) {
            Ok(st) => TurnView::On(at + 1, st),
            Err(c) => failed("unknown flag -"@ + seq![c] + " in "@ + a, at),
        }
    } else if dashed && a != "-"@ {
        failed("unknown option: "@ + a, at)
    } else {
        TurnView::On(at + 1, ArgsView { path: Some(a), ..st })
    }
}

/// What one argument does.
pub open spec fn turn(args: Seq<Seq<char>>, at: int, st: ArgsView) -> TurnView {
    let a = args[at];
    if is_any(a, "-h", "--help", "--help") {
        TurnView::End(StepView::Help, at)
    } else if is_any(a, "-V", "-v", "--version") {
        TurnView::End(StepView::Version, at)
    } else if is_any(a, "-t", "--threads", "--threads") {
        match value_at(args, at) {
            None => failed("--threads needs a value"@, at),
            Some(value) => match thread_count(value) {
                Some(threads) => TurnView::On(at + 2, ArgsView { threads, ..st }),
                None => failed("--threads must be a number"@, at),
            },
        }
    } else if is_any(a, "-a", "--apparent-size", "--apparent") {
        TurnView::On(at + 1, ArgsView { disk_usage: false, ..st })
    } else if is_any(a, "-x", "--one-file-system", "--one-file-system") {
        TurnView::On(at + 1, ArgsView { one_file_system: true, ..st })
    } else if is_any(a, "-r", "--read-only", "--read-only") {
        TurnView::On(at + 1, ArgsView { read_only: true, ..st })
    } else if a == "--exclude"@ {
        match value_at(args, at) {
            None => failed("--exclude needs a pattern"@, at),
            Some(value) => TurnView::On(
                at + 2,
                ArgsView { excludes: st.excludes.push(value), ..st },
            ),
        }
    } else if is_any(a, "-X", "--exclude-from", "--exclude-from") {
        match value_at(args, at) {
            None => failed("--exclude-from needs a file"@, at),
            Some(value) => TurnView::End(StepView::Read(value), at + 2),
        }
    } else if is_any(a, "-o", "--output", "--output") {
        match value_at(args, at) {
            None => failed("-o needs a file (or -)"@, at),
            Some(value) => TurnView::On(at + 2, ArgsView { export: Some(value), ..st }),
        }
    } else if is_any(a, "-f", "--file", "--file") {
        match value_at(args, at) {
            None => failed("-f needs a file (or -)"@, at),
            Some(value) => TurnView::On(at + 2, ArgsView { import: Some(value), ..st }),
        }
    } else {
        plain_turn(args, at, st)
    }
}

/// The arguments from `at` on, as far as they can be read: how the reading ended, where, and with what
/// it had found until then.
pub open spec fn parsed(args: Seq<Seq<char>>, at: int, st: ArgsView) -> (StepView, int, ArgsView)
    decreases args.len() - at,
{
    if at >= args.len() {
        (StepView::Done, at, st)
    } else {
        match turn(args, at, st) {
            TurnView::On(next, st2) => if next > at {
                parsed(args, next, st2)
            } else {
                (StepView::Done, at, st)
            },
            TurnView::End(step, next) => (step, next, st),
        }
    }
}

/// The patterns of a file, one per line; blank lines and comments aside.
pub open spec fn patterns_of(lines: Seq<Seq<char>>) -> Seq<Seq<char>>
    decreases lines.len(),
{
    if lines.len() == 0 {
        Seq::empty()
    } else {
        let before = patterns_of(lines.drop_last());
        let line = words::trimmed(lines.last());
        if line.len() > 0 && line[0] != '#' {
            before.push(line)
        } else {
            before
        }
    }
}

/// The command line while it is being read.
pub struct Parser {
    pub args: Vec<String>,
    pub at: usize,
    pub found: Args,
}

/// Whether an argument is one of three.
fn is_one_of(a: &String, x: &str, y: &str, z: &str) -> (yes: bool)
    ensures
        yes == is_any(a@, x, y, z),
{
    text::same(a.as_str(), x) || text::same(a.as_str(), y) || text::same(a.as_str(), z)
}

fn fail(why: &str) -> (end: Option<Step>)
    ensures
        end is Some,
        end->0@ == StepView::Fail(why@),
{
    Some(Step::Fail(why.to_string()))
}

/// The number of threads that a text asks for: at least one.
fn read_threads(value: &str) -> (threads: Option<usize>)
    ensures
        threads == thread_count(value@),
{
    match update::parse_number(value) {
        Some(n) => {
            if n > usize::MAX as u64 {
                None
            } else if n < 1 {
                Some(1)
            } else {
                Some(n as usize)
            }
        },
        None => None,
    }
}

/// What an empty command line asks for.
pub open spec fn nothing_asked(threads: usize) -> ArgsView {
    ArgsView {
        path: None,
        threads,
        disk_usage: true,
        one_file_system: false,
        read_only: false,
        excludes: Seq::empty(),
        export: None,
        import: None,
    }
}

impl Args {
    /// What an empty command line asks for.
    pub fn new(threads: usize) -> (args: Args)
        ensures
            args@ == nothing_asked(threads),
    {
        let args = Args {
            path: None,
            threads,
            disk_usage: true,
            one_file_system: false,
            read_only: false,
            excludes: Vec::new(),
            export: None,
            import: None,
        };
        assert(args@.excludes =~= Seq::empty());
        args
    }

    /// The directory to scan.
    pub fn root(&self) -> (path: String)
        ensures
            path@ == (match self@.path {
                Some(path) => path,
                None => "."@,
            }),
    {
        match &self.path {
            Some(path) => path.clone(),
            None => ".".to_string(),
        }
    }

    /// One more pattern.
    fn exclude(&mut self, pattern: String)
        ensures
            final(self)@ == (ArgsView {
                excludes: old(self)@.excludes.push(pattern@),
                ..old(self)@
            }),
    {
        let ghost had = self.excludes@;
        self.excludes.push(pattern);
        assert(words::text_views(self.excludes@) =~= words::text_views(had).push(pattern@));
    }

    /// The patterns of a file, one per line; blank lines and comments aside.
    pub fn exclude_all(&mut self, content: &str)
        ensures
            final(self)@ == (ArgsView {
                excludes: old(self)@.excludes + patterns_of(words::lines_of(content@)),
                ..old(self)@
            }),
    {
        let ghost before = self@;
        let lines = words::lines(content);
        let ghost all = words::lines_of(content@);
        let mut k: usize = 0;
        assert(before.excludes + patterns_of(all.take(0)) =~= before.excludes);
        while k < lines.len()
            invariant
                words::text_views(lines@) == all,
                k <= lines@.len(),
                self@ == (ArgsView {
                    excludes: before.excludes + patterns_of(all.take(k as int)),
                    ..before
                }),
            decreases lines@.len() - k,
        {
            assert(all[k as int] == lines@[k as int]@);
            assert(all.take(k + 1).drop_last() =~= all.take(k as int));
            let line = words::trim(lines[k].as_str());
            if line.as_str().unicode_len() > 0 && line.as_str().get_char(0) != '#' {
                self.exclude(line);
                assert(self@.excludes =~= before.excludes + patterns_of(all.take(k + 1)));
            }
            k += 1;
        }
        assert(all.take(k as int) =~= all);
    }

    /// The flags of a bundle such as `-rx`; the flag that there is none of, if any.
    fn set_flags(&mut self, flags: &Vec<char>, from: usize) -> (unknown: Option<char>)
        requires
            from <= flags@.len(),
        ensures
            match bundled(old(self)@, flags@.skip(from as int)) {
                Ok(st) => unknown is None && final(self)@ == st,
                Err(c) => unknown == Some(c) && final(self)@ == (ArgsView {
                    disk_usage: final(self)@.disk_usage,
                    one_file_system: final(self)@.one_file_system,
                    read_only: final(self)@.read_only,
                    ..old(self)@
                }),
            },
    {
        let ghost rest = flags@.skip(from as int);
        let mut k: usize = from;
        while k < flags.len()
            invariant
                from <= k <= flags@.len(),
                rest == flags@.skip(from as int),
                bundled(old(self)@, rest) == bundled(self@, flags@.skip(k as int)),
                self@ == (ArgsView {
                    disk_usage: self@.disk_usage,
                    one_file_system: self@.one_file_system,
                    read_only: self@.read_only,
                    ..old(self)@
                }),
            decreases flags@.len() - k,
        {
            let ghost here = flags@.skip(k as int);
            let c = flags[k];
            assert(here[0] == c);
            if c == 'a' {
                self.disk_usage = false;
            } else if c == 'x' {
                self.one_file_system = true;
            } else if c == 'r' {
                self.read_only = true;
            } else {
                return Some(c);
            }
            k += 1;
            assert(here.skip(1) =~= flags@.skip(k as int));
        }
        None
    }
}

impl Parser {
    /// A command line that is still to be read, with the default number of threads.
    pub fn new(args: Vec<String>, threads: usize) -> (parser: Parser)
        ensures
            parser.args@ == args@,
            parser.at == 0,
            parser.found@.threads == threads,
            parser.found@ == nothing_asked(threads),
    {
        Parser { args, at: 0, found: Args::new(threads) }
    }

    /// The value of an option that needs one.
    fn value(&self) -> (value: Option<String>)
        requires
            self.at < self.args@.len(),
        ensures
            text::chars_if(value) == value_at(words::text_views(self.args@), self.at as int),
            value is Some ==> self.at + 2 <= self.args@.len(),
    {
        if self.args.len() - self.at > 1 {
            Some(self.args[self.at + 1].clone())
        } else {
            None
        }
    }

    /// An argument that is no option with a name of its own.
    fn plain_turn(&mut self) -> (end: Option<Step>)
        requires
            old(self).at < old(self).args@.len(),
        ensures
            final(self).args == old(self).args,
            turned(
                plain_turn(words::text_views(old(self).args@), old(self).at as int, old(self).found@),
                *old(self),
                *final(self),
                end,
            ),
    {
        let a = self.args[self.at].clone();
        assert(self.args.len() <= usize::MAX);
        assert(words::text_views(self.args@)[self.at as int] == a@);
        let chars = text::chars_of(a.as_str());
        let dashed = chars.len() > 0 && chars[0] == '-';
        let double = chars.len() > 1 && chars[0] == '-' && chars[1] == '-';
        let bytes: usize = a.as_str().as_bytes().len();
        if dashed && !double && bytes > 2 {
            let disk_usage = self.found.disk_usage;
            let one_file_system = self.found.one_file_system;
            let read_only = self.found.read_only;
            match self.found.set_flags(&chars, 1) {
                None => {
                    self.at = self.at + 1;
                    None
                },
                Some(c) => {
                    self.found.disk_usage = disk_usage;
                    self.found.one_file_system = one_file_system;
                    self.found.read_only = read_only;
                    let mut why = "unknown flag -".to_string();
                    why.push(c);
                    why.append(" in ");
                    why.append(a.as_str());
                    assert(why@ =~= "unknown flag -"@ + seq![c] + " in "@ + a@);
                    fail(why.as_str())
                },
            }
        } else if dashed && !text::same(a.as_str(), "-") {
            fail(text::joined("unknown option: ", a.as_str()).as_str())
        } else {
            self.found.path = Some(a);
            self.at = self.at + 1;
            None
        }
    }

    /// Read one argument.
    fn turn(&mut self) -> (end: Option<Step>)
        requires
            old(self).at < old(self).args@.len(),
        ensures
            final(self).args == old(self).args,
            turned(
                turn(words::text_views(old(self).args@), old(self).at as int, old(self).found@),
                *old(self),
                *final(self),
                end,
            ),
    {
        let a = self.args[self.at].clone();
        assert(self.args.len() <= usize::MAX);
        assert(words::text_views(self.args@)[self.at as int] == a@);
        if is_one_of(&a, "-h", "--help", "--help") {
            return Some(Step::Help);
        }
        if is_one_of(&a, "-V", "-v", "--version") {
            return Some(Step::Version);
        }
        if is_one_of(&a, "-t", "--threads", "--threads") {
            return match self.value() {
                None => fail("--threads needs a value"),
                Some(value) => match read_threads(value.as_str()) {
                    Some(threads) => {
                        self.found.threads = threads;
                        self.at = self.at + 2;
                        None
                    },
                    None => fail("--threads must be a number"),
                },
            };
        }
        if is_one_of(&a, "-a", "--apparent-size", "--apparent") {
            self.found.disk_usage = false;
            self.at = self.at + 1;
            return None;
        }
        if is_one_of(&a, "-x", "--one-file-system", "--one-file-system") {
            self.found.one_file_system = true;
            self.at = self.at + 1;
            return None;
        }
        if is_one_of(&a, "-r", "--read-only", "--read-only") {
            self.found.read_only = true;
            self.at = self.at + 1;
            return None;
        }
        if text::same(a.as_str(), "--exclude") {
            return match self.value() {
                None => fail("--exclude needs a pattern"),
                Some(value) => {
                    self.found.exclude(value);
                    self.at = self.at + 2;
                    None
                },
            };
        }
        if is_one_of(&a, "-X", "--exclude-from", "--exclude-from") {
            return match self.value() {
                None => fail("--exclude-from needs a file"),
                Some(value) => {
                    self.at = self.at + 2;
                    Some(Step::Read(value))
                },
            };
        }
        if is_one_of(&a, "-o", "--output", "--output") {
            return match self.value() {
                None => fail("-o needs a file (or -)"),
                Some(value) => {
                    self.found.export = Some(value);
                    self.at = self.at + 2;
                    None
                },
            };
        }
        if is_one_of(&a, "-f", "--file", "--file") {
            return match self.value() {
                None => fail("-f needs a file (or -)"),
                Some(value) => {
                    self.found.import = Some(value);
                    self.at = self.at + 2;
                    None
                },
            };
        }
        self.plain_turn()
    }

    /// Read on, to the end of the command line or to what has to be dealt with first.
    pub fn run(&mut self) -> (step: Step)
        requires
            old(self).at <= old(self).args@.len(),
        ensures
            final(self).args == old(self).args,
            final(self).at <= final(self).args@.len(),
            (step@, final(self).at as int, final(self).found@) == parsed(
                words::text_views(old(self).args@),
                old(self).at as int,
                old(self).found@,
            ),
    {
        let ghost args = words::text_views(self.args@);
        while self.at < self.args.len()
            invariant
                self.args == old(self).args,
                args == words::text_views(self.args@),
                self.at <= self.args@.len(),
                parsed(args, old(self).at as int, old(self).found@) == parsed(
                    args,
                    self.at as int,
                    self.found@,
                ),
            decreases self.args@.len() - self.at,
        {
            if let Some(step) = self.turn() {
                return step;
            }
        }
        Step::Done
    }
}

/// What one argument did to a parser.
spec fn turned(turn: TurnView, before: Parser, after: Parser, end: Option<Step>) -> bool {
    &&& after.at <= after.args@.len()
    &&& match turn {
        TurnView::On(next, st) => {
            &&& end is None
            &&& after.at == next
            &&& before.at < next
            &&& after.found@ == st
        },
        TurnView::End(step, next) => {
            &&& end is Some
            &&& end->0@ == step
            &&& after.at == next
            &&& after.found@ == before.found@
        },
    }
}

/// Whether the command line asks for an update of the program itself, and if so whether only to look
/// for one.
pub fn update_command(args: &Vec<String>) -> (asked: Option<bool>)
    ensures
        asked is Some <==> args@.len() > 0 && args@[0]@ == "update"@,
        asked == (if args@.len() > 0 && args@[0]@ == "update"@ {
            Some(words::text_views(args@).contains("--check"@))
        } else {
            None
        }),
{
    if args.len() == 0 || !text::same(args[0].as_str(), "update") {
        return None;
    }
    let ghost all = words::text_views(args@);
    let mut k: usize = 0;
    while k < args.len()
        invariant
            all == words::text_views(args@),
            k <= args@.len(),
            args@.len() > 0 && args@[0]@ == "update"@,
            forall|j: int| 0 <= j < k ==> #[trigger] all[j] != "--check"@,
        decreases args@.len() - k,
    {
        assert(all[k as int] == args@[k as int]@);
        if text::same(args[k].as_str(), "--check") {
            assert(all.contains("--check"@));
            return Some(true);
        }
        k += 1;
    }
    Some(false)
}

/// However the command line ends, there is at least one thread.
pub proof fn law_at_least_one_thread(args: Seq<Seq<char>>, at: int, st: ArgsView)
    requires
        st.threads >= 1,
    ensures
        parsed(args, at, st).2.threads >= 1,
    decreases args.len() - at,
{
    if at < args.len() {
        match turn(args, at, st) {
            TurnView::On(next, st2) => {
                if next > at {
                    assert(st2.threads >= 1) by {
                        lemma_flags_keep_threads(st, args[at].skip(1));
                    }
                    law_at_least_one_thread(args, next, st2);
                }
            },
            TurnView::End(_, _) => {},
        }
    }
}

proof fn lemma_flags_keep_threads(st: ArgsView, flags: Seq<char>)
    ensures
        bundled(st, flags) is Ok ==> bundled(st, flags)->Ok_0.threads == st.threads,
    decreases flags.len(),
{
    if flags.len() > 0 {
        if flags[0] == 'a' {
            lemma_flags_keep_threads(ArgsView { disk_usage: false, ..st }, flags.skip(1));
        } else if flags[0] == 'x' {
            lemma_flags_keep_threads(ArgsView { one_file_system: true, ..st }, flags.skip(1));
        } else if flags[0] == 'r' {
            lemma_flags_keep_threads(ArgsView { read_only: true, ..st }, flags.skip(1));
        }
    }
}

} // verus!
