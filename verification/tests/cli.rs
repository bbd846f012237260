use rcdu::app::{App, Modal};
use rcdu::cli::{help_text, update_command, Args, Parser, Step};
use rcdu::keys::{decode_key, Key, Mode};
use rcdu::model::Tree;
use rcdu::state::KeyAction;
use rcdu::words::{lines, split_whitespace, trim};

fn parse(args: &[&str]) -> (Step, Args) {
    let mut p = Parser::new(args.iter().map(|a| a.to_string()).collect(), 16);
    let step = p.run();
    (step, p.found)
}

fn failure(args: &[&str]) -> String {
    match parse(args).0 {
        Step::Fail(why) => why,
        _ => panic!("accepted {args:?}"),
    }
}

#[test]
fn usage() {
    let help = help_text("1.2.3");
    assert!(help.starts_with("rcdu 1.2.3 — interactive, SSD-optimized disk usage explorer"));
    assert!(help.contains("\n    -r, --read-only          disable the delete feature\n"));
    assert!(help.ends_with("q/Esc   quit"));
    assert_eq!(help.lines().count(), 25);
}

#[test]
fn updates() {
    let asked = |args: &[&str]| update_command(&args.iter().map(|a| a.to_string()).collect());
    assert_eq!(asked(&[]), None);
    assert_eq!(asked(&["/tmp", "update"]), None);
    assert_eq!(asked(&["update"]), Some(false));
    assert_eq!(asked(&["update", "--check"]), Some(true));
}

#[test]
fn defaults() {
    let (step, args) = parse(&[]);
    assert!(matches!(step, Step::Done));
    assert_eq!(args.root(), ".");
    assert_eq!(args.threads, 16);
    assert!(args.disk_usage && !args.one_file_system && !args.read_only);
    assert!(args.excludes.is_empty() && args.export.is_none() && args.import.is_none());
}

#[test]
fn options() {
    let (step, args) = parse(&[
        "-t", "3", "-a", "-x", "-r", "--exclude", "*.o", "--exclude", "x", "-o", "-", "--file",
        "in.json", "/first", "/second",
    ]);
    assert!(matches!(step, Step::Done));
    assert_eq!(args.threads, 3);
    assert!(!args.disk_usage && args.one_file_system && args.read_only);
    assert_eq!(args.excludes, vec!["*.o", "x"]);
    assert_eq!(args.export.as_deref(), Some("-"));
    assert_eq!(args.import.as_deref(), Some("in.json"));
    assert_eq!(args.root(), "/second");
    assert_eq!(parse(&["--threads", "0"]).1.threads, 1);
    assert_eq!(parse(&["-"]).1.root(), "-");
}

#[test]
fn bundles() {
    let (_, args) = parse(&["-rxa"]);
    assert!(!args.disk_usage && args.one_file_system && args.read_only);
    assert_eq!(failure(&["-rq"]), "unknown flag -q in -rq");
    assert_eq!(failure(&["-é"]), "unknown flag -é in -é");
    assert_eq!(failure(&["-q"]), "unknown option: -q");
    assert_eq!(failure(&["--nope"]), "unknown option: --nope");
}

#[test]
fn mistakes() {
    assert_eq!(failure(&["-t"]), "--threads needs a value");
    assert_eq!(failure(&["-t", "many"]), "--threads must be a number");
    assert_eq!(failure(&["--exclude"]), "--exclude needs a pattern");
    assert_eq!(failure(&["-X"]), "--exclude-from needs a file");
    assert_eq!(failure(&["-o"]), "-o needs a file (or -)");
    assert_eq!(failure(&["-f"]), "-f needs a file (or -)");
}

#[test]
fn help_and_version_end_the_reading() {
    assert!(matches!(parse(&["-x", "-h", "--nope"]).0, Step::Help));
    assert!(matches!(parse(&["--help"]).0, Step::Help));
    for v in ["-V", "-v", "--version"] {
        assert!(matches!(parse(&[v]).0, Step::Version));
    }
}

#[test]
fn pattern_files_are_read_on_the_way() {
    let args = ["--exclude", "a", "-X", "list", "--exclude", "z", "-r"];
    let mut p = Parser::new(args.iter().map(|a| a.to_string()).collect(), 1);
    match p.run() {
        Step::Read(file) => assert_eq!(file, "list"),
        _ => panic!("no file"),
    }
    p.found.exclude_all("# comment\n\n  b  \r\n\t#c\nd");
    assert!(matches!(p.run(), Step::Done));
    assert_eq!(p.found.excludes, vec!["a", "b", "d", "z"]);
    assert!(p.found.read_only);
}

#[test]
fn keys_while_browsing() {
    let press = |key: Key| decode_key(key, false, Mode::Browse, 7);
    let hold = |c: char| decode_key(Key::Char(c), true, Mode::Browse, 7);
    for (c, action) in [
        ('q', KeyAction::Quit),
        ('j', KeyAction::Down),
        ('k', KeyAction::Up),
        ('g', KeyAction::Top),
        ('G', KeyAction::Bottom),
        ('l', KeyAction::Enter),
        ('h', KeyAction::Leave),
        ('s', KeyAction::ToggleSort),
        ('a', KeyAction::ToggleUsage),
        ('d', KeyAction::Delete),
        ('o', KeyAction::Open),
        ('y', KeyAction::Confirm),
        ('Y', KeyAction::Confirm),
        ('n', KeyAction::Cancel),
        ('N', KeyAction::Cancel),
        ('?', KeyAction::Help),
        ('/', KeyAction::Search),
        ('t', KeyAction::TopFiles),
        ('i', KeyAction::Info),
        ('r', KeyAction::Refresh),
        ('e', KeyAction::Export),
        ('x', KeyAction::NextError),
        ('!', KeyAction::NextError),
    ] {
        assert_eq!(press(Key::Char(c)), Some(action), "{c}");
    }
    for (key, action) in [
        (Key::Esc, KeyAction::Quit),
        (Key::Down, KeyAction::Down),
        (Key::Up, KeyAction::Up),
        (Key::Home, KeyAction::Top),
        (Key::End, KeyAction::Bottom),
        (Key::Enter, KeyAction::Enter),
        (Key::Right, KeyAction::Enter),
        (Key::Backspace, KeyAction::Leave),
        (Key::Left, KeyAction::Leave),
        (Key::PageDown, KeyAction::PageDown(7)),
        (Key::PageUp, KeyAction::PageUp(7)),
    ] {
        assert_eq!(press(key), Some(action));
    }
    assert_eq!(press(Key::Char('c')), None);
    assert_eq!(press(Key::Char('u')), None);
    assert_eq!(press(Key::Other), None);
    assert_eq!(hold('c'), Some(KeyAction::Quit));
    assert_eq!(hold('d'), Some(KeyAction::PageDown(7)));
    assert_eq!(hold('u'), Some(KeyAction::PageUp(7)));
    assert_eq!(hold('q'), Some(KeyAction::Quit));
}

#[test]
fn keys_while_typing_or_closing() {
    let typed = |key: Key| decode_key(key, false, Mode::Filter, 7);
    assert_eq!(typed(Key::Char('q')), Some(KeyAction::FilterChar('q')));
    assert_eq!(typed(Key::Backspace), Some(KeyAction::FilterBackspace));
    assert_eq!(typed(Key::Enter), Some(KeyAction::FilterConfirm));
    assert_eq!(typed(Key::Esc), Some(KeyAction::FilterCancel));
    assert_eq!(typed(Key::Up), None);
    assert_eq!(decode_key(Key::Char('c'), true, Mode::Filter, 7), None);
    assert_eq!(decode_key(Key::Other, false, Mode::AnyKey, 7), Some(KeyAction::Cancel));
    assert_eq!(decode_key(Key::Char('q'), false, Mode::AnyKey, 7), Some(KeyAction::Quit));

    let mut app = App::new(Tree::new("/r".into(), 0, 0, 1, 1), true, false, false);
    assert!(app.key_mode() == Mode::Browse);
    app.on_key(KeyAction::Search);
    assert!(app.key_mode() == Mode::Filter);
    app.modal = Modal::Help;
    assert!(app.key_mode() == Mode::AnyKey);
    app.modal = Modal::ConfirmDelete(0);
    assert!(app.key_mode() == Mode::Browse);
}

#[test]
fn words_and_lines() {
    assert_eq!(trim(" \u{a0}a b\u{3000}\n"), "a b");
    assert_eq!(split_whitespace("  a\tb \u{2003}c "), vec!["a", "b", "c"]);
    assert_eq!(lines("a\r\nb\n\nc\r"), vec!["a", "b", "", "c\r"]);
    for s in ["", "\n", "a", "a\n", "a\n\n", "\r\n"] {
        assert_eq!(lines(s), s.lines().map(|l| l.to_string()).collect::<Vec<_>>(), "{s:?}");
    }
}
