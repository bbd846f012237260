use rcdu::app::{App, Modal, PendingDelete};
use rcdu::model::{Excluded, NodeKind, Tree};
use rcdu::outside::Area;
use rcdu::size::fmt_size;
use rcdu::state::{KeyAction, SortKey};
use rcdu::top::{TopEntry, TopFiles};
use rcdu::ui::{
    bar, confirm_lines, confirm_width, footer_line, header_lines, help_lines, info_lines, listing,
    page_rows, popup, popup_height, rows_needed, top_height, top_hint, top_lines, top_title,
    top_width, wrapped_height, Line, Span, Tone, WIDE_POPUP,
};

use crossbeam_channel::unbounded;
use ratatui::layout::{Constraint, Flex, Layout, Rect};

fn child(t: &mut Tree, parent: usize, name: &str, kind: NodeKind, size: u64) -> usize {
    t.import_child(parent, name.into(), kind, size, size, 1, 1, false, false, Excluded::No, false)
}

fn app() -> App {
    let mut t = Tree::new_imported("/r".into(), 100, 100, 1, 1);
    let root = t.root;
    let d = child(&mut t, root, "dir", NodeKind::Dir, 2048);
    child(&mut t, d, "inner", NodeKind::File, 1024);
    child(&mut t, root, "file", NodeKind::File, 700);
    child(&mut t, root, "link", NodeKind::Link, 3);
    App::new(t, true, false, false)
}

fn text(line: &Line) -> String {
    line.spans.iter().map(|s| s.text.as_str()).collect()
}

/// Human-readable size the way floating point gives it.
fn float_size(bytes: u64) -> String {
    let units = ["  B", "KiB", "MiB", "GiB", "TiB", "PiB"];
    let mut v = bytes as f64;
    let mut u = 0;
    while v >= 1024.0 && u < units.len() - 1 {
        v /= 1024.0;
        u += 1;
    }
    if u == 0 {
        format!("{:>6} {}", bytes, units[u])
    } else {
        format!("{:>6.1} {}", v, units[u])
    }
}

#[test]
fn sizes() {
    assert_eq!(fmt_size(0), "     0   B");
    assert_eq!(fmt_size(1023), "  1023   B");
    assert_eq!(fmt_size(1024), "   1.0 KiB");
    assert_eq!(fmt_size(1536), "   1.5 KiB");
    assert_eq!(fmt_size(1_048_575), "1024.0 KiB");
    assert_eq!(fmt_size(1_048_576), "   1.0 MiB");
    assert_eq!(fmt_size(u64::MAX), "16384.0 PiB");
}

#[test]
fn sizes_agree_with_floating_point() {
    let mut samples: Vec<u64> = vec![0, u64::MAX, u64::MAX - 1, 9_007_199_254_740_993];
    for shift in 0..64 {
        let p = 1u64 << shift;
        for d in [0, 1, 51, 102, 512] {
            samples.push(p.saturating_add(d));
            samples.push(p.saturating_sub(d));
            samples.push(p + p / 20);
            samples.push(p.saturating_add(p / 20 * 3));
        }
    }
    let mut x: u64 = 88172645463325252;
    for k in 0..20_000u64 {
        x ^= x << 13;
        x ^= x >> 7;
        x ^= x << 17;
        samples.push(x >> (k % 64));
    }
    for s in samples {
        assert_eq!(fmt_size(s), float_size(s), "{s}");
    }
}

#[test]
fn bars() {
    assert_eq!(bar(0, 4), "    ");
    assert_eq!(bar(3, 4), "### ");
    assert_eq!(bar(9, 4), "####");
}

#[test]
fn header() {
    let app = app();
    let lines = header_lines(&app);
    assert_eq!(text(&lines[0]), "rcdu  /r");
    assert_eq!(text(&lines[1]), "  total: 3.8 KiB  (disk usage)   own: 100   B");
    assert!(lines[0].spans[0].tone == Tone::Brand);
    assert!(lines[0].spans[2].tone == Tone::Bold);
}

#[test]
fn list() {
    let mut app = app();
    app.on_key(KeyAction::Down);
    let list = listing(&app);
    assert_eq!(list.title, " 3 items ");
    assert_eq!(list.selected, Some(1));
    assert_eq!(list.total, 3875);
    assert_eq!(list.largest, 3072);
    let labels: Vec<&str> = list.rows.iter().map(|r| r.label.text.as_str()).collect();
    assert_eq!(labels, vec!["/dir", " file", "@link"]);
    assert_eq!(list.rows[0].amount.text, "   3.0 KiB ");
    assert_eq!(list.rows[0].size, 3072);
    let tones: Vec<Tone> = list.rows.iter().map(|r| r.label.tone).collect();
    assert_eq!(tones, vec![Tone::Directory, Tone::Plain, Tone::Link]);

    app.on_key(KeyAction::Search);
    app.on_key(KeyAction::FilterChar('l'));
    assert_eq!(listing(&app).title, " 2 of 3 items ");
}

#[test]
fn list_marks_what_is_being_worked_on() {
    let mut app = app();
    let kids = app.sorted_children();
    let (_tx, rx) = unbounded();
    app.pending_delete = Some(PendingDelete { idx: kids[0], path: "/r/dir".into(), rx });
    app.refreshing_idx = Some(kids[1]);
    app.tick = 5;
    let list = listing(&app);
    assert_eq!(list.rows[0].label.text, "/dir  [/ deleting…]");
    assert!(list.rows[0].label.tone == Tone::Danger);
    assert_eq!(list.rows[1].label.text, " file  [/ rescanning…]");
    assert!(list.rows[1].label.tone == Tone::Busy);
}

#[test]
fn list_of_special_entries() {
    let mut t = Tree::new_imported("/r".into(), 0, 0, 1, 1);
    let root = t.root;
    for (name, size, shared, excluded, err) in [
        ("a", 9u64, false, Excluded::OtherFs, false),
        ("b", 8, false, Excluded::Pattern, false),
        ("c", 7, false, Excluded::Age, false),
        ("d", 6, true, Excluded::No, false),
        ("e", 5, false, Excluded::No, true),
    ] {
        t.import_child(
            root,
            name.into(),
            NodeKind::File,
            size,
            size,
            1,
            1,
            false,
            shared,
            excluded,
            err,
        );
    }
    t.import_child(
        root,
        "f".into(),
        NodeKind::Other,
        1,
        1,
        1,
        1,
        false,
        false,
        Excluded::No,
        false,
    );
    let app = App::new(t, true, false, false);
    let list = listing(&app);
    let labels: Vec<(&str, Tone)> =
        list.rows.iter().map(|r| (r.label.text.as_str(), r.label.tone)).collect();
    assert_eq!(
        labels,
        vec![
            ("<a  <other filesystem>", Tone::Dim),
            ("<b  <excluded>", Tone::Dim),
            ("<c  <excluded>", Tone::Dim),
            ("Hd", Tone::DimItalic),
            ("!e", Tone::Dim),
            ("*f", Tone::Special),
        ]
    );
}

#[test]
fn empty_lists() {
    let mut app = App::new(Tree::new("/r".into(), 0, 0, 1, 1), true, false, true);
    assert_eq!(listing(&app).title, " reading… ");
    app.scanning = false;
    let list = listing(&app);
    assert_eq!(list.title, " (empty) ");
    assert_eq!((list.total, list.largest, list.selected), (1, 1, None));
}

#[test]
fn footers() {
    let mut app = app();
    assert_eq!(
        text(&footer_line(&app, None)),
        " ? help  d delete  s sort:size  a usage  q quit   │   done  2 dirs  3 files"
    );
    app.sort = SortKey::Name;
    app.scanning = true;
    app.tick = 2;
    app.refreshing_idx = Some(1);
    app.filter = Some("l".to_string());
    assert_eq!(
        text(&footer_line(&app, Some(2048))),
        " ? help  d delete  s sort:name  a usage  q quit  │  /l (2/3)   │   - scanning  2.0 KiB/s  2 dirs  3 files  - rescanning dir…"
    );
    let (_tx, rx) = unbounded();
    app.pending_delete = Some(PendingDelete { idx: 1, path: "/r/dir".into(), rx });
    assert_eq!(
        text(&footer_line(&app, None)),
        " j/k move  l enter  h up  q quit  │ - deleting dir …"
    );
    app.searching = true;
    assert_eq!(text(&footer_line(&app, None)), " filter  /l▌  Enter apply · Esc cancel");
    app.status = Some("careful".to_string());
    let line = footer_line(&app, None);
    assert_eq!(text(&line), " careful");
    assert!(line.spans[0].tone == Tone::Warning);
}

#[test]
fn overlays() {
    let app = app();
    let help = help_lines();
    assert_eq!(help.len(), 23);
    assert_eq!(text(&help[0]), "rcdu — keys");
    assert_eq!(text(&help[17]), "  ?                 toggle this help");

    let dir = app.tree.nodes[0].children[0];
    let question = confirm_lines(&app, dir);
    assert_eq!(text(&question[2]), "  /r/dir");
    assert_eq!(
        text(&question[3]),
        "  This removes the directory and ALL its contents (3.0 KiB) from disk."
    );
    assert_eq!(text(&question[5]), "  y confirm    n / Esc cancel");
    let file = app.tree.nodes[0].children[1];
    assert_eq!(text(&confirm_lines(&app, file)[3]), "  This removes the file (700   B) from disk.");

    let info = info_lines(&vec![("path".to_string(), "/r".to_string())]);
    assert_eq!(text(&info[0]), "  path         /r");
    assert_eq!(text(&info[2]), "  press any key to close");
    assert!(info[0].spans[0].tone == Tone::Label);

    let top = TopFiles {
        items: vec![TopEntry { idx: 1, path: "a/b".to_string(), size: 1024 }],
        selected: 0,
    };
    assert_eq!(text(&top_lines(&top)[0]), "   1.0 KiB  a/b");
    assert_eq!(top_title(&app), " Top files in /r ");
    assert_eq!(
        text(&top_hint(&app)),
        " j/k move · Enter go to file · q close   (sizes: disk usage)"
    );
    assert!(matches!(app.modal, Modal::Closed));
}

#[test]
fn wrapping() {
    assert_eq!(rows_needed(&vec![0, 1, 10, 11, 20, 21], 10), Some(1 + 1 + 1 + 2 + 2 + 3));
    assert_eq!(rows_needed(&vec![5], 0), Some(5));
    assert_eq!(rows_needed(&vec![65535, 1], 1), None);
    assert_eq!(rows_needed(&vec![], 10), Some(0));
    assert_eq!(rows_needed(&vec![65537], 1), Some(1), "sixteen bits count the rows of a line");
}

fn line(pieces: &[&str]) -> Line {
    Line {
        spans: pieces.iter().map(|p| Span { text: p.to_string(), tone: Tone::Plain }).collect(),
    }
}

#[test]
fn wide_characters_take_two_columns() {
    // Four columns each: an ideograph counts twice.
    let lines = vec![line(&["abcd"]), line(&["日本"]), line(&["a", "b", "日"])];
    assert_eq!(wrapped_height(&lines, 4), Some(3));
    assert_eq!(wrapped_height(&lines, 3), Some(6));
    assert_eq!(popup_height(&lines, 6), Some(5));
    assert_eq!(popup_height(&help_lines(), WIDE_POPUP), Some(25));
}

#[test]
fn popups_are_centred_and_fit() {
    let screen = Area { x: 0, y: 0, width: 80, height: 24 };
    assert_eq!(
        popup(screen, 74, 10),
        Area { x: 3, y: 7, width: 74, height: 10 }
    );
    assert_eq!(popup(screen, 200, 100), screen);
}

#[test]
fn popups_stand_where_the_layout_puts_them() {
    for width in 0..24u16 {
        for height in 0..12u16 {
            let screen = Rect::new(2, 1, width, height);
            let [v] = Layout::vertical([Constraint::Length(5.min(height))])
                .flex(Flex::Center)
                .areas(screen);
            let [h] =
                Layout::horizontal([Constraint::Length(9.min(width))]).flex(Flex::Center).areas(v);
            let place = popup(Area { x: 2, y: 1, width, height }, 9, 5);
            assert_eq!(
                (place.x, place.y, place.width, place.height),
                (h.x, h.y, h.width, h.height),
                "{width} {height}"
            );
        }
    }
}

#[test]
fn popups_stand_in_the_middle() {
    let place = |x: u16, y: u16, width: u16, height: u16, w: u16, h: u16| {
        let room = |start: u16, length: u16| length.min(u16::MAX - start);
        let (width, height) = (room(x, width), room(y, height));
        let (w, h) = (w.min(width), h.min(height));
        Area {
            x: x + (width - w).div_ceil(2),
            y: y + (height - h).div_ceil(2),
            width: w,
            height: h,
        }
    };
    let sizes = [0u16, 1, 2, 3, 7, 24, 25, 79, 80, 81, 200, 201, 999, 1000, 32767, 65534, 65535];
    for (x, y) in [(0u16, 0u16), (3, 5), (1000, 1), (65530, 65535)] {
        for width in sizes {
            for w in sizes {
                let height = width / 3 + 1;
                let h = w / 2;
                assert_eq!(
                    popup(Area { x, y, width, height }, w, h),
                    place(x, y, width, height, w, h),
                    "{x} {y} {width} {w}"
                );
            }
        }
    }
    for width in 0..130u16 {
        for w in 0..130u16 {
            assert_eq!(
                popup(Area { x: 1, y: 0, width, height: 9 }, w, 4),
                place(1, 0, width, 9, w, 4),
                "{width} {w}"
            );
        }
    }
}

#[test]
fn a_path_with_line_feeds_stays_on_one_line() {
    let mut t = Tree::new_imported("/r".into(), 0, 0, 1, 1);
    let root = t.root;
    let idx = child(&mut t, root, "a\nb\r\nc\n", NodeKind::File, 1);
    let app = App::new(t, true, false, false);
    let lines = confirm_lines(&app, idx);
    let pieces: Vec<&str> = lines[2].spans.iter().map(|s| s.text.as_str()).collect();
    assert_eq!(pieces, vec!["  /r/a", "b", "c"]);
    // Eight columns in all: the line feeds take none.
    let one: Vec<Line> = lines.into_iter().skip(2).take(1).collect();
    assert_eq!(wrapped_height(&one, 8), Some(1));
    assert_eq!(wrapped_height(&one, 7), Some(2));
}

#[test]
fn popup_sizes() {
    assert_eq!((confirm_width(20), confirm_width(60), confirm_width(200)), (24, 56, 72));
    assert_eq!((top_width(0), top_width(60), top_width(200)), (28, 56, 96));
    assert_eq!(top_height(1, 24), 7);
    assert_eq!(top_height(10, 24), 15);
    assert_eq!(top_height(100, 24), 22);
    assert_eq!(top_height(100, 1), 7);
    assert_eq!((page_rows(24), page_rows(5), page_rows(0)), (19, 1, 1));
}
