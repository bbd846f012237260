use rcdu::dump::{export, import, version, DumpError, Refusal};
use rcdu::json::write_json_string;
use rcdu::model::{Excluded, NodeKind, Tree};

fn child(
    t: &mut Tree,
    parent: usize,
    name: &str,
    kind: NodeKind,
    apparent: u64,
    disk: u64,
    ino: u64,
) -> usize {
    t.import_child(
        parent,
        name.into(),
        kind,
        apparent,
        disk,
        1,
        ino,
        false,
        false,
        Excluded::No,
        false,
    )
}

fn loaded(bytes: &[u8]) -> Tree {
    match import(bytes) {
        Ok(t) => t,
        Err(e) => panic!("{}", e.message()),
    }
}

fn refusal(text: &str) -> String {
    match import(text.as_bytes()) {
        Ok(_) => panic!("accepted {text}"),
        Err(e) => e.message(),
    }
}

#[test]
fn export_then_import_roundtrips_totals() {
    // Build a small tree by hand via the import path, export it, re-import, compare totals.
    let mut t = Tree::new_imported("/root".into(), 4096, 4096, 1, 2);
    let root = t.root;
    let d = child(&mut t, root, "sub", NodeKind::Dir, 4096, 4096, 3);
    child(&mut t, d, "a", NodeKind::File, 1000, 2048, 4);
    child(&mut t, root, "b", NodeKind::File, 500, 512, 5);
    let total = t.nodes[t.root].apparent;

    let mut buf = Vec::new();
    export(&t, 1_700_000_000, &mut buf);
    let t2 = loaded(&buf[..]);

    assert_eq!(t2.nodes[t2.root].apparent, total);
    assert_eq!(t2.total_files, t.total_files);
    assert_eq!(t2.total_dirs, t.total_dirs);
    assert_eq!(t2.nodes[t2.root].name.as_str(), "/root");
}

#[test]
fn every_field_survives_a_round_trip() {
    let mut t = Tree::new_imported("/r\"\\\n\u{1}é".into(), 1, 512, 1, 2);
    let root = t.root;
    let kinds = [
        (NodeKind::File, true, false, Excluded::No, false),
        (NodeKind::File, true, true, Excluded::No, false),
        (NodeKind::Other, false, false, Excluded::No, true),
        (NodeKind::Link, false, false, Excluded::Pattern, false),
        (NodeKind::Dir, false, false, Excluded::OtherFs, false),
    ];
    for (k, (kind, hlink, shared, excluded, err)) in kinds.into_iter().enumerate() {
        t.import_child(
            root,
            ["a", "b", "c", "d", "e"][k].into(),
            kind,
            10,
            1024,
            1,
            9,
            hlink,
            shared,
            excluded,
            err,
        );
    }
    let mut first = Vec::new();
    export(&t, 7, &mut first);
    let again = loaded(&first);
    assert_eq!(again.nodes[0].name.as_str(), "/r\"\\\n\u{1}é");
    assert_eq!(again.nodes.len(), t.nodes.len());
    assert_eq!(again.nodes[0].apparent, t.nodes[0].apparent);
    assert_eq!(again.nodes[0].disk, t.nodes[0].disk);
    for i in 0..t.nodes.len() {
        assert_eq!(again.nodes[i].shared, t.nodes[i].shared, "{i}");
        assert_eq!(again.nodes[i].hlink, t.nodes[i].hlink, "{i}");
        assert_eq!(again.nodes[i].read_error, t.nodes[i].read_error, "{i}");
        assert!(again.nodes[i].excluded == t.nodes[i].excluded, "{i}");
    }
    let mut second = Vec::new();
    export(&again, 7, &mut second);
    assert_eq!(first, second);
}

#[test]
fn the_text_of_a_dump() {
    let mut t = Tree::new_imported("/r".into(), 4096, 4096, 1, 2);
    let root = t.root;
    child(&mut t, root, "f", NodeKind::File, 5, 512, 3);
    let mut buf = Vec::new();
    export(&t, 42, &mut buf);
    let text = String::from_utf8(buf).unwrap();
    assert!(text.starts_with("[1,2,{\"progname\":\"rcdu\",\"progver\":\"0.1.0\",\"timestamp\":42},"));
    assert!(text.contains("{\"name\":\"f\",\"asize\":5,\"dsize\":512"), "{text}");
    assert!(text.ends_with("]\n"));
    assert_eq!(version(), "0.1.0");
}

#[test]
fn strings_are_escaped() {
    let mut out = String::new();
    write_json_string("a\"b\\c\n\r\t\u{8}\u{c}\u{1f}é", &mut out);
    let back: String = serde_json::from_str(&out).unwrap();
    assert_eq!(back, "a\"b\\c\n\r\t\u{8}\u{c}\u{1f}é");
}

#[test]
fn what_is_no_dump_is_refused() {
    assert!(matches!(import(b"{"), Err(DumpError::Json(_))));
    assert!(matches!(import(b"{}"), Err(DumpError::Refused(Refusal::TopLevel))));
    assert!(matches!(import(b"[1,2,{}]"), Err(DumpError::Refused(Refusal::MissingRoot))));
    assert!(matches!(import(b"[1,2,{},3]"), Err(DumpError::Refused(Refusal::RootNotDirectory))));
    assert!(matches!(import(b"[1,2,{},[]]"), Err(DumpError::Refused(Refusal::EmptyRoot))));
    let big = "[1,2,{},[{\"name\":\"/\",\"asize\":1},{\"name\":\"f\",\"asize\":18446744073709551615}]]";
    assert!(matches!(import(big.as_bytes()), Err(DumpError::Refused(Refusal::TooLarge))));
    assert!(refusal("nonsense").starts_with("invalid JSON: expected"), "{}", refusal("nonsense"));
    assert!(!refusal("[]").is_empty());
}

#[test]
fn foreign_dumps_are_read() {
    let text = r#"[1,2,{"progname":"ncdu"},
        [{"name":"/x","dev":3},
         {"name":"a","asize":10,"dsize":4096,"ino":5,"hlnkc":true,"nlink":2},
         {"name":"b","asize":10,"dsize":4096,"ino":5,"hlnkc":true,"nlink":2},
         {"name":"c","notreg":true},
         {"name":"d","excluded":"pattern","asize":99},
         [{"name":"e","read_error":true}]]]"#;
    let t = loaded(text.as_bytes());
    assert_eq!(t.nodes[0].apparent, 10, "a hard link counts once");
    assert_eq!(t.nodes.iter().filter(|n| n.shared).count(), 1);
    assert_eq!((t.total_dirs, t.total_files), (2, 4));
    assert!(t.nodes[5].read_error);
    assert!(t.subtree_complete(0));
}

#[test]
fn an_imported_tree_survives_an_export_whole() {
    // Links to one inode of different sizes, an excluded directory with contents, an empty array, and
    // a directory that calls itself irregular.
    let text = r#"[1,2,{},[{"name":"/r","asize":1},
        {"name":"l1","asize":5,"dsize":6,"ino":9,"dev":1,"hlnkc":true},
        [],
        [{"name":"x","asize":2,"excluded":"otherfs","notreg":true},
            {"name":"in","asize":40,"read_error":true},
            {"name":"l0","asize":3,"ino":9,"dev":1,"hlnkc":true}],
        [{"name":"d","asize":4},{"name":"s","notreg":true,"asize":1}],
        {"name":"l2","asize":7,"ino":9,"dev":1,"hlnkc":true}]]"#;
    let t = loaded(text.as_bytes());
    assert_eq!(t.nodes[t.root].apparent, 1 + 5 + 4 + 1);
    let mut buf = Vec::new();
    export(&t, 7, &mut buf);
    let u = loaded(&buf[..]);
    assert_eq!(t.nodes.len(), u.nodes.len());
    for (a, b) in t.nodes.iter().zip(u.nodes.iter()) {
        assert_eq!(a.name.as_str(), b.name.as_str());
        assert_eq!((a.apparent, a.disk, a.dev, a.ino), (b.apparent, b.disk, b.dev, b.ino));
        assert_eq!((a.parent, &a.children), (b.parent, &b.children));
        assert_eq!((a.hlink, a.shared, a.read_error), (b.hlink, b.shared, b.read_error));
        assert!(a.kind == b.kind && a.excluded == b.excluded);
    }
    assert_eq!((t.total_files, t.total_dirs), (u.total_files, u.total_dirs));
}

#[test]
fn links_below_an_excluded_directory_claim_no_inode() {
    let text = r#"[1,2,{},[{"name":"/r"},
        [{"name":"x","excluded":"pattern"},{"name":"l0","asize":3,"ino":9,"dev":1,"hlnkc":true}],
        {"name":"l1","asize":5,"ino":9,"dev":1,"hlnkc":true},
        {"name":"l2","asize":5,"ino":9,"dev":1,"hlnkc":true}]]"#;
    let t = loaded(text.as_bytes());
    let shared: Vec<bool> = t.nodes.iter().map(|n| n.shared).collect();
    assert_eq!(shared, vec![false, false, false, false, true]);
    assert_eq!(t.nodes[t.root].apparent, 5);
}
