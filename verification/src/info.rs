//! Details of one entry, and the small words that stand for it in a list.
use vstd::prelude::*;

use crate::app::App;
use crate::clock;
use crate::edit;
use crate::model::{Excluded, NodeIdx, NodeKind};
use crate::size;
use crate::state;
use crate::state::AppView;
use crate::text;
use crate::tree;
use crate::tree::NodeView;
use crate::words;

verus! {

/// The character that stands for the kind of an entry.
pub open spec fn indicator_char(kind: NodeKind, shared: bool, excluded: bool, read_error: bool) -> char {
    if read_error {
        '!'
    } else if excluded {
        '<'
    } else if shared {
        'H'
    } else {
        match kind {
            NodeKind::Dir => '/',
            NodeKind::Link => '@',
            NodeKind::Other => '*',
            NodeKind::File => ' ',
        }
    }
}

/// A short type indicator for an entry (mirrors ncdu's column).
pub fn indicator(kind: NodeKind, shared: bool, excluded: bool, read_error: bool) -> (c: char)
    ensures
        c == indicator_char(kind, shared, excluded, read_error),
{
    if read_error {
        '!'
    } else if excluded {
        '<'
    } else if shared {
        'H'
    } else {
        match kind {
            NodeKind::Dir => '/',
            NodeKind::Link => '@',
            NodeKind::Other => '*',
            NodeKind::File => ' ',
        }
    }
}

/// What a look at the disk tells of an entry.
#[derive(Clone, Copy)]
pub struct DiskInfo {
    pub mode: u32,
    pub uid: u32,
    pub gid: u32,
    pub mtime: i64,
    pub ino: u64,
    pub nlink: u64,
}

pub open spec fn pair_views(rows: Seq<(String, String)>) -> Seq<(Seq<char>, Seq<char>)> {
    rows.map_values(|r: (String, String)| (r.0@, r.1@))
}

/// The name of a kind of entry.
pub open spec fn kind_name(kind: NodeKind) -> Seq<char> {
    match kind {
        NodeKind::Dir => "directory"@,
        NodeKind::File => "file"@,
        NodeKind::Link => "symlink"@,
        NodeKind::Other => "special"@,
    }
}

/// Why an entry was left out.
pub open spec fn exclusion(excluded: Excluded) -> Seq<char> {
    match excluded {
        Excluded::No => Seq::empty(),
        Excluded::Pattern => "matched --exclude pattern"@,
        Excluded::OtherFs => "different filesystem (-x)"@,
        Excluded::Age => "outside the --older-than/--newer-than window"@,
    }
}

/// A row, if there is a reason for it.
pub open spec fn row_if(when: bool, label: Seq<char>, value: Seq<char>) -> Seq<(Seq<char>, Seq<char>)> {
    if when {
        seq![(label, value)]
    } else {
        Seq::empty()
    }
}

/// The node's own (non-recursive) size in the current metric.
pub open spec fn own_size(a: AppView, idx: int) -> int {
    if a.disk_usage {
        edit::own_disk(a.tree.nodes, idx)
    } else {
        edit::own_apparent(a.tree.nodes, idx)
    }
}

/// The rows that every entry has.
pub open spec fn basic_rows(a: AppView, idx: int) -> Seq<(Seq<char>, Seq<char>)> {
    let n = a.tree.nodes[idx];
    seq![
        ("path"@, edit::path(a.tree.nodes, idx)),
        ("type"@, kind_name(n.kind)),
        ("total size"@, words::trimmed_start(size::size_text(state::shown_size(n, a.disk_usage)))),
        ("own size"@, words::trimmed_start(size::size_text(own_size(a, idx)))),
    ]
}

/// The rows that say what is special about an entry.
pub open spec fn special_rows(n: NodeView) -> Seq<(Seq<char>, Seq<char>)> {
    row_if(tree::is_dir(n), "entries"@, text::decimal(n.children.len())) + row_if(
        n.hlink,
        "hard links"@,
        "yes"@,
    ) + row_if(n.shared, "duplicate"@, "hard link already counted elsewhere"@) + row_if(
        n.excluded != Excluded::No,
        "excluded"@,
        exclusion(n.excluded),
    ) + row_if(n.read_error, "read error"@, "yes"@)
}

/// The rows on what is found on disk.
pub open spec fn disk_rows(disk: Option<DiskInfo>) -> Seq<(Seq<char>, Seq<char>)> {
    match disk {
        Some(m) => seq![
            ("permissions"@, text::octal((m.mode % 4096) as nat)),
            ("owner"@, text::decimal(m.uid as nat) + ":"@ + text::decimal(m.gid as nat)),
            ("modified"@, clock::time_text(m.mtime as int)),
            ("inode"@, text::decimal(m.ino as nat)),
            ("links"@, text::decimal(m.nlink as nat)),
        ],
        None => seq![
            ("on disk"@, "unavailable (deleted since scanning, or dump paths are gone)"@),
        ],
    }
}

/// All rows of the info popup.
pub open spec fn info_rows(a: AppView, idx: int, disk: Option<DiskInfo>) -> Seq<
    (Seq<char>, Seq<char>),
> {
    basic_rows(a, idx) + special_rows(a.tree.nodes[idx]) + disk_rows(disk)
}

/// One more row.
fn add_row(rows: &mut Vec<(String, String)>, label: &str, value: String)
    ensures
        pair_views(final(rows)@) == pair_views(old(rows)@).push((label@, value@)),
{
    let ghost had = rows@;
    rows.push((label.to_string(), value));
    assert(pair_views(rows@) =~= pair_views(had).push((label@, value@)));
}

/// One more row, if there is a reason for it.
fn add_row_if(rows: &mut Vec<(String, String)>, when: bool, label: &str, value: &str)
    ensures
        pair_views(final(rows)@) == pair_views(old(rows)@) + row_if(when, label@, value@),
{
    let ghost had = pair_views(rows@);
    if when {
        add_row(rows, label, value.to_string());
        assert(had.push((label@, value@)) =~= had + seq![(label@, value@)]);
    } else {
        assert(had + Seq::empty() =~= had);
    }
}

/// The rows that every entry has.
fn add_basic_rows(app: &App, idx: NodeIdx, rows: &mut Vec<(String, String)>)
    requires
        app.wf(),
        idx < app.tree.nodes.len(),
    ensures
        pair_views(final(rows)@) == pair_views(old(rows)@) + basic_rows(app@, idx as int),
{
    proof {
        reveal(state::valid);
    }
    let ghost had = pair_views(rows@);
    let n = &app.tree.nodes[idx];
    assert(n@ == app@.tree.nodes[idx as int]);
    add_row(rows, "path", app.tree.path_of(idx));
    let kind = match n.kind {
        NodeKind::Dir => "directory",
        NodeKind::File => "file",
        NodeKind::Link => "symlink",
        NodeKind::Other => "special",
    };
    add_row(rows, "type", kind.to_string());
    let total = size::fmt_size(app.size_of(idx));
    add_row(rows, "total size", words::trim_start(total.as_str()));
    let own = size::fmt_size(app.own_size_of(idx));
    add_row(rows, "own size", words::trim_start(own.as_str()));
    assert(pair_views(rows@) =~= had + basic_rows(app@, idx as int));
}

/// The rows that say what is special about an entry.
fn add_special_rows(app: &App, idx: NodeIdx, rows: &mut Vec<(String, String)>)
    requires
        app.wf(),
        idx < app.tree.nodes.len(),
    ensures
        pair_views(final(rows)@) == pair_views(old(rows)@) + special_rows(
            app@.tree.nodes[idx as int],
        ),
{
    proof {
        reveal(state::valid);
    }
    let ghost had = pair_views(rows@);
    let n = &app.tree.nodes[idx];
    assert(n@ == app@.tree.nodes[idx as int]);
    let entries = text::decimal_text(n.children.len() as u64);
    let why = match n.excluded {
        Excluded::No => "",
        Excluded::Pattern => "matched --exclude pattern",
        Excluded::OtherFs => "different filesystem (-x)",
        Excluded::Age => "outside the --older-than/--newer-than window",
    };
    add_row_if(rows, n.is_dir(), "entries", entries.as_str());
    add_row_if(rows, n.hlink, "hard links", "yes");
    add_row_if(rows, n.shared, "duplicate", "hard link already counted elsewhere");
    add_row_if(rows, n.excluded != Excluded::No, "excluded", why);
    add_row_if(rows, n.read_error, "read error", "yes");
    proof {
        lemma_five(
            had,
            row_if(tree::is_dir(n@), "entries"@, text::decimal(n@.children.len())),
            row_if(n.hlink, "hard links"@, "yes"@),
            row_if(n.shared, "duplicate"@, "hard link already counted elsewhere"@),
            row_if(n.excluded != Excluded::No, "excluded"@, exclusion(n.excluded)),
            row_if(n.read_error, "read error"@, "yes"@),
        );
    }
}

proof fn lemma_five<T>(had: Seq<T>, a: Seq<T>, b: Seq<T>, c: Seq<T>, d: Seq<T>, e: Seq<T>)
    ensures
        had + a + b + c + d + e == had + (a + b + c + d + e),
{
    assert(had + a + b + c + d + e =~= had + (a + b + c + d + e));
}

/// The rows on what is found on disk.
fn add_disk_rows(disk: Option<DiskInfo>, rows: &mut Vec<(String, String)>)
    ensures
        pair_views(final(rows)@) == pair_views(old(rows)@) + disk_rows(disk),
{
    let ghost had = pair_views(rows@);
    match disk {
        Some(m) => {
            add_row(rows, "permissions", text::octal_text((m.mode % 4096) as u64));
            let mut owner = text::decimal_text(m.uid as u64);
            owner.append(":");
            owner.append(text::decimal_text(m.gid as u64).as_str());
            add_row(rows, "owner", owner);
            add_row(rows, "modified", clock::fmt_time(m.mtime));
            add_row(rows, "inode", text::decimal_text(m.ino));
            add_row(rows, "links", text::decimal_text(m.nlink));
        },
        None => add_row(
            rows,
            "on disk",
            "unavailable (deleted since scanning, or dump paths are gone)".to_string(),
        ),
    }
    assert(pair_views(rows@) =~= had + disk_rows(disk));
}

impl App {
    /// Rows for the info popup: tree data plus what a look at the disk gave. Nothing of it is stored
    /// in the node, keeping the tree lean; if the path is gone (deleted mid-session, or a dump whose
    /// paths no longer exist) only the tree data is shown.
    pub fn info_pairs(&self, idx: NodeIdx, disk: Option<DiskInfo>) -> (rows: Vec<(String, String)>)
        requires
            self.wf(),
            idx < self.tree.nodes.len(),
        ensures
            pair_views(rows@) == info_rows(self@, idx as int, disk),
    {
        proof {
            reveal(state::valid);
        }
        let mut rows: Vec<(String, String)> = Vec::new();
        assert(pair_views(rows@) =~= Seq::empty());
        add_basic_rows(self, idx, &mut rows);
        add_special_rows(self, idx, &mut rows);
        add_disk_rows(disk, &mut rows);
        assert(pair_views(rows@) =~= info_rows(self@, idx as int, disk));
        rows
    }
}

} // verus!
