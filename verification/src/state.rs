//! What the application shows, and what each key makes of it.
use vstd::prelude::*;

use crate::edit;
use crate::frontier::FrontierView;
use crate::model::NodeKind;
use crate::outside::Polled;
use crate::scan::{LedgerView, OptsView, SCAN_ID_STRIDE};
use crate::scan;
use crate::text;
use crate::totals;
use crate::tree::{BatchView, NodeView, TreeView};
use crate::tree;

verus! {

#[derive(Clone, Copy, PartialEq, Eq, Structural, Debug)]
pub enum SortKey {
    Size,
    Name,
}

/// Logical input actions, decoded from raw keys.
#[derive(Clone, Copy, PartialEq, Eq, Structural, Debug)]
pub enum KeyAction {
    Quit,
    Up,
    Down,
    Top,
    Bottom,
    Enter,
    Leave,
    ToggleSort,
    ToggleUsage,
    Help,
    Delete,
    Open,
    Confirm,
    Cancel,
    Search,
    FilterChar(char),
    FilterBackspace,
    FilterConfirm,
    FilterCancel,
    TopFiles,
    Refresh,
    Info,
    /// Jump by this many rows (the visible page height).
    PageDown(usize),
    PageUp(usize),
    Export,
    NextError,
}

/// One row of the top-files popup.
#[verifier::ext_equal]
pub struct TopView {
    pub idx: usize,
    pub path: Seq<char>,
    pub size: int,
}

/// A transient modal overlay.
pub enum ModalView {
    Closed,
    Help,
    ConfirmDelete(usize),
    TopFiles(Seq<TopView>, int),
    Info(usize),
}

/// The state of the application.
pub struct AppView {
    pub tree: TreeView,
    pub cur: usize,
    pub selected: Option<usize>,
    pub sort: SortKey,
    pub filter: Option<Seq<char>>,
    pub searching: bool,
    pub pre_search_selected: Option<usize>,
    pub disk_usage: bool,
    pub scanning: bool,
    pub read_only: bool,
    pub quit: bool,
    pub modal: ModalView,
    pub status: Option<Seq<char>>,
    /// The entry that is being deleted, and its path.
    pub deleting: Option<(usize, Seq<char>)>,
    /// The paths that are being opened.
    pub opening: Seq<Seq<char>>,
    pub quit_armed: bool,
    /// Of each scan whether it is a rescan, and whether it is alive.
    pub scans: Seq<(bool, bool)>,
    pub scan_opts: Option<OptsView>,
    pub refreshing_idx: Option<usize>,
    pub next_scan_base: int,
    pub bytes_seen: int,
    /// It is known when the current scan generation started.
    pub timed: bool,
    pub tick: usize,
}

/// What the surroundings have to do about a key.
pub enum EffectView {
    Nothing,
    /// Tell every live scan to prioritize this path.
    Focus(Seq<u8>),
    /// Remove this from disk.
    Delete(Seq<char>, bool),
    /// Open this with the platform's default handler.
    Open(Seq<char>),
    /// Scan with these jobs, this ledger and these options.
    Rescan(FrontierView, LedgerView, OptsView),
    /// Write a dump of the tree.
    Export,
}

// ---- Rows -----------------------------------------------------------------------------------------------

/// The aggregated size metric that is shown.
pub open spec fn shown_size(n: NodeView, disk_usage: bool) -> int {
    if disk_usage {
        n.disk
    } else {
        n.apparent
    }
}

/// `a` is shown no later than `b` when rows go by name; entries of the same name go by age.
pub open spec fn name_before(nodes: Seq<NodeView>, a: usize, b: usize) -> bool {
    if nodes[a as int].name == nodes[b as int].name {
        a <= b
    } else {
        text::at_most(nodes[a as int].name, nodes[b as int].name)
    }
}

/// `a` is shown no later than `b`: the larger one first, or by name.
pub open spec fn row_before(nodes: Seq<NodeView>, sort: SortKey, disk_usage: bool, a: usize, b: usize) -> bool {
    match sort {
        SortKey::Size => {
            let x = shown_size(nodes[a as int], disk_usage);
            let y = shown_size(nodes[b as int], disk_usage);
            x > y || (x == y && name_before(nodes, a, b))
        },
        SortKey::Name => name_before(nodes, a, b),
    }
}

pub open spec fn row_order(nodes: Seq<NodeView>, sort: SortKey, disk_usage: bool) -> spec_fn(
    usize,
    usize,
) -> bool {
    |a: usize, b: usize| row_before(nodes, sort, disk_usage, a, b)
}

/// Entries in the order in which they are shown.
pub open spec fn in_order(nodes: Seq<NodeView>, sort: SortKey, disk_usage: bool, kids: Seq<usize>) -> Seq<
    usize,
> {
    kids.sort_by(row_order(nodes, sort, disk_usage))
}

/// A byte with ASCII letters made small.
pub open spec fn ascii_lower(b: u8) -> u8 {
    if 65 <= b <= 90 {
        (b + 32) as u8
    } else {
        b
    }
}

/// The needle stands in the haystack at `at`, the case of ASCII letters aside.
pub open spec fn matches_at(haystack: Seq<u8>, needle: Seq<u8>, at: int) -> bool {
    &&& 0 <= at <= haystack.len() - needle.len()
    &&& forall|k: int|
        0 <= k < needle.len() ==> ascii_lower(haystack[at + k]) == ascii_lower(#[trigger] needle[k])
}

/// The needle stands somewhere in the haystack, the case of ASCII letters aside.
pub open spec fn has_ci(haystack: Seq<char>, needle: Seq<char>) -> bool {
    let h = vstd::utf8::encode_utf8(haystack);
    let n = vstd::utf8::encode_utf8(needle);
    exists|at: int| #[trigger] matches_at(h, n, at)
}

pub open spec fn name_has(nodes: Seq<NodeView>, query: Seq<char>) -> spec_fn(usize) -> bool {
    |k: usize| has_ci(nodes[k as int].name, query)
}

/// The rows that are shown: the children of the viewed directory in order, as far as their names
/// contain the filter.
pub open spec fn shown(a: AppView) -> Seq<usize> {
    let nodes = a.tree.nodes;
    let kids = in_order(nodes, a.sort, a.disk_usage, nodes[a.cur as int].children);
    match a.filter {
        Some(query) => kids.filter(name_has(nodes, query)),
        None => kids,
    }
}

/// The first of some rows.
pub open spec fn first_of(kids: Seq<usize>) -> Option<usize> {
    if kids.len() > 0 {
        Some(kids[0])
    } else {
        None
    }
}

/// The last of some rows.
pub open spec fn last_of(kids: Seq<usize>) -> Option<usize> {
    if kids.len() > 0 {
        Some(kids.last())
    } else {
        None
    }
}

/// The selection, or the first row if it is not shown.
pub open spec fn kept_selection(selected: Option<usize>, kids: Seq<usize>) -> Option<usize> {
    if selected is Some && kids.contains(selected->0) {
        selected
    } else {
        first_of(kids)
    }
}

/// The first position of an entry among some rows.
pub open spec fn position(kids: Seq<usize>, k: usize) -> Option<int>
    decreases kids.len(),
{
    if kids.len() == 0 {
        None
    } else if kids[0] == k {
        Some(0)
    } else {
        match position(kids.skip(1), k) {
            Some(p) => Some(p + 1),
            None => None,
        }
    }
}

/// The row that lies `delta` rows from the selected one, clamped to the list.
pub open spec fn moved(selected: Option<usize>, kids: Seq<usize>, delta: int) -> Option<usize> {
    if kids.len() == 0 {
        selected
    } else {
        let pos = match selected {
            Some(s) => match position(kids, s) {
                Some(p) => p,
                None => 0,
            },
            None => 0,
        };
        let to = pos + delta;
        if to < 0 {
            Some(kids[0])
        } else if to >= kids.len() {
            Some(kids.last())
        } else {
            Some(kids[to])
        }
    }
}

// ---- All rows of the tree -------------------------------------------------------------------------------

/// Everything from `i` down in display order.
pub open spec fn display(nodes: Seq<NodeView>, sort: SortKey, disk_usage: bool, i: int) -> Seq<usize>
    decreases nodes.len() - i, 1int, 0int,
{
    let kids = in_order(nodes, sort, disk_usage, nodes[i].children);
    seq![i as usize] + display_all(nodes, sort, disk_usage, i, kids)
}

/// Everything from the listed entries down in display order, as far as they are younger than `i`.
pub open spec fn display_all(
    nodes: Seq<NodeView>,
    sort: SortKey,
    disk_usage: bool,
    i: int,
    kids: Seq<usize>,
) -> Seq<usize>
    decreases nodes.len() - i, 0int, kids.len(),
{
    if kids.len() == 0 {
        Seq::empty()
    } else {
        (if i < kids[0] < nodes.len() {
            display(nodes, sort, disk_usage, kids[0] as int)
        } else {
            Seq::empty()
        }) + display_all(nodes, sort, disk_usage, i, kids.skip(1))
    }
}

/// The first of some entries with a read error.
pub open spec fn first_error(nodes: Seq<NodeView>, rows: Seq<usize>) -> Option<usize>
    decreases rows.len(),
{
    if rows.len() == 0 {
        None
    } else if nodes[rows[0] as int].read_error {
        Some(rows[0])
    } else {
        first_error(nodes, rows.skip(1))
    }
}

/// The next entry with a read error behind `anchor` in display order, wrapping around.
pub open spec fn next_error(nodes: Seq<NodeView>, rows: Seq<usize>, anchor: usize) -> Option<usize> {
    let pos = match position(rows, anchor) {
        Some(p) => p,
        None => 0,
    };
    first_error(nodes, rows.skip(pos + 1) + rows.take(pos + 1))
}

// ---- Top files ------------------------------------------------------------------------------------------

/// `j` hangs below `from` by directories alone.
pub open spec fn reached(nodes: Seq<NodeView>, j: int, from: int) -> bool
    decreases j,
{
    &&& tree::listed(nodes, j)
    &&& nodes[j].parent->0 < j
    &&& nodes[j].parent->0 == from || (tree::is_dir(nodes[nodes[j].parent->0 as int]) && reached(
        nodes,
        nodes[j].parent->0 as int,
        from,
    ))
}

/// The path of `j` relative to `from`.
pub open spec fn relative_path(nodes: Seq<NodeView>, j: int, from: int) -> Seq<char>
    decreases j,
{
    match nodes[j].parent {
        Some(p) => if p == from || p >= j || relative_path(nodes, p as int, from).len() == 0 {
            nodes[j].name
        } else {
            relative_path(nodes, p as int, from).push('/') + nodes[j].name
        },
        None => nodes[j].name,
    }
}

/// A regular file below `from`.
pub open spec fn is_file_below(nodes: Seq<NodeView>, j: int, from: int) -> bool {
    0 <= j < nodes.len() && nodes[j].kind == NodeKind::File && reached(nodes, j, from)
}

/// The row of a file in the top-files popup.
pub open spec fn top_row(nodes: Seq<NodeView>, disk_usage: bool, j: int, from: int) -> TopView {
    TopView {
        idx: j as usize,
        path: relative_path(nodes, j, from),
        size: shown_size(nodes[j], disk_usage),
    }
}

/// The row `x` stands no later than the row `y`: the larger file first, then by path.
pub open spec fn top_before(x: TopView, y: TopView) -> bool {
    x.size > y.size || (x.size == y.size && text::at_most(x.path, y.path))
}

/// `rows` are the largest regular files below `from`, largest first, and no more than `limit`. Files
/// of the same size and the same path may stand in any order.
pub open spec fn is_top_list(
    nodes: Seq<NodeView>,
    disk_usage: bool,
    from: int,
    limit: int,
    rows: Seq<TopView>,
) -> bool {
    &&& rows.len() <= limit
    // Each row is that of a file below, and no file has two.
    &&& forall|k: int|
        0 <= k < rows.len() ==> is_file_below(nodes, (#[trigger] rows[k]).idx as int, from)
            && rows[k] == top_row(nodes, disk_usage, rows[k].idx as int, from)
    &&& forall|j: int, k: int|
        0 <= j < k < rows.len() ==> (#[trigger] rows[j]).idx != (#[trigger] rows[k]).idx
    // Largest first.
    &&& forall|j: int, k: int|
        0 <= j < k < rows.len() ==> top_before(#[trigger] rows[j], #[trigger] rows[k])
    // What is left out is left out for want of room, and stands behind.
    &&& forall|j: int| #[trigger]
        is_file_below(nodes, j, from) ==> (exists|k: int|
            0 <= k < rows.len() && (#[trigger] rows[k]).idx == j) || (rows.len() == limit && forall|
            k: int,
        |
            0 <= k < rows.len() ==> top_before(
                #[trigger] rows[k],
                top_row(nodes, disk_usage, j, from),
            ))
}

pub open spec fn top_files_limit() -> int {
    100
}

// ---- Keys -----------------------------------------------------------------------------------------------

/// The state in which a tree is opened.
pub open spec fn begun(tree: TreeView, disk_usage: bool, read_only: bool, scanning: bool) -> AppView {
    AppView {
        tree: if scanning {
            tree
        } else {
            // An imported dump arrives complete: the scan-only bookkeeping is released.
            TreeView { dirs: Map::empty(), orphans: Map::empty(), ..tree }
        },
        cur: tree.root,
        selected: None,
        sort: SortKey::Size,
        filter: None,
        searching: false,
        pre_search_selected: None,
        disk_usage,
        scanning,
        read_only,
        quit: false,
        modal: ModalView::Closed,
        status: None,
        deleting: None,
        opening: Seq::empty(),
        quit_armed: false,
        scans: Seq::empty(),
        scan_opts: None,
        refreshing_idx: None,
        next_scan_base: 1,
        bytes_seen: 0,
        timed: false,
        tick: 0,
    }
}

/// The entry that is being deleted, if any.
pub open spec fn deleting_idx(a: AppView) -> Option<usize> {
    match a.deleting {
        Some((idx, _)) => Some(idx),
        None => None,
    }
}

/// The application is well formed: whatever refers to an entry refers to one that exists.
#[verifier::opaque]
pub open spec fn valid(a: AppView) -> bool {
    let n = a.tree.nodes.len();
    &&& tree::well_formed(a.tree)
    &&& tree::fits(a.tree.nodes)
    &&& a.cur < n
    &&& a.selected is Some ==> a.selected->0 < n
    &&& a.pre_search_selected is Some ==> a.pre_search_selected->0 < n
    &&& a.refreshing_idx is Some ==> a.refreshing_idx->0 < n
    &&& deleting_idx(a) is Some ==> deleting_idx(a)->0 < n
    &&& match a.modal {
        ModalView::ConfirmDelete(idx) => idx < n,
        ModalView::Info(idx) => idx < n,
        ModalView::TopFiles(items, selected) => {
            &&& 0 <= selected < items.len()
            &&& forall|k: int| 0 <= k < items.len() ==> (#[trigger] items[k]).idx < n
        },
        _ => true,
    }
}

pub open spec fn path_bytes(a: AppView, i: int) -> Seq<u8> {
    vstd::utf8::encode_utf8(edit::path(a.tree.nodes, i))
}

/// The scans are to prioritize the viewed directory.
pub open spec fn refocused(a: AppView) -> EffectView {
    if a.scanning {
        EffectView::Focus(path_bytes(a, a.cur as int))
    } else {
        EffectView::Nothing
    }
}

pub open spec fn said(a: AppView, message: Seq<char>) -> (AppView, EffectView) {
    (AppView { status: Some(message), ..a }, EffectView::Nothing)
}

/// The deletion of an entry starts, unless it is still being scanned.
pub open spec fn delete_started(a: AppView, idx: usize) -> (AppView, EffectView) {
    let n = a.tree.nodes[idx as int];
    let path = edit::path(a.tree.nodes, idx as int);
    if tree::is_dir(n) && n.unscanned != 0 {
        said(a, "cannot delete: subtree not fully scanned"@)
    } else {
        (
            AppView { status: None, deleting: Some((idx, path)), ..a },
            EffectView::Delete(path, tree::is_dir(n)),
        )
    }
}

/// A key while a deletion is to be confirmed.
#[verifier::opaque]
pub open spec fn confirm_pressed(a: AppView, idx: usize, action: KeyAction) -> (AppView, EffectView) {
    let closed = AppView { modal: ModalView::Closed, ..a };
    match action {
        KeyAction::Confirm => delete_started(closed, idx),
        KeyAction::Quit => said(closed, "delete cancelled"@),
        KeyAction::Leave => said(closed, "delete cancelled"@),
        KeyAction::Cancel => said(closed, "delete cancelled"@),
        _ => (a, EffectView::Nothing),
    }
}

/// The view goes to an entry, if it can still be reached from the root.
pub open spec fn gone_to(a: AppView, idx: usize) -> (AppView, EffectView) {
    if totals::live(a.tree.nodes, idx as int) && a.tree.nodes[idx as int].parent is Some {
        let to = AppView {
            cur: a.tree.nodes[idx as int].parent->0,
            selected: Some(idx),
            ..a
        };
        (to, refocused(to))
    } else {
        said(a, "that entry is no longer in the tree"@)
    }
}

/// A key in the top-files popup.
#[verifier::opaque]
pub open spec fn top_pressed(a: AppView, items: Seq<TopView>, selected: int, action: KeyAction) -> (
    AppView,
    EffectView,
) {
    let closed = AppView { modal: ModalView::Closed, ..a };
    let last = items.len() - 1;
    let at = |k: int| AppView { modal: ModalView::TopFiles(items, k), ..a };
    match action {
        KeyAction::Down => (
            at(
                if selected < last {
                    selected + 1
                } else {
                    last
                },
            ),
            EffectView::Nothing,
        ),
        KeyAction::Up => (
            at(
                if selected > 0 {
                    selected - 1
                } else {
                    0
                },
            ),
            EffectView::Nothing,
        ),
        KeyAction::Top => (at(0), EffectView::Nothing),
        KeyAction::Bottom => (at(last), EffectView::Nothing),
        KeyAction::Enter => gone_to(closed, items[selected].idx),
        KeyAction::Quit => (closed, EffectView::Nothing),
        KeyAction::Leave => (closed, EffectView::Nothing),
        KeyAction::Cancel => (closed, EffectView::Nothing),
        KeyAction::Help => (closed, EffectView::Nothing),
        _ => (a, EffectView::Nothing),
    }
}

/// The state with the first row selected.
pub open spec fn snapped(a: AppView) -> AppView {
    AppView { selected: first_of(shown(a)), ..a }
}

/// The filter is applied; an empty one is none.
pub open spec fn filter_applied(a: AppView) -> AppView {
    AppView {
        searching: false,
        filter: if a.filter is Some && a.filter->0.len() > 0 {
            a.filter
        } else {
            None
        },
        ..a
    }
}

/// The filter is discarded, and the prior selection restored.
pub open spec fn filter_discarded(a: AppView) -> AppView {
    let b = AppView { searching: false, filter: None, pre_search_selected: None, ..a };
    AppView { selected: kept_selection(a.pre_search_selected, shown(b)), ..b }
}

/// A key while the filter is being typed.
#[verifier::opaque]
pub open spec fn filter_pressed(a: AppView, action: KeyAction) -> AppView {
    match action {
        KeyAction::FilterChar(c) => snapped(
            AppView {
                filter: match a.filter {
                    Some(q) => Some(q.push(c)),
                    None => None,
                },
                ..a
            },
        ),
        KeyAction::FilterBackspace => snapped(
            AppView {
                filter: match a.filter {
                    Some(q) => Some(
                        if q.len() > 0 {
                            q.drop_last()
                        } else {
                            q
                        },
                    ),
                    None => None,
                },
                ..a
            },
        ),
        KeyAction::FilterConfirm => filter_applied(a),
        KeyAction::FilterCancel => filter_discarded(a),
        _ => a,
    }
}

pub open spec fn quit_pressed(a: AppView) -> AppView {
    if a.deleting is Some && !a.quit_armed {
        AppView {
            quit_armed: true,
            status: Some(
                "deletion in progress — press q / Ctrl-C again to abort it and quit (may leave partial results)"@,
            ),
            ..a
        }
    } else {
        AppView { quit: true, ..a }
    }
}

/// Enter the selected directory, unless it is being deleted.
pub open spec fn entered(a: AppView) -> (AppView, EffectView) {
    match a.selected {
        Some(sel) => if deleting_idx(a) == Some(sel) {
            said(a, "can't enter: this directory is being deleted"@)
        } else if tree::is_dir(a.tree.nodes[sel as int]) {
            let to = snapped(AppView { cur: sel, ..a });
            (to, refocused(to))
        } else {
            (a, EffectView::Nothing)
        },
        None => (a, EffectView::Nothing),
    }
}

/// Go up, with the directory that was left selected.
pub open spec fn left(a: AppView) -> (AppView, EffectView) {
    match a.tree.nodes[a.cur as int].parent {
        Some(parent) => {
            let to = AppView { cur: parent, selected: Some(a.cur), ..a };
            (to, refocused(to))
        },
        None => (a, EffectView::Nothing),
    }
}

/// Ask for the deletion of the selected entry.
pub open spec fn delete_asked(a: AppView) -> AppView {
    let say = |message: Seq<char>| AppView { status: Some(message), ..a };
    if a.read_only {
        say("read-only mode (-r): deletion disabled"@)
    } else if a.deleting is Some {
        say("a deletion is already in progress — please wait"@)
    } else {
        match a.selected {
            Some(sel) => {
                let n = a.tree.nodes[sel as int];
                if sel == a.cur {
                    a
                } else if tree::is_dir(n) && n.unscanned != 0 {
                    say("cannot delete: directory is still being scanned — wait for it to finish"@)
                } else {
                    AppView { modal: ModalView::ConfirmDelete(sel), ..a }
                }
            },
            None => a,
        }
    }
}

/// Open the selected entry.
pub open spec fn open_started(a: AppView) -> (AppView, EffectView) {
    match a.selected {
        Some(sel) => if deleting_idx(a) == Some(sel) {
            said(a, "can't open: this entry is being deleted"@)
        } else {
            let path = edit::path(a.tree.nodes, sel as int);
            (
                AppView {
                    status: Some("opening "@ + path),
                    opening: a.opening.push(path),
                    ..a
                },
                EffectView::Open(path),
            )
        },
        None => (a, EffectView::Nothing),
    }
}

/// The entry that is being deleted is `sel` or one of the directories above it.
pub open spec fn deletion_covers(a: AppView, sel: usize) -> bool {
    deleting_idx(a) is Some && tree::above(a.tree.nodes, deleting_idx(a)->0 as int, sel as int)
}

/// Rescan the selected directory in place.
pub open spec fn refresh_started(a: AppView) -> (AppView, EffectView) {
    match a.selected {
        None => (a, EffectView::Nothing),
        Some(sel) => {
            let n = a.tree.nodes[sel as int];
            let path = edit::path(a.tree.nodes, sel as int);
            if a.scan_opts is None {
                said(a, "rescan unavailable: browsing an imported dump"@)
            } else if a.refreshing_idx is Some {
                said(a, "a rescan is already in progress — please wait"@)
            } else if !tree::is_dir(n) {
                said(a, "select a directory to rescan"@)
            } else if deletion_covers(a, sel) {
                said(a, "can't rescan: a deletion is in progress here"@)
            } else if n.unscanned != 0 {
                said(a, "cannot rescan: directory is still being scanned"@)
            } else {
                let id_base = a.next_scan_base * SCAN_ID_STRIDE;
                (
                    AppView {
                        tree: edit::refreshed(a.tree, sel as int, id_base as u64),
                        scans: a.scans.push((true, true)),
                        refreshing_idx: Some(sel),
                        next_scan_base: a.next_scan_base + 1,
                        scanning: true,
                        bytes_seen: 0,
                        timed: true,
                        status: Some("rescanning "@ + path + "…"@),
                        ..a
                    },
                    EffectView::Rescan(
                        scan::fresh_frontier(path_bytes(a, sel as int), id_base as u64),
                        scan::fresh_ledger(id_base as u64),
                        a.scan_opts->0,
                    ),
                )
            }
        },
    }
}

/// The selected directory can be rescanned: nothing speaks against it.
pub open spec fn refresh_due(a: AppView) -> bool {
    &&& a.selected is Some
    &&& a.scan_opts is Some
    &&& a.refreshing_idx is None
    &&& tree::is_dir(a.tree.nodes[a.selected->0 as int])
    &&& !deletion_covers(a, a.selected->0)
    &&& a.tree.nodes[a.selected->0 as int].unscanned == 0
}

/// The machine has room for a rescan of the selected directory, if one is due: the id that it starts
/// from fits 64 bits, and the count of unread directories above it has room for it.
pub open spec fn refresh_fits(a: AppView) -> bool {
    refresh_due(a) ==> {
        &&& a.next_scan_base * SCAN_ID_STRIDE <= u64::MAX
        &&& tree::fits(edit::reopened(a.tree.nodes, a.selected->0 as int))
    }
}

/// The view moves to an entry with a read error.
pub open spec fn error_shown(a: AppView, idx: usize) -> (AppView, EffectView) {
    let to = if idx == a.tree.root {
        AppView { cur: a.tree.root, selected: None, ..a }
    } else {
        AppView { cur: a.tree.nodes[idx as int].parent->0, selected: Some(idx), ..a }
    };
    let message = "read error: "@ + edit::path(a.tree.nodes, idx as int);
    (AppView { status: Some(message), ..to }, refocused(to))
}

/// Jump to the next entry with a read error.
pub open spec fn error_sought(a: AppView) -> (AppView, EffectView) {
    let rows = display(a.tree.nodes, a.sort, a.disk_usage, a.tree.root as int);
    let anchor = match a.selected {
        Some(sel) => sel,
        None => a.cur,
    };
    match next_error(a.tree.nodes, rows, anchor) {
        Some(idx) => error_shown(a, idx),
        None => said(a, "no read errors"@),
    }
}

/// A filter is being typed from now on.
pub open spec fn search_opened(a: AppView) -> AppView {
    AppView {
        searching: true,
        status: None,
        pre_search_selected: a.selected,
        filter: match a.filter {
            Some(q) => Some(q),
            None => Some(Seq::empty()),
        },
        ..a
    }
}

/// The info popup opens for the selected entry.
pub open spec fn info_opened(a: AppView) -> AppView {
    match a.selected {
        Some(sel) => AppView { modal: ModalView::Info(sel), ..a },
        None => a,
    }
}

/// The state in which a key while browsing is acted upon: a stale status is dismissed and a pending
/// force-quit is disarmed, except by a repeated quit, and the selection is on a row.
pub open spec fn ready(a: AppView, action: KeyAction) -> AppView {
    let b = if action is Quit {
        a
    } else {
        AppView { status: None, quit_armed: false, ..a }
    };
    AppView { selected: kept_selection(b.selected, shown(b)), ..b }
}

/// A key while browsing; the top-files key aside.
#[verifier::opaque]
pub open spec fn browse_pressed(start: AppView, action: KeyAction) -> (AppView, EffectView) {
    let a = ready(start, action);
    let kids = shown(a);
    let none = EffectView::Nothing;
    match action {
        KeyAction::Quit => (quit_pressed(a), none),
        KeyAction::Down => (AppView { selected: moved(a.selected, kids, 1), ..a }, none),
        KeyAction::Up => (AppView { selected: moved(a.selected, kids, -1), ..a }, none),
        KeyAction::PageDown(page) => (
            AppView { selected: moved(a.selected, kids, page as int), ..a },
            none,
        ),
        KeyAction::PageUp(page) => (
            AppView { selected: moved(a.selected, kids, -(page as int)), ..a },
            none,
        ),
        KeyAction::Top => (AppView { selected: first_of(kids), ..a }, none),
        KeyAction::Bottom => (AppView { selected: last_of(kids), ..a }, none),
        KeyAction::Enter => entered(a),
        KeyAction::Leave => left(a),
        KeyAction::ToggleSort => (
            AppView {
                sort: match a.sort {
                    SortKey::Size => SortKey::Name,
                    SortKey::Name => SortKey::Size,
                },
                ..a
            },
            none,
        ),
        KeyAction::Search => (search_opened(a), none),
        KeyAction::ToggleUsage => (AppView { disk_usage: !a.disk_usage, ..a }, none),
        KeyAction::Help => (AppView { modal: ModalView::Help, ..a }, none),
        KeyAction::Delete => (delete_asked(a), none),
        KeyAction::Open => open_started(a),
        KeyAction::Refresh => refresh_started(a),
        KeyAction::Info => (info_opened(a), none),
        KeyAction::Export => (a, EffectView::Export),
        KeyAction::NextError => error_sought(a),
        _ => (a, none),
    }
}

/// The key opens the top-files popup.
pub open spec fn asks_for_top_files(a: AppView, action: KeyAction) -> bool {
    a.modal is Closed && !a.searching && action is TopFiles
}

/// The popup with the largest files opens, or it is said that there are none.
pub open spec fn top_files_opened(start: AppView, b: AppView) -> bool {
    let a = ready(start, KeyAction::TopFiles);
    let top = |rows: Seq<TopView>|
        is_top_list(a.tree.nodes, a.disk_usage, a.cur as int, top_files_limit(), rows);
    match b.modal {
        ModalView::TopFiles(rows, selected) => {
            &&& top(rows)
            &&& rows.len() > 0
            &&& selected == 0
            &&& b == AppView { modal: b.modal, ..a }
        },
        _ => {
            &&& top(Seq::empty())
            &&& b == AppView { status: Some("no files under this directory"@), ..a }
        },
    }
}

/// What a key makes of the application, the one for the top-files popup aside. Overlays capture keys
/// first, then the filter that is being typed.
pub open spec fn pressed(a: AppView, action: KeyAction) -> (AppView, EffectView) {
    let closed = AppView { modal: ModalView::Closed, ..a };
    match a.modal {
        ModalView::Help => (closed, EffectView::Nothing),
        ModalView::Info(_) => (closed, EffectView::Nothing),
        ModalView::ConfirmDelete(idx) => confirm_pressed(a, idx, action),
        ModalView::TopFiles(items, selected) => top_pressed(a, items, selected, action),
        ModalView::Closed => if a.searching {
            (filter_pressed(a, action), EffectView::Nothing)
        } else {
            browse_pressed(a, action)
        },
    }
}

// ---- Results of background work ---------------------------------------------------------------------------

/// A deletion ended.
pub open spec fn delete_ended(a: AppView, outcome: Result<(), Seq<char>>) -> AppView {
    let (idx, path) = a.deleting->0;
    let over = AppView { deleting: None, quit_armed: false, ..a };
    match outcome {
        Ok(_) => {
            let gone = AppView { tree: edit::deleted(a.tree, idx as int), ..over };
            let kids = shown(gone);
            AppView {
                selected: match position(shown(over), idx) {
                    Some(p) => if kids.len() == 0 {
                        None
                    } else if p < kids.len() {
                        Some(kids[p])
                    } else {
                        Some(kids.last())
                    },
                    None => a.selected,
                },
                status: Some("deleted "@ + path),
                ..gone
            }
        },
        Err(why) => AppView { status: Some("delete failed: "@ + why), ..over },
    }
}

/// The worker of the deletion was asked. One that is gone without a word has failed.
pub open spec fn delete_polled(
    a: AppView,
    polled: Polled<Result<(), Seq<char>>>,
) -> AppView {
    if a.deleting is None {
        a
    } else {
        match polled {
            Polled::Ready(outcome) => delete_ended(a, outcome),
            Polled::Empty => a,
            Polled::Closed => delete_ended(
                a,
                Err("delete worker exited unexpectedly"@),
            ),
        }
    }
}

/// How an open ended, if it did.
pub open spec fn open_polled(polled: Polled<Result<(), Seq<char>>>) -> Option<
    Result<(), Seq<char>>,
> {
    match polled {
        Polled::Ready(outcome) => Some(outcome),
        Polled::Empty => None,
        Polled::Closed => Some(Err("open worker exited unexpectedly"@)),
    }
}

/// What is said of an open that ended.
pub open spec fn open_message(path: Seq<char>, outcome: Result<(), Seq<char>>) -> Seq<char> {
    match outcome {
        Ok(_) => "opened "@ + path,
        Err(why) => "open failed: "@ + why,
    }
}

/// The opens that are still running after each was looked at: those that have not ended.
pub open spec fn opens_left(
    opening: Seq<Seq<char>>,
    outcomes: Seq<Option<Result<(), Seq<char>>>>,
) -> Seq<Seq<char>>
    decreases opening.len(),
{
    if opening.len() == 0 {
        Seq::empty()
    } else {
        let before = opens_left(opening.drop_last(), outcomes.drop_last());
        if outcomes.last() is None {
            before.push(opening.last())
        } else {
            before
        }
    }
}

/// What is said after each open was looked at: how the last one that ended did.
pub open spec fn opens_said(
    status: Option<Seq<char>>,
    opening: Seq<Seq<char>>,
    outcomes: Seq<Option<Result<(), Seq<char>>>>,
) -> Option<Seq<char>>
    decreases opening.len(),
{
    if opening.len() == 0 {
        status
    } else {
        match outcomes.last() {
            Some(outcome) => Some(open_message(opening.last(), outcome)),
            None => opens_said(status, opening.drop_last(), outcomes.drop_last()),
        }
    }
}

/// Each open was looked at, and has ended in the given way or is still running.
pub open spec fn opens_settled(a: AppView, outcomes: Seq<Option<Result<(), Seq<char>>>>) -> AppView {
    AppView {
        opening: opens_left(a.opening, outcomes),
        status: opens_said(a.status, a.opening, outcomes),
        ..a
    }
}

/// What is said of an export that ended.
pub open spec fn export_message(a: AppView, dest: Seq<char>, outcome: Result<(), Seq<char>>) -> Seq<char> {
    match outcome {
        Ok(_) => "exported "@ + text::decimal((a.tree.total_dirs + a.tree.total_files) as nat)
            + " entries to "@ + dest,
        Err(why) => "export failed: "@ + why,
    }
}

/// A batch arrived: it goes into the tree, and its counted bytes are added up. The second component
/// says whether every total had room for it.
pub open spec fn received(a: AppView, b: BatchView) -> (AppView, bool) {
    let seen = a.bytes_seen + tree::counted_apparent(b.nodes);
    if seen > u64::MAX {
        (a, false)
    } else {
        let (tree, done) = tree::applied(a.tree, b);
        (AppView { tree, bytes_seen: seen, ..a }, done)
    }
}

/// Batches arrived one after the other, until one had no room.
pub open spec fn received_all(a: AppView, batches: Seq<BatchView>) -> (AppView, bool)
    decreases batches.len(),
{
    if batches.len() == 0 {
        (a, true)
    } else {
        let (b, done) = received_all(a, batches.drop_last());
        if done {
            received(b, batches.last())
        } else {
            (b, false)
        }
    }
}

/// The later streams are the earlier ones, some of them ended.
pub open spec fn some_ended(earlier: Seq<(bool, bool)>, later: Seq<(bool, bool)>) -> bool {
    &&& earlier.len() == later.len()
    &&& forall|k: int|
        0 <= k < later.len() ==> later[k].0 == earlier[k].0 && ((#[trigger] later[k]).1
            ==> earlier[k].1)
}

/// The stream of a scan ended: it is kept, as one that gives nothing any more.
pub open spec fn scan_ended(a: AppView, i: int) -> AppView {
    AppView { scans: a.scans.update(i, (a.scans[i].0, false)), ..a }
}

/// Some scan is alive.
pub open spec fn any_alive(scans: Seq<(bool, bool)>) -> bool {
    exists|k: int| 0 <= k < scans.len() && (#[trigger] scans[k]).1
}

/// Some rescan is alive.
pub open spec fn any_rescan_alive(scans: Seq<(bool, bool)>) -> bool {
    exists|k: int| 0 <= k < scans.len() && (#[trigger] scans[k]).1 && scans[k].0
}

/// The rescan, if there is one, is over.
pub open spec fn refresh_ended(a: AppView) -> AppView {
    match a.refreshing_idx {
        Some(idx) => AppView {
            refreshing_idx: None,
            status: Some("rescanned "@ + edit::path(a.tree.nodes, idx as int)),
            ..a
        },
        None => a,
    }
}

/// The scan is over: nothing waits any more.
pub open spec fn scanning_ended(a: AppView) -> AppView {
    AppView {
        scanning: false,
        tree: TreeView { dirs: Map::empty(), orphans: Map::empty(), ..a.tree },
        ..a
    }
}

/// The bookkeeping after the streams were drained: a rescan whose stream ended is over, and when no
/// stream is left the scan is over.
pub open spec fn scans_settled(a: AppView) -> AppView {
    let b = if any_rescan_alive(a.scans) {
        a
    } else {
        refresh_ended(a)
    };
    if b.scanning && !any_alive(b.scans) {
        scanning_ended(b)
    } else {
        b
    }
}

/// The streams were drained: they gave these batches, and are left like this.
pub open spec fn drained(
    a: AppView,
    batches: Seq<BatchView>,
    scans: Seq<(bool, bool)>,
    b: AppView,
    all: bool,
) -> bool {
    let (taken, done) = received_all(a, batches);
    &&& some_ended(a.scans, scans)
    &&& all == done
    &&& b == if done {
        scans_settled(AppView { scans, ..taken })
    } else {
        AppView { scans, ..taken }
    }
}

/// Bytes per second after some seconds; the first second gives the bytes seen so far.
pub open spec fn rate(bytes: int, secs: int) -> int {
    bytes / if secs < 1 {
        1
    } else {
        secs
    }
}

} // verus!
