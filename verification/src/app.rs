//! Application state and input handling.
//!
//! Selection tracks a node's *identity*, not its row position, so the highlight stays glued to the
//! same entry even as live size updates reshuffle the sort order during a scan.
use vstd::prelude::*;

use crossbeam_channel::{Receiver, Sender};
use std::time::Instant;

use crate::browse;
use crate::edit;
use crate::frontier;
use crate::model::{Excluded, NodeIdx, Tree};
use crate::outside;
use crate::outside::Polled;
use crate::rows;
use crate::scan;
use crate::scan::{Batch, NewNode, Opts, Scan, ScanControl, Workers, SCAN_ID_STRIDE};
use crate::state;
use crate::state::{AppView, EffectView, KeyAction, ModalView, SortKey};
use crate::text;
use crate::top;
use crate::top::{TopEntry, TopFiles};
use crate::tree;
use crate::tree::{BatchView, TreeView};

verus! {

/// How many rows the top-files popup shows.
pub const TOP_FILES_LIMIT: usize = 100;

/// How many batches a frame takes in at most.
pub const FRAME_BATCHES: usize = 20_000;

/// A transient modal overlay.
pub enum Modal {
    /// No overlay.
    Closed,
    Help,
    /// Confirm deletion of the given node.
    ConfirmDelete(NodeIdx),
    /// The largest files under the directory the popup was opened from.
    TopFiles(Box<TopFiles>),
    /// Details of the selected entry (tree data plus a fresh on-disk stat).
    Info(NodeIdx),
}

impl View for Modal {
    type V = ModalView;

    open spec fn view(&self) -> ModalView {
        match self {
            Modal::Closed => ModalView::Closed,
            Modal::Help => ModalView::Help,
            Modal::ConfirmDelete(idx) => ModalView::ConfirmDelete(*idx),
            Modal::TopFiles(popup) => ModalView::TopFiles(
                top::top_views(popup.items@),
                popup.selected as int,
            ),
            Modal::Info(idx) => ModalView::Info(*idx),
        }
    }
}

/// An in-progress deletion running on a background thread, so the UI stays responsive and shows a
/// spinner while a large directory is removed.
pub struct PendingDelete {
    pub idx: NodeIdx,
    pub path: String,
    pub rx: Receiver<Result<(), std::io::Error>>,
}

/// A system-open running on a background thread, so a slow or hung opener can't freeze the UI.
pub struct PendingOpen {
    pub path: String,
    pub rx: Receiver<Result<(), std::io::Error>>,
}

/// One live batch stream: the original scan (`refresh: false`) or a subtree rescan
/// (`refresh: true`). `alive` flips false once the stream's channel disconnects.
pub struct ScanHandle {
    pub rx: Receiver<Batch>,
    pub refresh: bool,
    pub alive: bool,
}

/// What the surroundings have to do about a key.
pub enum Effect {
    Nothing,
    /// Tell every live scan to prioritize this path.
    Focus(Vec<u8>),
    /// Remove this from disk off the UI thread, and send the result.
    Delete(String, bool, Sender<Result<(), std::io::Error>>),
    /// Open this with the platform's default handler off the UI thread, and send the result.
    Open(String, Sender<Result<(), std::io::Error>>),
    /// Run the workers of this scan, and keep its steering handle.
    Rescan(ScanControl, Workers),
    /// Write a dump of the tree to the next free file.
    Export,
}

impl View for Effect {
    type V = EffectView;

    open spec fn view(&self) -> EffectView {
        match self {
            Effect::Nothing => EffectView::Nothing,
            Effect::Focus(path) => EffectView::Focus(path@),
            Effect::Delete(path, is_dir, _) => EffectView::Delete(path@, *is_dir),
            Effect::Open(path, _) => EffectView::Open(path@),
            Effect::Rescan(control, workers) => EffectView::Rescan(
                control.frontier@,
                workers.ledger@,
                workers.rules@,
            ),
            Effect::Export => EffectView::Export,
        }
    }
}

pub struct App {
    pub tree: Tree,
    /// Directory currently being viewed.
    pub cur: NodeIdx,
    /// Currently highlighted child node (by identity), if any.
    pub selected: Option<NodeIdx>,
    pub sort: SortKey,
    /// Incremental name filter (`/`): `Some(query)` while a filter is applied — possibly empty
    /// while still typing — `None` when nothing is filtered.
    pub filter: Option<String>,
    /// True while the user is typing the filter; input is captured for it.
    pub searching: bool,
    /// Selection to restore if the filter being typed is cancelled.
    pub pre_search_selected: Option<NodeIdx>,
    /// Show on-disk usage (`st_blocks`) vs. apparent size (`st_size`).
    pub disk_usage: bool,
    pub scanning: bool,
    /// Read-only: deletion disabled (ncdu `-r`).
    pub read_only: bool,
    pub quit: bool,
    pub modal: Modal,
    /// Transient one-line message shown in the footer until the next key press.
    pub status: Option<String>,
    /// A deletion currently running on a background thread.
    pub pending_delete: Option<PendingDelete>,
    /// Opens still running on background threads, oldest first.
    pub pending_open: Vec<PendingOpen>,
    /// True once the user has pressed quit during a deletion; a second press force-quits.
    pub quit_armed: bool,
    /// Batch streams of every live scan: the original one plus any subtree rescans.
    pub scans: Vec<ScanHandle>,
    /// Scan options, kept so a subtree rescan can reuse them (same threads, excludes, `-x`).
    /// None when browsing a loaded dump (`-f`), where there is nothing to rescan.
    pub scan_opts: Option<Opts>,
    /// The subtree currently being rescanned in place, if any.
    pub refreshing_idx: Option<NodeIdx>,
    /// Generation counter for subtree rescans; each gets a disjoint scanner-id range.
    pub next_scan_base: u64,
    /// Counted bytes grafted by live scans, for the footer's throughput display.
    pub bytes_seen: u64,
    /// When the current scan generation started; None until a scan is attached.
    pub scan_started: Option<Instant>,
    /// Spinner animation frame.
    pub tick: usize,
}

pub open spec fn open_views(opens: Seq<PendingOpen>) -> Seq<Seq<char>> {
    opens.map_values(|p: PendingOpen| p.path@)
}

pub open spec fn scan_views(scans: Seq<ScanHandle>) -> Seq<(bool, bool)> {
    scans.map_values(|h: ScanHandle| (h.refresh, h.alive))
}

impl View for App {
    type V = AppView;

    open spec fn view(&self) -> AppView {
        AppView {
            tree: self.tree@,
            cur: self.cur,
            selected: self.selected,
            sort: self.sort,
            filter: text::chars_if(self.filter),
            searching: self.searching,
            pre_search_selected: self.pre_search_selected,
            disk_usage: self.disk_usage,
            scanning: self.scanning,
            read_only: self.read_only,
            quit: self.quit,
            modal: self.modal@,
            status: text::chars_if(self.status),
            deleting: match self.pending_delete {
                Some(pending) => Some((pending.idx, pending.path@)),
                None => None,
            },
            opening: open_views(self.pending_open@),
            quit_armed: self.quit_armed,
            scans: scan_views(self.scans@),
            scan_opts: match self.scan_opts {
                Some(opts) => Some(opts@),
                None => None,
            },
            refreshing_idx: self.refreshing_idx,
            next_scan_base: self.next_scan_base as int,
            bytes_seen: self.bytes_seen as int,
            timed: self.scan_started is Some,
            tick: self.tick,
        }
    }
}

impl App {
    /// The application is well formed.
    pub open spec fn wf(&self) -> bool {
        state::valid(self@)
    }

    /// The same work in the background is listened to, over the same channels.
    pub open spec fn hears_as(&self, before: App) -> bool {
        &&& self.scans == before.scans
        &&& self.pending_delete == before.pending_delete
        &&& self.pending_open == before.pending_open
        &&& self.scan_started is Some == before.scan_started is Some
    }

    /// All work in the background that was listened to still is, over the same channels; only a
    /// deletion that is started takes the place of what was there.
    pub open spec fn still_hears(&self, before: App, effect: Effect) -> bool {
        &&& before.scans@.is_prefix_of(self.scans@)
        &&& before.pending_open@.is_prefix_of(self.pending_open@)
        &&& effect is Delete || self.pending_delete == before.pending_delete
    }

    pub fn new(tree: Tree, disk_usage: bool, read_only: bool, scanning: bool) -> (app: App)
        requires
            tree.wf(),
        ensures
            app.wf(),
            app@ == state::begun(tree@, disk_usage, read_only, scanning),
    {
        proof {
            reveal(state::valid);
        }
        let mut tree = tree;
        if !scanning {
            tree.finish_scan();
        }
        let app = App {
            cur: tree.root,
            selected: None,
            sort: SortKey::Size,
            filter: None,
            searching: false,
            pre_search_selected: None,
            disk_usage,
            scanning,
            read_only,
            quit: false,
            modal: Modal::Closed,
            status: None,
            pending_delete: None,
            pending_open: Vec::new(),
            quit_armed: false,
            scans: Vec::new(),
            scan_opts: None,
            refreshing_idx: None,
            next_scan_base: 1,
            bytes_seen: 0,
            scan_started: None,
            tick: 0,
            tree,
        };
        proof {
            app.tree.lemma_view_fits();
            assert(app@.opening =~= Seq::empty());
            assert(app@.scans =~= Seq::empty());
        }
        app
    }

    /// The aggregated size metric we currently sort and display by.
    pub fn size_of(&self, idx: NodeIdx) -> (size: u64)
        requires
            idx < self.tree.nodes.len(),
        ensures
            size == state::shown_size(self@.tree.nodes[idx as int], self.disk_usage),
            self.disk_usage ==> size == self.tree.nodes@[idx as int].disk,
            !self.disk_usage ==> size == self.tree.nodes@[idx as int].apparent,
    {
        let n = &self.tree.nodes[idx];
        if self.disk_usage {
            n.disk
        } else {
            n.apparent
        }
    }

    /// The node's own (non-recursive) size in the current metric.
    pub fn own_size_of(&self, idx: NodeIdx) -> (size: u64)
        requires
            self.wf(),
            idx < self.tree.nodes.len(),
        ensures
            size == (if self.disk_usage {
                edit::own_disk(self@.tree.nodes, idx as int)
            } else {
                edit::own_apparent(self@.tree.nodes, idx as int)
            }),
    {
        proof {
            reveal(state::valid);
        }
        if self.disk_usage {
            self.tree.own_disk(idx)
        } else {
            self.tree.own_apparent(idx)
        }
    }

    /// The node currently being deleted (its subtree is locked), if any.
    pub fn deleting_idx(&self) -> (idx: Option<NodeIdx>)
        ensures
            idx == state::deleting_idx(self@),
    {
        match &self.pending_delete {
            Some(pending) => Some(pending.idx),
            None => None,
        }
    }

    pub fn is_deleting(&self) -> (yes: bool)
        ensures
            yes == (self@.deleting is Some),
    {
        self.pending_delete.is_some()
    }

    /// Children of the current directory, sorted for display (largest first, or by name), with the
    /// active name filter (if any) applied on top.
    pub fn sorted_children(&self) -> (kids: Vec<NodeIdx>)
        requires
            self.wf(),
        ensures
            kids@ == state::shown(self@),
            forall|k: int| 0 <= k < kids@.len() ==> #[trigger] kids@[k] < self.tree.nodes.len(),
            // Largest first, in the metric that is on.
            self.sort == SortKey::Size ==> forall|j: int, k: int|
                0 <= j < k < kids@.len() ==> if self.disk_usage {
                    self@.tree.nodes[(#[trigger] kids@[j]) as int].disk
                        >= self@.tree.nodes[(#[trigger] kids@[k]) as int].disk
                } else {
                    self@.tree.nodes[kids@[j] as int].apparent
                        >= self@.tree.nodes[kids@[k] as int].apparent
                },
    {
        proof {
            reveal(state::valid);
            if self.sort == SortKey::Size {
                let all = state::shown(self@);
                assert forall|j: int, k: int| 0 <= j < k < all.len() implies if self.disk_usage {
                    self@.tree.nodes[(#[trigger] all[j]) as int].disk
                        >= self@.tree.nodes[(#[trigger] all[k]) as int].disk
                } else {
                    self@.tree.nodes[all[j] as int].apparent
                        >= self@.tree.nodes[all[k] as int].apparent
                } by {
                    browse::law_the_largest_rows_come_first(self@, j, k);
                }
            }
        }
        let ghost nodes = self@.tree.nodes;
        assert(self.tree.nodes@[self.cur as int].children@ == nodes[self.cur as int].children);
        let children = self.tree.nodes[self.cur].children.clone();
        assert forall|k: int| 0 <= k < children@.len() implies #[trigger] children@[k]
            < self.tree.nodes.len() by {
            assert(nodes[self.cur as int].children[k] < nodes.len());
        }
        let kids = rows::order_children(&self.tree, self.sort, self.disk_usage, children);
        proof {
            rows::lemma_kids_younger(nodes, self.cur as int, kids@);
        }
        match &self.filter {
            Some(query) => self.matching(kids, query),
            None => kids,
        }
    }

    /// Those of some rows whose name contains the query.
    fn matching(&self, kids: Vec<NodeIdx>, query: &String) -> (kept: Vec<NodeIdx>)
        requires
            forall|k: int| 0 <= k < kids@.len() ==> #[trigger] kids@[k] < self.tree.nodes.len(),
        ensures
            kept@ == kids@.filter(state::name_has(self@.tree.nodes, query@)),
            forall|k: int| 0 <= k < kept@.len() ==> #[trigger] kept@[k] < self.tree.nodes.len(),
    {
        let ghost keep = state::name_has(self@.tree.nodes, query@);
        let mut kept: Vec<NodeIdx> = Vec::new();
        let mut k: usize = 0;
        assert(kids@.take(0).filter(keep) =~= Seq::empty()) by {
            reveal(Seq::filter);
        }
        while k < kids.len()
            invariant
                k <= kids@.len(),
                keep == state::name_has(self@.tree.nodes, query@),
                kept@ == kids@.take(k as int).filter(keep),
                forall|k: int| 0 <= k < kids@.len() ==> #[trigger] kids@[k] < self.tree.nodes.len(),
                forall|k: int| 0 <= k < kept@.len() ==> #[trigger] kept@[k] < self.tree.nodes.len(),
            decreases kids@.len() - k,
        {
            proof {
                reveal(Seq::filter);
                assert(kids@.take(k as int + 1).drop_last() =~= kids@.take(k as int));
            }
            let kid = kids[k];
            assert(self.tree.nodes@[kid as int]@ == self@.tree.nodes[kid as int]);
            if rows::contains_ci(self.tree.nodes[kid].name.as_str(), query.as_str()) {
                kept.push(kid);
            }
            k += 1;
        }
        assert(kids@.take(k as int) =~= kids@);
        kept
    }

    // ---- Keys -----------------------------------------------------------------------------------

    /// The application with another selection.
    fn select(&mut self, selected: Option<NodeIdx>)
        requires
            old(self).wf(),
            selected is Some ==> selected->0 < old(self).tree.nodes.len(),
        ensures
            final(self).wf(),
            final(self).hears_as(*old(self)),
            final(self)@ == (AppView { selected, ..old(self)@ }),
    {
        proof {
            reveal(state::valid);
        }
        self.selected = selected;
    }

    /// The overlay, taken out of its place.
    fn take_modal(&mut self) -> (modal: Modal)
        requires
            old(self).wf(),
        ensures
            final(self).wf(),
            final(self).hears_as(*old(self)),
            modal == old(self).modal,
            final(self)@ == (AppView { modal: ModalView::Closed, ..old(self)@ }),
    {
        proof {
            reveal(state::valid);
        }
        let mut modal = Modal::Closed;
        std::mem::swap(&mut modal, &mut self.modal);
        modal
    }

    /// A stale status is dismissed, and a pending force-quit is disarmed.
    fn dismiss(&mut self)
        requires
            old(self).wf(),
        ensures
            final(self).wf(),
            final(self).hears_as(*old(self)),
            final(self)@ == (AppView { status: None, quit_armed: false, ..old(self)@ }),
    {
        proof {
            reveal(state::valid);
        }
        self.status = None;
        self.quit_armed = false;
    }

    /// The other order of rows.
    fn toggle_sort(&mut self)
        requires
            old(self).wf(),
        ensures
            final(self).wf(),
            final(self).hears_as(*old(self)),
            final(self)@ == (AppView {
                sort: match old(self)@.sort {
                    SortKey::Size => SortKey::Name,
                    SortKey::Name => SortKey::Size,
                },
                ..old(self)@
            }),
    {
        proof {
            reveal(state::valid);
        }
        self.sort = match self.sort {
            SortKey::Size => SortKey::Name,
            SortKey::Name => SortKey::Size,
        };
    }

    /// The other metric.
    fn toggle_usage(&mut self)
        requires
            old(self).wf(),
        ensures
            final(self).wf(),
            final(self).hears_as(*old(self)),
            final(self)@ == (AppView { disk_usage: !old(self)@.disk_usage, ..old(self)@ }),
    {
        proof {
            reveal(state::valid);
        }
        self.disk_usage = !self.disk_usage;
    }

    /// Start typing a filter.
    fn open_filter(&mut self)
        requires
            old(self).wf(),
        ensures
            final(self).wf(),
            final(self).hears_as(*old(self)),
            final(self)@ == state::search_opened(old(self)@),
    {
        proof {
            reveal(state::valid);
        }
        self.searching = true;
        self.status = None;
        self.pre_search_selected = self.selected;
        if self.filter.is_none() {
            self.filter = Some(String::new());
            assert(self@.filter->0 =~= Seq::empty());
        }
    }

    /// Open the help popup.
    fn open_help(&mut self)
        requires
            old(self).wf(),
        ensures
            final(self).wf(),
            final(self).hears_as(*old(self)),
            final(self)@ == (AppView { modal: ModalView::Help, ..old(self)@ }),
    {
        proof {
            reveal(state::valid);
        }
        self.modal = Modal::Help;
    }

    /// Open the info popup for the selected entry.
    fn open_info(&mut self)
        requires
            old(self).wf(),
        ensures
            final(self).wf(),
            final(self).hears_as(*old(self)),
            final(self)@ == state::info_opened(old(self)@),
    {
        proof {
            reveal(state::valid);
        }
        if let Some(sel) = self.selected {
            self.modal = Modal::Info(sel);
        }
    }

    /// The stream of a scan ended.
    fn end_scan(&mut self, i: usize)
        requires
            old(self).wf(),
            i < old(self).scans@.len(),
        ensures
            final(self).wf(),
            final(self)@ == state::scan_ended(old(self)@, i as int),
            final(self).scans@ == old(self).scans@.update(
                i as int,
                ScanHandle { alive: false, ..old(self).scans@[i as int] },
            ),
            final(self).pending_delete == old(self).pending_delete,
            final(self).pending_open == old(self).pending_open,
    {
        proof {
            reveal(state::valid);
        }
        let ghost had = self.scans@;
        self.scans[i].alive = false;
        proof {
            let earlier = scan_views(had);
            let later = scan_views(self.scans@);
            assert(later =~= earlier.update(i as int, (earlier[i as int].0, false)));
        }
    }

    /// Show a message.
    fn say(&mut self, message: &str)
        requires
            old(self).wf(),
        ensures
            final(self).wf(),
            final(self).hears_as(*old(self)),
            final(self)@ == state::said(old(self)@, message@).0,
    {
        proof {
            reveal(state::valid);
        }
        self.status = Some(message.to_string());
    }

    /// Have every live scan prioritize the directory currently being viewed.
    fn refocus(&self) -> (effect: Effect)
        requires
            self.wf(),
        ensures
            effect@ == state::refocused(self@),
    {
        proof {
            reveal(state::valid);
        }
        if !self.scanning {
            return Effect::Nothing;
        }
        let path = self.tree.path_of(self.cur);
        Effect::Focus(text::bytes_of(path.as_str()))
    }

    fn ensure_selection(&mut self, kids: &Vec<NodeIdx>)
        requires
            old(self).wf(),
            forall|k: int| 0 <= k < kids@.len() ==> #[trigger] kids@[k] < old(self).tree.nodes.len(),
        ensures
            final(self).wf(),
            final(self).hears_as(*old(self)),
            final(self)@ == (AppView {
                selected: state::kept_selection(old(self)@.selected, kids@),
                ..old(self)@
            }),
    {
        proof {
            reveal(state::valid);
        }
        let kept = match self.selected {
            Some(sel) => rows::position_of(kids, sel).is_some(),
            None => false,
        };
        if !kept {
            self.selected = first_of(kids);
        }
    }

    /// While typing a filter, keep the selection on the first entry matching it.
    fn snap_to_first_match(&mut self)
        requires
            old(self).wf(),
        ensures
            final(self).wf(),
            final(self).hears_as(*old(self)),
            final(self)@ == state::snapped(old(self)@),
    {
        proof {
            reveal(state::valid);
        }
        let kids = self.sorted_children();
        self.selected = first_of(&kids);
    }

    /// Move the selection by some rows, clamped to the list.
    fn move_selection(&mut self, kids: &Vec<NodeIdx>, by: usize, down: bool)
        requires
            old(self).wf(),
            forall|k: int| 0 <= k < kids@.len() ==> #[trigger] kids@[k] < old(self).tree.nodes.len(),
        ensures
            final(self).wf(),
            final(self).hears_as(*old(self)),
            final(self)@ == (AppView {
                selected: state::moved(
                    old(self)@.selected,
                    kids@,
                    if down {
                        by as int
                    } else {
                        -(by as int)
                    },
                ),
                ..old(self)@
            }),
    {
        proof {
            reveal(state::valid);
        }
        if kids.len() == 0 {
            return;
        }
        let found = match self.selected {
            Some(sel) => rows::position_of(kids, sel),
            None => None,
        };
        let pos: usize = match found {
            Some(p) => p,
            None => 0,
        };
        let last: usize = kids.len() - 1;
        let to: usize = if down {
            if by > last - pos {
                last
            } else {
                pos + by
            }
        } else if by > pos {
            0
        } else {
            pos - by
        };
        self.selected = Some(kids[to]);
    }

    /// Go into the selected directory.
    pub fn descend(&mut self) -> (effect: Effect)
        requires
            old(self).wf(),
        ensures
            final(self).wf(),
            final(self).still_hears(*old(self), effect),
            (final(self)@, effect@) == state::entered(old(self)@),
    {
        proof {
            reveal(state::valid);
        }
        if let Some(sel) = self.selected {
            // The subtree being deleted is locked: refuse to enter it.
            let locked = match self.deleting_idx() {
                Some(idx) => idx == sel,
                None => false,
            };
            if locked {
                self.say("can't enter: this directory is being deleted");
                return Effect::Nothing;
            }
            assert(self.tree.nodes@[sel as int]@ == self@.tree.nodes[sel as int]);
            if self.tree.nodes[sel].is_dir() {
                self.cur = sel;
                self.snap_to_first_match();
                // Prioritize scanning the directory we just entered.
                return self.refocus();
            }
        }
        Effect::Nothing
    }

    /// Go up, with the directory that was left selected.
    pub fn ascend(&mut self) -> (effect: Effect)
        requires
            old(self).wf(),
        ensures
            final(self).wf(),
            final(self).still_hears(*old(self), effect),
            (final(self)@, effect@) == state::left(old(self)@),
    {
        proof {
            reveal(state::valid);
        }
        assert(self.tree.nodes@[self.cur as int]@ == self@.tree.nodes[self.cur as int]);
        if let Some(parent) = self.tree.nodes[self.cur].parent {
            // Re-select the directory we just came out of.
            self.selected = Some(self.cur);
            self.cur = parent;
            return self.refocus();
        }
        Effect::Nothing
    }

    /// Hand the selected entry to the platform's default handler: files open in their default app,
    /// directories in the file manager. Non-destructive, so unlike delete it also works in
    /// read-only mode and while a scan is still filling in the tree.
    fn open_selected(&mut self) -> (effect: Effect)
        requires
            old(self).wf(),
        ensures
            final(self).wf(),
            final(self).still_hears(*old(self), effect),
            (final(self)@, effect@) == state::open_started(old(self)@),
    {
        proof {
            reveal(state::valid);
        }
        if let Some(sel) = self.selected {
            let locked = match self.deleting_idx() {
                Some(idx) => idx == sel,
                None => false,
            };
            if locked {
                self.say("can't open: this entry is being deleted");
                return Effect::Nothing;
            }
            let path = self.tree.path_of(sel);
            let (tx, rx) = crossbeam_channel::unbounded();
            self.status = Some(text::joined("opening ", path.as_str()));
            let ghost had = self.pending_open@;
            self.pending_open.push(PendingOpen { path: path.clone(), rx });
            assert(open_views(self.pending_open@) =~= open_views(had).push(path@));
            return Effect::Open(path, tx);
        }
        Effect::Nothing
    }

    fn request_delete(&mut self)
        requires
            old(self).wf(),
        ensures
            final(self).wf(),
            final(self).hears_as(*old(self)),
            final(self)@ == state::delete_asked(old(self)@),
    {
        proof {
            reveal(state::valid);
        }
        if self.read_only {
            self.say("read-only mode (-r): deletion disabled");
            return;
        }
        // One deletion at a time keeps the locking simple; browsing stays available meanwhile.

        if self.is_deleting() {
            self.say("a deletion is already in progress — please wait");
            return;
        }
        if let Some(sel) = self.selected {
            if sel == self.cur {
                return;
            }
            // The core safety rule: never delete a subtree that is still being scanned, or its
            // contents (and on-disk reality) aren't fully known yet.

            assert(self.tree.nodes@[sel as int]@ == self@.tree.nodes[sel as int]);
            if self.tree.nodes[sel].is_dir() && !self.tree.subtree_complete(sel) {
                self.say("cannot delete: directory is still being scanned — wait for it to finish");
                return;
            }
            self.modal = Modal::ConfirmDelete(sel);
        }
    }

    fn perform_delete(&mut self, idx: NodeIdx) -> (effect: Effect)
        requires
            old(self).wf(),
            idx < old(self).tree.nodes.len(),
        ensures
            final(self).wf(),
            final(self).still_hears(*old(self), effect),
            (final(self)@, effect@) == state::delete_started(old(self)@, idx),
    {
        proof {
            reveal(state::valid);
        }
        let path = self.tree.path_of(idx);
        assert(self.tree.nodes@[idx as int]@ == self@.tree.nodes[idx as int]);
        let is_dir = self.tree.nodes[idx].is_dir();
        // Look once more at the moment of action (the scan may have advanced).
        if is_dir && !self.tree.subtree_complete(idx) {
            self.say("cannot delete: subtree not fully scanned");
            return Effect::Nothing;
        }
        let (tx, rx) = crossbeam_channel::unbounded();
        self.status = None;
        self.pending_delete = Some(PendingDelete { idx, path: path.clone(), rx });
        Effect::Delete(path, is_dir, tx)
    }

    /// The quit key. A destructive operation is not silently aborted: it arms on the first press
    /// and force-quits on the second (the removal is interrupted and may leave partial results).
    fn request_quit(&mut self)
        requires
            old(self).wf(),
        ensures
            final(self).wf(),
            final(self).hears_as(*old(self)),
            final(self)@ == state::quit_pressed(old(self)@),
    {
        proof {
            reveal(state::valid);
        }
        if self.is_deleting() && !self.quit_armed {
            self.quit_armed = true;
            self.say(
                "deletion in progress — press q / Ctrl-C again to abort it and quit (may leave partial results)",
            );
        } else {
            self.quit = true;
        }
    }

    /// True if a deletion in progress covers `sel` (the node itself or an ancestor of it).
    fn deletion_covers(&self, sel: NodeIdx) -> (yes: bool)
        requires
            self.wf(),
            sel < self.tree.nodes.len(),
        ensures
            yes == state::deletion_covers(self@, sel),
    {
        proof {
            reveal(state::valid);
        }
        let ghost nodes = self@.tree.nodes;
        match self.deleting_idx() {
            None => false,
            Some(d) => {
                let mut i: NodeIdx = sel;
                while i != d
                    invariant
                        tree::well_linked(nodes),
                        nodes == self@.tree.nodes,
                        state::deleting_idx(self@) == Some(d),
                        i < nodes.len(),
                        tree::above(nodes, d as int, sel as int) == tree::above(
                            nodes,
                            d as int,
                            i as int,
                        ),
                    decreases i,
                {
                    assert(self.tree.nodes@[i as int]@ == nodes[i as int]);
                    match self.tree.nodes[i].parent {
                        Some(p) => {
                            i = p;
                        },
                        None => {
                            return false;
                        },
                    }
                }
                true
            },
        }
    }

    /// Whether the machine has room for what a key asks for. Only a rescan can lack it: the id that it
    /// starts from has to fit 64 bits, and the count of unread directories above it must have room for it.
    pub fn key_fits(&self, action: KeyAction) -> (yes: bool)
        requires
            self.wf(),
        ensures
            yes == (action is Refresh && self.modal is Closed && !self.searching
                ==> state::refresh_fits(state::ready(self@, action))),
    {
        proof {
            reveal(state::valid);
        }
        let asks = match action {
            KeyAction::Refresh => match &self.modal {
                Modal::Closed => !self.searching,
                _ => false,
            },
            _ => false,
        };
        if !asks {
            return true;
        }
        let kids = self.sorted_children();
        let ghost plain = AppView { status: None, quit_armed: false, ..self@ };
        assert(state::shown(plain) == state::shown(self@));
        let kept = match self.selected {
            Some(sel) => rows::position_of(&kids, sel).is_some(),
            None => false,
        };
        let selected = if kept {
            self.selected
        } else {
            first_of(&kids)
        };
        match selected {
            Some(sel) => {
                assert(self.tree.nodes@[sel as int]@ == self@.tree.nodes[sel as int]);
                let due = self.scan_opts.is_some() && self.refreshing_idx.is_none()
                    && self.tree.nodes[sel].is_dir() && !self.deletion_covers(sel)
                    && self.tree.subtree_complete(sel);
                !due || (self.next_scan_base <= 16_777_215 && self.tree.can_refresh(sel))
            },
            None => true,
        }
    }

    /// Rescan the selected directory in place: the model tears its subtree down and a new scanner
    /// generation re-reads it from disk, grafting back into the same node. Browsing stays live the
    /// whole time; totals of surrounding directories stay correct throughout.
    fn request_refresh(&mut self) -> (effect: Effect)
        requires
            old(self).wf(),
            state::refresh_fits(old(self)@),
        ensures
            final(self).wf(),
            final(self).still_hears(*old(self), effect),
            (final(self)@, effect@) == state::refresh_started(old(self)@),
    {
        proof {
            reveal(state::valid);
        }
        if let Some(sel) = self.selected {
            let opts = match &self.scan_opts {
                Some(opts) => opts.clone(),
                None => {
                    self.say("rescan unavailable: browsing an imported dump");
                    return Effect::Nothing;
                },
            };
            if self.refreshing_idx.is_some() {
                self.say("a rescan is already in progress — please wait");
                return Effect::Nothing;
            }
            assert(self.tree.nodes@[sel as int]@ == self@.tree.nodes[sel as int]);
            if !self.tree.nodes[sel].is_dir() {
                self.say("select a directory to rescan");
                return Effect::Nothing;
            }
            // Scanning a subtree that is being removed from disk would race the deletion.

            if self.deletion_covers(sel) {
                self.say("can't rescan: a deletion is in progress here");
                return Effect::Nothing;
            }
            // The subtree must be fully known before tearing it down — otherwise the original scan
            // could still deliver batches for it and double-count.

            if !self.tree.subtree_complete(sel) {
                self.say("cannot rescan: directory is still being scanned");
                return Effect::Nothing;
            }
            let id_base: u64 = self.next_scan_base * SCAN_ID_STRIDE;
            self.next_scan_base = self.next_scan_base + 1;
            let path = self.tree.path_of(sel);
            self.tree.begin_refresh(sel, id_base);
            proof {
                self.tree.lemma_view_fits();
            }
            let (scan, workers) = scan::start_at(text::bytes_of(path.as_str()), opts, id_base);
            let ghost had = self.scans@;
            self.scans.push(ScanHandle { rx: scan.events, refresh: true, alive: true });
            assert(scan_views(self.scans@) =~= scan_views(had).push((true, true)));
            self.refreshing_idx = Some(sel);
            self.scanning = true;
            // A fresh generation: the throughput display reflects this rescan, not the bytes the
            // original scan already brought in.
            self.bytes_seen = 0;
            self.scan_started = Some(Instant::now());
            let words = text::joined("rescanning ", path.as_str());
            self.status = Some(text::joined(words.as_str(), "…"));
            return Effect::Rescan(scan.control, workers);
        }
        Effect::Nothing
    }

    /// Jump to the next entry flagged with a read error (`!`), searching forward from the current
    /// selection in display order and wrapping around. The view moves to the entry's parent
    /// directory with it selected.
    fn jump_to_next_error(&mut self) -> (effect: Effect)
        requires
            old(self).wf(),
        ensures
            final(self).wf(),
            final(self).still_hears(*old(self), effect),
            (final(self)@, effect@) == state::error_sought(old(self)@),
    {
        proof {
            reveal(state::valid);
        }
        let order = rows::display_order(&self.tree, self.sort, self.disk_usage);
        let anchor: NodeIdx = match self.selected {
            Some(sel) => sel,
            None => self.cur,
        };
        match self.next_error(&order, anchor) {
            Some(idx) => self.show_error(idx),
            None => {
                self.say("no read errors");
                Effect::Nothing
            },
        }
    }

    /// The view moves to an entry with a read error.
    fn show_error(&mut self, idx: NodeIdx) -> (effect: Effect)
        requires
            old(self).wf(),
            idx < old(self).tree.nodes.len(),
        ensures
            final(self).wf(),
            final(self).still_hears(*old(self), effect),
            (final(self)@, effect@) == state::error_shown(old(self)@, idx),
    {
        proof {
            reveal(state::valid);
        }
        let path = self.tree.path_of(idx);
        if idx == self.tree.root {
            self.cur = self.tree.root;
            self.selected = None;
        } else {
            assert(self.tree.nodes@[idx as int]@ == self@.tree.nodes[idx as int]);
            if let Some(parent) = self.tree.nodes[idx].parent {
                self.cur = parent;
                self.selected = Some(idx);
            }
        }
        let effect = self.refocus();
        self.say(text::joined("read error: ", path.as_str()).as_str());
        effect
    }

    /// The next of some entries with a read error behind `anchor`, wrapping around.
    fn next_error(&self, order: &Vec<NodeIdx>, anchor: NodeIdx) -> (idx: Option<NodeIdx>)
        requires
            order@.len() > 0,
            forall|k: int| 0 <= k < order@.len() ==> #[trigger] order@[k] < self.tree.nodes.len(),
        ensures
            idx == state::next_error(self@.tree.nodes, order@, anchor),
            idx is Some ==> idx->0 < self.tree.nodes.len(),
    {
        let ghost nodes = self@.tree.nodes;
        let pos: usize = match rows::position_of(order, anchor) {
            Some(p) => p,
            None => 0,
        };
        let behind: usize = order.len() - pos - 1;
        let ghost turned = order@.skip(pos + 1) + order@.take(pos + 1);
        let mut k: usize = 0;
        assert(turned.skip(0) =~= turned);
        while k < order.len()
            invariant
                nodes == self@.tree.nodes,
                pos < order@.len(),
                behind == order@.len() - pos - 1,
                turned == order@.skip(pos + 1) + order@.take(pos + 1),
                state::next_error(nodes, order@, anchor) == state::first_error(nodes, turned),
                k <= order@.len(),
                state::first_error(nodes, turned) == state::first_error(
                    nodes,
                    turned.skip(k as int),
                ),
                forall|k: int|
                    0 <= k < order@.len() ==> #[trigger] order@[k] < self.tree.nodes.len(),
            decreases order@.len() - k,
        {
            let idx: NodeIdx = if k < behind {
                order[pos + 1 + k]
            } else {
                order[k - behind]
            };
            let ghost here = turned.skip(k as int);
            assert(here[0] == idx);
            assert(self.tree.nodes@[idx as int]@ == nodes[idx as int]);
            if self.tree.nodes[idx].read_error {
                return Some(idx);
            }
            k += 1;
            assert(here.skip(1) =~= turned.skip(k as int));
        }
        None
    }

    /// The largest regular files under `from`, largest first, with paths relative to it. Computed on
    /// demand (a subtree walk) so it costs nothing during the scan; entries are a snapshot of the
    /// current sizes, which is exactly what the popup shows.
    pub fn top_files(&self, from: NodeIdx, limit: usize) -> (items: Vec<TopEntry>)
        requires
            self.wf(),
            from < self.tree.nodes.len(),
        ensures
            state::is_top_list(
                self@.tree.nodes,
                self.disk_usage,
                from as int,
                limit as int,
                top::top_views(items@),
            ),
            forall|k: int|
                0 <= k < items@.len() ==> (#[trigger] items@[k]).size == if self.disk_usage {
                    self@.tree.nodes[items@[k].idx as int].disk
                } else {
                    self@.tree.nodes[items@[k].idx as int].apparent
                },
    {
        proof {
            reveal(state::valid);
        }
        let items = top::top_files(&self.tree, self.disk_usage, from, limit);
        proof {
            let rows = top::top_views(items@);
            assert forall|k: int| 0 <= k < items@.len() implies (#[trigger] items@[k]).size == if
                self.disk_usage {
                self@.tree.nodes[items@[k].idx as int].disk
            } else {
                self@.tree.nodes[items@[k].idx as int].apparent
            } by {
                assert(rows[k] == items@[k]@);
                browse::law_top_files_are_the_largest(
                    self@.tree.nodes,
                    self.disk_usage,
                    from as int,
                    limit as int,
                    rows,
                    k,
                    k,
                    0,
                );
            }
        }
        items
    }

    /// Open the top-files popup for the directory currently being viewed.
    fn open_top_files(&mut self, Ghost(start): Ghost<AppView>)
        requires
            old(self).wf(),
            old(self).modal is Closed,
            old(self)@ == state::ready(start, KeyAction::TopFiles),
        ensures
            final(self).wf(),
            final(self).hears_as(*old(self)),
            state::top_files_opened(start, final(self)@),
    {
        proof {
            reveal(state::valid);
        }
        let items = self.top_files(self.cur, TOP_FILES_LIMIT);
        if items.len() == 0 {
            assert(top::top_views(items@) =~= Seq::empty());
            self.say("no files under this directory");
        } else {
            let ghost rows = top::top_views(items@);
            assert forall|k: int| 0 <= k < rows.len() implies (#[trigger] rows[k]).idx
                < self@.tree.nodes.len() by {
                assert(state::is_file_below(
                    self@.tree.nodes,
                    rows[k].idx as int,
                    self.cur as int,
                ));
            }
            self.modal = Modal::TopFiles(Box::new(TopFiles { items, selected: 0 }));
        }
    }

    /// Put the top-files popup back, with another row selected.
    fn put_top(&mut self, popup: Box<TopFiles>, selected: usize)
        requires
            old(self).wf(),
            selected < popup.items@.len(),
            forall|k: int|
                0 <= k < popup.items@.len() ==> (#[trigger] top::top_views(popup.items@)[k]).idx
                    < old(self).tree.nodes.len(),
        ensures
            final(self).wf(),
            final(self).hears_as(*old(self)),
            final(self)@ == (AppView {
                modal: ModalView::TopFiles(top::top_views(popup.items@), selected as int),
                ..old(self)@
            }),
    {
        proof {
            reveal(state::valid);
        }
        let mut popup = popup;
        popup.selected = selected;
        self.modal = Modal::TopFiles(popup);
    }

    /// Go to an entry of the top-files popup.
    fn go_to(&mut self, idx: NodeIdx) -> (effect: Effect)
        requires
            old(self).wf(),
            idx < old(self).tree.nodes.len(),
        ensures
            final(self).wf(),
            final(self).still_hears(*old(self), effect),
            (final(self)@, effect@) == state::gone_to(old(self)@, idx),
    {
        proof {
            reveal(state::valid);
        }
        // The tree may have changed since the popup opened (deletions and rescans tombstone nodes):
        // only jump if the entry is still attached.
        assert(self.tree.nodes@[idx as int]@ == self@.tree.nodes[idx as int]);
        if let Some(parent) = self.tree.nodes[idx].parent {
            assert(parent < self.tree.nodes.len());
            if self.tree.is_attached(idx) {
                self.cur = parent;
                self.selected = Some(idx);
                return self.refocus();
            }
        }
        self.say("that entry is no longer in the tree");
        Effect::Nothing
    }

    /// A key in the top-files popup, which was taken out of its place.
    fn top_key(&mut self, popup: Box<TopFiles>, action: KeyAction, Ghost(start): Ghost<AppView>) -> (effect:
        Effect)
        requires
            old(self).wf(),
            state::valid(start),
            start.modal == ModalView::TopFiles(
                top::top_views(popup.items@),
                popup.selected as int,
            ),
            old(self)@ == (AppView { modal: ModalView::Closed, ..start }),
        ensures
            final(self).wf(),
            final(self).still_hears(*old(self), effect),
            (final(self)@, effect@) == state::top_pressed(
                start,
                top::top_views(popup.items@),
                popup.selected as int,
                action,
            ),
    {
        proof {
            reveal(state::top_pressed);
        }
        let ghost rows = top::top_views(popup.items@);
        assert(0 <= popup.selected < popup.items@.len() && forall|k: int|
            0 <= k < rows.len() ==> (#[trigger] rows[k]).idx < self.tree.nodes.len()) by {
            reveal(state::valid);
            assert(self.tree.nodes.len() == self@.tree.nodes.len());
        }
        let selected: usize = popup.selected;
        let last: usize = popup.items.len() - 1;
        match action {
            KeyAction::Down => self.put_top(
                popup,
                if selected < last {
                    selected + 1
                } else {
                    last
                },
            ),
            KeyAction::Up => self.put_top(
                popup,
                if selected > 0 {
                    selected - 1
                } else {
                    0
                },
            ),
            KeyAction::Top => self.put_top(popup, 0),
            KeyAction::Bottom => self.put_top(popup, last),
            KeyAction::Enter => {
                assert(rows[selected as int].idx < self.tree.nodes.len());
                return self.go_to(popup.items[selected].idx);
            },
            // These close the popup without changing the view.
            KeyAction::Quit | KeyAction::Leave | KeyAction::Cancel | KeyAction::Help => {},
            // Anything else: keep the popup open exactly as it was.
            _ => self.put_top(popup, selected),
        }
        Effect::Nothing
    }

    /// A key while a deletion is to be confirmed; the question was taken out of its place.
    fn confirm_key(&mut self, idx: NodeIdx, action: KeyAction, Ghost(start): Ghost<AppView>) -> (effect:
        Effect)
        requires
            old(self).wf(),
            old(self).modal is Closed,
            state::valid(start),
            start.modal == ModalView::ConfirmDelete(idx),
            old(self)@ == (AppView { modal: ModalView::Closed, ..start }),
        ensures
            final(self).wf(),
            final(self).still_hears(*old(self), effect),
            (final(self)@, effect@) == state::confirm_pressed(start, idx, action),
    {
        proof {
            reveal(state::confirm_pressed);
            reveal(state::valid);
        }
        match action {
            KeyAction::Confirm => {
                return self.perform_delete(idx);
            },
            KeyAction::Quit | KeyAction::Leave | KeyAction::Cancel => {
                self.say("delete cancelled");
            },
            // Any other key: keep waiting in the dialog.
            _ => {
                self.modal = Modal::ConfirmDelete(idx);
            },
        }
        Effect::Nothing
    }

    /// The filter that is being typed becomes another one, and the first match is selected.
    fn retype(&mut self, filter: Option<String>)
        requires
            old(self).wf(),
        ensures
            final(self).wf(),
            final(self).hears_as(*old(self)),
            final(self)@ == state::snapped(
                AppView { filter: text::chars_if(filter), ..old(self)@ },
            ),
    {
        proof {
            reveal(state::valid);
        }
        self.filter = filter;
        self.snap_to_first_match();
    }

    /// The filter is applied; an empty one is none.
    fn apply_filter(&mut self)
        requires
            old(self).wf(),
        ensures
            final(self).wf(),
            final(self).hears_as(*old(self)),
            final(self)@ == state::filter_applied(old(self)@),
    {
        proof {
            reveal(state::valid);
        }
        self.searching = false;
        let empty = match &self.filter {
            Some(query) => query.as_str().unicode_len() == 0,
            None => true,
        };
        if empty {
            self.filter = None;
        }
    }

    /// The filter is discarded, and the prior selection restored.
    fn discard_filter(&mut self)
        requires
            old(self).wf(),
        ensures
            final(self).wf(),
            final(self).hears_as(*old(self)),
            final(self)@ == state::filter_discarded(old(self)@),
    {
        proof {
            reveal(state::valid);
        }
        self.searching = false;
        self.filter = None;
        self.selected = self.pre_search_selected;
        self.pre_search_selected = None;
        let kids = self.sorted_children();
        self.ensure_selection(&kids);
        proof {
            let plain = AppView {
                searching: false,
                filter: None,
                pre_search_selected: None,
                ..old(self)@
            };
            assert(state::shown(plain) == kids@);
        }
    }

    /// A key while the filter is being typed: characters extend the query, Backspace erases, Enter
    /// applies it, Esc discards it and restores the prior selection. Navigation keys are inert
    /// meanwhile (they'd otherwise act on half-typed queries).
    fn filter_key(&mut self, action: KeyAction)
        requires
            old(self).wf(),
        ensures
            final(self).wf(),
            final(self).hears_as(*old(self)),
            final(self)@ == state::filter_pressed(old(self)@, action),
    {
        proof {
            reveal(state::filter_pressed);
        }
        match action {
            KeyAction::FilterChar(c) => {
                let longer = match &self.filter {
                    Some(query) => {
                        let mut query = query.clone();
                        query.push(c);
                        Some(query)
                    },
                    None => None,
                };
                self.retype(longer);
            },
            KeyAction::FilterBackspace => {
                let shorter = match &self.filter {
                    Some(query) => Some(text::without_last(query.as_str())),
                    None => None,
                };
                self.retype(shorter);
            },
            KeyAction::FilterConfirm => self.apply_filter(),
            KeyAction::FilterCancel => self.discard_filter(),
            _ => {},
        }
    }

    /// A key while browsing, on rows that were looked up already.
    fn browse_key(
        &mut self,
        kids: &Vec<NodeIdx>,
        action: KeyAction,
        Ghost(start): Ghost<AppView>,
    ) -> (effect: Effect)
        requires
            old(self).wf(),
            old(self).modal is Closed,
            old(self)@ == state::ready(start, action),
            kids@ == state::shown(old(self)@),
            forall|k: int| 0 <= k < kids@.len() ==> #[trigger] kids@[k] < old(self).tree.nodes.len(),
            action is Refresh ==> state::refresh_fits(old(self)@),
        ensures
            final(self).wf(),
            final(self).still_hears(*old(self), effect),
            if action is TopFiles {
                state::top_files_opened(start, final(self)@) && effect@ == EffectView::Nothing
            } else {
                (final(self)@, effect@) == state::browse_pressed(start, action)
            },
    {
        proof {
            reveal(state::browse_pressed);
        }
        match action {
            KeyAction::Quit => self.request_quit(),
            KeyAction::Down => self.move_selection(kids, 1, true),
            KeyAction::Up => self.move_selection(kids, 1, false),
            KeyAction::PageDown(page) => self.move_selection(kids, page, true),
            KeyAction::PageUp(page) => self.move_selection(kids, page, false),
            KeyAction::Top => self.select(first_of(kids)),
            KeyAction::Bottom => self.select(last_of(kids)),
            KeyAction::Enter => {
                return self.descend();
            },
            KeyAction::Leave => {
                return self.ascend();
            },
            KeyAction::ToggleSort => self.toggle_sort(),
            KeyAction::Search => self.open_filter(),
            KeyAction::ToggleUsage => self.toggle_usage(),
            KeyAction::Help => self.open_help(),
            KeyAction::Delete => self.request_delete(),
            KeyAction::Open => {
                return self.open_selected();
            },
            KeyAction::TopFiles => self.open_top_files(Ghost(start)),
            KeyAction::Refresh => {
                return self.request_refresh();
            },
            KeyAction::Info => self.open_info(),
            KeyAction::Export => {
                return Effect::Export;
            },
            KeyAction::NextError => {
                return self.jump_to_next_error();
            },
            KeyAction::Confirm | KeyAction::Cancel => {},
            // These belong to a filter that is being typed.
            KeyAction::FilterChar(_)
            | KeyAction::FilterBackspace
            | KeyAction::FilterConfirm
            | KeyAction::FilterCancel => {},
        }
        Effect::Nothing
    }

    /// Act upon a key, and say what is left to be done about it.
    ///
    /// A background deletion does NOT block input — the user can keep browsing. Only the subtree
    /// being deleted is locked.
    pub fn on_key(&mut self, action: KeyAction) -> (effect: Effect)
        requires
            old(self).wf(),
            action is Refresh && old(self).modal is Closed && !old(self).searching
                ==> state::refresh_fits(state::ready(old(self)@, action)),
        ensures
            final(self).wf(),
            final(self).still_hears(*old(self), effect),
            if state::asks_for_top_files(old(self)@, action) {
                state::top_files_opened(old(self)@, final(self)@) && effect@ == EffectView::Nothing
            } else {
                (final(self)@, effect@) == state::pressed(old(self)@, action)
            },
    {
        let ghost start = self@;
        // Modal overlays capture input first. The modal is taken out (popups carry state), so every
        // arm that keeps it open must put it back.
        match self.take_modal() {
            // Any key closes these, including quit — which must not also quit.
            Modal::Help | Modal::Info(_) => {
                return Effect::Nothing;
            },
            Modal::ConfirmDelete(idx) => {
                return self.confirm_key(idx, action, Ghost(start));
            },
            Modal::TopFiles(popup) => {
                return self.top_key(popup, action, Ghost(start));
            },
            Modal::Closed => {},
        }
        if self.searching {
            self.filter_key(action);
            return Effect::Nothing;
        }
        // Any key other than a repeated quit dismisses a stale status and disarms a pending
        // force-quit (so the two-press abort only triggers on consecutive quits).

        let repeated = match action {
            KeyAction::Quit => true,
            _ => false,
        };
        if !repeated {
            self.dismiss();
        }
        let kids = self.sorted_children();
        let ghost before = self@;
        self.ensure_selection(&kids);
        assert(state::shown(self@) == state::shown(before));
        assert(self.tree.nodes.len() == self@.tree.nodes.len());
        self.browse_key(&kids, action, Ghost(start))
    }

    // ---- Background work --------------------------------------------------------------------------

    /// Attach the initial scan: its batch stream and the options future subtree rescans should reuse
    /// (interactive scan mode only). The steering handle is handed back, directed at the directory
    /// that is being viewed.
    pub fn attach_scan(&mut self, scan: Scan, opts: Opts) -> (control: ScanControl)
        requires
            old(self).wf(),
        ensures
            final(self).wf(),
            final(self)@ == (AppView {
                scans: old(self)@.scans.push((false, true)),
                scan_opts: Some(opts@),
                timed: true,
                ..old(self)@
            }),
            final(self).scans@ == old(self).scans@.push(
                ScanHandle { rx: scan.events, refresh: false, alive: true },
            ),
            final(self).pending_delete == old(self).pending_delete,
            final(self).pending_open == old(self).pending_open,
            control.frontier@ == (match state::refocused(old(self)@) {
                EffectView::Focus(path) => frontier::refocused(scan.control.frontier@, Some(path)),
                _ => scan.control.frontier@,
            }),
    {
        proof {
            reveal(state::valid);
        }
        let ghost had = self.scans@;
        let Scan { events, control } = scan;
        self.scans.push(ScanHandle { rx: events, refresh: false, alive: true });
        assert(scan_views(self.scans@) =~= scan_views(had).push((false, true)));
        self.scan_opts = Some(opts);
        self.scan_started = Some(Instant::now());
        let mut control = control;
        match self.refocus() {
            Effect::Focus(path) => control.set_focus(Some(path)),
            _ => {},
        }
        control
    }

    /// The deletion that ended, taken out of its place. A pending force-quit is no longer relevant.
    fn take_deletion(&mut self) -> (pending: Option<PendingDelete>)
        requires
            old(self).wf(),
        ensures
            final(self).wf(),
            final(self)@ == (AppView { deleting: None, quit_armed: false, ..old(self)@ }),
            final(self).scans == old(self).scans,
            final(self).pending_open == old(self).pending_open,
            match pending {
                Some(p) => old(self)@.deleting == Some((p.idx, p.path@)) && p.idx
                    < final(self).tree.nodes.len(),
                None => old(self)@.deleting is None,
            },
    {
        proof {
            reveal(state::valid);
        }
        self.quit_armed = false;
        self.pending_delete.take()
    }

    /// An entry is gone from disk.
    fn drop_entry(&mut self, idx: NodeIdx)
        requires
            old(self).wf(),
            idx < old(self).tree.nodes.len(),
        ensures
            final(self).wf(),
            final(self).hears_as(*old(self)),
            final(self)@ == (AppView {
                tree: edit::deleted(old(self)@.tree, idx as int),
                ..old(self)@
            }),
    {
        proof {
            reveal(state::valid);
        }
        let _ = self.tree.delete_subtree(idx);
        proof {
            self.tree.lemma_view_fits();
        }
    }

    /// Fold the result of a deletion that ended into the tree.
    pub fn finish_delete(&mut self, outcome: Result<(), String>)
        requires
            old(self).wf(),
            old(self)@.deleting is Some,
        ensures
            final(self).wf(),
            final(self)@ == state::delete_ended(old(self)@, outcome_view(outcome)),
            final(self).scans == old(self).scans,
            final(self).pending_open == old(self).pending_open,
    {
        if let Some(pending) = self.take_deletion() {
            match outcome {
                Ok(_) => {
                    // If the removed node is in the view the user is looking at, land the highlight
                    // on a neighbour; if they browsed elsewhere, leave their selection untouched.
                    let kids = self.sorted_children();
                    let pos = rows::position_of(&kids, pending.idx);
                    self.drop_entry(pending.idx);
                    if let Some(p) = pos {
                        let kids = self.sorted_children();
                        self.select(
                            if kids.len() == 0 {
                                None
                            } else if p < kids.len() {
                                Some(kids[p])
                            } else {
                                Some(kids[kids.len() - 1])
                            },
                        );
                    }
                    self.say(text::joined("deleted ", pending.path.as_str()).as_str());
                },
                Err(why) => self.say(text::joined("delete failed: ", why.as_str()).as_str()),
            }
        }
    }

    /// Act on what the worker of the deletion had to offer. One that is gone without a word has failed.
    pub fn settle_delete(&mut self, polled: Polled<Result<(), String>>)
        requires
            old(self).wf(),
        ensures
            final(self).wf(),
            final(self)@ == state::delete_polled(old(self)@, polled_view(polled)),
            polled is Empty || old(self).pending_delete is None ==> *final(self) == *old(self),
            final(self).scans == old(self).scans,
            final(self).pending_open == old(self).pending_open,
    {
        if self.pending_delete.is_none() {
            return;
        }
        match polled {
            Polled::Ready(outcome) => self.finish_delete(outcome),
            // Still working.
            Polled::Empty => {},
            Polled::Closed => self.finish_delete(
                Err("delete worker exited unexpectedly".to_string()),
            ),
        }
    }

    /// Check whether a background deletion has finished and, if so, fold the result into the tree.
    /// Called once per frame by the event loop.
    pub fn poll_delete(&mut self)
        requires
            old(self).wf(),
        ensures
            final(self).wf(),
            *final(self) == *old(self) || (old(self)@.deleting is Some && exists|
                outcome: Result<(), Seq<char>>,
            |
                final(self)@ == #[trigger] state::delete_ended(old(self)@, outcome)),
            final(self).scans == old(self).scans,
            final(self).pending_open == old(self).pending_open,
    {
        let polled = match &self.pending_delete {
            Some(pending) => outside::poll(&pending.rx),
            None => {
                return;
            },
        };
        self.settle_delete(
            match polled {
                Polled::Ready(result) => Polled::Ready(plain_outcome(result)),
                Polled::Empty => Polled::Empty,
                Polled::Closed => Polled::Closed,
            },
        );
    }

    /// Surface the results of the opens that ended, and keep the others.
    pub fn settle_opens(&mut self, outcomes: &Vec<Option<Result<(), String>>>)
        requires
            old(self).wf(),
            outcomes@.len() == old(self).pending_open@.len(),
        ensures
            final(self).wf(),
            final(self)@ == state::opens_settled(old(self)@, outcome_views(outcomes@)),
            final(self).pending_open@ == opens_kept(
                old(self).pending_open@,
                outcome_views(outcomes@),
            ),
            final(self).scans == old(self).scans,
            final(self).pending_delete == old(self).pending_delete,
    {
        proof {
            reveal(state::valid);
        }
        let ghost before = self@;
        let ghost results = outcome_views(outcomes@);
        let mut opens: Vec<PendingOpen> = Vec::new();
        std::mem::swap(&mut opens, &mut self.pending_open);
        let ghost paths = open_views(opens@);
        let total: usize = outcomes.len();
        let mut k: usize = 0;
        assert(open_views(self.pending_open@) =~= Seq::empty());
        assert(paths.take(0) =~= Seq::empty());
        assert(opens@.take(0) =~= Seq::empty());
        for pending in it: opens
            invariant
                self@ == (AppView {
                    opening: state::opens_left(paths.take(k as int), results.take(k as int)),
                    status: state::opens_said(
                        before.status,
                        paths.take(k as int),
                        results.take(k as int),
                    ),
                    ..before
                }),
                self.pending_open@ == opens_kept(opens@.take(k as int), results.take(k as int)),
                self.scans == old(self).scans,
                self.pending_delete == old(self).pending_delete,
                k == it.index(),
                it.seq() == opens@,
                paths == open_views(opens@),
                results == outcome_views(outcomes@),
                outcomes@.len() == opens@.len(),
                outcomes@.len() == total,
        {
            proof {
                assert(paths[k as int] == pending.path@);
                assert(paths.take(k + 1).drop_last() =~= paths.take(k as int));
                assert(opens@.take(k + 1).drop_last() =~= opens@.take(k as int));
                assert(opens@.take(k + 1).last() == pending);
                assert(results.take(k + 1).drop_last() =~= results.take(k as int));
                assert(paths.take(k + 1).last() == paths[k as int]);
                assert(results.take(k + 1).last() == results[k as int]);
            }
            let ghost had = self.pending_open@;
            match &outcomes[k] {
                Some(outcome) => {
                    self.status = Some(open_message(&pending.path, outcome));
                },
                None => {
                    self.pending_open.push(pending);
                    assert(open_views(self.pending_open@) =~= open_views(had).push(
                        paths[k as int],
                    ));
                },
            }
            k += 1;
        }
        assert(paths.take(k as int) =~= paths);
        assert(opens@.take(k as int) =~= opens@);
        assert(results.take(k as int) =~= results);
    }

    /// Check whether background opens have finished and surface their results. Called once per frame
    /// by the event loop.
    pub fn poll_open(&mut self)
        requires
            old(self).wf(),
        ensures
            final(self).wf(),
            exists|outcomes: Seq<Option<Result<(), Seq<char>>>>|
                outcomes.len() == old(self)@.opening.len() && final(self)@
                    == #[trigger] state::opens_settled(old(self)@, outcomes)
                    && final(self).pending_open@ == opens_kept(old(self).pending_open@, outcomes),
            final(self).scans == old(self).scans,
            final(self).pending_delete == old(self).pending_delete,
    {
        let mut outcomes: Vec<Option<Result<(), String>>> = Vec::new();
        let mut k: usize = 0;
        while k < self.pending_open.len()
            invariant
                k <= self.pending_open@.len(),
                outcomes@.len() == k,
            decreases self.pending_open@.len() - k,
        {
            let outcome = match outside::poll(&self.pending_open[k].rx) {
                Polled::Ready(result) => Polled::Ready(plain_outcome(result)),
                Polled::Empty => Polled::Empty,
                Polled::Closed => Polled::Closed,
            };
            outcomes.push(open_outcome(outcome));
            k += 1;
        }
        self.settle_opens(&outcomes);
    }

    /// Say how an export of the whole tree ended.
    pub fn finish_export(&mut self, dest: &str, outcome: Result<(), String>)
        requires
            old(self).wf(),
        ensures
            final(self).wf(),
            final(self).hears_as(*old(self)),
            final(self)@ == (AppView {
                status: Some(state::export_message(old(self)@, dest@, outcome_view(outcome))),
                ..old(self)@
            }),
    {
        proof {
            reveal(state::valid);
        }
        match outcome {
            Ok(_) => {
                let entries: u64 = self.tree.total_dirs + self.tree.total_files;
                let mut words = text::joined("exported ", text::decimal_text(entries).as_str());
                words.append(" entries to ");
                words.append(dest);
                self.status = Some(words);
            },
            Err(why) => {
                self.status = Some(text::joined("export failed: ", why.as_str()));
            },
        }
    }

    /// Take a batch into the tree, and count its counted bytes for the throughput display. Whether
    /// every total had room for it.
    pub fn take_batch(&mut self, batch: Batch) -> (done: bool)
        requires
            old(self).wf(),
        ensures
            final(self).wf(),
            final(self).hears_as(*old(self)),
            (final(self)@, done) == state::received(old(self)@, batch@),
    {
        proof {
            reveal(state::valid);
        }
        let counted = counted_bytes(&batch.nodes);
        let seen = match counted {
            Some(bytes) => self.bytes_seen.checked_add(bytes),
            None => None,
        };
        match seen {
            Some(total) => {
                proof {
                    tree::lemma_applied_keeps(self@.tree, batch@);
                }
                let done = self.tree.try_apply(batch);
                self.bytes_seen = total;
                proof {
                    self.tree.lemma_view_fits();
                }
                done
            },
            None => false,
        }
    }

    /// Whether some stream is alive, and whether that of a rescan is.
    fn live_streams(&self) -> (alive: (bool, bool))
        ensures
            alive.0 == state::any_alive(self@.scans),
            alive.1 == state::any_rescan_alive(self@.scans),
    {
        let ghost views = scan_views(self.scans@);
        let mut any = false;
        let mut any_rescan = false;
        let mut k: usize = 0;
        while k < self.scans.len()
            invariant
                views == scan_views(self.scans@),
                k <= self.scans@.len(),
                any == exists|j: int| 0 <= j < k && (#[trigger] views[j]).1,
                any_rescan == exists|j: int| 0 <= j < k && (#[trigger] views[j]).1 && views[j].0,
            decreases self.scans@.len() - k,
        {
            let handle = &self.scans[k];
            assert(views[k as int] == (handle.refresh, handle.alive));
            if handle.alive {
                any = true;
                if handle.refresh {
                    any_rescan = true;
                }
            }
            k += 1;
        }
        (any, any_rescan)
    }

    /// The rescan is over.
    fn end_refresh(&mut self)
        requires
            old(self).wf(),
        ensures
            final(self).wf(),
            final(self).hears_as(*old(self)),
            final(self)@ == state::refresh_ended(old(self)@),
    {
        proof {
            reveal(state::valid);
        }
        if let Some(idx) = self.refreshing_idx {
            self.refreshing_idx = None;
            let path = self.tree.path_of(idx);
            self.status = Some(text::joined("rescanned ", path.as_str()));
        }
    }

    /// The scan is over, and the scan-only bookkeeping is released.
    fn end_scanning(&mut self)
        requires
            old(self).wf(),
        ensures
            final(self).wf(),
            final(self).hears_as(*old(self)),
            final(self)@ == state::scanning_ended(old(self)@),
    {
        proof {
            reveal(state::valid);
        }
        self.scanning = false;
        self.tree.finish_scan();
        proof {
            self.tree.lemma_view_fits();
        }
    }

    /// When a rescan's stream ended the spinner clears, and when the last stream ended the scan is
    /// over and the scan-only bookkeeping is released.
    pub fn settle_scans(&mut self)
        requires
            old(self).wf(),
        ensures
            final(self).wf(),
            final(self).hears_as(*old(self)),
            final(self)@ == state::scans_settled(old(self)@),
    {
        let (any, any_rescan) = self.live_streams();
        if !any_rescan {
            self.end_refresh();
        }
        if self.scanning && !any {
            self.end_scanning();
        }
    }

    /// Act on what the stream of a scan had to offer: a batch goes into the tree, and a stream that is
    /// gone has ended. Whether every total had room for it.
    pub fn settle_stream(&mut self, i: usize, polled: Polled<Batch>) -> (all: bool)
        requires
            old(self).wf(),
            i < old(self).scans@.len(),
        ensures
            final(self).wf(),
            match polled {
                Polled::Ready(batch) => (final(self)@, all) == state::received(old(self)@, batch@)
                    && final(self).hears_as(*old(self)),
                Polled::Empty => all && *final(self) == *old(self),
                Polled::Closed => {
                    &&& all
                    &&& final(self)@ == state::scan_ended(old(self)@, i as int)
                    &&& final(self).scans@ == old(self).scans@.update(
                        i as int,
                        ScanHandle { alive: false, ..old(self).scans@[i as int] },
                    )
                    &&& final(self).pending_delete == old(self).pending_delete
                    &&& final(self).pending_open == old(self).pending_open
                },
            },
    {
        match polled {
            Polled::Ready(batch) => self.take_batch(batch),
            Polled::Empty => true,
            Polled::Closed => {
                self.end_scan(i);
                true
            },
        }
    }

    /// Take in what one live stream has to offer, up to `cap` batches in all, of which `applied` were
    /// taken in before. How many were then, and whether every total had room for them.
    fn drain_stream(
        &mut self,
        i: usize,
        cap: usize,
        applied: usize,
        Ghost(before): Ghost<App>,
        Ghost(earlier): Ghost<Seq<BatchView>>,
    ) -> (drained: (usize, bool, Ghost<Seq<BatchView>>))
        requires
            old(self).wf(),
            i < old(self).scans@.len(),
            old(self).scans@[i as int].alive,
            applied == earlier.len(),
            applied < cap,
            old(self).draining(before, earlier),
        ensures
            final(self).wf(),
            drained.0 == drained.2@.len(),
            applied <= drained.0 <= cap,
            drained.1 ==> final(self).draining(before, drained.2@),
            !drained.1 ==> state::drained(before@, drained.2@, final(self)@.scans, final(self)@, false)
                && final(self).same_streams(before),
    {
        let ghost mut batches = earlier;
        let mut count: usize = applied;
        let mut live = true;
        while live && count < cap
            invariant
                self.wf(),
                i < self.scans@.len(),
                live ==> self.scans@[i as int].alive,
                count == batches.len(),
                applied <= count <= cap,
                self.draining(before, batches),
            decreases cap - count, live as int,
        {
            let polled = outside::poll(&self.scans[i].rx);
            let ghost prior = batches;
            match &polled {
                Polled::Ready(batch) => {
                    proof {
                        batches = batches.push(batch@);
                        assert(batches.drop_last() =~= prior);
                    }
                    count += 1;
                },
                _ => {
                    live = false;
                },
            }
            let ghost had = *self;
            if !self.settle_stream(i, polled) {
                assert(self@.scans == had@.scans);
                assert(state::drained(before@, batches, self@.scans, self@, false));
                return (count, false, Ghost(batches));
            }
            proof {
                if polled is Closed {
                    lemma_ended_keeps(before, had, *self, i as int);
                }
            }
        }
        (count, true, Ghost(batches))
    }

    /// The streams are those there were, each on its channel; some may have ended.
    pub open spec fn same_streams(&self, before: App) -> bool {
        &&& self.scans@.len() == before.scans@.len()
        &&& forall|k: int|
            0 <= k < before.scans@.len() ==> (#[trigger] self.scans@[k]).rx == before.scans@[k].rx
        &&& self.pending_delete == before.pending_delete
        &&& self.pending_open == before.pending_open
    }

    /// The streams are being drained: they gave these batches so far, and there was room for all.
    closed spec fn draining(&self, before: App, batches: Seq<BatchView>) -> bool {
        &&& self.same_streams(before)
        &&& state::received_all(before@, batches).1
        &&& self@ == (AppView {
            scans: self@.scans,
            ..state::received_all(before@, batches).0
        })
        &&& state::some_ended(before@.scans, self@.scans)
    }

    /// Drain every live scan's batch stream into the tree (up to `cap` batches per frame, so a huge
    /// filesystem can't starve input handling). Marks streams dead when their channel disconnects;
    /// when a rescan's stream ends the spinner clears, and when the last stream ends the scan is over
    /// and the scan-only bookkeeping is released. Whether every total had room for what came.
    pub fn poll_scans(&mut self, cap: usize) -> (all: bool)
        requires
            old(self).wf(),
        ensures
            final(self).wf(),
            exists|batches: Seq<BatchView>, scans: Seq<(bool, bool)>|
                batches.len() <= cap && #[trigger] state::drained(
                    old(self)@,
                    batches,
                    scans,
                    final(self)@,
                    all,
                ),
            cap == 0 || !state::any_alive(old(self)@.scans) ==> all && final(self)@
                == state::scans_settled(old(self)@),
            final(self).same_streams(*old(self)),
    {
        let ghost before = *self;
        let ghost mut batches: Seq<BatchView> = Seq::empty();
        let ghost idle = cap == 0 || !state::any_alive(self@.scans);
        let mut applied: usize = 0;
        let mut i: usize = 0;
        while i < self.scans.len()
            invariant
                self.wf(),
                before == *old(self),
                idle == (cap == 0 || !state::any_alive(before@.scans)),
                i <= self.scans@.len(),
                applied == batches.len(),
                applied <= cap,
                self.draining(before, batches),
                idle ==> self@ == before@,
            decreases self.scans@.len() - i,
        {
            let ghost had = self.scans@.len();
            if self.scans[i].alive && applied < cap {
                proof {
                    assert(self@.scans[i as int].1);
                    if idle {
                        assert(state::any_alive(before@.scans));
                    }
                }
                let (count, all, Ghost(more)) = self.drain_stream(
                    i,
                    cap,
                    applied,
                    Ghost(before),
                    Ghost(batches),
                );
                if !all {
                    return false;
                }
                proof {
                    batches = more;
                }
                applied = count;
            }
            i += 1;
        }
        let ghost scans = self@.scans;
        self.settle_scans();
        assert(state::drained(before@, batches, scans, self@, true));
        true
    }

    /// How long to wait for a key, in milliseconds: less while scanning or deleting, so that updates
    /// and spinners animate smoothly.
    pub fn frame_millis(&self) -> (millis: u64)
        ensures
            millis == (if self@.scanning || self@.deleting is Some {
                80u64
            } else {
                250u64
            }),
    {
        if self.scanning || self.is_deleting() {
            80
        } else {
            250
        }
    }

    /// Counted bytes per second after some seconds of the live scan.
    pub fn rate_after(&self, secs: u64) -> (rate: u64)
        ensures
            rate == state::rate(self@.bytes_seen, secs as int),
    {
        self.bytes_seen / if secs < 1 {
            1
        } else {
            secs
        }
    }

    /// Counted bytes per second being grafted by the live scan, for the footer. None when no scan is
    /// running; the first second reports the bytes seen so far.
    pub fn scan_rate(&self) -> (rate: Option<u64>)
        ensures
            rate is Some <==> self@.scanning && self@.timed,
            rate is Some ==> exists|secs: int|
                0 <= secs && rate->0 == #[trigger] state::rate(self@.bytes_seen, secs),
    {
        if !self.scanning {
            return None;
        }
        match &self.scan_started {
            Some(started) => {
                let secs = started.elapsed().as_secs();
                let rate = self.rate_after(secs);
                assert(rate == state::rate(self@.bytes_seen, secs as int));
                Some(rate)
            },
            None => None,
        }
    }
}

/// The characters of the message, if it failed.
pub open spec fn outcome_view(outcome: Result<(), String>) -> Result<(), Seq<char>> {
    match outcome {
        Ok(_) => Ok(()),
        Err(why) => Err(why@),
    }
}

/// The characters of what a worker had to offer.
pub open spec fn polled_view(polled: Polled<Result<(), String>>) -> Polled<Result<(), Seq<char>>> {
    match polled {
        Polled::Ready(outcome) => Polled::Ready(outcome_view(outcome)),
        Polled::Empty => Polled::Empty,
        Polled::Closed => Polled::Closed,
    }
}

/// How an open ended, from what its worker had to offer; nothing while it is still working. A worker
/// that is gone without a word has failed.
pub fn open_outcome(polled: Polled<Result<(), String>>) -> (outcome: Option<Result<(), String>>)
    ensures
        match outcome {
            Some(o) => state::open_polled(polled_view(polled)) == Some(outcome_view(o)),
            None => state::open_polled(polled_view(polled)) is None,
        },
{
    match polled {
        Polled::Ready(outcome) => Some(outcome),
        // Still working.
        Polled::Empty => None,
        Polled::Closed => Some(Err("open worker exited unexpectedly".to_string())),
    }
}

/// An outcome with its error in words.
fn plain_outcome(result: Result<(), std::io::Error>) -> (outcome: Result<(), String>)
    ensures
        outcome is Ok <==> result is Ok,
{
    match result {
        Ok(_) => Ok(()),
        Err(e) => Err(outside::error_text(&e)),
    }
}


/// Ending a stream leaves every stream on its channel.
proof fn lemma_ended_keeps(before: App, had: App, now: App, i: int)
    requires
        had.same_streams(before),
        state::some_ended(before@.scans, had@.scans),
        0 <= i < had.scans@.len(),
        now@ == state::scan_ended(had@, i),
        now.scans@ == had.scans@.update(i, ScanHandle { alive: false, ..had.scans@[i] }),
        now.pending_delete == had.pending_delete,
        now.pending_open == had.pending_open,
    ensures
        now.same_streams(before),
        state::some_ended(before@.scans, now@.scans),
{
    assert forall|k: int| 0 <= k < before.scans@.len() implies (#[trigger] now.scans@[k]).rx
        == before.scans@[k].rx by {
        assert(had.scans@[k].rx == before.scans@[k].rx);
    }
    let later = now@.scans;
    assert forall|k: int| 0 <= k < later.len() implies later[k].0 == before@.scans[k].0 && ((
    #[trigger] later[k]).1 ==> before@.scans[k].1) by {
        assert(had@.scans[k].1 ==> before@.scans[k].1);
    }
}

/// The first of some rows.
fn first_of(kids: &Vec<NodeIdx>) -> (first: Option<NodeIdx>)
    ensures
        first == state::first_of(kids@),
{
    if kids.len() > 0 {
        Some(kids[0])
    } else {
        None
    }
}

/// The last of some rows.
fn last_of(kids: &Vec<NodeIdx>) -> (last: Option<NodeIdx>)
    ensures
        last == state::last_of(kids@),
{
    if kids.len() > 0 {
        Some(kids[kids.len() - 1])
    } else {
        None
    }
}


/// What is said of an open that ended.
fn open_message(path: &String, outcome: &Result<(), String>) -> (words: String)
    ensures
        words@ == state::open_message(path@, outcome_view(*outcome)),
{
    match outcome {
        Ok(_) => text::joined("opened ", path.as_str()),
        Err(why) => text::joined("open failed: ", why.as_str()),
    }
}

/// The opens that have not ended, as they were.
pub open spec fn opens_kept(
    opens: Seq<PendingOpen>,
    outcomes: Seq<Option<Result<(), Seq<char>>>>,
) -> Seq<PendingOpen>
    decreases opens.len(),
{
    if opens.len() == 0 {
        Seq::empty()
    } else {
        let kept = opens_kept(opens.drop_last(), outcomes.drop_last());
        if outcomes.last() is None {
            kept.push(opens.last())
        } else {
            kept
        }
    }
}

/// The outcomes of some opens, as far as they ended.
pub open spec fn outcome_views(outcomes: Seq<Option<Result<(), String>>>) -> Seq<
    Option<Result<(), Seq<char>>>,
> {
    outcomes.map_values(
        |o: Option<Result<(), String>>|
            match o {
                Some(outcome) => Some(outcome_view(outcome)),
                None => None,
            },
    )
}

/// The apparent sizes of those entries that count, added up; nothing if the sum has no room.
fn counted_bytes(found: &Vec<NewNode>) -> (sum: Option<u64>)
    ensures
        match sum {
            Some(bytes) => bytes == tree::counted_apparent(scan::entry_views(found@)),
            None => tree::counted_apparent(scan::entry_views(found@)) > u64::MAX,
        },
{
    let ghost all = scan::entry_views(found@);
    let mut sum: u64 = 0;
    let mut k: usize = 0;
    while k < found.len()
        invariant
            all == scan::entry_views(found@),
            k <= found@.len(),
            sum == tree::counted_apparent(all.take(k as int)),
        decreases found@.len() - k,
    {
        let entry = &found[k];
        assert(all[k as int] == entry@);
        assert(all.take(k + 1).drop_last() =~= all.take(k as int));
        if !entry.shared && entry.excluded == Excluded::No {
            match sum.checked_add(entry.apparent) {
                Some(more) => {
                    sum = more;
                },
                None => {
                    proof {
                        tree::lemma_batch_sums_grow(all, k + 1);
                    }
                    return None;
                },
            }
        }
        k += 1;
    }
    assert(all.take(k as int) =~= all);
    Some(sum)
}

} // verus!
