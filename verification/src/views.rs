//! What is said of a value is said of its fields: each view shows them one by one.
use vstd::prelude::*;

use crate::app::App;
use crate::cli::Args;
use crate::dump::Item;
use crate::frontier::{DirJob, Frontier};
use crate::model::{Node, Tree};
use crate::outside;
use crate::scan::{Batch, Found, NewNode, Opts};
use crate::top::TopEntry;

verus! {

/// An entry of the tree is seen with its own fields.
pub proof fn law_entries_are_seen_as_they_are(n: Node)
    ensures
        n@.name == outside::name_chars(n.name),
        n@.kind == n.kind,
        n@.apparent == n.apparent && n@.disk == n.disk,
        n@.parent == n.parent && n@.children == n.children@,
        n@.dev == n.dev && n@.ino == n.ino,
        n@.hlink == n.hlink && n@.shared == n.shared,
        n@.excluded == n.excluded && n@.read_error == n.read_error,
        n@.scanned == n.scanned && n@.unscanned == n.unscanned,
{
}

/// A tree is seen with its entries in their places, and with its counters.
pub proof fn law_trees_are_seen_as_they_are(t: Tree, i: int)
    requires
        0 <= i < t.nodes@.len(),
    ensures
        t@.nodes.len() == t.nodes@.len(),
        t@.nodes[i] == t.nodes@[i]@,
        t@.root == t.root,
        t@.total_files == t.total_files && t@.total_dirs == t.total_dirs,
        t@.dirs == t.dir_index@,
        t@.orphans.dom() == t.orphans@.dom(),
{
    assert(t@.dirs =~= t.dir_index@);
    assert(t@.orphans.dom() =~= t.orphans@.dom());
}

/// A found entry is seen with its own fields, and a batch with its entries in their order; it has failed
/// if there is an error.
pub proof fn law_batches_are_seen_as_they_are(e: NewNode, b: Batch, k: int)
    requires
        0 <= k < b.nodes@.len(),
    ensures
        e@.name == outside::name_chars(e.name),
        e@.kind == e.kind,
        e@.apparent == e.apparent && e@.disk == e.disk,
        e@.dev == e.dev && e@.ino == e.ino,
        e@.hlink == e.hlink && e@.shared == e.shared,
        e@.excluded == e.excluded && e@.read_error == e.read_error,
        e@.dir_id == e.dir_id,
        b@.parent_id == b.parent_id,
        b@.nodes.len() == b.nodes@.len() && b@.nodes[k] == b.nodes@[k]@,
        b@.failed <==> b.error is Some,
{
}

/// The rules of a scan, and what is found on disk, are seen with their own fields.
pub proof fn law_scans_are_seen_as_they_are(o: Opts, f: Found, j: DirJob, w: Frontier, k: int)
    ensures
        o@.one_file_system == o.one_file_system && o@.root_dev == o.root_dev,
        o@.older_than == o.older_than && o@.newer_than == o.newer_than,
        o@.threads == o.threads,
        o@.excludes.len() == o.excludes@.len(),
        0 <= k < o.excludes@.len() ==> o@.excludes[k] == o.excludes@[k]@,
        f@.name == f.name@ && f@.path == f.path@ && f@.meta == f.meta,
        j@.id == j.id && j@.path == j.path@,
        w@.pending == w.pending && w@.done == w.done,
        w@.focus is Some <==> w.focus is Some,
        w.focus is Some ==> w@.focus->0 == w.focus->0@,
        w@.hot.len() == w.hot@.len() && w@.cold.len() == w.cold@.len(),
        0 <= k < w.hot@.len() ==> w@.hot[k] == w.hot@[k]@,
        0 <= k < w.cold@.len() ==> w@.cold[k] == w.cold@[k]@,
{
}

/// What a command line asks for is seen option by option.
pub proof fn law_options_are_seen_as_they_are(a: Args, k: int)
    ensures
        a@.threads == a.threads,
        a@.disk_usage == a.disk_usage,
        a@.one_file_system == a.one_file_system,
        a@.read_only == a.read_only,
        a@.path is Some <==> a.path is Some,
        a.path is Some ==> a@.path->0 == a.path->0@,
        a@.export is Some <==> a.export is Some,
        a.export is Some ==> a@.export->0 == a.export->0@,
        a@.import is Some <==> a.import is Some,
        a.import is Some ==> a@.import->0 == a.import->0@,
        a@.excludes.len() == a.excludes@.len(),
        0 <= k < a.excludes@.len() ==> a@.excludes[k] == a.excludes@[k]@,
{
}

/// The program is seen with its own state.
pub proof fn law_the_program_is_seen_as_it_is(a: App)
    ensures
        a@.tree == a.tree@,
        a@.cur == a.cur && a@.selected == a.selected,
        a@.sort == a.sort && a@.disk_usage == a.disk_usage,
        a@.searching == a.searching && a@.pre_search_selected == a.pre_search_selected,
        a@.filter is Some <==> a.filter is Some,
        a.filter is Some ==> a@.filter->0 == a.filter->0@,
        a@.scanning == a.scanning && a@.read_only == a.read_only && a@.quit == a.quit,
        a@.status is Some <==> a.status is Some,
        a.status is Some ==> a@.status->0 == a.status->0@,
        a@.quit_armed == a.quit_armed,
        a@.refreshing_idx == a.refreshing_idx,
        a@.deleting is Some <==> a.pending_delete is Some,
        a.pending_delete is Some ==> a@.deleting.unwrap().0 == a.pending_delete->0.idx
            && a@.deleting.unwrap().1 == a.pending_delete->0.path@,
        a@.bytes_seen == a.bytes_seen && a@.tick == a.tick,
        a@.next_scan_base == a.next_scan_base,
{
}

/// The rows of the top-files popup and the objects of a dump are seen with their own fields.
pub proof fn law_rows_and_items_are_seen_as_they_are(r: TopEntry, i: Item)
    ensures
        r@.idx == r.idx && r@.path == r.path@ && r@.size == r.size,
        i@.name == i.name@,
        i@.apparent == i.apparent && i@.disk == i.disk,
        i@.dev == i.dev && i@.ino == i.ino,
        i@.hlink == i.hlink && i@.notreg == i.notreg,
        i@.read_error == i.read_error && i@.excluded == i.excluded,
{
}

} // verus!
