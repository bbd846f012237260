//! What browsing shows, and what the keys do to it, told by the entries themselves.
use vstd::prelude::*;
use vstd::relations::*;

use crate::edit;
use crate::frontier::JobView;
use crate::info;
use crate::model::NodeKind;
use crate::rows;
use crate::scan::SCAN_ID_STRIDE;
use crate::state;
use crate::state::{AppView, EffectView, KeyAction, ModalView, SortKey, TopView};
use crate::text;
use crate::totals;
use crate::tree;
use crate::tree::{NodeView, TreeView};

verus! {

// ---- Sizes and rows ---------------------------------------------------------------------------------

/// The size that is shown of an entry is that of its blocks on disk with disk usage on, and its logical
/// size with it off, each with all that counts below; its own size is so without what is below.
pub proof fn law_sizes_go_by_the_mode(a: AppView, i: int)
    ensures
        a.disk_usage ==> state::shown_size(a.tree.nodes[i], a.disk_usage) == a.tree.nodes[i].disk
            && info::own_size(a, i) == edit::own_disk(a.tree.nodes, i),
        !a.disk_usage ==> state::shown_size(a.tree.nodes[i], a.disk_usage)
            == a.tree.nodes[i].apparent && info::own_size(a, i) == edit::own_apparent(
            a.tree.nodes,
            i,
        ),
{
}

proof fn lemma_filter_sorted(s: Seq<usize>, keep: spec_fn(usize) -> bool, leq: spec_fn(usize, usize) -> bool)
    requires
        sorted_by(s, leq),
    ensures
        sorted_by(s.filter(keep), leq),
        forall|c: usize| #[trigger] s.filter(keep).contains(c) <==> s.contains(c) && keep(c),
        s.no_duplicates() ==> s.filter(keep).no_duplicates(),
    decreases s.len(),
{
    reveal(Seq::filter);
    if s.len() > 0 {
        let less = s.drop_last();
        let before = less.filter(keep);
        let all = s.filter(keep);
        assert(sorted_by(less, leq)) by {
            assert forall|i: int, j: int| 0 <= i < j < less.len() implies #[trigger] leq(
                less[i],
                less[j],
            ) by {
                assert(leq(s[i], s[j]));
            }
        }
        if s.no_duplicates() {
            assert(less.no_duplicates());
        }
        lemma_filter_sorted(less, keep, leq);
        assert forall|c: usize| #[trigger] all.contains(c) <==> s.contains(c) && keep(c) by {
            lemma_last_contains(s, c);
            if keep(s.last()) {
                assert(all.drop_last() =~= before);
                lemma_last_contains(all, c);
            }
        }
        assert forall|i: int, j: int| 0 <= i < j < all.len() implies #[trigger] leq(
            all[i],
            all[j],
        ) by {
            if j < before.len() {
                assert(leq(before[i], before[j]));
            } else {
                assert(before.contains(before[i]));
                assert(less.contains(before[i]));
                let k = choose|k: int| 0 <= k < less.len() && less[k] == before[i];
                assert(leq(s[k], s[s.len() - 1]));
            }
        }
        if s.no_duplicates() {
            assert forall|i: int, j: int| 0 <= i < all.len() && 0 <= j < all.len() && i
                != j implies all[i] != all[j] by {
                if i == before.len() || j == before.len() {
                    let m = if i < before.len() {
                        i
                    } else {
                        j
                    };
                    assert(before.contains(before[m]));
                    assert(less.contains(before[m]));
                    let k = choose|k: int| 0 <= k < less.len() && less[k] == before[m];
                    assert(s[k] != s[s.len() - 1]);
                }
            }
        }
    }
}

proof fn lemma_last_contains(s: Seq<usize>, c: usize)
    requires
        s.len() > 0,
    ensures
        s.contains(c) <==> s.drop_last().contains(c) || s.last() == c,
{
    if s.drop_last().contains(c) {
        let k = choose|k: int| 0 <= k < s.drop_last().len() && s.drop_last()[k] == c;
        assert(s[k] == c);
    }
    if s.last() == c {
        assert(s[s.len() - 1] == c);
    }
    if s.contains(c) && s.last() != c {
        let k = choose|k: int| 0 <= k < s.len() && s[k] == c;
        assert(s.drop_last()[k] == c);
    }
}

proof fn lemma_shown(a: AppView)
    ensures
        sorted_by(state::shown(a), state::row_order(a.tree.nodes, a.sort, a.disk_usage)),
        forall|c: usize| #[trigger]
            state::shown(a).contains(c) <==> a.tree.nodes[a.cur as int].children.contains(c) && (
            a.filter is Some ==> state::has_ci(a.tree.nodes[c as int].name, a.filter->0)),
{
    let nodes = a.tree.nodes;
    let kids = nodes[a.cur as int].children;
    let leq = state::row_order(nodes, a.sort, a.disk_usage);
    let ordered = state::in_order(nodes, a.sort, a.disk_usage, kids);
    rows::lemma_rows_order(nodes, a.sort, a.disk_usage);
    kids.lemma_sort_by_ensures(leq);
    ordered.to_multiset_ensures();
    kids.to_multiset_ensures();
    assert forall|c: usize| #[trigger] ordered.contains(c) <==> kids.contains(c) by {
        assert(ordered.contains(c) <==> ordered.to_multiset().count(c) > 0);
        assert(kids.contains(c) <==> kids.to_multiset().count(c) > 0);
    }
    if a.filter is Some {
        lemma_filter_sorted(ordered, state::name_has(nodes, a.filter->0), leq);
    }
}

/// The rows are the entries of the viewed directory, as far as a filter lets them through, and no others.
pub proof fn law_rows_are_what_the_filter_lets_through(a: AppView, c: usize)
    ensures
        state::shown(a).contains(c) <==> a.tree.nodes[a.cur as int].children.contains(c) && (
        a.filter is None || state::has_ci(a.tree.nodes[c as int].name, a.filter->0)),
{
    lemma_shown(a);
}

/// Rows by size: no row is larger than one above it, on disk or logically as the mode has it, and rows of
/// the same size go by name.
pub proof fn law_the_largest_rows_come_first(a: AppView, j: int, k: int)
    requires
        a.sort == SortKey::Size,
        0 <= j < k < state::shown(a).len(),
    ensures
        ({
            let x = a.tree.nodes[state::shown(a)[j] as int];
            let y = a.tree.nodes[state::shown(a)[k] as int];
            &&& a.disk_usage ==> x.disk >= y.disk && (x.disk == y.disk ==> text::at_most(
                x.name,
                y.name,
            ))
            &&& !a.disk_usage ==> x.apparent >= y.apparent && (x.apparent == y.apparent
                ==> text::at_most(x.name, y.name))
        }),
{
    let shown = state::shown(a);
    let leq = state::row_order(a.tree.nodes, a.sort, a.disk_usage);
    lemma_shown(a);
    assert(leq(shown[j], shown[k]));
    text::lemma_at_most_reflexive(a.tree.nodes[shown[j] as int].name);
}

/// Rows by name: names ascend, whatever the sizes and the mode.
pub proof fn law_rows_by_name_ascend(a: AppView, j: int, k: int)
    requires
        a.sort == SortKey::Name,
        0 <= j < k < state::shown(a).len(),
    ensures
        text::at_most(
            a.tree.nodes[state::shown(a)[j] as int].name,
            a.tree.nodes[state::shown(a)[k] as int].name,
        ),
{
    let shown = state::shown(a);
    let leq = state::row_order(a.tree.nodes, a.sort, a.disk_usage);
    lemma_shown(a);
    assert(leq(shown[j], shown[k]));
    text::lemma_at_most_reflexive(a.tree.nodes[shown[j] as int].name);
}

/// What the top-files popup lists: regular files below the directory, each once, with the size that the
/// mode has it, the largest first, and no more than there is room for; and what is left out is no larger
/// than anything that is listed.
pub proof fn law_top_files_are_the_largest(
    nodes: Seq<NodeView>,
    disk_usage: bool,
    from: int,
    limit: int,
    rows: Seq<TopView>,
    j: int,
    k: int,
    c: int,
)
    requires
        state::is_top_list(nodes, disk_usage, from, limit, rows),
        0 <= j <= k < rows.len(),
    ensures
        rows.len() <= limit,
        nodes[rows[j].idx as int].kind == NodeKind::File,
        rows[j].idx < nodes.len(),
        disk_usage ==> rows[j].size == nodes[rows[j].idx as int].disk,
        !disk_usage ==> rows[j].size == nodes[rows[j].idx as int].apparent,
        j < k ==> rows[j].size >= rows[k].size && rows[j].idx != rows[k].idx,
        j < k && rows[j].size == rows[k].size ==> text::at_most(rows[j].path, rows[k].path),
        rows.len() < limit && state::is_file_below(nodes, c, from) ==> exists|m: int|
            0 <= m < rows.len() && (#[trigger] rows[m]).idx == c,
        state::is_file_below(nodes, c, from) && (forall|m: int|
            0 <= m < rows.len() ==> (#[trigger] rows[m]).idx != c) ==> if disk_usage {
            nodes[c].disk <= rows[j].size
        } else {
            nodes[c].apparent <= rows[j].size
        },
{
    assert(state::is_file_below(nodes, rows[j].idx as int, from));
    if j < k {
        assert(state::top_before(rows[j], rows[k]));
    }
    if state::is_file_below(nodes, c, from) {
        assert(state::top_before(rows[j], state::top_row(nodes, disk_usage, c, from)) || exists|
            m: int,
        |
            0 <= m < rows.len() && (#[trigger] rows[m]).idx == c);
    }
}

/// The regular files in a directory are below it, and so are those in a directory below it.
pub proof fn law_files_below_are_below(nodes: Seq<NodeView>, j: int, from: int)
    requires
        tree::well_linked(nodes),
        0 <= from < nodes.len() <= usize::MAX,
        0 < j < nodes.len(),
        tree::listed(nodes, j),
        nodes[j].kind == NodeKind::File,
    ensures
        nodes[j].parent->0 == from ==> state::is_file_below(nodes, j, from) && state::relative_path(
            nodes,
            j,
            from,
        ) == nodes[j].name,
        ({
            let p = nodes[j].parent->0 as int;
            nodes[p].kind == NodeKind::Dir && p != from && state::reached(nodes, p, from)
                ==> state::is_file_below(nodes, j, from)
        }),
        state::is_file_below(nodes, j, from) ==> nodes[j].parent->0 == from
            || nodes[nodes[j].parent->0 as int].kind == NodeKind::Dir,
{
}

// ---- Keys ---------------------------------------------------------------------------------------------

/// Nothing is open over the rows, and no filter is being typed.
pub open spec fn browsing(a: AppView) -> bool {
    a.modal is Closed && !a.searching
}

/// The state after a key that changes nothing but what is given: a stale message is gone, and a pending
/// force-quit is disarmed.
pub open spec fn only(a: AppView, b: AppView, selected: Option<usize>) -> bool {
    b == AppView { status: None, quit_armed: false, selected, ..a }
}

proof fn lemma_ready(a: AppView, action: KeyAction, s: usize)
    requires
        a.selected == Some(s),
        state::shown(a).contains(s),
        !(action is Quit),
    ensures
        state::ready(a, action) == (AppView { status: None, quit_armed: false, ..a }),
        state::shown(state::ready(a, action)) == state::shown(a),
{
    let b = AppView { status: None, quit_armed: false, ..a };
    assert(state::shown(b) == state::shown(a));
}

pub proof fn lemma_position(kids: Seq<usize>, p: int)
    requires
        0 <= p < kids.len(),
        kids.no_duplicates(),
    ensures
        state::position(kids, kids[p]) == Some(p),
    decreases kids.len(),
{
    if p > 0 {
        let rest = kids.skip(1);
        assert(kids[0] != kids[p]);
        assert(rest.no_duplicates()) by {
            assert forall|i: int, j: int| 0 <= i < rest.len() && 0 <= j < rest.len() && i
                != j implies rest[i] != rest[j] by {
                assert(kids[i + 1] != kids[j + 1]);
            }
        }
        lemma_position(rest, p - 1);
        assert(rest[p - 1] == kids[p]);
    }
}

/// The selection moves by the keys: one row down or up, a page down or up, to the first or the last row;
/// it stops at the ends of the list, and nothing else changes.
pub proof fn law_the_selection_moves(a: AppView, p: int, page: usize)
    requires
        browsing(a),
        0 <= p < state::shown(a).len(),
        state::shown(a).no_duplicates(),
        a.selected == Some(state::shown(a)[p]),
    ensures
        ({
            let rows = state::shown(a);
            let last = rows.len() - 1;
            let to = |q: int| Some(rows[q]);
            let after = |action: KeyAction| state::pressed(a, action);
            let least = |x: int, y: int|
                if x < y {
                    x
                } else {
                    y
                };
            &&& only(a, after(KeyAction::Down).0, to(least(p + 1, last)))
            &&& only(a, after(KeyAction::Up).0, to(-least(1 - p, 0)))
            &&& only(a, after(KeyAction::PageDown(page)).0, to(least(p + page, last)))
            &&& only(a, after(KeyAction::PageUp(page)).0, to(-least(page - p, 0)))
            &&& only(a, after(KeyAction::Top).0, to(0))
            &&& only(a, after(KeyAction::Bottom).0, to(last))
            &&& after(KeyAction::Down).1 is Nothing
            &&& after(KeyAction::Up).1 is Nothing
        }),
{
    reveal(state::browse_pressed);
    let rows = state::shown(a);
    lemma_position(rows, p);
    assert(rows.contains(rows[p]));
    lemma_ready(a, KeyAction::Down, rows[p]);
    lemma_ready(a, KeyAction::Up, rows[p]);
    lemma_ready(a, KeyAction::PageDown(page), rows[p]);
    lemma_ready(a, KeyAction::PageUp(page), rows[p]);
    lemma_ready(a, KeyAction::Top, rows[p]);
    lemma_ready(a, KeyAction::Bottom, rows[p]);
}

/// The usage key changes between disk usage and logical sizes, the sort key between size and name; either
/// key pressed twice changes nothing, and neither touches what the other does.
pub proof fn law_toggles(a: AppView)
    requires
        browsing(a),
    ensures
        ({
            let usage = state::pressed(a, KeyAction::ToggleUsage).0;
            let sort = state::pressed(a, KeyAction::ToggleSort).0;
            &&& usage.disk_usage != a.disk_usage
            &&& usage.sort == a.sort
            &&& usage.cur == a.cur && usage.filter == a.filter && usage.tree == a.tree
            &&& state::pressed(usage, KeyAction::ToggleUsage).0.disk_usage == a.disk_usage
            &&& sort.sort != a.sort
            &&& sort.disk_usage == a.disk_usage
            &&& sort.cur == a.cur && sort.filter == a.filter && sort.tree == a.tree
            &&& state::pressed(sort, KeyAction::ToggleSort).0.sort == a.sort
        }),
{
    reveal(state::browse_pressed);
}

/// Entering the selected directory views it, with its first row selected, and scans that run turn to it.
/// Nothing else is entered: no file, no link, and nothing that is being deleted.
pub proof fn law_only_directories_are_entered(a: AppView, s: usize)
    requires
        browsing(a),
        a.selected == Some(s),
        state::shown(a).contains(s),
    ensures
        ({
            let (b, effect) = state::pressed(a, KeyAction::Enter);
            let gone = a.deleting is Some && a.deleting.unwrap().0 == s;
            &&& a.tree.nodes[s as int].kind == NodeKind::Dir && !gone ==> {
                &&& b.cur == s
                &&& b.selected == (if state::shown(b).len() > 0 {
                    Some(state::shown(b)[0])
                } else {
                    None
                })
                &&& a.scanning ==> effect == EffectView::Focus(
                    vstd::utf8::encode_utf8(edit::path(a.tree.nodes, s as int)),
                )
                &&& !a.scanning ==> effect is Nothing
            }
            &&& a.tree.nodes[s as int].kind != NodeKind::Dir || gone ==> {
                &&& b.cur == a.cur
                &&& b.selected == a.selected
                &&& effect is Nothing
            }
            &&& gone ==> b.status is Some
        }),
{
    reveal(state::browse_pressed);
    lemma_ready(a, KeyAction::Enter, s);
    let to = AppView { status: None, quit_armed: false, cur: s, ..a };
    assert(state::shown(state::snapped(to)) == state::shown(to));
}

/// Leaving goes to the directory above, with the one that was left selected, and scans that run turn to
/// it.
pub proof fn law_leaving_goes_up(a: AppView)
    requires
        browsing(a),
        a.tree.nodes[a.cur as int].parent is Some,
    ensures
        ({
            let (b, effect) = state::pressed(a, KeyAction::Leave);
            let above = vstd::utf8::encode_utf8(edit::path(a.tree.nodes, b.cur as int));
            &&& a.scanning ==> effect == EffectView::Focus(above)
            &&& !a.scanning ==> effect is Nothing
            &&& Some(b.cur) == a.tree.nodes[a.cur as int].parent
            &&& b.selected == Some(a.cur)
            &&& b.tree == a.tree
        }),
{
    reveal(state::browse_pressed);
}

/// A deletion is asked for before it starts: the delete key only opens the question, for the selected
/// entry; a yes starts the deletion of just that entry, by its path, and a no or any other key does not.
pub proof fn law_deletions_are_asked_for(a: AppView, s: usize, other: KeyAction)
    requires
        browsing(a),
        a.selected == Some(s),
        state::shown(a).contains(s),
        s != a.cur,
        !a.read_only,
        a.deleting is None,
        a.tree.nodes[s as int].kind == NodeKind::Dir ==> a.tree.nodes[s as int].unscanned == 0,
    ensures
        ({
            let (asked, effect) = state::pressed(a, KeyAction::Delete);
            let (yes, deletes) = state::pressed(asked, KeyAction::Confirm);
            let (no, nothing) = state::pressed(asked, other);
            let path = edit::path(a.tree.nodes, s as int);
            &&& effect is Nothing
            &&& asked.deleting is None
            &&& asked.modal == ModalView::ConfirmDelete(s)
            &&& deletes == EffectView::Delete(path, a.tree.nodes[s as int].kind == NodeKind::Dir)
            &&& yes.deleting == Some((s, path))
            &&& yes.modal is Closed
            &&& !(other is Confirm) ==> nothing is Nothing && no.deleting is None
            &&& other is Cancel || other is Leave || other is Quit ==> no.modal is Closed
        }),
{
    reveal(state::browse_pressed);
    reveal(state::confirm_pressed);
    lemma_ready(a, KeyAction::Delete, s);
}

/// Opening hands the path of the selected entry to the system, unless that entry is being deleted.
pub proof fn law_the_selected_entry_is_opened(a: AppView, s: usize)
    requires
        browsing(a),
        a.selected == Some(s),
        state::shown(a).contains(s),
    ensures
        ({
            let (b, effect) = state::pressed(a, KeyAction::Open);
            let path = edit::path(a.tree.nodes, s as int);
            let gone = a.deleting is Some && a.deleting.unwrap().0 == s;
            &&& !gone ==> effect == EffectView::Open(path) && b.opening == a.opening.push(path)
            &&& gone ==> effect is Nothing && b.opening == a.opening
            &&& b.cur == a.cur && b.selected == a.selected
        }),
{
    reveal(state::browse_pressed);
    lemma_ready(a, KeyAction::Open, s);
}

/// The info key asks about the selected entry, the help key opens the help, the export key asks for an
/// export, the quit key quits when nothing is being deleted; none of them does anything more.
pub proof fn law_other_keys(a: AppView, s: usize)
    requires
        browsing(a),
        a.selected == Some(s),
        state::shown(a).contains(s),
    ensures
        state::pressed(a, KeyAction::Info) == (
            AppView { modal: ModalView::Info(s), status: None, quit_armed: false, ..a },
            EffectView::Nothing,
        ),
        state::pressed(a, KeyAction::Help) == (
            AppView { modal: ModalView::Help, status: None, quit_armed: false, ..a },
            EffectView::Nothing,
        ),
        state::pressed(a, KeyAction::Export).1 is Export,
        only(a, state::pressed(a, KeyAction::Export).0, Some(s)),
        a.deleting is None ==> state::pressed(a, KeyAction::Quit) == (
            AppView { quit: true, ..a },
            EffectView::Nothing,
        ),
{
    reveal(state::browse_pressed);
    lemma_ready(a, KeyAction::Info, s);
    lemma_ready(a, KeyAction::Help, s);
    lemma_ready(a, KeyAction::Export, s);
    assert(state::ready(a, KeyAction::Quit) == a);
}

/// Typing a filter: the search key starts one, each character goes to its end, backspace takes the last
/// one off, and the first row that it lets through is selected; confirming keeps it and drops an empty
/// one. Until then no key does anything else.
pub proof fn law_filters_are_typed(a: AppView, q: Seq<char>, c: char)
    requires
        a.modal is Closed,
        a.searching,
        a.filter == Some(q),
    ensures
        ({
            let typed = state::pressed(a, KeyAction::FilterChar(c)).0;
            let erased = state::pressed(a, KeyAction::FilterBackspace).0;
            let kept = state::pressed(a, KeyAction::FilterConfirm).0;
            &&& typed.filter == Some(q + seq![c])
            &&& typed.searching
            &&& state::pressed(typed, KeyAction::FilterBackspace).0.filter == Some(q)
            &&& state::shown(typed).len() > 0 ==> typed.selected == Some(state::shown(typed)[0])
            &&& q.len() == 0 ==> erased.filter == Some(q)
            &&& kept.filter == (if q.len() == 0 {
                None
            } else {
                Some(q)
            })
            &&& !kept.searching
            &&& kept.selected == a.selected
            &&& state::pressed(a, KeyAction::Delete) == (a, EffectView::Nothing)
            &&& state::pressed(a, KeyAction::Quit) == (a, EffectView::Nothing)
            &&& state::pressed(a, KeyAction::Enter) == (a, EffectView::Nothing)
        }),
{
    reveal(state::filter_pressed);
    assert(q.push(c) =~= q + seq![c]);
    assert(q.push(c).drop_last() =~= q);
    let t = AppView { filter: Some(q.push(c)), ..a };
    assert(state::shown(state::snapped(t)) == state::shown(t));
}

/// The search key goes on with the filter that there is, or with an empty one.
pub proof fn law_search_starts_a_filter(a: AppView)
    requires
        browsing(a),
    ensures
        ({
            let b = state::pressed(a, KeyAction::Search).0;
            &&& b.searching
            &&& a.filter is Some ==> b.filter == a.filter
            &&& a.filter is None ==> b.filter == Some(Seq::<char>::empty())
            &&& b.pre_search_selected == b.selected
            &&& b.cur == a.cur
        }),
{
    reveal(state::browse_pressed);
}

/// Keys in the top-files popup: up and down by one, the first and the last row, and enter goes to the
/// file, which is then selected in its directory.
pub proof fn law_top_files_keys(a: AppView, items: Seq<TopView>, k: int)
    requires
        a.modal == ModalView::TopFiles(items, k),
        0 <= k < items.len(),
    ensures
        ({
            let at = |action: KeyAction| state::pressed(a, action).0.modal;
            let to = items[k].idx;
            let (went, effect) = state::pressed(a, KeyAction::Enter);
            &&& k + 1 < items.len() ==> at(KeyAction::Down) == ModalView::TopFiles(items, k + 1)
            &&& k + 1 == items.len() ==> at(KeyAction::Down) == a.modal
            &&& k > 0 ==> at(KeyAction::Up) == ModalView::TopFiles(items, k - 1)
            &&& k == 0 ==> at(KeyAction::Up) == a.modal
            &&& at(KeyAction::Top) == ModalView::TopFiles(items, 0)
            &&& at(KeyAction::Bottom) == ModalView::TopFiles(items, items.len() - 1)
            &&& at(KeyAction::Quit) is Closed
            &&& state::pressed(a, KeyAction::Quit).0.quit == a.quit
            &&& at(KeyAction::Cancel) is Closed
            &&& went.modal is Closed
            &&& totals::live(a.tree.nodes, to as int) && a.tree.nodes[to as int].parent is Some ==> {
                &&& Some(went.cur) == a.tree.nodes[to as int].parent
                &&& went.selected == Some(to)
                &&& a.scanning ==> effect == EffectView::Focus(
                    vstd::utf8::encode_utf8(edit::path(a.tree.nodes, went.cur as int)),
                )
            }
            &&& !totals::live(a.tree.nodes, to as int) ==> went.cur == a.cur && went.selected
                == a.selected
        }),
{
    reveal(state::top_pressed);
}

proof fn lemma_first_error(nodes: Seq<NodeView>, rows: Seq<usize>)
    ensures
        match state::first_error(nodes, rows) {
            Some(idx) => exists|d: int|
                0 <= d < rows.len() && #[trigger] rows[d] == idx && nodes[idx as int].read_error
                    && forall|e: int| 0 <= e < d ==> !nodes[(#[trigger] rows[e]) as int].read_error,
            None => forall|e: int|
                0 <= e < rows.len() ==> !nodes[(#[trigger] rows[e]) as int].read_error,
        },
    decreases rows.len(),
{
    if rows.len() > 0 {
        let rest = rows.skip(1);
        if nodes[rows[0] as int].read_error {
            assert(rows[0] == rows[0]);
        } else {
            lemma_first_error(nodes, rest);
            match state::first_error(nodes, rest) {
                Some(idx) => {
                    let d = choose|d: int|
                        0 <= d < rest.len() && #[trigger] rest[d] == idx
                            && nodes[idx as int].read_error && forall|e: int|
                            0 <= e < d ==> !nodes[(#[trigger] rest[e]) as int].read_error;
                    assert(rows[d + 1] == idx);
                    assert forall|e: int| 0 <= e < d + 1 implies !nodes[(
                    #[trigger] rows[e]) as int].read_error by {
                        if e > 0 {
                            assert(rows[e] == rest[e - 1]);
                        }
                    }
                },
                None => {
                    assert forall|e: int| 0 <= e < rows.len() implies !nodes[(
                    #[trigger] rows[e]) as int].read_error by {
                        if e > 0 {
                            assert(rows[e] == rest[e - 1]);
                        }
                    }
                },
            }
        }
    }
}

/// The row that lies `d` rows behind the row `p`, from the top again behind the last one.
pub open spec fn behind(rows: Seq<usize>, p: int, d: int) -> usize {
    if p + d < rows.len() {
        rows[p + d]
    } else {
        rows[p + d - rows.len()]
    }
}

/// The error key finds the nearest entry with a read error behind the one it starts from, going on at
/// the top, and comes back to that one itself only if there is no other.
pub proof fn law_the_nearest_error_is_found(nodes: Seq<NodeView>, rows: Seq<usize>, p: int)
    requires
        rows.no_duplicates(),
        0 <= p < rows.len(),
    ensures
        match state::next_error(nodes, rows, rows[p]) {
            Some(idx) => exists|d: int|
                1 <= d <= rows.len() && #[trigger] behind(rows, p, d) == idx
                    && nodes[idx as int].read_error && forall|e: int|
                    1 <= e < d ==> !nodes[(#[trigger] behind(rows, p, e)) as int].read_error,
            None => forall|e: int|
                0 <= e < rows.len() ==> !nodes[(#[trigger] rows[e]) as int].read_error,
        },
{
    lemma_position(rows, p);
    let turned = rows.skip(p + 1) + rows.take(p + 1);
    lemma_first_error(nodes, turned);
    assert forall|d: int| 0 <= d < turned.len() implies #[trigger] turned[d] == behind(
        rows,
        p,
        d + 1,
    ) by {}
    match state::first_error(nodes, turned) {
        Some(idx) => {
            let d = choose|d: int|
                0 <= d < turned.len() && #[trigger] turned[d] == idx && nodes[idx as int].read_error
                    && forall|e: int| 0 <= e < d ==> !nodes[(#[trigger] turned[e]) as int].read_error;
            assert(behind(rows, p, d + 1) == idx);
            assert forall|e: int| 1 <= e < d + 1 implies !nodes[(
            #[trigger] behind(rows, p, e)) as int].read_error by {
                assert(turned[e - 1] == behind(rows, p, e));
            }
        },
        None => {
            assert forall|e: int| 0 <= e < rows.len() implies !nodes[(
            #[trigger] rows[e]) as int].read_error by {
                if e <= p {
                    assert(turned[e + rows.len() - p - 1] == rows[e]);
                } else {
                    assert(turned[e - p - 1] == rows[e]);
                }
            }
        },
    }
}

/// The error key views the directory of the entry that it found, with the entry selected, and names it;
/// scans that run turn to that directory.
pub proof fn law_errors_are_shown_in_place(a: AppView, s: usize)
    requires
        browsing(a),
        a.selected == Some(s),
        state::shown(a).contains(s),
    ensures
        ({
            let rows = state::display(a.tree.nodes, a.sort, a.disk_usage, a.tree.root as int);
            let (b, effect) = state::pressed(a, KeyAction::NextError);
            let viewed = vstd::utf8::encode_utf8(edit::path(a.tree.nodes, b.cur as int));
            match state::next_error(a.tree.nodes, rows, s) {
                Some(idx) => {
                    &&& idx != a.tree.root ==> b.selected == Some(idx) && b.cur
                        == a.tree.nodes[idx as int].parent->0
                    &&& idx == a.tree.root ==> b.cur == a.tree.root
                    &&& a.scanning ==> effect == EffectView::Focus(viewed)
                    &&& b.status == Some("read error: "@ + edit::path(a.tree.nodes, idx as int))
                },
                None => b.cur == a.cur && b.selected == a.selected && b.status is Some,
            }
        }),
{
    reveal(state::browse_pressed);
    lemma_ready(a, KeyAction::NextError, s);
}

// ---- Filters --------------------------------------------------------------------------------------------

/// Two characters are the same, or the same ASCII letter, one of them large and the other small.
pub open spec fn same_letter(c: char, d: char) -> bool {
    ||| c == d
    ||| 'A' <= c <= 'Z' && d as u32 == c as u32 + 32
    ||| 'A' <= d <= 'Z' && c as u32 == d as u32 + 32
}

proof fn lemma_encode_joined(a: Seq<char>, b: Seq<char>)
    ensures
        vstd::utf8::encode_utf8(a + b) == vstd::utf8::encode_utf8(a) + vstd::utf8::encode_utf8(b),
    decreases a.len(),
{
    if a.len() == 0 {
        assert(a + b =~= b);
        assert(vstd::utf8::encode_utf8(a) =~= Seq::empty());
    } else {
        lemma_encode_joined(a.drop_first(), b);
        assert((a + b).drop_first() =~= a.drop_first() + b);
        assert((a + b)[0] == a[0]);
        assert(vstd::utf8::encode_utf8(a + b) =~= vstd::utf8::encode_utf8(a) + vstd::utf8::encode_utf8(
            b,
        ));
    }
}

/// Two byte strings are the same, the case of ASCII letters aside.
spec fn same_bytes(a: Seq<u8>, b: Seq<u8>) -> bool {
    &&& a.len() == b.len()
    &&& forall|k: int|
        0 <= k < a.len() ==> state::ascii_lower(a[k]) == state::ascii_lower(#[trigger] b[k])
}

proof fn lemma_same_scalar(c: char, d: char)
    requires
        same_letter(c, d),
    ensures
        same_bytes(
            vstd::utf8::encode_scalar(c as u32),
            vstd::utf8::encode_scalar(d as u32),
        ),
{
    if c != d {
        let x = c as u32;
        let y = d as u32;
        assert(x & 0x7f == x) by (bit_vector)
            requires
                x < 128,
        ;
        assert(y & 0x7f == y) by (bit_vector)
            requires
                y < 128,
        ;
    }
}

proof fn lemma_same_encoding(m: Seq<char>, n: Seq<char>)
    requires
        m.len() == n.len(),
        forall|k: int| 0 <= k < n.len() ==> same_letter(m[k], #[trigger] n[k]),
    ensures
        same_bytes(vstd::utf8::encode_utf8(m), vstd::utf8::encode_utf8(n)),
    decreases m.len(),
{
    if m.len() > 0 {
        let x = m.drop_first();
        let y = n.drop_first();
        assert forall|k: int| 0 <= k < y.len() implies same_letter(x[k], #[trigger] y[k]) by {
            assert(same_letter(m[k + 1], n[k + 1]));
        }
        lemma_same_encoding(x, y);
        assert(same_letter(m[0], n[0]));
        lemma_same_scalar(m[0], n[0]);
    }
}

/// A filter finds whatever stands in a name, at the beginning, in the middle or at the end, and it makes
/// no difference which ASCII letters of either are large.
pub proof fn law_filters_find_what_is_in_a_name(
    before: Seq<char>,
    m: Seq<char>,
    behind: Seq<char>,
    query: Seq<char>,
)
    requires
        m.len() == query.len(),
        forall|k: int| 0 <= k < query.len() ==> same_letter(m[k], #[trigger] query[k]),
    ensures
        state::has_ci(before + m + behind, query),
{
    let name = before + m + behind;
    lemma_encode_joined(before + m, behind);
    lemma_encode_joined(before, m);
    lemma_same_encoding(m, query);
    let h = vstd::utf8::encode_utf8(name);
    let n = vstd::utf8::encode_utf8(query);
    let w = vstd::utf8::encode_utf8(m);
    let at = vstd::utf8::encode_utf8(before).len() as int;
    assert forall|k: int| 0 <= k < n.len() implies state::ascii_lower(h[at + k])
        == state::ascii_lower(#[trigger] n[k]) by {
        assert(h[at + k] == w[k]);
    }
    assert(state::matches_at(h, n, at));
}

/// What a filter lets through holds it: among ASCII texts nothing is found that is not there.
pub proof fn law_filters_find_nothing_else(name: Seq<char>, query: Seq<char>)
    requires
        vstd::utf8::is_ascii_chars(name),
        vstd::utf8::is_ascii_chars(query),
        state::has_ci(name, query),
    ensures
        exists|at: int| #[trigger] stands_at(name, query, at),
{
    broadcast use vstd::utf8::is_ascii_chars_encode_utf8;

    let h = vstd::utf8::encode_utf8(name);
    let n = vstd::utf8::encode_utf8(query);
    let at = choose|at: int| #[trigger] state::matches_at(h, n, at);
    assert(state::matches_at(h, n, at));
    assert forall|k: int| 0 <= k < query.len() implies same_letter(name[at + k], #[trigger] query[k]) by {
        assert(state::ascii_lower(h[at + k]) == state::ascii_lower(n[k]));
        assert(h[at + k] == name[at + k] as u8);
        assert(n[k] == query[k] as u8);
    }
    assert(stands_at(name, query, at));
}

/// The query stands in the name at a place, the case of ASCII letters aside.
pub open spec fn stands_at(name: Seq<char>, query: Seq<char>, at: int) -> bool {
    &&& 0 <= at <= name.len() - query.len()
    &&& forall|k: int| 0 <= k < query.len() ==> same_letter(name[at + k], #[trigger] query[k])
}

// ---- Rescans and popups -------------------------------------------------------------------------------------

/// Nothing speaks against reading the selected directory again: it is a directory of a scanned tree that
/// is read in full, nothing is being rescanned, and no deletion touches it.
pub open spec fn may_be_rescanned(a: AppView, s: usize) -> bool {
    &&& a.scan_opts is Some
    &&& a.refreshing_idx is None
    &&& a.tree.nodes[s as int].kind == NodeKind::Dir
    &&& a.tree.nodes[s as int].unscanned == 0
    &&& a.deleting is None || !tree::above(
        a.tree.nodes,
        a.deleting.unwrap().0 as int,
        s as int,
    )
}

/// The rescan key reads just the selected directory again, by its path, under an id that no scan before
/// it has used, and by the rules of the first scan; where something speaks against it nothing is changed
/// but the message.
pub proof fn law_rescans_are_of_the_selected_directory(a: AppView, s: usize)
    requires
        browsing(a),
        a.selected == Some(s),
        state::shown(a).contains(s),
        0 <= a.next_scan_base * SCAN_ID_STRIDE <= u64::MAX,
    ensures
        ({
            let (b, effect) = state::pressed(a, KeyAction::Refresh);
            let id = (a.next_scan_base * SCAN_ID_STRIDE) as u64;
            let path = vstd::utf8::encode_utf8(edit::path(a.tree.nodes, s as int));
            &&& may_be_rescanned(a, s) ==> {
                &&& effect is Rescan
                &&& effect->Rescan_0.cold == seq![JobView { id, path }]
                &&& effect->Rescan_0.hot.len() == 0
                &&& effect->Rescan_1.next_id == id + 1
                &&& Some(effect->Rescan_2) == a.scan_opts
                &&& b.refreshing_idx == Some(s)
                &&& b.scanning
                &&& b.next_scan_base == a.next_scan_base + 1
                &&& b.tree == edit::refreshed(a.tree, s as int, id)
                &&& b.scans == a.scans.push((true, true))
                &&& b.cur == a.cur && b.selected == a.selected
            }
            &&& !may_be_rescanned(a, s) ==> {
                &&& effect is Nothing
                &&& b.status is Some
                &&& b == AppView { status: b.status, quit_armed: false, ..a }
            }
        }),
{
    reveal(state::browse_pressed);
    lemma_ready(a, KeyAction::Refresh, s);
}

/// The popup of the largest files is about the viewed directory, with the first row selected and room for
/// a hundred rows; it stays closed only if there is no regular file below.
pub proof fn law_the_popup_is_about_the_viewed_directory(a: AppView, b: AppView, c: int)
    requires
        state::top_files_opened(a, b),
    ensures
        match b.modal {
            ModalView::TopFiles(rows, selected) => {
                &&& state::is_top_list(a.tree.nodes, a.disk_usage, a.cur as int, 100, rows)
                &&& selected == 0 && rows.len() > 0
            },
            _ => !state::is_file_below(a.tree.nodes, c, a.cur as int) && b.status is Some,
        },
        b.cur == a.cur && b.tree == a.tree,
{
}

/// The path of a file in the popup leads to it from the viewed directory.
pub proof fn law_relative_paths_lead_there(nodes: Seq<NodeView>, j: int, from: int)
    requires
        state::reached(nodes, j, from),
        forall|k: int|
            0 <= k < nodes.len() ==> (#[trigger] nodes[k]).name.len() > 0 && nodes[k].name.last()
                != '/',
    ensures
        edit::joined_path(edit::path(nodes, from), state::relative_path(nodes, j, from)) == edit::path(
            nodes,
            j,
        ),
        state::relative_path(nodes, j, from).len() > 0,
        state::relative_path(nodes, j, from).last() != '/',
    decreases j,
{
    let p = nodes[j].parent->0 as int;
    let dir = edit::path(nodes, from);
    assert(nodes[j].name.len() > 0);
    if p != from {
        law_relative_paths_lead_there(nodes, p, from);
        let up = state::relative_path(nodes, p, from);
        let path = edit::path(nodes, p);
        assert(path == edit::joined_path(dir, up));
        assert(path.last() == up.last());
        assert(edit::joined_path(dir, up.push('/') + nodes[j].name) =~= edit::joined_path(
            path,
            nodes[j].name,
        ));
    }
}

/// A selection that is not among the rows goes to the first of them before a key is acted upon, and one
/// that is stays.
pub proof fn law_the_selection_is_a_row(a: AppView)
    requires
        browsing(a),
    ensures
        ({
            let rows = state::shown(a);
            let b = state::pressed(a, KeyAction::Help).0;
            &&& a.selected is Some && rows.contains(a.selected->0) ==> b.selected == a.selected
            &&& rows.len() > 0 && !(a.selected is Some && rows.contains(a.selected->0)) ==> b.selected
                == Some(rows[0])
            &&& rows.len() == 0 ==> b.selected is None
        }),
{
    reveal(state::browse_pressed);
    let b = AppView { status: None, quit_armed: false, ..a };
    assert(state::shown(b) == state::shown(a));
}

// ---- The order of everything --------------------------------------------------------------------------------

/// How many rows the first `k` of some entries take with everything below them.
pub open spec fn rows_of_first(
    nodes: Seq<NodeView>,
    sort: SortKey,
    disk_usage: bool,
    kids: Seq<usize>,
    k: int,
) -> int
    decreases k,
{
    if k <= 0 {
        0
    } else {
        rows_of_first(nodes, sort, disk_usage, kids, k - 1) + state::display(
            nodes,
            sort,
            disk_usage,
            kids[k - 1] as int,
        ).len()
    }
}

proof fn lemma_rows_of_first(
    nodes: Seq<NodeView>,
    sort: SortKey,
    disk_usage: bool,
    kids: Seq<usize>,
    k: int,
)
    requires
        0 < k <= kids.len(),
    ensures
        rows_of_first(nodes, sort, disk_usage, kids, k) == state::display(
            nodes,
            sort,
            disk_usage,
            kids[0] as int,
        ).len() + rows_of_first(nodes, sort, disk_usage, kids.skip(1), k - 1),
        rows_of_first(nodes, sort, disk_usage, kids.skip(1), k - 1) >= 0,
    decreases k,
{
    reveal_with_fuel(rows_of_first, 2);
    if k > 1 {
        lemma_rows_of_first(nodes, sort, disk_usage, kids, k - 1);
        assert(kids.skip(1)[k - 2] == kids[k - 1]);
    }
}

proof fn lemma_display_all(
    nodes: Seq<NodeView>,
    sort: SortKey,
    disk_usage: bool,
    i: int,
    kids: Seq<usize>,
    k: int,
)
    requires
        0 <= k < kids.len(),
        forall|m: int| 0 <= m < kids.len() ==> i < (#[trigger] kids[m]) < nodes.len(),
    ensures
        ({
            let all = state::display_all(nodes, sort, disk_usage, i, kids);
            let at = rows_of_first(nodes, sort, disk_usage, kids, k);
            let own = state::display(nodes, sort, disk_usage, kids[k] as int);
            &&& 0 <= at
            &&& at + own.len() <= all.len()
            &&& all.subrange(at, at + own.len()) == own
        }),
    decreases kids.len(),
{
    let all = state::display_all(nodes, sort, disk_usage, i, kids);
    let first = state::display(nodes, sort, disk_usage, kids[0] as int);
    let rest = kids.skip(1);
    let after = state::display_all(nodes, sort, disk_usage, i, rest);
    assert(i < kids[0] < nodes.len());
    assert(all =~= first + after);
    if k == 0 {
        assert(all.subrange(0, first.len() as int) =~= first);
    } else {
        assert forall|m: int| 0 <= m < rest.len() implies i < (#[trigger] rest[m]) < nodes.len() by {
            assert(rest[m] == kids[m + 1]);
        }
        lemma_display_all(nodes, sort, disk_usage, i, rest, k - 1);
        lemma_rows_of_first(nodes, sort, disk_usage, kids, k);
        let at = rows_of_first(nodes, sort, disk_usage, kids, k);
        let own = state::display(nodes, sort, disk_usage, kids[k] as int);
        assert(rest[k - 1] == kids[k]);
        assert(all.subrange(at, at + own.len()) =~= after.subrange(
            at - first.len(),
            at - first.len() + own.len(),
        ));
    }
}

/// The order in which errors are looked for: a directory comes before what is in it, and its entries come
/// in the order of their rows, each with all that is below it before the next one.
pub proof fn law_everything_is_shown_row_by_row(
    nodes: Seq<NodeView>,
    sort: SortKey,
    disk_usage: bool,
    i: usize,
    k: int,
)
    requires
        i < nodes.len(),
        forall|c: usize| #[trigger] nodes[i as int].children.contains(c) ==> i < c < nodes.len(),
        0 <= k < state::in_order(nodes, sort, disk_usage, nodes[i as int].children).len(),
    ensures
        ({
            let all = state::display(nodes, sort, disk_usage, i as int);
            let kids = state::in_order(nodes, sort, disk_usage, nodes[i as int].children);
            let own = state::display(nodes, sort, disk_usage, kids[k] as int);
            let at = 1 + rows_of_first(nodes, sort, disk_usage, kids, k);
            &&& all[0] == i
            &&& at + own.len() <= all.len()
            &&& all.subrange(at, at + own.len()) == own
        }),
{
    let list = nodes[i as int].children;
    let leq = state::row_order(nodes, sort, disk_usage);
    let kids = state::in_order(nodes, sort, disk_usage, list);
    rows::lemma_rows_order(nodes, sort, disk_usage);
    list.lemma_sort_by_ensures(leq);
    kids.to_multiset_ensures();
    list.to_multiset_ensures();
    assert forall|m: int| 0 <= m < kids.len() implies i < (#[trigger] kids[m]) < nodes.len() by {
        assert(kids.contains(kids[m]));
        assert(kids.to_multiset().count(kids[m]) > 0);
        assert(list.to_multiset().count(kids[m]) > 0);
        assert(list.contains(kids[m]));
    }
    lemma_display_all(nodes, sort, disk_usage, i as int, kids, k);
    let all = state::display(nodes, sort, disk_usage, i as int);
    let below = state::display_all(nodes, sort, disk_usage, i as int, kids);
    let own = state::display(nodes, sort, disk_usage, kids[k] as int);
    let at = rows_of_first(nodes, sort, disk_usage, kids, k);
    assert(all =~= seq![i] + below);
    assert(all.subrange(1 + at, 1 + at + own.len()) =~= below.subrange(at, at + own.len()));
}

/// A tree is opened at its root, with the largest rows first, in the metric that is asked for, with
/// nothing filtered and nothing open; it may be deleted from unless it is opened for reading only.
pub proof fn law_trees_are_opened_at_their_root(
    t: TreeView,
    disk_usage: bool,
    read_only: bool,
    scanning: bool,
)
    ensures
        ({
            let a = state::begun(t, disk_usage, read_only, scanning);
            &&& browsing(a)
            &&& a.cur == t.root && a.tree.nodes == t.nodes
            &&& a.sort == SortKey::Size && a.disk_usage == disk_usage
            &&& a.read_only == read_only && a.scanning == scanning
            &&& a.filter is None && a.status is None && a.deleting is None
            &&& !a.quit && a.refreshing_idx is None && a.bytes_seen == 0
            &&& scanning ==> a.tree == t
        }),
{
}

} // verus!
