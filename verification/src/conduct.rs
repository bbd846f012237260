//! What can be relied upon whatever keys are pressed.
use vstd::prelude::*;
use vstd::relations::*;

use crate::below;
use crate::edit;
use crate::keys;
use crate::keys::{Key, Mode};
use crate::rows;
use crate::state;
use crate::state::{AppView, EffectView, KeyAction, ModalView, SortKey};
use crate::tree;
use crate::tree::{BatchView, NodeView};
use crate::walk;

verus! {

// ---- Safety -----------------------------------------------------------------------------------------

/// What no key while browsing does.
spec fn careful(a: AppView, after: (AppView, EffectView), quits: bool) -> bool {
    let (b, effect) = after;
    &&& b.read_only == a.read_only
    &&& b.deleting == a.deleting
    &&& b.modal is ConfirmDelete ==> !a.read_only && a.deleting is None
    &&& !(effect is Delete)
    &&& b.tree == a.tree || effect is Rescan
    &&& b.quit ==> a.quit || quits
}

proof fn lemma_steps_are_careful(a: AppView)
    requires
        !(a.modal is ConfirmDelete),
    ensures
        careful(a, state::entered(a), false),
        careful(a, state::left(a), false),
        careful(a, (state::delete_asked(a), EffectView::Nothing), false),
        careful(a, state::open_started(a), false),
        careful(a, state::error_sought(a), false),
        careful(a, (state::search_opened(a), EffectView::Nothing), false),
        careful(a, (state::info_opened(a), EffectView::Nothing), false),
        careful(
            a,
            (state::quit_pressed(a), EffectView::Nothing),
            a.deleting is None || a.quit_armed,
        ),
        !state::entered(a).0.quit_armed || a.quit_armed,
        !state::left(a).0.quit_armed || a.quit_armed,
        !state::open_started(a).0.quit_armed || a.quit_armed,
        !state::error_sought(a).0.quit_armed || a.quit_armed,
        !state::delete_asked(a).quit_armed || a.quit_armed,
{
}

proof fn lemma_refresh_is_careful(a: AppView)
    requires
        !(a.modal is ConfirmDelete),
    ensures
        careful(a, state::refresh_started(a), false),
        !state::refresh_started(a).0.quit_armed || a.quit_armed,
{
}

/// A key while browsing.
#[verifier::rlimit(40)]
proof fn lemma_browsing_is_careful(start: AppView, action: KeyAction)
    requires
        start.modal is Closed,
    ensures
        careful(
            start,
            state::browse_pressed(start, action),
            action is Quit && (start.deleting is None || start.quit_armed),
        ),
        !(action is Quit) ==> !state::browse_pressed(start, action).0.quit_armed,
{
    let a = state::ready(start, action);
    lemma_steps_are_careful(a);
    lemma_refresh_is_careful(a);
    reveal(state::browse_pressed);
    let after = state::browse_pressed(start, action);
    match action {
        KeyAction::Enter => {
            assert(after == state::entered(a));
        },
        KeyAction::Leave => {
            assert(after == state::left(a));
        },
        KeyAction::Delete => {
            assert(after.0 == state::delete_asked(a));
        },
        KeyAction::Open => {
            assert(after == state::open_started(a));
        },
        KeyAction::Refresh => {
            assert(after == state::refresh_started(a));
        },
        KeyAction::NextError => {
            assert(after == state::error_sought(a));
        },
        KeyAction::Quit => {
            assert(after.0 == state::quit_pressed(a));
        },
        _ => {},
    }
}

/// A key while a filter is typed.
proof fn lemma_typing_is_careful(a: AppView, action: KeyAction)
    requires
        a.modal is Closed,
    ensures
        careful(a, (state::filter_pressed(a, action), EffectView::Nothing), false),
{
    reveal(state::filter_pressed);
}

/// A key in the top-files popup.
proof fn lemma_choosing_is_careful(a: AppView, action: KeyAction)
    requires
        a.modal is TopFiles,
    ensures
        careful(a, state::pressed(a, action), false),
{
    reveal(state::top_pressed);
}

/// A key while a deletion is to be confirmed.
proof fn lemma_confirming(a: AppView, action: KeyAction)
    requires
        a.modal is ConfirmDelete,
    ensures
        state::pressed(a, action).0.tree == a.tree,
        state::pressed(a, action).0.quit == a.quit,
        state::pressed(a, action).0.quit_armed == a.quit_armed,
{
    reveal(state::confirm_pressed);
}

/// A key, unless a deletion is to be confirmed.
proof fn lemma_keys_are_careful(a: AppView, action: KeyAction)
    requires
        !(a.modal is ConfirmDelete),
    ensures
        careful(
            a,
            state::pressed(a, action),
            action is Quit && (a.deleting is None || a.quit_armed),
        ),
        a.modal is Closed && !a.searching && !(action is Quit) ==> !state::pressed(
            a,
            action,
        ).0.quit_armed,
{
    match a.modal {
        ModalView::Closed => {
            if a.searching {
                lemma_typing_is_careful(a, action);
            } else {
                lemma_browsing_is_careful(a, action);
            }
        },
        ModalView::TopFiles(_, _) => lemma_choosing_is_careful(a, action),
        _ => {},
    }
}

/// In read-only mode no key leads to a deletion, nor to the question whether to delete.
pub proof fn law_read_only_never_deletes(a: AppView, action: KeyAction)
    requires
        a.read_only,
        !(a.modal is ConfirmDelete),
    ensures
        !(state::pressed(a, action).0.modal is ConfirmDelete),
        !(state::pressed(a, action).1 is Delete),
        state::pressed(a, action).0.read_only,
{
    lemma_keys_are_careful(a, action);
}

/// Something is removed from disk only if the question about it was confirmed, and a directory only if
/// everything below it was scanned. What is removed is what was asked about.
pub proof fn law_only_scanned_entries_are_deleted(a: AppView, action: KeyAction)
    requires
        state::pressed(a, action).1 is Delete,
    ensures
        action is Confirm,
        match a.modal {
            ModalView::ConfirmDelete(idx) => {
                let n = a.tree.nodes[idx as int];
                &&& tree::is_dir(n) ==> n.unscanned == 0
                &&& state::pressed(a, action).1 == EffectView::Delete(
                    edit::path(a.tree.nodes, idx as int),
                    tree::is_dir(n),
                )
                &&& state::deleting_idx(state::pressed(a, action).0) == Some(idx)
            },
            _ => false,
        },
{
    if a.modal is ConfirmDelete {
        reveal(state::confirm_pressed);
    } else {
        lemma_keys_are_careful(a, action);
    }
}

/// While something is being deleted, no further deletion is offered.
pub proof fn law_one_deletion_at_a_time(a: AppView, action: KeyAction)
    requires
        a.deleting is Some,
        !(a.modal is ConfirmDelete),
    ensures
        !(state::pressed(a, action).0.modal is ConfirmDelete),
        !(state::pressed(a, action).1 is Delete),
        state::pressed(a, action).0.deleting == a.deleting,
{
    lemma_keys_are_careful(a, action);
}

/// While something is being deleted, only a repeated quit key quits, and any other key while browsing
/// disarms it.
pub proof fn law_quitting_a_deletion_takes_two_presses(a: AppView, action: KeyAction)
    requires
        a.deleting is Some,
        !a.quit,
    ensures
        state::pressed(a, action).0.quit ==> action is Quit && a.quit_armed,
        a.modal is Closed && !a.searching && !(action is Quit) ==> !state::pressed(
            a,
            action,
        ).0.quit_armed,
{
    if a.modal is ConfirmDelete {
        lemma_confirming(a, action);
    } else {
        lemma_keys_are_careful(a, action);
    }
}

/// No key changes the tree, a rescan aside; what is removed from disk leaves it only afterwards.
pub proof fn law_keys_leave_the_tree(a: AppView, action: KeyAction)
    ensures
        state::pressed(a, action).0.tree == a.tree || state::pressed(a, action).1 is Rescan,
{
    if a.modal is ConfirmDelete {
        lemma_confirming(a, action);
    } else {
        lemma_keys_are_careful(a, action);
    }
}

/// The help and info popups close on every key, and do nothing else.
pub proof fn law_any_key_closes(a: AppView, key: Key, control: bool, page: usize)
    requires
        keys::mode_of(a) == Mode::AnyKey,
    ensures
        ({
            let action = keys::meaning(key, control, Mode::AnyKey, page);
            &&& action is Some
            &&& state::pressed(a, action->0) == (
                AppView { modal: ModalView::Closed, ..a },
                EffectView::Nothing,
            )
        }),
{
}

// ---- The filter -------------------------------------------------------------------------------------

/// An empty filter hides nothing.
pub proof fn law_empty_filter_matches(name: Seq<char>)
    ensures
        state::has_ci(name, Seq::empty()),
{
    let h = vstd::utf8::encode_utf8(name);
    let n = vstd::utf8::encode_utf8(Seq::<char>::empty());
    assert(n.len() == 0);
    assert(state::matches_at(h, n, 0));
}

/// Keys that edit a filter.
pub open spec fn edits(action: KeyAction) -> bool {
    action is FilterChar || action is FilterBackspace
}

/// Several keys pressed while a filter is typed.
pub open spec fn typed(a: AppView, actions: Seq<KeyAction>) -> AppView
    decreases actions.len(),
{
    if actions.len() == 0 {
        a
    } else {
        state::filter_pressed(typed(a, actions.drop_last()), actions.last())
    }
}

/// Editing a filter changes nothing but the filter and the selection.
proof fn lemma_typing(a: AppView, actions: Seq<KeyAction>)
    requires
        forall|k: int| 0 <= k < actions.len() ==> edits(#[trigger] actions[k]),
    ensures
        typed(a, actions) == (AppView {
            filter: typed(a, actions).filter,
            selected: typed(a, actions).selected,
            ..a
        }),
    decreases actions.len(),
{
    reveal(state::filter_pressed);
    if actions.len() > 0 {
        let before = actions.drop_last();
        assert forall|k: int| 0 <= k < before.len() implies edits(#[trigger] before[k]) by {
            assert(before[k] == actions[k]);
        }
        lemma_typing(a, before);
        assert(edits(actions[actions.len() - 1]));
    }
}

/// A filter that is opened, typed at and cancelled leaves no trace: nothing is filtered, and the
/// selection is the one from before.
pub proof fn law_cancelling_a_filter_restores(a: AppView, actions: Seq<KeyAction>)
    requires
        a.modal is Closed,
        !a.searching,
        a.filter is None,
        forall|k: int| 0 <= k < actions.len() ==> edits(#[trigger] actions[k]),
    ensures
        ({
            let start = state::ready(a, KeyAction::Search);
            let open = state::pressed(a, KeyAction::Search).0;
            state::filter_pressed(typed(open, actions), KeyAction::FilterCancel) == AppView {
                status: None,
                pre_search_selected: None,
                ..start
            }
        }),
{
    reveal(state::filter_pressed);
    reveal(state::browse_pressed);
    let start = state::ready(a, KeyAction::Search);
    let open = state::pressed(a, KeyAction::Search).0;
    lemma_typing(open, actions);
    let last = typed(open, actions);
    let over = AppView { searching: false, filter: None, pre_search_selected: None, ..last };
    assert(state::shown(over) == state::shown(start));
    assert(state::shown(start) == state::shown(AppView { status: None, quit_armed: false, ..a }));
    let kids = state::shown(start);
    assert(state::kept_selection(start.selected, kids) == start.selected) by {
        if kids.len() > 0 && start.selected == Some(kids[0]) {
            assert(kids.contains(kids[0]));
        }
    }
}

// ---- Rows -------------------------------------------------------------------------------------------

/// Without a filter the rows are the children of the viewed directory, each once, in order.
pub proof fn law_rows_are_the_children(a: AppView)
    requires
        a.filter is None,
    ensures
        state::shown(a).to_multiset() == a.tree.nodes[a.cur as int].children.to_multiset(),
        sorted_by(state::shown(a), state::row_order(a.tree.nodes, a.sort, a.disk_usage)),
{
    let kids = a.tree.nodes[a.cur as int].children;
    let leq = state::row_order(a.tree.nodes, a.sort, a.disk_usage);
    rows::lemma_rows_order(a.tree.nodes, a.sort, a.disk_usage);
    kids.lemma_sort_by_ensures(leq);
}

/// What a row list holds: those children whose name matches.
proof fn lemma_shown_contains(a: AppView, c: usize)
    ensures
        state::shown(a).contains(c) <==> a.tree.nodes[a.cur as int].children.contains(c) && (
        a.filter is Some ==> state::has_ci(a.tree.nodes[c as int].name, a.filter->0)),
{
    let nodes = a.tree.nodes;
    let kids = nodes[a.cur as int].children;
    let leq = state::row_order(nodes, a.sort, a.disk_usage);
    let ordered = kids.sort_by(leq);
    rows::lemma_rows_order(nodes, a.sort, a.disk_usage);
    kids.lemma_sort_by_ensures(leq);
    kids.to_multiset_ensures();
    ordered.to_multiset_ensures();
    assert(ordered.contains(c) <==> kids.contains(c)) by {
        assert(ordered.contains(c) <==> ordered.to_multiset().count(c) > 0);
        assert(kids.contains(c) <==> kids.to_multiset().count(c) > 0);
    }
    if let Some(query) = a.filter {
        lemma_filter_contains(ordered, state::name_has(nodes, query), c);
    }
}

/// A filtered list holds what the list holds and the filter lets through.
proof fn lemma_filter_contains(list: Seq<usize>, keep: spec_fn(usize) -> bool, c: usize)
    ensures
        list.filter(keep).contains(c) <==> list.contains(c) && keep(c),
    decreases list.len(),
{
    reveal(Seq::filter);
    if list.len() > 0 {
        let shorter = list.drop_last();
        let x = list.last();
        lemma_filter_contains(shorter, keep, c);
        assert(list =~= shorter.push(x));
        walk::lemma_push_contains(shorter, x);
        walk::lemma_push_contains(shorter.filter(keep), x);
    }
}

/// The highlight stays glued to its entry while batches come in: the viewed directory and the
/// selection are the same, and the selected entry is still among the rows.
pub proof fn law_batches_leave_the_selection(a: AppView, b: BatchView)
    requires
        state::valid(a),
        a.selected is Some,
        state::shown(a).contains(a.selected->0),
    ensures
        ({
            let after = state::received(a, b).0;
            &&& after.cur == a.cur
            &&& after.selected == a.selected
            &&& state::kept_selection(after.selected, state::shown(after)) == a.selected
        }),
{
    reveal(state::valid);
    let after = state::received(a, b).0;
    let c = a.selected->0;
    tree::lemma_applied_keeps(a.tree, b);
    lemma_shown_contains(a, c);
    lemma_shown_contains(after, c);
    let kids = a.tree.nodes[a.cur as int].children;
    let k = choose|k: int| 0 <= k < kids.len() && kids[k] == c;
    assert(a.tree.nodes[a.cur as int].children[k] < a.tree.nodes.len());
    assert(kids.contains(c));
    assert(after.tree.nodes[c as int].name == a.tree.nodes[c as int].name);
}

// ---- Read errors ------------------------------------------------------------------------------------

proof fn lemma_first_error(nodes: Seq<NodeView>, rows: Seq<usize>)
    ensures
        match state::first_error(nodes, rows) {
            Some(idx) => rows.contains(idx) && nodes[idx as int].read_error,
            None => forall|k: int|
                0 <= k < rows.len() ==> !nodes[(#[trigger] rows[k]) as int].read_error,
        },
    decreases rows.len(),
{
    if rows.len() > 0 {
        let rest = rows.skip(1);
        lemma_first_error(nodes, rest);
        if nodes[rows[0] as int].read_error {
            assert(rows.contains(rows[0]));
        } else {
            match state::first_error(nodes, rest) {
                Some(idx) => {
                    let k = choose|k: int| 0 <= k < rest.len() && rest[k] == idx;
                    assert(rows[k + 1] == idx);
                },
                None => {
                    assert forall|k: int| 0 <= k < rows.len() implies !nodes[(
                    #[trigger] rows[k]) as int].read_error by {
                        if k > 0 {
                            assert(rest[k - 1] == rows[k]);
                        }
                    }
                },
            }
        }
    }
}

/// The first position of an entry lies in the list.
proof fn lemma_position(rows: Seq<usize>, x: usize)
    ensures
        state::position(rows, x) is Some ==> 0 <= state::position(rows, x)->0 < rows.len(),
    decreases rows.len(),
{
    if rows.len() > 0 && rows[0] != x {
        lemma_position(rows.skip(1), x);
    }
}

/// The jump to the next read error lands on an entry that has one, and finds one if there is any.
pub proof fn law_next_error_is_found(nodes: Seq<NodeView>, rows: Seq<usize>, anchor: usize)
    requires
        rows.len() > 0,
    ensures
        match state::next_error(nodes, rows, anchor) {
            Some(idx) => rows.contains(idx) && nodes[idx as int].read_error,
            None => forall|k: int|
                0 <= k < rows.len() ==> !nodes[(#[trigger] rows[k]) as int].read_error,
        },
{
    lemma_position(rows, anchor);
    let pos = match state::position(rows, anchor) {
        Some(p) => p,
        None => 0,
    };
    let turned = rows.skip(pos + 1) + rows.take(pos + 1);
    lemma_first_error(nodes, turned);
    match state::first_error(nodes, turned) {
        Some(idx) => {
            let k = choose|k: int| 0 <= k < turned.len() && turned[k] == idx;
            if k < rows.len() - pos - 1 {
                assert(rows[k + pos + 1] == idx);
            } else {
                assert(rows[k - (rows.len() - pos - 1)] == idx);
            }
        },
        None => {
            assert forall|k: int| 0 <= k < rows.len() implies !nodes[(
            #[trigger] rows[k]) as int].read_error by {
                if k <= pos {
                    assert(turned[rows.len() - pos - 1 + k] == rows[k]);
                } else {
                    assert(turned[k - pos - 1] == rows[k]);
                }
            }
        },
    }
}

/// The rows of the whole tree are the entries below its root, whatever the order.
pub proof fn law_display_shows_everything(
    nodes: Seq<NodeView>,
    sort: SortKey,
    disk_usage: bool,
    i: int,
    j: usize,
)
    requires
        tree::well_linked(nodes),
        nodes.len() <= usize::MAX,
        0 <= i < nodes.len(),
        j < nodes.len(),
    ensures
        state::display(nodes, sort, disk_usage, i).contains(j) <==> below::under(nodes, j as int, i),
    decreases nodes.len() - i, 1int, 0int,
{
    let children = nodes[i].children;
    let leq = state::row_order(nodes, sort, disk_usage);
    let kids = state::in_order(nodes, sort, disk_usage, children);
    rows::lemma_rows_order(nodes, sort, disk_usage);
    children.lemma_sort_by_ensures(leq);
    rows::lemma_kids_younger(nodes, i, kids);
    lemma_display_all(nodes, sort, disk_usage, i, kids, j);
    let rest = state::display_all(nodes, sort, disk_usage, i, kids);
    let all = state::display(nodes, sort, disk_usage, i);
    assert(all == seq![i as usize] + rest);
    walk::lemma_add_contains(seq![i as usize], rest);
    assert(seq![i as usize].contains(j) <==> j == i) by {
        assert(seq![i as usize][0] == i as usize);
    }
    if below::under(nodes, j as int, i) && j != i {
        lemma_under_child(nodes, j as int, i);
        let k = choose|k: int|
            0 <= k < children.len() && #[trigger] below::under(
                nodes,
                j as int,
                children[k] as int,
            );
        assert(children.contains(children[k]));
        assert(kids.contains(children[k]));
        let m = choose|m: int| 0 <= m < kids.len() && kids[m] == children[k];
        assert(below::under(nodes, j as int, kids[m] as int));
    }
    if rest.contains(j) {
        let k = choose|k: int|
            0 <= k < kids.len() && #[trigger] below::under(nodes, j as int, kids[k] as int);
        assert(kids.contains(kids[k]));
        let m = choose|m: int| 0 <= m < children.len() && children[m] == kids[k];
        lemma_under_on(nodes, j as int, children[m] as int, i, m);
    }
}

/// The rows below some children are the entries below any of them.
proof fn lemma_display_all(
    nodes: Seq<NodeView>,
    sort: SortKey,
    disk_usage: bool,
    i: int,
    kids: Seq<usize>,
    j: usize,
)
    requires
        tree::well_linked(nodes),
        nodes.len() <= usize::MAX,
        0 <= i < nodes.len(),
        j < nodes.len(),
        forall|k: int| 0 <= k < kids.len() ==> i < #[trigger] kids[k] < nodes.len(),
    ensures
        state::display_all(nodes, sort, disk_usage, i, kids).contains(j) <==> exists|k: int|
            0 <= k < kids.len() && #[trigger] below::under(nodes, j as int, kids[k] as int),
    decreases nodes.len() - i, 0int, kids.len(),
{
    if kids.len() > 0 {
        let rest = kids.skip(1);
        assert(i < kids[0] < nodes.len());
        assert forall|k: int| 0 <= k < rest.len() implies i < #[trigger] rest[k] < nodes.len() by {
            assert(rest[k] == kids[k + 1]);
        }
        law_display_shows_everything(nodes, sort, disk_usage, kids[0] as int, j);
        lemma_display_all(nodes, sort, disk_usage, i, rest, j);
        let first = state::display(nodes, sort, disk_usage, kids[0] as int);
        let others = state::display_all(nodes, sort, disk_usage, i, rest);
        assert(state::display_all(nodes, sort, disk_usage, i, kids) == first + others);
        walk::lemma_add_contains(first, others);
        if others.contains(j) {
            let k = choose|k: int|
                0 <= k < rest.len() && #[trigger] below::under(nodes, j as int, rest[k] as int);
            assert(below::under(nodes, j as int, kids[k + 1] as int));
        }
        if exists|k: int|
            0 <= k < kids.len() && #[trigger] below::under(nodes, j as int, kids[k] as int) {
            let k = choose|k: int|
                0 <= k < kids.len() && #[trigger] below::under(nodes, j as int, kids[k] as int);
            if k > 0 {
                assert(below::under(nodes, j as int, rest[k - 1] as int));
            }
        }
    } else {
        assert(state::display_all(nodes, sort, disk_usage, i, kids) =~= Seq::empty());
    }
}

/// What lies below an entry, itself aside, lies below one of its children.
proof fn lemma_under_child(nodes: Seq<NodeView>, j: int, i: int)
    requires
        tree::well_linked(nodes),
        nodes.len() <= usize::MAX,
        0 <= i < nodes.len(),
        0 <= j < nodes.len(),
        j != i,
        below::under(nodes, j, i),
    ensures
        exists|k: int|
            0 <= k < nodes[i].children.len() && #[trigger] below::under(
                nodes,
                j,
                nodes[i].children[k] as int,
            ),
    decreases j,
{
    let p = nodes[j].parent->0 as int;
    if p == i {
        let k = choose|k: int|
            0 <= k < nodes[i].children.len() && nodes[i].children[k] == j as usize;
        assert(below::under(nodes, j, nodes[i].children[k] as int));
    } else {
        lemma_under_child(nodes, p, i);
        let k = choose|k: int|
            0 <= k < nodes[i].children.len() && #[trigger] below::under(
                nodes,
                p,
                nodes[i].children[k] as int,
            );
        assert(below::under(nodes, j, nodes[i].children[k] as int));
    }
}

/// What lies below a child lies below its parent.
proof fn lemma_under_on(nodes: Seq<NodeView>, j: int, c: int, i: int, k: int)
    requires
        tree::well_linked(nodes),
        nodes.len() <= usize::MAX,
        0 <= i < nodes.len(),
        0 <= k < nodes[i].children.len(),
        nodes[i].children[k] == c,
        0 <= j < nodes.len(),
        below::under(nodes, j, c),
    ensures
        below::under(nodes, j, i),
    decreases j,
{
    assert(nodes[i].children[k] < nodes.len());
    assert(nodes[nodes[i].children[k] as int].parent == Some(i as usize));
    if j == c {
        assert(nodes[i].children.contains(c as usize));
        assert(tree::listed(nodes, c));
        assert(below::under(nodes, i, i));
    } else {
        lemma_under_on(nodes, nodes[j].parent->0 as int, c, i, k);
    }
}

// ---- Going in and out -------------------------------------------------------------------------------

/// Going up undoes going in: the directory is selected again where it was, and nothing else differs.
pub proof fn law_going_up_undoes_going_in(a: AppView, s: usize)
    requires
        a.selected == Some(s),
        tree::is_dir(a.tree.nodes[s as int]),
        a.tree.nodes[s as int].parent == Some(a.cur),
        state::deleting_idx(a) != Some(s),
    ensures
        state::entered(a).0.cur == s,
        state::left(state::entered(a).0).0 == a,
{
}

/// There is no way up from the root.
pub proof fn law_no_way_up_from_the_root(a: AppView)
    requires
        a.tree.nodes[a.cur as int].parent is None,
    ensures
        state::left(a) == (a, EffectView::Nothing),
{
}

/// The same by keys: entering a directory that is shown and leaving it again only dismisses a stale
/// status and disarms a pending force-quit.
pub proof fn law_leave_undoes_enter(a: AppView, s: usize)
    requires
        a.modal is Closed,
        !a.searching,
        a.selected == Some(s),
        state::shown(a).contains(s),
        tree::is_dir(a.tree.nodes[s as int]),
        a.tree.nodes[s as int].parent == Some(a.cur),
        state::deleting_idx(a) != Some(s),
    ensures
        state::pressed(state::pressed(a, KeyAction::Enter).0, KeyAction::Leave).0 == (AppView {
            status: None,
            quit_armed: false,
            ..a
        }),
{
    reveal(state::browse_pressed);
    let calm = AppView { status: None, quit_armed: false, ..a };
    assert(state::shown(calm) == state::shown(a));
    assert(state::ready(a, KeyAction::Enter) == calm);
    let inside = state::pressed(a, KeyAction::Enter).0;
    assert(inside == state::snapped(AppView { cur: s, ..calm }));
}

} // verus!
