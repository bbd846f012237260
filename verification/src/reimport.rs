//! What an export and another import make of an imported tree.
use vstd::prelude::*;

use crate::dump;
use crate::edit;
use crate::json;
use crate::json::Json;
use crate::model::{Excluded, NodeKind};
use crate::roundtrip;
use crate::totals;
use crate::tree;
use crate::tree::{NodeView, TreeView};
use crate::upkeep;

verus! {

/// The entries of `a` are still there in `b`, as they were but for what was put below them.
pub open spec fn extends(a: Seq<NodeView>, b: Seq<NodeView>) -> bool {
    &&& upkeep::live_kept(a, b)
    &&& upkeep::own_kept(a, b)
    &&& roundtrip::facts_kept(a, b)
}

/// An array that holds not even the directory it would stand for.
spec fn is_hollow(v: Json) -> bool {
    v matches Json::Array(items) && items.len() == 0
}

/// `b` is `a` with entries put below `p`: the tree is right, and no other list of children differs.
spec fn put_below(a: TreeView, p: int, b: TreeView) -> bool {
    &&& totals::consistent(b)
    &&& extends(a.nodes, b.nodes)
    &&& forall|j: int|
        a.nodes.len() <= j < b.nodes.len() ==> #[trigger] totals::live(b.nodes, j)
    &&& forall|j: int|
        0 <= j < a.nodes.len() && j != p ==> (#[trigger] b.nodes[j]).children == a.nodes[j].children
    &&& a.nodes[p].children.is_prefix_of(b.nodes[p].children)
}

proof fn lemma_extends_on(a: Seq<NodeView>, b: Seq<NodeView>, c: Seq<NodeView>)
    requires
        extends(a, b),
        extends(b, c),
    ensures
        extends(a, c),
{
    upkeep::lemma_kept_trans(a, b, c);
    assert forall|i: int| 0 <= i < a.len() implies {
        &&& (#[trigger] c[i]).dev == a[i].dev
        &&& c[i].ino == a[i].ino
        &&& c[i].hlink == a[i].hlink
        &&& c[i].read_error == a[i].read_error
    } by {
        assert(b[i].dev == a[i].dev);
    }
}

/// One entry is put below `p`.
proof fn lemma_one_below(t: TreeView, p: int, e: tree::EntryView)
    requires
        totals::consistent(t),
        totals::live(t.nodes, p),
        tree::is_dir(t.nodes[p]),
        0 <= e.apparent <= u64::MAX,
        0 <= e.disk <= u64::MAX,
        tree::fits(edit::imported(t, p, e).nodes),
    ensures
        put_below(t, p, edit::imported(t, p, e)),
        edit::imported(t, p, e).nodes.len() == t.nodes.len() + 1,
        edit::imported(t, p, e).nodes[p].children == t.nodes[p].children.push(
            t.nodes.len() as usize,
        ),
        edit::own_apparent(edit::imported(t, p, e).nodes, t.nodes.len() as int) == e.apparent,
        edit::own_disk(edit::imported(t, p, e).nodes, t.nodes.len() as int) == e.disk,
{
    let next = edit::imported(t, p, e);
    upkeep::law_import_keeps_totals(t, p, e);
    assert(next.nodes[t.nodes.len() as int].children =~= Seq::empty());
}

/// A document is put below `p`.
proof fn lemma_added_below(t: TreeView, p: int, v: Json, seen: Set<u128>, inside: bool)
    requires
        totals::consistent(t),
        totals::live(t.nodes, p),
        tree::is_dir(t.nodes[p]),
        dump::added(t, p, v, seen, inside) is Some,
    ensures
        ({
            let after = dump::added(t, p, v, seen, inside).unwrap().0;
            &&& put_below(t, p, after)
            &&& is_hollow(v) ==> after == t
            &&& !is_hollow(v) ==> after.nodes.len() > t.nodes.len() && after.nodes[p].children
                == t.nodes[p].children.push(t.nodes.len() as usize)
        }),
    decreases v, 0int,
{
    match v {
        Json::Array(items) => {
            if items.len() > 0 {
                let e = dump::dir_entry(dump::item_of(items[0]));
                let next = edit::imported(t, p, e);
                let base = t.nodes.len() as int;
                lemma_one_below(t, p, e);
                assert(totals::live(next.nodes, base));
                lemma_added_all_below(
                    next,
                    base,
                    items,
                    items.len() as int,
                    seen,
                    inside && dump::item_of(items[0]).excluded == Excluded::No,
                );
                let after = dump::added(t, p, v, seen, inside).unwrap().0;
                lemma_extends_on(t.nodes, next.nodes, after.nodes);
                assert(totals::live(after.nodes, base) == totals::live(next.nodes, base));
                assert(after.nodes[p].children == next.nodes[p].children);
                assert forall|j: int| 0 <= j < t.nodes.len() && j != p implies (
                #[trigger] after.nodes[j]).children == t.nodes[j].children by {
                    assert(next.nodes[j].children == t.nodes[j].children);
                }
            }
        },
        _ => {
            lemma_one_below(t, p, dump::leaf_entry(dump::item_of(v), seen, inside));
        },
    }
}

proof fn lemma_added_all_below(
    t: TreeView,
    p: int,
    items: Seq<Json>,
    k: int,
    seen: Set<u128>,
    inside: bool,
)
    requires
        totals::consistent(t),
        totals::live(t.nodes, p),
        tree::is_dir(t.nodes[p]),
        dump::added_all(t, p, items, k, seen, inside) is Some,
    ensures
        put_below(t, p, dump::added_all(t, p, items, k, seen, inside).unwrap().0),
    decreases items, k,
{
    if !(k <= 1 || k > items.len()) {
        let (mid, counted) = dump::added_all(t, p, items, k - 1, seen, inside)->0;
        lemma_added_all_below(t, p, items, k - 1, seen, inside);
        assert(totals::live(mid.nodes, p) == totals::live(t.nodes, p));
        lemma_added_below(mid, p, items[k - 1], counted, inside);
        let after = dump::added_all(t, p, items, k, seen, inside).unwrap().0;
        lemma_extends_on(t.nodes, mid.nodes, after.nodes);
        assert forall|j: int| t.nodes.len() <= j < after.nodes.len() implies #[trigger] totals::live(
            after.nodes,
            j,
        ) by {
            if j < mid.nodes.len() {
                assert(totals::live(mid.nodes, j));
                assert(totals::live(after.nodes, j) == totals::live(mid.nodes, j));
            }
        }
        assert forall|j: int| 0 <= j < t.nodes.len() && j != p implies (
        #[trigger] after.nodes[j]).children == t.nodes[j].children by {
            assert(mid.nodes[j].children == t.nodes[j].children);
        }
    }
}

/// What a document says of an entry is what the entry says in the tree it was put in.
proof fn lemma_item_again(nodes: Seq<NodeView>, last: Seq<NodeView>, at: int, item: dump::ItemView)
    requires
        extends(nodes, last),
        0 <= at < nodes.len(),
        totals::live(nodes, at),
        nodes[at].name == item.name,
        nodes[at].dev == item.dev,
        nodes[at].ino == item.ino,
        nodes[at].hlink == item.hlink,
        nodes[at].read_error == item.read_error,
        nodes[at].excluded == item.excluded,
        item.excluded != Excluded::Age,
        edit::own_apparent(nodes, at) == item.apparent,
        edit::own_disk(nodes, at) == item.disk,
    ensures
        roundtrip::item_read(last, at) == (dump::ItemView {
            notreg: nodes[at].kind == NodeKind::Link || nodes[at].kind
                == NodeKind::Other,
            ..item
        }),
{
    assert(totals::live(last, at) == totals::live(nodes, at));
    assert(last[at].dev == nodes[at].dev);
}

/// The document was put below `p`, and everything that it brought is in `last` with the children that
/// it brought.
spec fn holds(t: TreeView, after: TreeView, last: TreeView) -> bool {
    &&& extends(after.nodes, last.nodes)
    &&& forall|j: int|
        t.nodes.len() <= j < after.nodes.len() ==> (#[trigger] last.nodes[j]).children
            == after.nodes[j].children
}

/// What stands for a leaf of an imported tree is read just as the document that it came from.
proof fn lemma_leaf_again(
    t: TreeView,
    p: int,
    v: Json,
    seen: Set<u128>,
    inside: bool,
    last: TreeView,
)
    requires
        totals::consistent(t),
        totals::live(t.nodes, p),
        tree::is_dir(t.nodes[p]),
        dump::added(t, p, v, seen, inside) is Some,
        !(v is Array),
        holds(t, dump::added(t, p, v, seen, inside).unwrap().0, last),
    ensures
        dump::added(
            t,
            p,
            json::meaning(dump::node_doc(last.nodes, t.nodes.len() as int)),
            seen,
            inside,
        ) == dump::added(t, p, v, seen, inside),
{
    let base = t.nodes.len() as int;
    let after = dump::added(t, p, v, seen, inside).unwrap().0;
    let item = dump::item_of(v);
    let e = dump::leaf_entry(item, seen, inside);
    lemma_one_below(t, p, e);
    assert(totals::live(after.nodes, base));
    assert(totals::live(last.nodes, base) == totals::live(after.nodes, base));
    roundtrip::lemma_item_read(last.nodes, base);
    lemma_item_again(after.nodes, last.nodes, base, item);
    assert(!tree::is_dir(last.nodes[base]));
    assert(roundtrip::item_read(last.nodes, base) == item);
}

/// What stands for an entry of an imported tree is read just as the document that it came from.
proof fn lemma_added_again(
    t: TreeView,
    p: int,
    v: Json,
    seen: Set<u128>,
    inside: bool,
    last: TreeView,
)
    requires
        totals::consistent(t),
        totals::live(t.nodes, p),
        tree::is_dir(t.nodes[p]),
        dump::added(t, p, v, seen, inside) is Some,
        !is_hollow(v),
        holds(t, dump::added(t, p, v, seen, inside).unwrap().0, last),
    ensures
        dump::added(
            t,
            p,
            json::meaning(dump::node_doc(last.nodes, t.nodes.len() as int)),
            seen,
            inside,
        ) == dump::added(t, p, v, seen, inside),
    decreases v, 0int,
{
    if v is Array {
        let items = v->Array_0;
        let base = t.nodes.len() as int;
        let item = dump::item_of(items[0]);
        let held = inside && item.excluded == Excluded::No;
        let e = dump::dir_entry(item);
        let next = edit::imported(t, p, e);
        let after = dump::added(t, p, v, seen, inside).unwrap().0;
        lemma_one_below(t, p, e);
        assert(totals::live(next.nodes, base));
        assert(next.nodes[base].children =~= Seq::empty());
        assert(dump::added(t, p, v, seen, inside) == dump::added_all(
            next,
            base,
            items,
            items.len() as int,
            seen,
            held,
        ));
        lemma_added_all_below(next, base, items, items.len() as int, seen, held);
        lemma_extends_on(next.nodes, after.nodes, last.nodes);
        lemma_item_again(next.nodes, last.nodes, base, item);
        assert(totals::live(last.nodes, base) == totals::live(next.nodes, base));
        assert(last.nodes[base].children == after.nodes[base].children);
        lemma_added_all_again(next, base, items, items.len() as int, seen, held, last);
        lemma_dir_again(t, p, seen, inside, last, item);
    } else {
        lemma_leaf_again(t, p, v, seen, inside, last);
    }
}

/// What stands for a directory of an imported tree is put in as that directory, with its contents.
proof fn lemma_dir_again(
    t: TreeView,
    p: int,
    seen: Set<u128>,
    inside: bool,
    last: TreeView,
    item: dump::ItemView,
)
    requires
        tree::is_dir(last.nodes[t.nodes.len() as int]),
        roundtrip::item_read(last.nodes, t.nodes.len() as int) == (dump::ItemView {
            notreg: false,
            ..item
        }),
        tree::fits(edit::imported(t, p, dump::dir_entry(item)).nodes),
    ensures
        ({
            let base = t.nodes.len() as int;
            let n = last.nodes[base].children.len() as int;
            let again = json::item_meanings(dump::dir_docs(last.nodes, base, n), n + 1);
            dump::added(
                t,
                p,
                json::meaning(dump::node_doc(last.nodes, base)),
                seen,
                inside,
            ) == dump::added_all(
                edit::imported(t, p, dump::dir_entry(item)),
                base,
                again,
                n + 1,
                seen,
                inside && item.excluded == Excluded::No,
            )
        }),
{
    let base = t.nodes.len() as int;
    let n = last.nodes[base].children.len() as int;
    let docs = dump::dir_docs(last.nodes, base, n);
    let again = json::item_meanings(docs, n + 1);
    roundtrip::lemma_item_read(last.nodes, base);
    dump::lemma_dir_docs(last.nodes, base, n);
    json::lemma_item_meanings(docs, n + 1);
    assert(json::meaning(dump::node_doc(last.nodes, base)) == Json::Array(again));
    assert(again[0] == json::meaning(docs[0]));
    assert(dump::dir_entry(dump::item_of(again[0])) == dump::dir_entry(item));
}

/// What stands for the children of a directory is read just as the documents that they came from.
#[verifier::rlimit(30)]
proof fn lemma_added_all_again(
    t: TreeView,
    p: int,
    items: Seq<Json>,
    k: int,
    seen: Set<u128>,
    inside: bool,
    last: TreeView,
)
    requires
        totals::consistent(t),
        totals::live(t.nodes, p),
        tree::is_dir(t.nodes[p]),
        t.nodes[p].children.len() == 0,
        1 <= k <= items.len(),
        dump::added_all(t, p, items, k, seen, inside) is Some,
        holds(t, dump::added_all(t, p, items, k, seen, inside).unwrap().0, last),
        dump::added_all(t, p, items, k, seen, inside).unwrap().0.nodes[p].children.is_prefix_of(
            last.nodes[p].children,
        ),
    ensures
        ({
            let n = last.nodes[p].children.len() as int;
            let again = json::item_meanings(dump::dir_docs(last.nodes, p, n), n + 1);
            let after = dump::added_all(t, p, items, k, seen, inside);
            dump::added_all(t, p, again, after.unwrap().0.nodes[p].children.len() as int + 1, seen, inside)
                == after
        }),
    decreases items, k,
{
    let n = last.nodes[p].children.len() as int;
    let docs = dump::dir_docs(last.nodes, p, n);
    let again = json::item_meanings(docs, n + 1);
    dump::lemma_dir_docs(last.nodes, p, n);
    json::lemma_item_meanings(docs, n + 1);
    if k > 1 {
        let (mid, counted) = dump::added_all(t, p, items, k - 1, seen, inside)->0;
        let after = dump::added_all(t, p, items, k, seen, inside).unwrap().0;
        lemma_added_all_below(t, p, items, k - 1, seen, inside);
        assert(totals::live(mid.nodes, p) == totals::live(t.nodes, p));
        lemma_added_below(mid, p, items[k - 1], counted, inside);
        lemma_extends_on(mid.nodes, after.nodes, last.nodes);
        assert forall|j: int| t.nodes.len() <= j < mid.nodes.len() implies (
        #[trigger] last.nodes[j]).children == mid.nodes[j].children by {
            assert(after.nodes[j].children == mid.nodes[j].children);
        }
        lemma_added_all_again(t, p, items, k - 1, seen, inside, last);
        if !is_hollow(items[k - 1]) {
            let had = mid.nodes[p].children.len() as int;
            assert(after.nodes[p].children[had] == mid.nodes.len());
            assert(last.nodes[p].children[had] == mid.nodes.len());
            lemma_added_again(mid, p, items[k - 1], counted, inside, last);
            roundtrip::lemma_dir_docs_at(last.nodes, p, n, had + 1);
            assert(again[had + 1] == json::meaning(docs[had + 1]));
        }
    }
}

/// The totals of an imported tree are right, whatever the document says.
pub proof fn law_imported_totals_are_right(v: Json)
    requires
        dump::tree_of(v) is Ok,
    ensures
        totals::consistent(dump::tree_of(v)->Ok_0),
        forall|j: int|
            0 <= j < dump::tree_of(v)->Ok_0.nodes.len() ==> #[trigger] totals::live(
                dump::tree_of(v)->Ok_0.nodes,
                j,
            ),
{
    let items = v->Array_0[3]->Array_0;
    let item = dump::item_of(items[0]);
    let root = edit::imported_root(
        item.name,
        item.apparent as int,
        item.disk as int,
        item.dev,
        item.ino,
    );
    upkeep::law_fresh_totals(item.name, item.apparent, item.disk, item.dev, item.ino);
    assert(totals::live(root.nodes, 0));
    lemma_added_all_below(root, 0, items, items.len() as int, Set::empty(), true);
    let t = dump::tree_of(v)->Ok_0;
    assert forall|j: int| 0 <= j < t.nodes.len() implies #[trigger] totals::live(t.nodes, j) by {
        if j == 0 {
            assert(totals::live(t.nodes, 0) == totals::live(root.nodes, 0));
        }
    }
}

/// An imported tree that is exported and imported again is the same tree, entry by entry.
pub proof fn law_import_export_import(v: Json, timestamp: u64)
    requires
        dump::tree_of(v) is Ok,
    ensures
        dump::tree_of(json::meaning(dump::dump_doc(dump::tree_of(v)->Ok_0, timestamp)))
            == dump::tree_of(v),
{
    let t = dump::tree_of(v)->Ok_0;
    let items = v->Array_0[3]->Array_0;
    let item = dump::item_of(items[0]);
    let root = edit::imported_root(
        item.name,
        item.apparent as int,
        item.disk as int,
        item.dev,
        item.ino,
    );
    let none = Set::<u128>::empty();
    upkeep::law_fresh_totals(item.name, item.apparent, item.disk, item.dev, item.ino);
    assert(totals::live(root.nodes, 0));
    lemma_added_all_below(root, 0, items, items.len() as int, none, true);
    assert(totals::live(t.nodes, 0) == totals::live(root.nodes, 0));
    assert(t.nodes[0].dev == root.nodes[0].dev);
    assert(root.nodes[0].children =~= Seq::empty());
    // The document of the tree.
    let n = t.nodes[0].children.len() as int;
    let top = dump::dump_doc(t, timestamp)->Array_0;
    json::lemma_item_meanings(top, 4);
    let tops = json::item_meanings(top, 4);
    assert(json::meaning(dump::dump_doc(t, timestamp)) == Json::Array(tops));
    let docs = dump::dir_docs(t.nodes, 0, n);
    dump::lemma_dir_docs(t.nodes, 0, n);
    json::lemma_item_meanings(docs, n + 1);
    let again = json::item_meanings(docs, n + 1);
    assert(top[3] == dump::node_doc(t.nodes, 0));
    assert(tops[3] == Json::Array(again));
    assert(again[0] == json::meaning(docs[0]));
    roundtrip::lemma_item_read(t.nodes, 0);
    assert(edit::own_apparent(root.nodes, 0) == item.apparent);
    assert(edit::own_disk(root.nodes, 0) == item.disk);
    lemma_added_all_again(root, 0, items, items.len() as int, none, true, t);
}

} // verus!
