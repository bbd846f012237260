//! What an import reads back of an export.
use vstd::prelude::*;

use crate::below;
use crate::dump;
use crate::dump::ItemView;
use crate::edit;
use crate::json;
use crate::json::{Doc, Json};
use crate::model::{Excluded, NodeKind};
use crate::scan;
use crate::totals;
use crate::tree;
use crate::tree::{EntryView, NodeView, TreeView};
use crate::upkeep;

verus! {

// ---- What is read back of one entry ---------------------------------------------------------------------

/// A dump tells directories, regular files, and other things apart.
pub open spec fn kind_read(kind: NodeKind) -> NodeKind {
    match kind {
        NodeKind::Dir => NodeKind::Dir,
        NodeKind::File => NodeKind::File,
        NodeKind::Link => NodeKind::Other,
        NodeKind::Other => NodeKind::Other,
    }
}

/// A dump tells another file system from every other reason.
pub open spec fn exclusion_read(excluded: Excluded) -> Excluded {
    match excluded {
        Excluded::No => Excluded::No,
        Excluded::Pattern => Excluded::Pattern,
        Excluded::Age => Excluded::Pattern,
        Excluded::OtherFs => Excluded::OtherFs,
    }
}

/// Nothing hangs below what does not count.
pub open spec fn closed_off(nodes: Seq<NodeView>) -> bool {
    forall|j: int| #[trigger]
        totals::live(nodes, j) && !tree::counts(nodes[j]) ==> nodes[j].children.len() == 0
}

/// What is read back of an entry alone.
pub open spec fn item_read(nodes: Seq<NodeView>, i: int) -> ItemView {
    let n = nodes[i];
    ItemView {
        name: n.name,
        apparent: edit::own_apparent(nodes, i) as u64,
        disk: edit::own_disk(nodes, i) as u64,
        dev: n.dev,
        ino: n.ino,
        hlink: n.hlink,
        notreg: n.kind == NodeKind::Link || n.kind == NodeKind::Other,
        read_error: n.read_error,
        excluded: exclusion_read(n.excluded),
    }
}

proof fn lemma_fields_same(a: Seq<(Seq<char>, Doc)>, f: (Seq<char>, Doc), k: int)
    requires
        0 <= k <= a.len(),
    ensures
        json::field_meanings(a.push(f), k) == json::field_meanings(a, k),
    decreases k,
{
    if k > 0 {
        lemma_fields_same(a, f, k - 1);
        assert(a.push(f)[k - 1] == a[k - 1]);
    }
}

pub open spec fn fields_read(fields: Seq<(Seq<char>, Doc)>) -> Map<Seq<char>, Json> {
    json::field_meanings(fields, fields.len() as int)
}

pub proof fn lemma_with_field(fields: Seq<(Seq<char>, Doc)>, yes: bool, key: Seq<char>, d: Doc)
    ensures
        fields_read(dump::with_field(fields, yes, key, d)) == if yes {
            fields_read(fields).insert(key, json::meaning(d))
        } else {
            fields_read(fields)
        },
{
    lemma_fields_same(fields, (key, d), fields.len() as int);
    assert(fields.push((key, d))[fields.len() as int] == (key, d));
}

pub proof fn lemma_keys_differ()
    ensures
        "name"@ != "asize"@,
        "name"@ != "dsize"@,
        "name"@ != "ino"@,
        "name"@ != "dev"@,
        "name"@ != "hlnkc"@,
        "name"@ != "notreg"@,
        "name"@ != "read_error"@,
        "name"@ != "excluded"@,
        "asize"@ != "dsize"@,
        "asize"@ != "ino"@,
        "asize"@ != "dev"@,
        "asize"@ != "hlnkc"@,
        "asize"@ != "notreg"@,
        "asize"@ != "read_error"@,
        "asize"@ != "excluded"@,
        "dsize"@ != "ino"@,
        "dsize"@ != "dev"@,
        "dsize"@ != "hlnkc"@,
        "dsize"@ != "notreg"@,
        "dsize"@ != "read_error"@,
        "dsize"@ != "excluded"@,
        "ino"@ != "dev"@,
        "ino"@ != "hlnkc"@,
        "ino"@ != "notreg"@,
        "ino"@ != "read_error"@,
        "ino"@ != "excluded"@,
        "dev"@ != "hlnkc"@,
        "dev"@ != "notreg"@,
        "dev"@ != "read_error"@,
        "dev"@ != "excluded"@,
        "hlnkc"@ != "notreg"@,
        "hlnkc"@ != "read_error"@,
        "hlnkc"@ != "excluded"@,
        "notreg"@ != "read_error"@,
        "notreg"@ != "excluded"@,
        "read_error"@ != "excluded"@,
        "pattern"@ != "otherfs"@,
{
    reveal_strlit("name");
    reveal_strlit("asize");
    reveal_strlit("dsize");
    reveal_strlit("ino");
    reveal_strlit("dev");
    reveal_strlit("hlnkc");
    reveal_strlit("notreg");
    reveal_strlit("read_error");
    reveal_strlit("excluded");
    reveal_strlit("pattern");
    reveal_strlit("otherfs");
    assert("asize"@[0] == 'a' && "dsize"@[0] == 'd' && "hlnkc"@[0] == 'h');
    assert("ino"@[0] == 'i' && "dev"@[0] == 'd');
    assert("pattern"@[0] == 'p' && "otherfs"@[0] == 'o');
    assert("name"@.len() == 4 && "asize"@.len() == 5 && "dsize"@.len() == 5 && "ino"@.len() == 3);
    assert("dev"@.len() == 3 && "hlnkc"@.len() == 5 && "notreg"@.len() == 6);
    assert("read_error"@.len() == 10 && "excluded"@.len() == 8);
}

/// An info object is read back as it was written.
pub proof fn lemma_item_read(nodes: Seq<NodeView>, i: int)
    ensures
        dump::item_of(json::meaning(dump::item_doc(nodes, i))) == item_read(nodes, i),
{
    let n = nodes[i];
    lemma_keys_differ();
    let f0 = Seq::<(Seq<char>, Doc)>::empty();
    let d_name = Doc::Text(n.name);
    let d_a = Doc::Number(edit::own_apparent(nodes, i) as u64);
    let d_d = Doc::Number(edit::own_disk(nodes, i) as u64);
    let f1 = f0.push(("name"@, d_name));
    let f2 = f1.push(("asize"@, d_a));
    let f3 = f2.push(("dsize"@, d_d));
    let f4 = f3.push(("ino"@, Doc::Number(n.ino)));
    let f5 = f4.push(("dev"@, Doc::Number(n.dev)));
    let f6 = dump::with_field(f5, n.hlink, "hlnkc"@, Doc::True);
    let notreg = n.kind == NodeKind::Link || n.kind == NodeKind::Other;
    let f7 = dump::with_field(f6, notreg, "notreg"@, Doc::True);
    let f8 = dump::with_field(f7, n.read_error, "read_error"@, Doc::True);
    let pattern = n.excluded == Excluded::Pattern || n.excluded == Excluded::Age;
    let f9 = dump::with_field(f8, pattern, "excluded"@, Doc::Text("pattern"@));
    let other = n.excluded == Excluded::OtherFs;
    let f10 = dump::with_field(f9, other, "excluded"@, Doc::Text("otherfs"@));
    assert(dump::item_fields(nodes, i) == f10);
    lemma_with_field(f0, true, "name"@, d_name);
    lemma_with_field(f1, true, "asize"@, d_a);
    lemma_with_field(f2, true, "dsize"@, d_d);
    lemma_with_field(f3, true, "ino"@, Doc::Number(n.ino));
    lemma_with_field(f4, true, "dev"@, Doc::Number(n.dev));
    lemma_with_field(f5, n.hlink, "hlnkc"@, Doc::True);
    lemma_with_field(f6, notreg, "notreg"@, Doc::True);
    lemma_with_field(f7, n.read_error, "read_error"@, Doc::True);
    lemma_with_field(f8, pattern, "excluded"@, Doc::Text("pattern"@));
    lemma_with_field(f9, other, "excluded"@, Doc::Text("otherfs"@));
    let m = fields_read(f10);
    assert(fields_read(f0) == Map::<Seq<char>, Json>::empty());
    assert(json::meaning(dump::item_doc(nodes, i)) == Json::Object(m));
    assert(m.contains_key("name"@) && m["name"@] == Json::Text(n.name));
    assert(m.contains_key("asize"@) && m["asize"@] == json::meaning(d_a));
    assert(m.contains_key("dsize"@) && m["dsize"@] == json::meaning(d_d));
    assert(m.contains_key("ino"@) && m["ino"@] == json::meaning(Doc::Number(n.ino)));
    assert(m.contains_key("dev"@) && m["dev"@] == json::meaning(Doc::Number(n.dev)));
    assert(m.contains_key("hlnkc"@) == n.hlink);
    assert(n.hlink ==> m["hlnkc"@] == Json::Bool(true));
    assert(m.contains_key("notreg"@) == notreg);
    assert(notreg ==> m["notreg"@] == Json::Bool(true));
    assert(m.contains_key("read_error"@) == n.read_error);
    assert(n.read_error ==> m["read_error"@] == Json::Bool(true));
    assert(m.contains_key("excluded"@) == (pattern || other));
    assert(pattern ==> m["excluded"@] == Json::Text("pattern"@));
    assert(other ==> m["excluded"@] == Json::Text("otherfs"@));
}

// ---- What is read back of a tree ------------------------------------------------------------------------

/// The entries from `i` down in the order in which a dump holds them, each with the position of its
/// parent, if `i` is put at position `base` with its parent at `parent`.
pub open spec fn order(nodes: Seq<NodeView>, i: int, base: int, parent: int) -> Seq<(int, int)>
    decreases nodes.len() - i, nodes[i].children.len() + 1,
{
    seq![(i, parent)] + order_kids(nodes, i, nodes[i].children.len() as int, base)
}

/// The same for the first `k` children of `i` and everything below them.
pub open spec fn order_kids(nodes: Seq<NodeView>, i: int, k: int, base: int) -> Seq<(int, int)>
    decreases nodes.len() - i, k,
{
    if k <= 0 || k > nodes[i].children.len() {
        Seq::empty()
    } else {
        let before = order_kids(nodes, i, k - 1, base);
        let c = nodes[i].children[k - 1] as int;
        if i < c < nodes.len() {
            before + order(nodes, c, base + 1 + before.len(), base)
        } else {
            before
        }
    }
}

/// A hard link that counts, if its inode was not counted yet.
pub open spec fn is_link(n: NodeView) -> bool {
    !tree::is_dir(n) && n.hlink && n.excluded == Excluded::No
}

pub open spec fn inode(n: NodeView) -> u128 {
    scan::link_key(n.dev, n.ino)
}

/// The inodes that were counted once the listed entries were read.
pub open spec fn seen_through(nodes: Seq<NodeView>, ord: Seq<(int, int)>, seen: Set<u128>) -> Set<u128>
    decreases ord.len(),
{
    if ord.len() == 0 {
        seen
    } else {
        let before = seen_through(nodes, ord.drop_last(), seen);
        let n = nodes[ord.last().0];
        if is_link(n) {
            before.insert(inode(n))
        } else {
            before
        }
    }
}

/// The entry at position `k` is a hard link to an inode that was counted before.
pub open spec fn shared_read(nodes: Seq<NodeView>, ord: Seq<(int, int)>, k: int, seen: Set<u128>) -> bool {
    is_link(nodes[ord[k].0]) && seen_through(nodes, ord.take(k), seen).contains(
        inode(nodes[ord[k].0]),
    )
}

/// The entry at position `k` adds to the totals.
pub open spec fn counts_read(nodes: Seq<NodeView>, ord: Seq<(int, int)>, k: int, seen: Set<u128>) -> bool {
    nodes[ord[k].0].excluded == Excluded::No && !shared_read(nodes, ord, k, seen)
}

/// What the listed entries add up to by `own` as far as they count.
pub open spec fn weight(
    nodes: Seq<NodeView>,
    ord: Seq<(int, int)>,
    seen: Set<u128>,
    own: spec_fn(int) -> int,
) -> int
    decreases ord.len(),
{
    if ord.len() == 0 {
        0
    } else {
        weight(nodes, ord.drop_last(), seen, own) + if counts_read(
            nodes,
            ord,
            ord.len() - 1,
            seen,
        ) {
            own(ord.last().0)
        } else {
            0
        }
    }
}

pub open spec fn sum_order(ord: Seq<(int, int)>, f: spec_fn(int) -> int) -> int
    decreases ord.len(),
{
    if ord.len() == 0 {
        0
    } else {
        sum_order(ord.drop_last(), f) + f(ord.last().0)
    }
}

pub open spec fn own_a(nodes: Seq<NodeView>) -> spec_fn(int) -> int {
    |j: int| edit::own_apparent(nodes, j)
}

pub open spec fn own_d(nodes: Seq<NodeView>) -> spec_fn(int) -> int {
    |j: int| edit::own_disk(nodes, j)
}

/// The entry at `at` is what is read back of the entry `from.0`, below the entry at `from.1`.
pub open spec fn is_copy(
    nodes: Seq<NodeView>,
    after: Seq<NodeView>,
    at: int,
    from: (int, int),
    shared: bool,
) -> bool {
    let n = nodes[from.0];
    let m = after[at];
    &&& m.name == n.name
    &&& m.kind == kind_read(n.kind)
    &&& m.dev == n.dev
    &&& m.ino == n.ino
    &&& m.hlink == n.hlink
    &&& m.shared == shared
    &&& m.excluded == exclusion_read(n.excluded)
    &&& m.read_error == n.read_error
    &&& m.parent == Some(from.1 as usize)
    &&& edit::own_apparent(after, at) == edit::own_apparent(nodes, from.0)
    &&& edit::own_disk(after, at) == edit::own_disk(nodes, from.0)
}

/// What does not change of an entry while others are imported.
pub open spec fn facts_kept(a: Seq<NodeView>, b: Seq<NodeView>) -> bool {
    &&& a.len() <= b.len()
    &&& forall|i: int|
        0 <= i < a.len() ==> {
            &&& (#[trigger] b[i]).dev == a[i].dev
            &&& b[i].ino == a[i].ino
            &&& b[i].hlink == a[i].hlink
            &&& b[i].read_error == a[i].read_error
        }
}

/// The listed entries of `nodes` were read into `t`, which `after` is then.
pub open spec fn reads_back(
    nodes: Seq<NodeView>,
    t: TreeView,
    seen: Set<u128>,
    ord: Seq<(int, int)>,
    after: TreeView,
    counted: Set<u128>,
) -> bool {
    &&& totals::consistent(after)
    &&& upkeep::live_kept(t.nodes, after.nodes)
    &&& upkeep::own_kept(t.nodes, after.nodes)
    &&& facts_kept(t.nodes, after.nodes)
    &&& after.nodes.len() == t.nodes.len() + ord.len()
    &&& forall|at: int|
        t.nodes.len() <= at < after.nodes.len() ==> #[trigger] totals::live(after.nodes, at)
    &&& forall|k: int|
        0 <= k < ord.len() ==> is_copy(
            nodes,
            after.nodes,
            t.nodes.len() + k,
            #[trigger] ord[k],
            shared_read(nodes, ord, k, seen),
        )
    &&& counted == seen_through(nodes, ord, seen)
    &&& after.nodes[0].apparent == t.nodes[0].apparent + weight(nodes, ord, seen, own_a(nodes))
    &&& after.nodes[0].disk == t.nodes[0].disk + weight(nodes, ord, seen, own_d(nodes))
    &&& after.total_dirs == t.total_dirs + sum_order(ord, below::is_one(nodes, true))
    &&& after.total_files == t.total_files + sum_order(ord, below::is_one(nodes, false))
}

proof fn lemma_seen_add(nodes: Seq<NodeView>, a: Seq<(int, int)>, b: Seq<(int, int)>, seen: Set<u128>)
    ensures
        seen_through(nodes, a + b, seen) == seen_through(nodes, b, seen_through(nodes, a, seen)),
    decreases b.len(),
{
    if b.len() == 0 {
        assert(a + b =~= a);
    } else {
        assert((a + b).drop_last() =~= a + b.drop_last());
        lemma_seen_add(nodes, a, b.drop_last(), seen);
    }
}

proof fn lemma_shared_add(
    nodes: Seq<NodeView>,
    a: Seq<(int, int)>,
    b: Seq<(int, int)>,
    seen: Set<u128>,
    k: int,
)
    requires
        0 <= k < a.len() + b.len(),
    ensures
        k < a.len() ==> shared_read(nodes, a + b, k, seen) == shared_read(nodes, a, k, seen),
        k >= a.len() ==> shared_read(nodes, a + b, k, seen) == shared_read(
            nodes,
            b,
            k - a.len(),
            seen_through(nodes, a, seen),
        ),
{
    if k < a.len() {
        assert((a + b).take(k) =~= a.take(k));
    } else {
        assert((a + b).take(k) =~= a + b.take(k - a.len()));
        lemma_seen_add(nodes, a, b.take(k - a.len()), seen);
    }
}

proof fn lemma_weight_add(
    nodes: Seq<NodeView>,
    a: Seq<(int, int)>,
    b: Seq<(int, int)>,
    seen: Set<u128>,
    own: spec_fn(int) -> int,
)
    ensures
        weight(nodes, a + b, seen, own) == weight(nodes, a, seen, own) + weight(
            nodes,
            b,
            seen_through(nodes, a, seen),
            own,
        ),
    decreases b.len(),
{
    if b.len() == 0 {
        assert(a + b =~= a);
    } else {
        assert((a + b).drop_last() =~= a + b.drop_last());
        lemma_weight_add(nodes, a, b.drop_last(), seen, own);
        lemma_shared_add(nodes, a, b, seen, a.len() + b.len() - 1);
        assert((a + b)[a.len() + b.len() - 1] == b[b.len() - 1]);
    }
}

proof fn lemma_sum_order_add(a: Seq<(int, int)>, b: Seq<(int, int)>, f: spec_fn(int) -> int)
    ensures
        sum_order(a + b, f) == sum_order(a, f) + sum_order(b, f),
    decreases b.len(),
{
    if b.len() == 0 {
        assert(a + b =~= a);
    } else {
        assert((a + b).drop_last() =~= a + b.drop_last());
        lemma_sum_order_add(a, b.drop_last(), f);
    }
}

/// Reading some entries and then others is reading them all.
proof fn lemma_reads_then(
    nodes: Seq<NodeView>,
    t: TreeView,
    seen: Set<u128>,
    a: Seq<(int, int)>,
    mid: TreeView,
    mid_seen: Set<u128>,
    b: Seq<(int, int)>,
    after: TreeView,
    counted: Set<u128>,
)
    requires
        reads_back(nodes, t, seen, a, mid, mid_seen),
        reads_back(nodes, mid, mid_seen, b, after, counted),
        t.nodes.len() > 0,
    ensures
        reads_back(nodes, t, seen, a + b, after, counted),
{
    upkeep::lemma_kept_trans(t.nodes, mid.nodes, after.nodes);
    lemma_seen_add(nodes, a, b, seen);
    lemma_weight_add(nodes, a, b, seen, own_a(nodes));
    lemma_weight_add(nodes, a, b, seen, own_d(nodes));
    lemma_sum_order_add(a, b, below::is_one(nodes, true));
    lemma_sum_order_add(a, b, below::is_one(nodes, false));
    let ord = a + b;
    assert forall|i: int| 0 <= i < t.nodes.len() implies {
        &&& (#[trigger] after.nodes[i]).dev == t.nodes[i].dev
        &&& after.nodes[i].ino == t.nodes[i].ino
        &&& after.nodes[i].hlink == t.nodes[i].hlink
        &&& after.nodes[i].read_error == t.nodes[i].read_error
    } by {
        assert(mid.nodes[i].dev == t.nodes[i].dev);
    }
    assert forall|at: int|
        t.nodes.len() <= at < after.nodes.len() implies #[trigger] totals::live(after.nodes, at) by {
        if at < mid.nodes.len() {
            assert(totals::live(mid.nodes, at));
            assert(totals::live(after.nodes, at) == totals::live(mid.nodes, at));
        }
    }
    assert forall|k: int| 0 <= k < ord.len() implies is_copy(
        nodes,
        after.nodes,
        t.nodes.len() + k,
        #[trigger] ord[k],
        shared_read(nodes, ord, k, seen),
    ) by {
        lemma_shared_add(nodes, a, b, seen, k);
        let at = t.nodes.len() + k;
        if k < a.len() {
            assert(ord[k] == a[k]);
            assert(totals::live(mid.nodes, at));
            assert(is_copy(nodes, mid.nodes, at, a[k], shared_read(nodes, a, k, seen)));
            assert(totals::live(after.nodes, at) == totals::live(mid.nodes, at));
            assert(after.nodes[at].dev == mid.nodes[at].dev);
        } else {
            assert(ord[k] == b[k - a.len()]);
            assert(mid.nodes.len() + (k - a.len()) == at);
        }
    }
}

/// A directory whose contents count all the way up to the root.
spec fn counted_home(nodes: Seq<NodeView>, p: int) -> bool {
    &&& totals::live(nodes, p)
    &&& tree::is_dir(nodes[p])
    &&& tree::counts(nodes[p])
    &&& tree::charged(nodes, 0, p)
}

/// What is counted in two directories is counted by way of one in the other.
proof fn lemma_charged_between(nodes: Seq<NodeView>, a: int, c: int, p: int)
    requires
        tree::charged(nodes, a, p),
        tree::charged(nodes, c, p),
        a <= c,
    ensures
        tree::charged(nodes, a, c),
    decreases p,
{
    if c != p {
        if a == p {
            tree::lemma_charged_above(nodes, c, p);
            tree::lemma_above_bound(nodes, c, p);
        } else {
            lemma_charged_between(nodes, a, c, nodes[p].parent->0 as int);
        }
    }
}

proof fn lemma_charged_kept(a: Seq<NodeView>, b: Seq<NodeView>, i: int, p: int)
    requires
        upkeep::live_kept(a, b),
        0 <= p < a.len(),
        tree::charged(a, i, p),
    ensures
        tree::charged(b, i, p),
    decreases p,
{
    assert(totals::live(b, p) == totals::live(a, p));
    if i != p {
        lemma_charged_kept(a, b, i, a[p].parent->0 as int);
    }
}

/// What is added under `p` fits if it fits the root's totals.
proof fn lemma_room_at_root(t: TreeView, p: int, e: EntryView)
    requires
        totals::consistent(t),
        counted_home(t.nodes, p),
        0 <= e.apparent <= u64::MAX,
        0 <= e.disk <= u64::MAX,
        t.nodes.len() < usize::MAX,
        tree::entry_counts(e) ==> t.nodes[0].apparent + e.apparent <= u64::MAX,
        tree::entry_counts(e) ==> t.nodes[0].disk + e.disk <= u64::MAX,
    ensures
        tree::fits(edit::imported(t, p, e).nodes),
        edit::imported(t, p, e).nodes[0].apparent == t.nodes[0].apparent + if tree::entry_counts(
            e,
        ) {
            e.apparent
        } else {
            0
        },
        edit::imported(t, p, e).nodes[0].disk == t.nodes[0].disk + if tree::entry_counts(e) {
            e.disk
        } else {
            0
        },
{
    let nodes = t.nodes;
    dump::lemma_import_fits(nodes, p, e);
    if tree::entry_counts(e) {
        let up = tree::lifted(nodes, p, tree::growth(e.apparent, e.disk));
        assert forall|c: int| 0 <= c < up.len() implies {
            &&& 0 <= (#[trigger] up[c]).apparent <= u64::MAX
            &&& 0 <= up[c].disk <= u64::MAX
            &&& 0 <= up[c].unscanned <= u32::MAX
        } by {
            assert(0 <= nodes[c].apparent <= u64::MAX);
            if tree::charged(nodes, c, p) {
                tree::lemma_charged_above(nodes, c, p);
                totals::lemma_above_live(nodes, c, p);
                lemma_charged_between(nodes, 0, c, p);
                totals::lemma_charged_covers(t, 0, c);
            }
        }
    }
    assert(0 <= nodes[0].apparent && 0 <= nodes[0].disk);
}

/// One entry is read back.
proof fn lemma_reads_one(src: TreeView, j: int, t: TreeView, p: int, seen: Set<u128>)
    requires
        totals::consistent(src),
        totals::live(src.nodes, j),
        totals::consistent(t),
        counted_home(t.nodes, p),
        t.nodes.len() < usize::MAX,
        t.nodes[0].apparent + weight(src.nodes, seq![(j, p)], seen, own_a(src.nodes)) <= u64::MAX,
        t.nodes[0].disk + weight(src.nodes, seq![(j, p)], seen, own_d(src.nodes)) <= u64::MAX,
    ensures
        ({
            let item = item_read(src.nodes, j);
            let e = if tree::is_dir(src.nodes[j]) {
                dump::dir_entry(item)
            } else {
                dump::leaf_entry(item, seen, true)
            };
            let next = edit::imported(t, p, e);
            let counted = if tree::is_dir(src.nodes[j]) {
                seen
            } else {
                dump::seen_after(item, seen, true)
            };
            &&& tree::fits(next.nodes)
            &&& reads_back(src.nodes, t, seen, seq![(j, p)], next, counted)
            &&& tree::is_dir(src.nodes[j]) && tree::counts(src.nodes[j]) ==> counted_home(
                next.nodes,
                t.nodes.len() as int,
            )
        }),
{
    let nodes = src.nodes;
    let item = item_read(nodes, j);
    let e = if tree::is_dir(nodes[j]) {
        dump::dir_entry(item)
    } else {
        dump::leaf_entry(item, seen, true)
    };
    let ord = seq![(j, p)];
    let next = edit::imported(t, p, e);
    edit::lemma_own_at_most(nodes, j);
    assert(nodes[j].apparent <= u64::MAX);
    assert(ord.drop_last() =~= Seq::<(int, int)>::empty());
    assert(ord.take(0) =~= Seq::<(int, int)>::empty());
    assert(ord[0] == (j, p));
    let none = Seq::<(int, int)>::empty();
    assert(seen_through(nodes, none, seen) == seen);
    assert(weight(nodes, none, seen, own_a(nodes)) == 0);
    assert(weight(nodes, none, seen, own_d(nodes)) == 0);
    assert(sum_order(none, below::is_one(nodes, true)) == 0);
    assert(sum_order(none, below::is_one(nodes, false)) == 0);
    assert(e.shared == shared_read(nodes, ord, 0, seen));
    assert(tree::entry_counts(e) == counts_read(nodes, ord, 0, seen));
    lemma_room_at_root(t, p, e);
    upkeep::law_import_keeps_totals(t, p, e);
    let at = t.nodes.len() as int;
    assert(next.nodes[at].children =~= Seq::empty());
    assert(is_copy(nodes, next.nodes, at, (j, p), e.shared));
    lemma_charged_kept(t.nodes, next.nodes, 0, p);
    assert(totals::live(next.nodes, at));
}

proof fn lemma_weight_nonneg(
    nodes: Seq<NodeView>,
    ord: Seq<(int, int)>,
    seen: Set<u128>,
    own: spec_fn(int) -> int,
)
    requires
        forall|j: int| #[trigger] own(j) >= 0,
    ensures
        weight(nodes, ord, seen, own) >= 0,
    decreases ord.len(),
{
    if ord.len() > 0 {
        lemma_weight_nonneg(nodes, ord.drop_last(), seen, own);
        assert(own(ord.last().0) >= 0);
    }
}

/// The totals of `t` have room for the listed entries.
spec fn room_for(nodes: Seq<NodeView>, t: TreeView, seen: Set<u128>, ord: Seq<(int, int)>) -> bool {
    &&& t.nodes.len() + ord.len() <= usize::MAX
    &&& t.nodes[0].apparent + weight(nodes, ord, seen, own_a(nodes)) <= u64::MAX
    &&& t.nodes[0].disk + weight(nodes, ord, seen, own_d(nodes)) <= u64::MAX
}

/// If there is room for all, there is room for the first ones, and then for the others.
proof fn lemma_room_split(
    nodes: Seq<NodeView>,
    t: TreeView,
    seen: Set<u128>,
    a: Seq<(int, int)>,
    b: Seq<(int, int)>,
)
    requires
        room_for(nodes, t, seen, a + b),
    ensures
        room_for(nodes, t, seen, a),
        forall|mid: TreeView, mid_seen: Set<u128>| #[trigger]
            reads_back(nodes, t, seen, a, mid, mid_seen) ==> room_for(nodes, mid, mid_seen, b),
{
    lemma_weight_add(nodes, a, b, seen, own_a(nodes));
    lemma_weight_add(nodes, a, b, seen, own_d(nodes));
    lemma_weight_nonneg(nodes, b, seen_through(nodes, a, seen), own_a(nodes));
    lemma_weight_nonneg(nodes, b, seen_through(nodes, a, seen), own_d(nodes));
}

/// What stands for an entry is read back with everything below it.
proof fn lemma_reads_node(src: TreeView, i: int, t: TreeView, p: int, seen: Set<u128>)
    requires
        totals::consistent(src),
        closed_off(src.nodes),
        totals::live(src.nodes, i),
        totals::consistent(t),
        counted_home(t.nodes, p),
        room_for(src.nodes, t, seen, order(src.nodes, i, t.nodes.len() as int, p)),
    ensures
        ({
            let got = dump::added(t, p, json::meaning(dump::node_doc(src.nodes, i)), seen, true);
            let ord = order(src.nodes, i, t.nodes.len() as int, p);
            got matches Some(pair) && reads_back(src.nodes, t, seen, ord, pair.0, pair.1)
        }),
    decreases src.nodes.len() - i, src.nodes[i].children.len() + 1,
{
    let nodes = src.nodes;
    let base = t.nodes.len() as int;
    let n = nodes[i].children.len() as int;
    let first = seq![(i, p)];
    let rest = order_kids(nodes, i, n, base);
    let doc = dump::node_doc(nodes, i);
    let v = json::meaning(doc);
    lemma_room_split(nodes, t, seen, first, rest);
    lemma_reads_one(src, i, t, p, seen);
    lemma_item_read(nodes, i);
    assert(totals::balanced(nodes, i));
    if tree::is_dir(nodes[i]) {
        let docs = dump::dir_docs(nodes, i, n);
        dump::lemma_dir_docs(nodes, i, n);
        json::lemma_item_meanings(docs, n + 1);
        let items = json::item_meanings(docs, n + 1);
        assert(v == Json::Array(items));
        assert(items[0] == json::meaning(docs[0]));
        let next = edit::imported(t, p, dump::dir_entry(item_read(nodes, i)));
        if n > 0 {
            lemma_reads_kids(src, i, n, next, base, seen);
            let got = dump::added_all(next, base, items, n + 1, seen, true)->0;
            lemma_reads_then(nodes, t, seen, first, next, seen, rest, got.0, got.1);
        } else {
            assert(rest =~= Seq::empty());
            assert(first + rest =~= first);
        }
    } else {
        assert(n == 0);
        assert(rest =~= Seq::empty());
        assert(first + rest =~= first);
        assert(v is Object);
    }
}

/// The first children of a directory are read back with everything below them.
proof fn lemma_reads_kids(src: TreeView, i: int, k: int, t: TreeView, base: int, seen: Set<u128>)
    requires
        totals::consistent(src),
        closed_off(src.nodes),
        totals::live(src.nodes, i),
        tree::is_dir(src.nodes[i]),
        totals::consistent(t),
        counted_home(t.nodes, base),
        base == t.nodes.len() - 1,
        0 <= k <= src.nodes[i].children.len(),
        room_for(src.nodes, t, seen, order_kids(src.nodes, i, k, base)),
    ensures
        ({
            let n = src.nodes[i].children.len() as int;
            let docs = dump::dir_docs(src.nodes, i, n);
            let items = json::item_meanings(docs, n + 1);
            let got = dump::added_all(t, base, items, k + 1, seen, true);
            let ord = order_kids(src.nodes, i, k, base);
            got matches Some(pair) && reads_back(src.nodes, t, seen, ord, pair.0, pair.1)
        }),
    decreases src.nodes.len() - i, k,
{
    let nodes = src.nodes;
    let n = nodes[i].children.len() as int;
    let docs = dump::dir_docs(nodes, i, n);
    let items = json::item_meanings(docs, n + 1);
    dump::lemma_dir_docs(nodes, i, n);
    json::lemma_item_meanings(docs, n + 1);
    if k == 0 {
        let none = Seq::<(int, int)>::empty();
        assert(reads_back(nodes, t, seen, none, t, seen));
    } else {
        let before = order_kids(nodes, i, k - 1, base);
        let c = nodes[i].children[k - 1] as int;
        totals::lemma_child_live(nodes, i, k - 1);
        let more = order(nodes, c, base + 1 + before.len(), base);
        lemma_room_split(nodes, t, seen, before, more);
        lemma_reads_kids(src, i, k - 1, t, base, seen);
        let got = dump::added_all(t, base, items, k, seen, true)->0;
        let mid = got.0;
        let mid_seen = got.1;
        lemma_dir_docs_at(nodes, i, n, k);
        assert(items[k] == json::meaning(docs[k]));
        assert(counted_home(mid.nodes, base)) by {
            assert(totals::live(mid.nodes, base) == totals::live(t.nodes, base));
            lemma_charged_kept(t.nodes, mid.nodes, 0, base);
        }
        lemma_reads_node(src, c, mid, base, mid_seen);
        let last = dump::added(mid, base, items[k], mid_seen, true)->0;
        lemma_reads_then(nodes, t, seen, before, mid, mid_seen, more, last.0, last.1);
    }
}

pub proof fn lemma_dir_docs_at(nodes: Seq<NodeView>, i: int, n: int, k: int)
    requires
        0 < k <= n <= nodes[i].children.len(),
        i < nodes[i].children[k - 1] < nodes.len(),
    ensures
        dump::dir_docs(nodes, i, n).len() == n + 1,
        dump::dir_docs(nodes, i, n)[k] == dump::node_doc(nodes, nodes[i].children[k - 1] as int),
    decreases n,
{
    dump::lemma_dir_docs(nodes, i, n);
    dump::lemma_dir_docs(nodes, i, n - 1);
    if k < n {
        lemma_dir_docs_at(nodes, i, n - 1, k);
    }
}

// ---- Sums over the order ----------------------------------------------------------------------------------

/// The order holds everything below an entry, once each: sums over it are sums over what hangs
/// below.
proof fn lemma_order_sum(
    nodes: Seq<NodeView>,
    i: int,
    base: int,
    parent: int,
    f: spec_fn(int) -> int,
)
    requires
        tree::well_linked(nodes),
        nodes.len() <= usize::MAX,
        0 <= i < nodes.len(),
    ensures
        sum_order(order(nodes, i, base, parent), f) == below::sum_under(nodes, i, f),
    decreases nodes.len() - i, nodes[i].children.len() + 1,
{
    let n = nodes[i].children.len() as int;
    let first = seq![(i, parent)];
    let rest = order_kids(nodes, i, n, base);
    below::lemma_sum_under_step(nodes, i, f);
    lemma_order_kids_sum(nodes, i, n, base, f);
    lemma_sum_order_add(first, rest, f);
    assert(first.drop_last() =~= Seq::<(int, int)>::empty());
    assert(sum_order(first.drop_last(), f) == 0);
    assert(nodes[i].children.take(n) =~= nodes[i].children);
}

proof fn lemma_order_kids_sum(
    nodes: Seq<NodeView>,
    i: int,
    k: int,
    base: int,
    f: spec_fn(int) -> int,
)
    requires
        tree::well_linked(nodes),
        nodes.len() <= usize::MAX,
        0 <= i < nodes.len(),
        0 <= k <= nodes[i].children.len(),
    ensures
        sum_order(order_kids(nodes, i, k, base), f) == below::sum_list(
            nodes[i].children.take(k),
            |c: int| below::sum_under(nodes, c, f),
        ),
    decreases nodes.len() - i, k,
{
    if k > 0 {
        let before = order_kids(nodes, i, k - 1, base);
        let c = nodes[i].children[k - 1] as int;
        assert(nodes[c].parent == Some(i as usize));
        lemma_order_kids_sum(nodes, i, k - 1, base, f);
        let more = order(nodes, c, base + 1 + before.len(), base);
        lemma_order_sum(nodes, c, base + 1 + before.len(), base, f);
        lemma_sum_order_add(before, more, f);
        assert(nodes[i].children.take(k).drop_last() =~= nodes[i].children.take(k - 1));
    }
}

proof fn lemma_order_len(ord: Seq<(int, int)>)
    ensures
        sum_order(ord, |j: int| 1) == ord.len(),
    decreases ord.len(),
{
    if ord.len() > 0 {
        lemma_order_len(ord.drop_last());
    }
}

/// A sum over the order is a sum over its positions.
proof fn lemma_order_range(ord: Seq<(int, int)>, f: spec_fn(int) -> int, g: spec_fn(int) -> int)
    requires
        forall|k: int| 0 <= k < ord.len() ==> g(k) == f((#[trigger] ord[k]).0),
    ensures
        sum_order(ord, f) == below::sum_range(g, ord.len() as int),
    decreases ord.len(),
{
    if ord.len() > 0 {
        let shorter = ord.drop_last();
        assert forall|k: int| 0 <= k < shorter.len() implies g(k) == f((#[trigger] shorter[k]).0) by {
            assert(shorter[k] == ord[k]);
        }
        lemma_order_range(shorter, f, g);
        assert(ord[ord.len() - 1] == ord.last());
    }
}

proof fn lemma_sum_single(g: spec_fn(int) -> int, n: int, x: int)
    requires
        0 <= x < n,
        forall|j: int| 0 <= j < n && j != x ==> #[trigger] g(j) == 0,
    ensures
        below::sum_range(g, n) == g(x),
{
    let zero = |j: int| 0int;
    below::lemma_sum_range_one(g, zero, n, x);
    below::lemma_sum_range_zero(zero, n);
}

/// Summing by rows and summing by columns give the same.
proof fn lemma_sum_both_ways(m: spec_fn(int, int) -> int, rows: int, n: int)
    ensures
        below::sum_range(|a: int| below::sum_range(|b: int| m(a, b), n), rows)
            == below::sum_range(|b: int| below::sum_range(|a: int| m(a, b), rows), n),
    decreases rows,
{
    let by_row = |a: int| below::sum_range(|b: int| m(a, b), n);
    let by_column = |b: int| below::sum_range(|a: int| m(a, b), rows);
    if rows <= 0 {
        below::lemma_sum_range_zero(by_column, n);
    } else {
        let shorter = |b: int| below::sum_range(|a: int| m(a, b), rows - 1);
        let last = |b: int| m(rows - 1, b);
        lemma_sum_both_ways(m, rows - 1, n);
        assert forall|b: int| 0 <= b < n implies #[trigger] by_column(b) == shorter(b) + last(b) by {
        }
        below::lemma_sum_range_add(shorter, last, by_column, n);
        assert(by_row(rows - 1) == below::sum_range(last, n));
    }
}

/// `u` picks one position for each key, among those that have one.
spec fn picks(n: int, link: spec_fn(int) -> bool, key: spec_fn(int) -> u128, u: spec_fn(int) -> bool) -> bool {
    &&& forall|a: int| 0 <= a < n && #[trigger] u(a) ==> link(a)
    &&& forall|a: int|
        0 <= a < n && #[trigger] link(a) ==> exists|b: int|
            0 <= b < n && #[trigger] u(b) && key(b) == key(a)
    &&& forall|a: int, b: int|
        0 <= a < n && 0 <= b < n && #[trigger] u(a) && #[trigger] u(b) && key(a) == key(b) ==> a
            == b
}

/// Which position is picked for a key makes no difference where sizes go by keys.
proof fn lemma_picks_agree(
    n: int,
    link: spec_fn(int) -> bool,
    key: spec_fn(int) -> u128,
    own: spec_fn(int) -> int,
    u: spec_fn(int) -> bool,
    w: spec_fn(int) -> bool,
)
    requires
        0 <= n,
        picks(n, link, key, u),
        picks(n, link, key, w),
        forall|a: int, b: int|
            0 <= a < n && 0 <= b < n && #[trigger] link(a) && #[trigger] link(b) && key(a) == key(b)
                ==> own(a) == own(b),
    ensures
        below::sum_range(
            |a: int|
                if u(a) {
                    own(a)
                } else {
                    0
                },
            n,
        ) == below::sum_range(
            |a: int|
                if w(a) {
                    own(a)
                } else {
                    0
                },
            n,
        ),
{
    let m = |a: int, b: int|
        if u(a) && w(b) && key(a) == key(b) {
            own(a)
        } else {
            0int
        };
    let by_row = |a: int| below::sum_range(|b: int| m(a, b), n);
    let by_column = |b: int| below::sum_range(|a: int| m(a, b), n);
    let fu = |a: int|
        if u(a) {
            own(a)
        } else {
            0
        };
    let fw = |a: int|
        if w(a) {
            own(a)
        } else {
            0
        };
    assert forall|a: int| 0 <= a < n implies #[trigger] by_row(a) == fu(a) by {
        let row = |b: int| m(a, b);
        if u(a) {
            assert(link(a));
            let x = choose|b: int| 0 <= b < n && #[trigger] w(b) && key(b) == key(a);
            lemma_sum_single(row, n, x);
        } else {
            below::lemma_sum_range_zero(row, n);
        }
    }
    assert forall|b: int| 0 <= b < n implies #[trigger] by_column(b) == fw(b) by {
        let column = |a: int| m(a, b);
        if w(b) {
            assert(link(b));
            let x = choose|a: int| 0 <= a < n && #[trigger] u(a) && key(a) == key(b);
            assert(link(x));
            lemma_sum_single(column, n, x);
        } else {
            below::lemma_sum_range_zero(column, n);
        }
    }
    lemma_sum_both_ways(m, n, n);
    below::lemma_sum_range_same(by_row, fu, n);
    below::lemma_sum_range_same(by_column, fw, n);
}

// ---- Hard links -------------------------------------------------------------------------------------------

/// Hard links are shared as a scan shares them: of the links to an inode, which are all of one size,
/// exactly one counts.
pub open spec fn fairly_shared(nodes: Seq<NodeView>) -> bool {
    &&& forall|j: int| #[trigger] totals::live(nodes, j) && nodes[j].shared ==> is_link(nodes[j])
    &&& forall|j: int| #[trigger]
        totals::live(nodes, j) && is_link(nodes[j]) ==> exists|u: int| #[trigger]
            totals::live(nodes, u) && is_link(nodes[u]) && !nodes[u].shared && inode(nodes[u])
                == inode(nodes[j])
    &&& forall|u: int, w: int|
        #![trigger totals::live(nodes, u), totals::live(nodes, w)]
        totals::live(nodes, u) && totals::live(nodes, w) && is_link(nodes[u]) && is_link(nodes[w])
            && inode(nodes[u]) == inode(nodes[w]) ==> {
            &&& edit::own_apparent(nodes, u) == edit::own_apparent(nodes, w)
            &&& edit::own_disk(nodes, u) == edit::own_disk(nodes, w)
            &&& !nodes[u].shared && !nodes[w].shared ==> u == w
        }
}

/// An inode that was counted has a first link.
proof fn lemma_first_link(nodes: Seq<NodeView>, ord: Seq<(int, int)>, a: int, key: u128)
    requires
        0 <= a <= ord.len(),
        seen_through(nodes, ord.take(a), Set::empty()).contains(key),
    ensures
        exists|b: int|
            0 <= b < a && is_link(nodes[(#[trigger] ord[b]).0]) && inode(nodes[ord[b].0]) == key
                && !shared_read(nodes, ord, b, Set::empty()),
    decreases a,
{
    if a > 0 {
        assert(ord.take(a).drop_last() =~= ord.take(a - 1));
        assert(ord.take(a).last() == ord[a - 1]);
        if seen_through(nodes, ord.take(a - 1), Set::empty()).contains(key) {
            lemma_first_link(nodes, ord, a - 1, key);
            let b = choose|b: int|
                0 <= b < a - 1 && is_link(nodes[(#[trigger] ord[b]).0]) && inode(nodes[ord[b].0])
                    == key && !shared_read(nodes, ord, b, Set::empty());
            assert(ord[b] == ord[b]);
        } else {
            assert(is_link(nodes[ord[a - 1].0]) && inode(nodes[ord[a - 1].0]) == key);
        }
    }
}

/// Once a link was read, its inode is counted.
proof fn lemma_link_seen(nodes: Seq<NodeView>, ord: Seq<(int, int)>, b: int, a: int)
    requires
        0 <= b < a <= ord.len(),
        is_link(nodes[ord[b].0]),
    ensures
        seen_through(nodes, ord.take(a), Set::empty()).contains(inode(nodes[ord[b].0])),
    decreases a,
{
    assert(ord.take(a).drop_last() =~= ord.take(a - 1));
    assert(ord.take(a).last() == ord[a - 1]);
    if b < a - 1 {
        lemma_link_seen(nodes, ord, b, a - 1);
    }
}

proof fn lemma_weight_range(
    nodes: Seq<NodeView>,
    ord: Seq<(int, int)>,
    seen: Set<u128>,
    own: spec_fn(int) -> int,
    k: int,
)
    requires
        0 <= k <= ord.len(),
    ensures
        weight(nodes, ord.take(k), seen, own) == below::sum_range(
            |a: int|
                if counts_read(nodes, ord, a, seen) {
                    own(ord[a].0)
                } else {
                    0
                },
            k,
        ),
    decreases k,
{
    if k > 0 {
        lemma_weight_range(nodes, ord, seen, own, k - 1);
        assert(ord.take(k).drop_last() =~= ord.take(k - 1));
        assert(ord.take(k)[k - 1] == ord[k - 1]);
        assert(ord.take(k).take(k - 1) =~= ord.take(k - 1));
    }
}

proof fn lemma_positive_member(ord: Seq<(int, int)>, f: spec_fn(int) -> int)
    requires
        sum_order(ord, f) != 0,
    ensures
        exists|k: int| 0 <= k < ord.len() && f((#[trigger] ord[k]).0) != 0,
    decreases ord.len(),
{
    if ord.len() > 0 {
        if f(ord.last().0) != 0 {
            assert(f(ord[ord.len() - 1].0) != 0);
        } else {
            let shorter = ord.drop_last();
            lemma_positive_member(shorter, f);
            let k = choose|k: int| 0 <= k < shorter.len() && f((#[trigger] shorter[k]).0) != 0;
            assert(ord[k] == shorter[k]);
        }
    }
}

/// Everything below the root stands at just one position.
proof fn lemma_positions(nodes: Seq<NodeView>, ord: Seq<(int, int)>, j: int)
    requires
        tree::well_linked(nodes),
        nodes.len() <= usize::MAX,
        ord == order_kids(nodes, 0, nodes[0].children.len() as int, 0),
        0 < j < nodes.len(),
    ensures
        totals::live(nodes, j) <==> exists|k: int| 0 <= k < ord.len() && (#[trigger] ord[k]).0 == j,
        forall|a: int, b: int|
            0 <= a < ord.len() && 0 <= b < ord.len() && (#[trigger] ord[a]).0 == j && (
            #[trigger] ord[b]).0 == j ==> a == b,
{
    let f = |x: int|
        if x == j {
            1int
        } else {
            0
        };
    let n = nodes[0].children.len() as int;
    lemma_order_kids_sum(nodes, 0, n, 0, f);
    below::lemma_sum_under_step(nodes, 0, f);
    assert(nodes[0].children.take(n) =~= nodes[0].children);
    let g = |x: int|
        if below::under(nodes, x, 0) {
            f(x)
        } else {
            0
        };
    lemma_sum_single(g, nodes.len() as int, j);
    assert(sum_order(ord, f) == if totals::live(nodes, j) {
        1int
    } else {
        0
    });
    let h = |k: int| f(ord[k].0);
    lemma_order_range(ord, f, h);
    if totals::live(nodes, j) {
        lemma_positive_member(ord, f);
        let k = choose|k: int| 0 <= k < ord.len() && f((#[trigger] ord[k]).0) != 0;
        assert(ord[k].0 == j);
    }
    assert forall|a: int, b: int|
        0 <= a < ord.len() && 0 <= b < ord.len() && (#[trigger] ord[a]).0 == j && (
        #[trigger] ord[b]).0 == j implies a == b by {
        if a != b {
            lemma_two_ones(h, ord.len() as int, a, b);
        }
    }
    if exists|k: int| 0 <= k < ord.len() && (#[trigger] ord[k]).0 == j {
        let k = choose|k: int| 0 <= k < ord.len() && (#[trigger] ord[k]).0 == j;
        lemma_one_one(h, ord.len() as int, k);
    }
}

proof fn lemma_one_one(h: spec_fn(int) -> int, n: int, a: int)
    requires
        0 <= a < n,
        h(a) == 1,
        forall|k: int| 0 <= k < n ==> #[trigger] h(k) >= 0,
    ensures
        below::sum_range(h, n) >= 1,
{
    let z = |k: int|
        if k == a {
            0
        } else {
            h(k)
        };
    below::lemma_sum_range_one(h, z, n, a);
    totals::lemma_nonneg_sum(z, n);
}

proof fn lemma_two_ones(h: spec_fn(int) -> int, n: int, a: int, b: int)
    requires
        0 <= a < n,
        0 <= b < n,
        a != b,
        h(a) == 1,
        h(b) == 1,
        forall|k: int| 0 <= k < n ==> #[trigger] h(k) >= 0,
    ensures
        below::sum_range(h, n) >= 2,
{
    let z = |k: int|
        if k == a {
            0
        } else {
            h(k)
        };
    below::lemma_sum_range_one(h, z, n, a);
    lemma_one_one(z, n, b);
}

/// Whichever link of an inode is read first, the totals are those that were written.
proof fn lemma_weight_is_share(t: TreeView, ord: Seq<(int, int)>, own: spec_fn(int) -> int)
    requires
        totals::consistent(t),
        tree::is_dir(t.nodes[0]),
        fairly_shared(t.nodes),
        ord == order_kids(t.nodes, 0, t.nodes[0].children.len() as int, 0),
        own == own_a(t.nodes) || own == own_d(t.nodes),
    ensures
        weight(t.nodes, ord, Set::empty(), own) == sum_order(
            ord,
            |j: int|
                if tree::counts(t.nodes[j]) {
                    own(j)
                } else {
                    0
                },
        ),
{
    let nodes = t.nodes;
    let n = ord.len() as int;
    let none = Set::<u128>::empty();
    let f = |j: int|
        if tree::counts(nodes[j]) {
            own(j)
        } else {
            0
        };
    let link = |k: int| is_link(nodes[ord[k].0]);
    let key = |k: int| inode(nodes[ord[k].0]);
    let size = |k: int| own(ord[k].0);
    let u = |k: int| is_link(nodes[ord[k].0]) && !nodes[ord[k].0].shared;
    let w = |k: int| is_link(nodes[ord[k].0]) && !shared_read(nodes, ord, k, none);
    lemma_order_members(nodes, 0, nodes[0].children.len() as int, 0);
    assert forall|k: int| 0 <= k < n implies totals::live(nodes, (#[trigger] ord[k]).0) && ord[k].0
        > 0 by {
        lemma_positions(nodes, ord, ord[k].0);
    }
    assert(picks(n, link, key, u)) by {
        assert forall|a: int| 0 <= a < n && #[trigger] link(a) implies exists|b: int|
            0 <= b < n && #[trigger] u(b) && key(b) == key(a) by {
            let j = ord[a].0;
            assert(totals::live(nodes, j));
            let x = choose|x: int| #[trigger]
                totals::live(nodes, x) && is_link(nodes[x]) && !nodes[x].shared && inode(nodes[x])
                    == inode(nodes[j]);
            assert(x != 0);
            lemma_positions(nodes, ord, x);
            let b = choose|b: int| 0 <= b < ord.len() && (#[trigger] ord[b]).0 == x;
            assert(u(b) && key(b) == key(a));
        }
        assert forall|a: int, b: int|
            0 <= a < n && 0 <= b < n && #[trigger] u(a) && #[trigger] u(b) && key(a)
                == key(b) implies a == b by {
            assert(totals::live(nodes, ord[a].0));
            assert(totals::live(nodes, ord[b].0));
            lemma_positions(nodes, ord, ord[a].0);
        }
    }
    assert(picks(n, link, key, w)) by {
        assert forall|a: int| 0 <= a < n && #[trigger] link(a) implies exists|b: int|
            0 <= b < n && #[trigger] w(b) && key(b) == key(a) by {
            if shared_read(nodes, ord, a, none) {
                lemma_first_link(nodes, ord, a, key(a));
                let b = choose|b: int|
                    0 <= b < a && is_link(nodes[(#[trigger] ord[b]).0]) && inode(nodes[ord[b].0])
                        == key(a) && !shared_read(nodes, ord, b, Set::empty());
                assert(w(b));
            } else {
                assert(w(a));
            }
        }
        assert forall|a: int, b: int|
            0 <= a < n && 0 <= b < n && #[trigger] w(a) && #[trigger] w(b) && key(a)
                == key(b) implies a == b by {
            if a < b {
                lemma_link_seen(nodes, ord, a, b);
            } else if b < a {
                lemma_link_seen(nodes, ord, b, a);
            }
        }
    }
    assert forall|a: int, b: int|
        0 <= a < n && 0 <= b < n && #[trigger] link(a) && #[trigger] link(b) && key(a) == key(
            b,
        ) implies size(a) == size(b) by {
        assert(totals::live(nodes, ord[a].0));
        assert(totals::live(nodes, ord[b].0));
    }
    lemma_picks_agree(n, link, key, size, u, w);
    let fu = |a: int|
        if u(a) {
            size(a)
        } else {
            0
        };
    let fw = |a: int|
        if w(a) {
            size(a)
        } else {
            0
        };
    let plain = |a: int|
        if !link(a) && nodes[ord[a].0].excluded == Excluded::No {
            size(a)
        } else {
            0
        };
    let written = |a: int| f(ord[a].0);
    let read = |a: int|
        if counts_read(nodes, ord, a, none) {
            own(ord[a].0)
        } else {
            0
        };
    assert forall|a: int| 0 <= a < n implies #[trigger] written(a) == plain(a) + fu(a) by {
        assert(totals::live(nodes, ord[a].0));
    }
    assert forall|a: int| 0 <= a < n implies #[trigger] read(a) == plain(a) + fw(a) by {}
    below::lemma_sum_range_add(plain, fu, written, n);
    below::lemma_sum_range_add(plain, fw, read, n);
    lemma_order_range(ord, f, written);
    lemma_weight_range(nodes, ord, none, own, n);
    assert(ord.take(n) =~= ord);
}

/// Everything in the order is an entry below its start.
proof fn lemma_order_members(nodes: Seq<NodeView>, i: int, k: int, base: int)
    requires
        tree::well_linked(nodes),
        nodes.len() <= usize::MAX,
        0 <= i < nodes.len(),
        0 <= k <= nodes[i].children.len(),
    ensures
        forall|a: int|
            0 <= a < order_kids(nodes, i, k, base).len() ==> i < (
            #[trigger] order_kids(nodes, i, k, base)[a]).0 < nodes.len(),
    decreases nodes.len() - i, k,
{
    if k > 0 {
        let before = order_kids(nodes, i, k - 1, base);
        let c = nodes[i].children[k - 1] as int;
        assert(nodes[c].parent == Some(i as usize));
        lemma_order_members(nodes, i, k - 1, base);
        let at = base + 1 + before.len();
        lemma_order_members(nodes, c, nodes[c].children.len() as int, at);
        let more = order(nodes, c, at, base);
        let all = order_kids(nodes, i, k, base);
        assert(all == before + more);
        assert forall|a: int| 0 <= a < all.len() implies i < (#[trigger] all[a]).0
            < nodes.len() by {
            if a < before.len() {
                assert(all[a] == before[a]);
            } else if a > before.len() {
                assert(all[a] == order_kids(
                    nodes,
                    c,
                    nodes[c].children.len() as int,
                    at,
                )[a - before.len() - 1]);
            }
        }
    }
}

/// Where nothing hangs below what does not count, whatever counts is counted in the root.
proof fn lemma_counted_if_counts(nodes: Seq<NodeView>, j: int)
    requires
        closed_off(nodes),
        tree::well_linked(nodes),
        nodes.len() <= usize::MAX,
        totals::live(nodes, j),
        j > 0,
    ensures
        totals::counted_under(nodes, j, 0) == tree::counts(nodes[j]),
    decreases j,
{
    let q = nodes[j].parent->0 as int;
    assert(totals::live(nodes, q));
    assert(nodes[q].children.contains(j as usize));
    if q > 0 {
        lemma_counted_if_counts(nodes, q);
    }
}

// ---- The law ------------------------------------------------------------------------------------------------

/// A tree that is exported and imported again comes back: the same entries in the same places, with
/// the same names and own sizes, and the same totals and counts. What a dump does not tell apart
/// comes back as `kind_read` and `exclusion_read` say, and of the links to an inode the first one
/// counts.
pub proof fn law_export_then_import(t: TreeView, timestamp: u64)
    requires
        totals::consistent(t),
        tree::is_dir(t.nodes[0]),
        tree::counts(t.nodes[0]),
        closed_off(t.nodes),
        fairly_shared(t.nodes),
    ensures
        ({
            let ord = order_kids(t.nodes, 0, t.nodes[0].children.len() as int, 0);
            let made = dump::tree_of(json::meaning(dump::dump_doc(t, timestamp)));
            &&& made is Ok
            &&& totals::consistent(made->Ok_0)
            &&& made->Ok_0.nodes[0].name == t.nodes[0].name
            &&& made->Ok_0.nodes[0].apparent == t.nodes[0].apparent
            &&& made->Ok_0.nodes[0].disk == t.nodes[0].disk
            &&& made->Ok_0.total_dirs == t.total_dirs
            &&& made->Ok_0.total_files == t.total_files
            &&& made->Ok_0.nodes.len() == 1 + ord.len()
            &&& forall|k: int|
                0 <= k < ord.len() ==> is_copy(
                    t.nodes,
                    made->Ok_0.nodes,
                    1 + k,
                    #[trigger] ord[k],
                    shared_read(t.nodes, ord, k, Set::empty()),
                )
        }),
{
    let nodes = t.nodes;
    let n = nodes[0].children.len() as int;
    let ord = order_kids(nodes, 0, n, 0);
    let none = Set::<u128>::empty();
    let doc = dump::dump_doc(t, timestamp);
    let top = doc->Array_0;
    json::lemma_item_meanings(top, 4);
    let tops = json::item_meanings(top, 4);
    assert(json::meaning(doc) == Json::Array(tops));
    let docs = dump::dir_docs(nodes, 0, n);
    dump::lemma_dir_docs(nodes, 0, n);
    json::lemma_item_meanings(docs, n + 1);
    let items = json::item_meanings(docs, n + 1);
    assert(top[3] == dump::node_doc(nodes, 0));
    assert(tops[3] == json::meaning(top[3]));
    assert(tops[3] == Json::Array(items));
    assert(items[0] == json::meaning(docs[0]));
    lemma_item_read(nodes, 0);
    let item = item_read(nodes, 0);
    edit::lemma_own_at_most(nodes, 0);
    assert(below::under(nodes, 0, 0));
    assert(totals::live(nodes, 0));
    assert(totals::balanced(nodes, 0));
    assert(0 <= nodes[0].apparent <= u64::MAX && 0 <= nodes[0].disk <= u64::MAX);
    let root = edit::imported_root(
        item.name,
        item.apparent as int,
        item.disk as int,
        item.dev,
        item.ino,
    );
    upkeep::law_fresh_totals(item.name, item.apparent, item.disk, item.dev, item.ino);
    // Sums.
    let fa = totals::counted_own_apparent(nodes, 0);
    let fd = totals::counted_own_disk(nodes, 0);
    totals::law_aggregate_is_sum_of_own_sizes(t, 0);
    below::lemma_sum_under_step(nodes, 0, fa);
    below::lemma_sum_under_step(nodes, 0, fd);
    lemma_order_kids_sum(nodes, 0, n, 0, fa);
    lemma_order_kids_sum(nodes, 0, n, 0, fd);
    assert(nodes[0].children.take(n) =~= nodes[0].children);
    lemma_weight_is_share(t, ord, own_a(nodes));
    lemma_weight_is_share(t, ord, own_d(nodes));
    lemma_order_members(nodes, 0, n, 0);
    assert forall|k: int| 0 <= k < ord.len() implies totals::counted_under(
        nodes,
        (#[trigger] ord[k]).0,
        0,
    ) == tree::counts(nodes[ord[k].0]) by {
        lemma_positions(nodes, ord, ord[k].0);
        lemma_counted_if_counts(nodes, ord[k].0);
    }
    lemma_sum_order_same(ord, fa, |j: int|
        if tree::counts(nodes[j]) {
            own_a(nodes)(j)
        } else {
            0
        });
    lemma_sum_order_same(ord, fd, |j: int|
        if tree::counts(nodes[j]) {
            own_d(nodes)(j)
        } else {
            0
        });
    // Counts.
    lemma_order_kids_sum(nodes, 0, n, 0, below::is_one(nodes, true));
    lemma_order_kids_sum(nodes, 0, n, 0, below::is_one(nodes, false));
    below::lemma_sum_under_step(nodes, 0, below::is_one(nodes, true));
    below::lemma_sum_under_step(nodes, 0, below::is_one(nodes, false));
    // Number of entries.
    let one = |j: int| 1int;
    lemma_order_kids_sum(nodes, 0, n, 0, one);
    below::lemma_sum_under_step(nodes, 0, one);
    lemma_order_len(ord);
    lemma_sum_order_same(ord, one, |j: int| 1);
    lemma_ones(nodes, one);
    assert(room_for(nodes, root, none, ord));
    assert(counted_home(root.nodes, 0)) by {
        assert(below::under(root.nodes, 0, 0));
    }
    lemma_reads_kids(t, 0, n, root, 0, none);
    let made = dump::added_all(root, 0, items, n + 1, none, true)->0;
    let made = made.0;
    assert(dump::tree_of(json::meaning(doc)) == Ok::<TreeView, dump::Refusal>(made));
    assert(totals::live(made.nodes, 0) == totals::live(root.nodes, 0));
    assert(made.nodes[0].apparent == nodes[0].apparent);
    assert(made.nodes[0].disk == nodes[0].disk);
    assert(made.total_dirs == t.total_dirs);
    assert(made.total_files == t.total_files);
}

proof fn lemma_sum_order_same(ord: Seq<(int, int)>, f: spec_fn(int) -> int, g: spec_fn(int) -> int)
    requires
        forall|k: int| 0 <= k < ord.len() ==> f((#[trigger] ord[k]).0) == g(ord[k].0),
    ensures
        sum_order(ord, f) == sum_order(ord, g),
    decreases ord.len(),
{
    if ord.len() > 0 {
        let shorter = ord.drop_last();
        assert forall|k: int| 0 <= k < shorter.len() implies f((#[trigger] shorter[k]).0) == g(
            shorter[k].0,
        ) by {
            assert(shorter[k] == ord[k]);
        }
        lemma_sum_order_same(shorter, f, g);
        assert(f(ord[ord.len() - 1].0) == g(ord[ord.len() - 1].0));
    }
}

proof fn lemma_ones(nodes: Seq<NodeView>, one: spec_fn(int) -> int)
    requires
        forall|j: int| #[trigger] one(j) == 1,
    ensures
        below::sum_under(nodes, 0, one) <= nodes.len(),
{
    let f = |j: int|
        if below::under(nodes, j, 0) {
            one(j)
        } else {
            0
        };
    let g = |j: int| 0int;
    assert forall|j: int| 0 <= j < nodes.len() implies 0 <= #[trigger] g(j) && f(j) + g(j) <= 1 by {
        assert(one(j) == 1);
    }
    assert forall|j: int| 0 <= j < nodes.len() implies 0 <= #[trigger] f(j) by {
        assert(one(j) == 1);
    }
    edit::lemma_sum_bounds(f, g, nodes.len() as int);
}

} // verus!
