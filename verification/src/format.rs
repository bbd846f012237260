//! The dump format: what stands where, told by the names of the fields.
use vstd::prelude::*;

use crate::dump;
use crate::dump::{ItemView, Refusal};
use crate::edit;
use crate::json;
use crate::json::{Doc, Json};
use crate::model::{Excluded, NodeKind};
use crate::roundtrip;
use crate::scan;
use crate::tree::{NodeView, TreeView};

verus! {

/// The object has this value under the key.
pub open spec fn holds(v: Json, key: Seq<char>, value: Json) -> bool {
    v matches Json::Object(fields) && fields.contains_key(key) && fields[key] == value
}

/// The object has nothing under the key.
pub open spec fn lacks(v: Json, key: Seq<char>) -> bool {
    v matches Json::Object(fields) && !fields.contains_key(key)
}

/// The object holds `true` under the key if something is so, and nothing otherwise.
pub open spec fn flags(v: Json, key: Seq<char>, yes: bool) -> bool {
    if yes {
        holds(v, key, Json::Bool(true))
    } else {
        lacks(v, key)
    }
}

proof fn lemma_item_fields(nodes: Seq<NodeView>, i: int)
    ensures
        ({
            let n = nodes[i];
            let base = Map::<Seq<char>, Json>::empty().insert(
                "name"@,
                Json::Text(n.name),
            ).insert(
                "asize"@,
                Json::Number(Some(edit::own_apparent(nodes, i) as u64)),
            ).insert("dsize"@, Json::Number(Some(edit::own_disk(nodes, i) as u64))).insert(
                "ino"@,
                Json::Number(Some(n.ino)),
            ).insert("dev"@, Json::Number(Some(n.dev)));
            let put = |m: Map<Seq<char>, Json>, yes: bool, key: Seq<char>, v: Json|
                if yes {
                    m.insert(key, v)
                } else {
                    m
                };
            let m1 = put(base, n.hlink, "hlnkc"@, Json::Bool(true));
            let m2 = put(
                m1,
                n.kind == NodeKind::Link || n.kind == NodeKind::Other,
                "notreg"@,
                Json::Bool(true),
            );
            let m3 = put(m2, n.read_error, "read_error"@, Json::Bool(true));
            let m4 = put(
                m3,
                n.excluded == Excluded::Pattern || n.excluded == Excluded::Age,
                "excluded"@,
                Json::Text("pattern"@),
            );
            let m5 = put(m4, n.excluded == Excluded::OtherFs, "excluded"@, Json::Text("otherfs"@));
            json::meaning(dump::item_doc(nodes, i)) == Json::Object(m5)
        }),
{
    let n = nodes[i];
    let f0 = Seq::<(Seq<char>, Doc)>::empty();
    let d_name = Doc::Text(n.name);
    let d_a = Doc::Number(edit::own_apparent(nodes, i) as u64);
    let d_d = Doc::Number(edit::own_disk(nodes, i) as u64);
    let f1 = f0.push(("name"@, d_name));
    let f2 = f1.push(("asize"@, d_a));
    let f3 = f2.push(("dsize"@, d_d));
    let f4 = f3.push(("ino"@, Doc::Number(n.ino)));
    let f5 = f4.push(("dev"@, Doc::Number(n.dev)));
    roundtrip::lemma_with_field(f0, true, "name"@, d_name);
    roundtrip::lemma_with_field(f1, true, "asize"@, d_a);
    roundtrip::lemma_with_field(f2, true, "dsize"@, d_d);
    roundtrip::lemma_with_field(f3, true, "ino"@, Doc::Number(n.ino));
    roundtrip::lemma_with_field(f4, true, "dev"@, Doc::Number(n.dev));
    let f6 = dump::with_field(f5, n.hlink, "hlnkc"@, Doc::True);
    roundtrip::lemma_with_field(f5, n.hlink, "hlnkc"@, Doc::True);
    let notreg = n.kind == NodeKind::Link || n.kind == NodeKind::Other;
    let f7 = dump::with_field(f6, notreg, "notreg"@, Doc::True);
    roundtrip::lemma_with_field(f6, notreg, "notreg"@, Doc::True);
    let f8 = dump::with_field(f7, n.read_error, "read_error"@, Doc::True);
    roundtrip::lemma_with_field(f7, n.read_error, "read_error"@, Doc::True);
    let pattern = n.excluded == Excluded::Pattern || n.excluded == Excluded::Age;
    let f9 = dump::with_field(f8, pattern, "excluded"@, Doc::Text("pattern"@));
    roundtrip::lemma_with_field(f8, pattern, "excluded"@, Doc::Text("pattern"@));
    let other = n.excluded == Excluded::OtherFs;
    roundtrip::lemma_with_field(f9, other, "excluded"@, Doc::Text("otherfs"@));
}

/// What a dump says of an entry: its name, its own logical size and its own size on disk, its inode and
/// its device; and where it is so, that it is a hard link, that it is neither a directory nor a regular
/// file, that it could not be read, and why it was left out.
pub proof fn law_fields_say_what_they_are_named_for(nodes: Seq<NodeView>, i: int)
    requires
        edit::own_apparent(nodes, i) <= u64::MAX,
        edit::own_disk(nodes, i) <= u64::MAX,
    ensures
        ({
            let n = nodes[i];
            let v = json::meaning(dump::item_doc(nodes, i));
            &&& holds(v, "name"@, Json::Text(n.name))
            &&& holds(v, "asize"@, Json::Number(Some(edit::own_apparent(nodes, i) as u64)))
            &&& holds(v, "dsize"@, Json::Number(Some(edit::own_disk(nodes, i) as u64)))
            &&& holds(v, "ino"@, Json::Number(Some(n.ino)))
            &&& holds(v, "dev"@, Json::Number(Some(n.dev)))
            &&& flags(v, "hlnkc"@, n.hlink)
            &&& flags(v, "notreg"@, n.kind == NodeKind::Link || n.kind == NodeKind::Other)
            &&& flags(v, "read_error"@, n.read_error)
            &&& n.excluded == Excluded::No ==> lacks(v, "excluded"@)
            &&& n.excluded == Excluded::OtherFs ==> holds(v, "excluded"@, Json::Text("otherfs"@))
            &&& n.excluded == Excluded::Pattern ==> holds(v, "excluded"@, Json::Text("pattern"@))
            &&& n.excluded == Excluded::Age ==> holds(v, "excluded"@, Json::Text("pattern"@))
        }),
{
    lemma_item_fields(nodes, i);
    roundtrip::lemma_keys_differ();
}

proof fn lemma_items(items: Seq<Doc>, k: int)
    requires
        0 <= k <= items.len(),
    ensures
        json::item_meanings(items, k).len() == k,
        forall|j: int|
            0 <= j < k ==> #[trigger] json::item_meanings(items, k)[j] == json::meaning(items[j]),
    decreases k,
{
    if k > 0 {
        lemma_items(items, k - 1);
    }
}

proof fn lemma_dir_docs(nodes: Seq<NodeView>, i: int, k: int)
    requires
        0 <= k <= nodes[i].children.len(),
        forall|j: int|
            0 <= j < nodes[i].children.len() ==> i < (#[trigger] nodes[i].children[j]) < nodes.len(),
    ensures
        dump::dir_docs(nodes, i, k).len() == k + 1,
        dump::dir_docs(nodes, i, k)[0] == dump::item_doc(nodes, i),
        forall|j: int|
            0 <= j < k ==> #[trigger] dump::dir_docs(nodes, i, k)[j + 1] == dump::node_doc(
                nodes,
                nodes[i].children[j] as int,
            ),
    decreases k,
{
    if k > 0 {
        lemma_dir_docs(nodes, i, k - 1);
        let before = dump::dir_docs(nodes, i, k - 1);
        let all = dump::dir_docs(nodes, i, k);
        assert forall|j: int| 0 <= j < k implies #[trigger] all[j + 1] == dump::node_doc(
            nodes,
            nodes[i].children[j] as int,
        ) by {
            if j < k - 1 {
                assert(all[j + 1] == before[j + 1]);
            }
        }
    }
}

/// How a dump is built: the version of the format, who wrote it and when, and the root; a directory is
/// an array of itself and then of its entries in their order, and anything else is an object.
pub proof fn law_dumps_are_nested_as_the_tree_is(t: TreeView, timestamp: u64, i: int)
    requires
        0 <= i < t.nodes.len(),
        forall|j: int|
            0 <= j < t.nodes[i].children.len() ==> i < (#[trigger] t.nodes[i].children[j])
                < t.nodes.len(),
    ensures
        ({
            let n = t.nodes[i];
            let v = json::meaning(dump::node_doc(t.nodes, i));
            let own = json::meaning(dump::item_doc(t.nodes, i));
            &&& n.kind == NodeKind::Dir ==> {
                &&& v is Array
                &&& v->Array_0.len() == n.children.len() + 1
                &&& v->Array_0[0] == own
                &&& forall|j: int|
                    0 <= j < n.children.len() ==> #[trigger] v->Array_0[j + 1] == json::meaning(
                        dump::node_doc(t.nodes, n.children[j] as int),
                    )
            }
            &&& n.kind != NodeKind::Dir ==> v == own && v is Object
        }),
        ({
            let top = json::meaning(dump::dump_doc(t, timestamp));
            &&& top is Array
            &&& top->Array_0.len() == 4
            &&& top->Array_0[0] == Json::Number(Some(1))
            &&& top->Array_0[1] == Json::Number(Some(2))
            &&& holds(top->Array_0[2], "progname"@, Json::Text("rcdu"@))
            &&& holds(top->Array_0[2], "progver"@, Json::Text("0.1.0"@))
            &&& holds(top->Array_0[2], "timestamp"@, Json::Number(Some(timestamp)))
            &&& top->Array_0[3] == json::meaning(dump::node_doc(t.nodes, t.root as int))
        }),
{
    let n = t.nodes[i];
    lemma_item_fields(t.nodes, i);
    if n.kind == NodeKind::Dir {
        let docs = dump::dir_docs(t.nodes, i, n.children.len() as int);
        lemma_dir_docs(t.nodes, i, n.children.len() as int);
        lemma_items(docs, docs.len() as int);
        let v = json::meaning(dump::node_doc(t.nodes, i));
        assert forall|j: int| 0 <= j < n.children.len() implies #[trigger] v->Array_0[j + 1]
            == json::meaning(dump::node_doc(t.nodes, n.children[j] as int)) by {
            assert(docs[j + 1] == dump::node_doc(t.nodes, n.children[j] as int));
        }
    }
    let parts = dump::dump_doc(t, timestamp)->Array_0;
    lemma_items(parts, 4);
    let f0 = Seq::<(Seq<char>, Doc)>::empty();
    let f1 = f0.push(("progname"@, Doc::Text("rcdu"@)));
    let f2 = f1.push(("progver"@, Doc::Text("0.1.0"@)));
    let f3 = f2.push(("timestamp"@, Doc::Number(timestamp)));
    roundtrip::lemma_with_field(f0, true, "progname"@, Doc::Text("rcdu"@));
    roundtrip::lemma_with_field(f1, true, "progver"@, Doc::Text("0.1.0"@));
    roundtrip::lemma_with_field(f2, true, "timestamp"@, Doc::Number(timestamp));
    assert(parts[2]->Object_0 =~= f3);
    reveal_strlit("progname");
    reveal_strlit("progver");
    reveal_strlit("timestamp");
    assert("progname"@[4] == 'n' && "progver"@[4] == 'v' && "timestamp"@[4] == 's');
}

/// How an object of a dump is read: each field by its name, and what is left out is unknown, zero or not
/// so; any reason for leaving an entry out but another file system is read as a pattern.
pub proof fn law_fields_are_read_by_name(v: Json, s: Seq<char>, n: u64)
    ensures
        ({
            let item = dump::item_of(v);
            &&& holds(v, "name"@, Json::Text(s)) ==> item.name == s
            &&& holds(v, "asize"@, Json::Number(Some(n))) ==> item.apparent == n
            &&& holds(v, "dsize"@, Json::Number(Some(n))) ==> item.disk == n
            &&& holds(v, "ino"@, Json::Number(Some(n))) ==> item.ino == n
            &&& holds(v, "dev"@, Json::Number(Some(n))) ==> item.dev == n
            &&& lacks(v, "name"@) ==> item.name == "?"@
            &&& lacks(v, "asize"@) ==> item.apparent == 0
            &&& lacks(v, "dsize"@) ==> item.disk == 0
            &&& lacks(v, "ino"@) ==> item.ino == 0
            &&& lacks(v, "dev"@) ==> item.dev == 0
            &&& item.hlink <==> holds(v, "hlnkc"@, Json::Bool(true))
            &&& item.notreg <==> holds(v, "notreg"@, Json::Bool(true))
            &&& item.read_error <==> holds(v, "read_error"@, Json::Bool(true))
            &&& item.excluded == Excluded::OtherFs <==> holds(v, "excluded"@, Json::Text("otherfs"@))
            &&& holds(v, "excluded"@, Json::Text(s)) && s != "otherfs"@ ==> item.excluded
                == Excluded::Pattern
            &&& lacks(v, "excluded"@) ==> item.excluded == Excluded::No
        }),
{
}

/// What an object of a dump becomes: an array's is a directory, any other a regular file, or, where it is
/// neither, something special; the sizes and numbers are those of the object.
pub proof fn law_items_become_entries(item: ItemView, seen: Set<u128>, inside: bool)
    ensures
        ({
            let dir = dump::dir_entry(item);
            let leaf = dump::leaf_entry(item, seen, inside);
            &&& dir.kind == NodeKind::Dir && !dir.shared
            &&& leaf.kind == (if item.notreg {
                NodeKind::Other
            } else {
                NodeKind::File
            })
            &&& dir.name == item.name && leaf.name == item.name
            &&& dir.apparent == item.apparent && leaf.apparent == item.apparent
            &&& dir.disk == item.disk && leaf.disk == item.disk
            &&& dir.dev == item.dev && leaf.dev == item.dev
            &&& dir.ino == item.ino && leaf.ino == item.ino
            &&& dir.excluded == item.excluded && leaf.excluded == item.excluded
            &&& dir.read_error == item.read_error && leaf.read_error == item.read_error
            &&& leaf.hlink == item.hlink
            &&& leaf.shared ==> item.hlink
        }),
{
}

/// Links to one inode in a dump count once: the first one counts, one that comes later does not, and a
/// link to another inode is not taken for one of them; nor is anything that is no hard link.
pub proof fn law_imported_links_count_once(first: ItemView, second: ItemView, seen: Set<u128>)
    requires
        first.hlink && second.hlink,
        first.excluded == Excluded::No && second.excluded == Excluded::No,
        !seen.contains(scan::link_key(first.dev, first.ino)),
        !seen.contains(scan::link_key(second.dev, second.ino)),
    ensures
        ({
            let after = dump::seen_after(first, seen, true);
            &&& !dump::leaf_entry(first, seen, true).shared
            &&& dump::leaf_entry(second, after, true).shared <==> first.dev == second.dev && first.ino
                == second.ino
            &&& !dump::leaf_entry(ItemView { hlink: false, ..second }, after, true).shared
            // What hangs below something that is left out neither counts nor keeps others from it.
            &&& dump::seen_after(first, seen, false) == seen
            &&& !dump::leaf_entry(second, after, false).shared
        }),
{
    scan::law_link_keys_tell_inodes_apart(first.dev, first.ino, second.dev, second.ino);
}

/// Which documents are no dumps: what is no array, an array with fewer than four parts, and one whose
/// root is no array, or an empty one.
pub proof fn law_what_is_no_dump_is_refused(v: Json)
    ensures
        !(v is Array) ==> dump::tree_of(v) == Err::<TreeView, Refusal>(Refusal::TopLevel),
        v is Array && v->Array_0.len() < 4 ==> dump::tree_of(v) == Err::<TreeView, Refusal>(
            Refusal::MissingRoot,
        ),
        v is Array && v->Array_0.len() >= 4 && !(v->Array_0[3] is Array) ==> dump::tree_of(v)
            == Err::<TreeView, Refusal>(Refusal::RootNotDirectory),
        v is Array && v->Array_0.len() >= 4 && v->Array_0[3] is Array
            && v->Array_0[3]->Array_0.len() == 0 ==> dump::tree_of(v) == Err::<TreeView, Refusal>(
            Refusal::EmptyRoot,
        ),
{
}

} // verus!
