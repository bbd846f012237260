//! ncdu-compatible JSON import/export.
//!
//! Format (ncdu export version 1): a top-level array
//!     `[major, minor, metadata, root]`
//! where each directory is itself an array `[info, child, child, ...]` beginning with its own
//! info object, and files are plain info objects. Sizes are stored *per item* (`asize`/`dsize`
//! are the entry's own size); totals are recomputed on load.
//!
//! Export is written by hand (no intermediate document) so it stays cheap on huge trees. Import
//! uses `serde_json` for robustness against the variety of dumps in the wild.
use vstd::prelude::*;

use serde_json::Value;
use std::collections::HashSet;

use crate::edit;
use crate::json;
use crate::json::{Doc, Json};
use crate::model::{Excluded, Node, NodeIdx, NodeKind, Tree};
use crate::outside;
use crate::outside::Name;
use crate::scan;
use crate::text;
use crate::tree;
use crate::tree::{EntryView, NodeView, TreeView};

verus! {

pub const MAJOR: u64 = 1;

pub const MINOR: u64 = 2;

/// The version of this program.
pub fn version() -> (v: &'static str)
    ensures
        v@ == "0.1.0"@,
{
    "0.1.0"
}

// ---- What is exported ---------------------------------------------------------------------------------

pub open spec fn with_field(fields: Seq<(Seq<char>, Doc)>, yes: bool, key: Seq<char>, d: Doc) -> Seq<
    (Seq<char>, Doc),
> {
    if yes {
        fields.push((key, d))
    } else {
        fields
    }
}

/// The fields of the object that stands for an entry alone.
pub open spec fn item_fields(nodes: Seq<NodeView>, i: int) -> Seq<(Seq<char>, Doc)> {
    let n = nodes[i];
    let base = Seq::<(Seq<char>, Doc)>::empty().push(("name"@, Doc::Text(n.name))).push(
        ("asize"@, Doc::Number(edit::own_apparent(nodes, i) as u64)),
    ).push(("dsize"@, Doc::Number(edit::own_disk(nodes, i) as u64))).push(
        ("ino"@, Doc::Number(n.ino)),
    ).push(("dev"@, Doc::Number(n.dev)));
    let f1 = with_field(base, n.hlink, "hlnkc"@, Doc::True);
    let f2 = with_field(
        f1,
        n.kind == NodeKind::Link || n.kind == NodeKind::Other,
        "notreg"@,
        Doc::True,
    );
    let f3 = with_field(f2, n.read_error, "read_error"@, Doc::True);
    let f4 = with_field(
        f3,
        n.excluded == Excluded::Pattern || n.excluded == Excluded::Age,
        "excluded"@,
        Doc::Text("pattern"@),
    );
    with_field(f4, n.excluded == Excluded::OtherFs, "excluded"@, Doc::Text("otherfs"@))
}

pub open spec fn item_doc(nodes: Seq<NodeView>, i: int) -> Doc {
    Doc::Object(item_fields(nodes, i))
}

/// What stands for an entry with everything below it.
pub open spec fn node_doc(nodes: Seq<NodeView>, i: int) -> Doc
    decreases nodes.len() - i, nodes[i].children.len() + 1,
{
    if tree::is_dir(nodes[i]) {
        Doc::Array(dir_docs(nodes, i, nodes[i].children.len() as int))
    } else {
        item_doc(nodes, i)
    }
}

/// What stands for a directory: the directory alone, then the first `k` of its children.
pub open spec fn dir_docs(nodes: Seq<NodeView>, i: int, k: int) -> Seq<Doc>
    decreases nodes.len() - i, k,
{
    if k <= 0 || k > nodes[i].children.len() {
        seq![item_doc(nodes, i)]
    } else {
        let c = nodes[i].children[k - 1] as int;
        dir_docs(nodes, i, k - 1).push(
            if i < c < nodes.len() {
                node_doc(nodes, c)
            } else {
                Doc::True
            },
        )
    }
}

/// The exported document.
pub open spec fn dump_doc(t: TreeView, timestamp: u64) -> Doc {
    Doc::Array(
        seq![
            Doc::Number(MAJOR),
            Doc::Number(MINOR),
            Doc::Object(
                seq![
                    ("progname"@, Doc::Text("rcdu"@)),
                    ("progver"@, Doc::Text("0.1.0"@)),
                    ("timestamp"@, Doc::Number(timestamp)),
                ],
            ),
            node_doc(t.nodes, t.root as int),
        ],
    )
}

// ---- Export ---------------------------------------------------------------------------------------------

proof fn lemma_fields_prefix(fields: Seq<(Seq<char>, Doc)>, f: (Seq<char>, Doc), k: int)
    requires
        0 <= k <= fields.len(),
    ensures
        json::rendered_fields(fields.push(f), k) == json::rendered_fields(fields, k),
    decreases k,
{
    if k > 0 {
        lemma_fields_prefix(fields, f, k - 1);
        assert(fields.push(f)[k - 1] == fields[k - 1]);
    }
}

proof fn lemma_items_prefix(items: Seq<Doc>, d: Doc, k: int)
    requires
        0 <= k <= items.len(),
    ensures
        json::rendered_items(items.push(d), k) == json::rendered_items(items, k),
    decreases k,
{
    if k > 0 {
        lemma_items_prefix(items, d, k - 1);
        assert(items.push(d)[k - 1] == items[k - 1]);
    }
}

/// The separator and the name of the field that comes next.
fn put_key(out: &mut String, first: bool, key: &str)
    ensures
        final(out)@ == old(out)@ + (if first {
            Seq::empty()
        } else {
            seq![',']
        }) + json::quoted(key@) + seq![':'],
{
    let ghost start = out@;
    if !first {
        out.push(',');
        assert(out@ =~= start + seq![',']);
    } else {
        assert(out@ =~= start + Seq::<char>::empty());
    }
    json::write_json_string(key, out);
    let ghost before = out@;
    out.push(':');
    assert(out@ =~= before + seq![':']);
}

/// One more field behind those that are written.
proof fn lemma_field_written(
    base: Seq<char>,
    fields: Seq<(Seq<char>, Doc)>,
    key: Seq<char>,
    d: Doc,
    out: Seq<char>,
)
    requires
        out == base + json::rendered_fields(fields, fields.len() as int) + (if fields.len() == 0 {
            Seq::empty()
        } else {
            seq![',']
        }) + json::quoted(key) + seq![':'] + json::rendered(d),
    ensures
        out == base + json::rendered_fields(fields.push((key, d)), fields.len() as int + 1),
{
    lemma_fields_prefix(fields, (key, d), fields.len() as int);
    assert(fields.push((key, d))[fields.len() as int] == (key, d));
    assert(out =~= base + json::rendered_fields(fields.push((key, d)), fields.len() as int + 1));
}

fn put_number(
    out: &mut String,
    key: &str,
    n: u64,
    Ghost(base): Ghost<Seq<char>>,
    Ghost(fields): Ghost<Seq<(Seq<char>, Doc)>>,
)
    requires
        old(out)@ == base + json::rendered_fields(fields, fields.len() as int),
        fields.len() > 0,
    ensures
        final(out)@ == base + json::rendered_fields(
            fields.push((key@, Doc::Number(n))),
            fields.len() as int + 1,
        ),
{
    put_key(out, false, key);
    out.append(text::decimal_text(n).as_str());
    proof {
        lemma_field_written(base, fields, key@, Doc::Number(n), out@);
    }
}

fn put_true(
    out: &mut String,
    key: &str,
    Ghost(base): Ghost<Seq<char>>,
    Ghost(fields): Ghost<Seq<(Seq<char>, Doc)>>,
)
    requires
        old(out)@ == base + json::rendered_fields(fields, fields.len() as int),
        fields.len() > 0,
    ensures
        final(out)@ == base + json::rendered_fields(
            fields.push((key@, Doc::True)),
            fields.len() as int + 1,
        ),
{
    put_key(out, false, key);
    out.append("true");
    proof {
        lemma_field_written(base, fields, key@, Doc::True, out@);
    }
}

fn put_text(
    out: &mut String,
    first: bool,
    key: &str,
    s: &str,
    Ghost(base): Ghost<Seq<char>>,
    Ghost(fields): Ghost<Seq<(Seq<char>, Doc)>>,
)
    requires
        old(out)@ == base + json::rendered_fields(fields, fields.len() as int),
        first == (fields.len() == 0),
    ensures
        final(out)@ == base + json::rendered_fields(
            fields.push((key@, Doc::Text(s@))),
            fields.len() as int + 1,
        ),
{
    put_key(out, first, key);
    json::write_json_string(s, out);
    proof {
        lemma_field_written(base, fields, key@, Doc::Text(s@), out@);
    }
}

/// The fields of an entry with those that only some entries have.
spec fn marked(n: NodeView, base: Seq<(Seq<char>, Doc)>) -> Seq<(Seq<char>, Doc)> {
    let f1 = with_field(base, n.hlink, "hlnkc"@, Doc::True);
    let f2 = with_field(
        f1,
        n.kind == NodeKind::Link || n.kind == NodeKind::Other,
        "notreg"@,
        Doc::True,
    );
    let f3 = with_field(f2, n.read_error, "read_error"@, Doc::True);
    let f4 = with_field(
        f3,
        n.excluded == Excluded::Pattern || n.excluded == Excluded::Age,
        "excluded"@,
        Doc::Text("pattern"@),
    );
    with_field(f4, n.excluded == Excluded::OtherFs, "excluded"@, Doc::Text("otherfs"@))
}

/// Append the fields that only some entries have.
fn write_marks(
    n: &Node,
    out: &mut String,
    Ghost(base): Ghost<Seq<char>>,
    Ghost(before): Ghost<Seq<(Seq<char>, Doc)>>,
)
    requires
        old(out)@ == base + json::rendered_fields(before, before.len() as int),
        before.len() > 0,
    ensures
        final(out)@ == base + json::rendered_fields(
            marked(n@, before),
            marked(n@, before).len() as int,
        ),
{
    let ghost mut fields = before;
    if n.hlink {
        put_true(out, "hlnkc", Ghost(base), Ghost(fields));
        proof {
            fields = fields.push(("hlnkc"@, Doc::True));
        }
    }
    if n.kind == NodeKind::Link || n.kind == NodeKind::Other {
        put_true(out, "notreg", Ghost(base), Ghost(fields));
        proof {
            fields = fields.push(("notreg"@, Doc::True));
        }
    }
    if n.read_error {
        put_true(out, "read_error", Ghost(base), Ghost(fields));
        proof {
            fields = fields.push(("read_error"@, Doc::True));
        }
    }
    match n.excluded {
        Excluded::Pattern | Excluded::Age => {
            put_text(out, false, "excluded", "pattern", Ghost(base), Ghost(fields));
            proof {
                fields = fields.push(("excluded"@, Doc::Text("pattern"@)));
            }
        },
        Excluded::OtherFs => {
            put_text(out, false, "excluded", "otherfs", Ghost(base), Ghost(fields));
            proof {
                fields = fields.push(("excluded"@, Doc::Text("otherfs"@)));
            }
        },
        Excluded::No => {},
    }
    assert(fields == marked(n@, before));
}

/// Append the object that stands for an entry alone.
pub fn write_item(tree: &Tree, idx: NodeIdx, out: &mut String)
    requires
        tree.wf(),
        idx < tree.nodes.len(),
    ensures
        final(out)@ == old(out)@ + json::rendered(item_doc(tree@.nodes, idx as int)),
{
    let ghost start = out@;
    let ghost nodes = tree@.nodes;
    let ghost i = idx as int;
    assert(nodes[i] == tree.nodes[i]@);
    proof {
        tree.lemma_view_fits();
        edit::lemma_own_at_most(nodes, i);
    }
    let n = &tree.nodes[idx];
    out.push('{');
    let ghost base = start + seq!['{'];
    let ghost mut fields = Seq::<(Seq<char>, Doc)>::empty();
    assert(out@ =~= base + json::rendered_fields(fields, 0));
    put_text(out, true, "name", n.name.as_str(), Ghost(base), Ghost(fields));
    proof {
        fields = fields.push(("name"@, Doc::Text(nodes[i].name)));
    }
    let asize: u64 = tree.own_apparent(idx);
    put_number(out, "asize", asize, Ghost(base), Ghost(fields));
    proof {
        fields = fields.push(("asize"@, Doc::Number(asize)));
    }
    let dsize: u64 = tree.own_disk(idx);
    put_number(out, "dsize", dsize, Ghost(base), Ghost(fields));
    proof {
        fields = fields.push(("dsize"@, Doc::Number(dsize)));
    }
    put_number(out, "ino", n.ino, Ghost(base), Ghost(fields));
    proof {
        fields = fields.push(("ino"@, Doc::Number(n.ino)));
    }
    put_number(out, "dev", n.dev, Ghost(base), Ghost(fields));
    proof {
        fields = fields.push(("dev"@, Doc::Number(n.dev)));
    }
    write_marks(n, out, Ghost(base), Ghost(fields));
    proof {
        fields = marked(nodes[i], fields);
    }
    assert(fields == item_fields(nodes, i));
    out.push('}');
    assert(out@ =~= start + json::rendered(item_doc(nodes, i)));
}

pub proof fn lemma_dir_docs(nodes: Seq<NodeView>, i: int, k: int)
    requires
        0 <= k <= nodes[i].children.len(),
    ensures
        dir_docs(nodes, i, k).len() == k + 1,
        dir_docs(nodes, i, k)[0] == item_doc(nodes, i),
    decreases k,
{
    if k > 0 {
        lemma_dir_docs(nodes, i, k - 1);
    }
}

/// Append what stands for an entry with everything below it.
pub fn write_node(tree: &Tree, idx: NodeIdx, out: &mut String)
    requires
        tree.wf(),
        idx < tree.nodes.len(),
    ensures
        final(out)@ == old(out)@ + json::rendered(node_doc(tree@.nodes, idx as int)),
    decreases tree.nodes.len() - idx,
{
    let ghost start = out@;
    let ghost nodes = tree@.nodes;
    let ghost i = idx as int;
    assert(nodes[i] == tree.nodes[i]@);
    let n = &tree.nodes[idx];
    if !n.is_dir() {
        write_item(tree, idx, out);
        return ;
    }
    out.push('[');
    write_item(tree, idx, out);
    let ghost base = start + seq!['['];
    let mut k: usize = 0;
    assert(out@ =~= base + json::rendered_items(dir_docs(nodes, i, 0), 1)) by {
        assert(start.push('[') =~= base);
    }
    while k < n.children.len()
        invariant
            tree.wf(),
            nodes == tree@.nodes,
            i == idx,
            idx < tree.nodes.len(),
            nodes[i] == n@,
            n == tree.nodes[i],
            k <= n.children.len(),
            out@ == base + json::rendered_items(dir_docs(nodes, i, k as int), k + 1),
        decreases n.children.len() - k,
    {
        let c: usize = n.children[k];
        assert(nodes[i].children[k as int] == c);
        out.push(',');
        assert(nodes[c as int].parent == Some(i as usize));
        write_node(tree, c, out);
        proof {
            let docs = dir_docs(nodes, i, k as int);
            let d = node_doc(nodes, c as int);
            lemma_dir_docs(nodes, i, k as int);
            assert(dir_docs(nodes, i, k + 1) == docs.push(d));
            lemma_items_prefix(docs, d, k + 1);
            assert(out@ =~= base + json::rendered_items(docs.push(d), k + 2));
        }
        k += 1;
    }
    proof {
        lemma_dir_docs(nodes, i, k as int);
    }
    out.push(']');
    assert(out@ =~= start + json::rendered(node_doc(nodes, i)));
}

/// Append the tree to `w` as a dump, with the time it is taken at in Unix seconds.
pub fn export(tree: &Tree, timestamp: u64, w: &mut Vec<u8>)
    requires
        tree.wf(),
    ensures
        final(w)@ == old(w)@ + vstd::utf8::encode_utf8(
            json::rendered(dump_doc(tree@, timestamp)) + seq!['\n'],
        ),
{
    let mut out = String::new();
    let ghost nodes = tree@.nodes;
    let ghost head = Doc::Object(
        seq![
            ("progname"@, Doc::Text("rcdu"@)),
            ("progver"@, Doc::Text("0.1.0"@)),
            ("timestamp"@, Doc::Number(timestamp)),
        ],
    );
    let ghost d = dump_doc(tree@, timestamp);
    let ghost items = d->Array_0;
    let ghost open = seq!['['];
    assert(items[2] == head) by {
        assert(items[2]->Object_0 =~= head->Object_0);
    }
    assert(json::rendered(items[0]) == text::decimal(MAJOR as nat));
    assert(json::rendered(items[1]) == text::decimal(MINOR as nat));
    out.push('[');
    out.append(text::decimal_text(MAJOR).as_str());
    assert(out@ =~= open + json::rendered_items(items, 1));
    out.push(',');
    out.append(text::decimal_text(MINOR).as_str());
    assert(out@ =~= open + json::rendered_items(items, 2));
    out.push(',');
    let ghost before = out@;
    out.push('{');
    let ghost base = before + seq!['{'];
    let ghost mut fields = Seq::<(Seq<char>, Doc)>::empty();
    assert(out@ =~= base + json::rendered_fields(fields, 0));
    put_text(&mut out, true, "progname", "rcdu", Ghost(base), Ghost(fields));
    proof {
        fields = fields.push(("progname"@, Doc::Text("rcdu"@)));
    }
    put_text(&mut out, false, "progver", version(), Ghost(base), Ghost(fields));
    proof {
        fields = fields.push(("progver"@, Doc::Text("0.1.0"@)));
    }
    put_number(&mut out, "timestamp", timestamp, Ghost(base), Ghost(fields));
    proof {
        fields = fields.push(("timestamp"@, Doc::Number(timestamp)));
        assert(Doc::Object(fields) == head) by {
            assert(fields =~= head->Object_0);
        }
    }
    out.push('}');
    assert(out@ =~= before + json::rendered(head));
    assert(out@ =~= open + json::rendered_items(items, 3));
    out.push(',');
    write_node(tree, tree.root, &mut out);
    assert(out@ =~= open + json::rendered_items(items, 4));
    out.push(']');
    assert(out@ =~= json::rendered(d));
    let ghost whole = out@;
    out.push('\n');
    assert(out@ =~= whole + seq!['\n']);
    let bytes = out.as_str().as_bytes();
    let ghost start = w@;
    let mut k: usize = 0;
    while k < bytes.len()
        invariant
            k <= bytes@.len(),
            w@ == start + bytes@.take(k as int),
        decreases bytes@.len() - k,
    {
        w.push(bytes[k]);
        assert(bytes@.take(k as int + 1) =~= bytes@.take(k as int).push(bytes@[k as int]));
        assert(w@ =~= start + bytes@.take(k as int + 1));
        k += 1;
    }
    assert(bytes@.take(k as int) =~= bytes@);
}

// ---- What is imported -----------------------------------------------------------------------------------

/// What an info object says of an entry.
pub struct ItemView {
    pub name: Seq<char>,
    pub apparent: u64,
    pub disk: u64,
    pub dev: u64,
    pub ino: u64,
    pub hlink: bool,
    pub notreg: bool,
    pub read_error: bool,
    pub excluded: Excluded,
}

/// A field of an object.
pub open spec fn field(v: Json, key: Seq<char>) -> Option<Json> {
    match v {
        Json::Object(fields) => if fields.contains_key(key) {
            Some(fields[key])
        } else {
            None
        },
        _ => None,
    }
}

/// A field that is text.
pub open spec fn text_field(v: Json, key: Seq<char>) -> Option<Seq<char>> {
    match field(v, key) {
        Some(Json::Text(s)) => Some(s),
        _ => None,
    }
}

/// A field that is a number, or else zero.
pub open spec fn number_field(v: Json, key: Seq<char>) -> u64 {
    match field(v, key) {
        Some(Json::Number(Some(n))) => n,
        _ => 0,
    }
}

/// A field that is true.
pub open spec fn flag_field(v: Json, key: Seq<char>) -> bool {
    field(v, key) == Some(Json::Bool(true))
}

/// What an info object says; what it leaves out is unknown, zero or false.
pub open spec fn item_of(v: Json) -> ItemView {
    ItemView {
        name: match text_field(v, "name"@) {
            Some(s) => s,
            None => "?"@,
        },
        apparent: number_field(v, "asize"@),
        disk: number_field(v, "dsize"@),
        dev: number_field(v, "dev"@),
        ino: number_field(v, "ino"@),
        hlink: flag_field(v, "hlnkc"@),
        notreg: flag_field(v, "notreg"@),
        read_error: flag_field(v, "read_error"@),
        excluded: match text_field(v, "excluded"@) {
            Some(s) => if s == "otherfs"@ {
                Excluded::OtherFs
            } else {
                Excluded::Pattern
            },
            None => Excluded::No,
        },
    }
}

/// The entry of a directory.
pub open spec fn dir_entry(item: ItemView) -> EntryView {
    EntryView {
        name: item.name,
        kind: NodeKind::Dir,
        apparent: item.apparent as int,
        disk: item.disk as int,
        dev: item.dev,
        ino: item.ino,
        hlink: item.hlink,
        shared: false,
        excluded: item.excluded,
        read_error: item.read_error,
        dir_id: None,
    }
}

/// A hard link that counts, if its inode was not counted yet. One below an excluded directory does
/// not count, so `inside` says whether everything above it does.
pub open spec fn is_link_item(item: ItemView, inside: bool) -> bool {
    item.hlink && item.excluded == Excluded::No && inside
}

/// The entry of anything else: hard links are shared as in a live scan.
pub open spec fn leaf_entry(item: ItemView, seen: Set<u128>, inside: bool) -> EntryView {
    EntryView {
        kind: if item.notreg {
            NodeKind::Other
        } else {
            NodeKind::File
        },
        shared: is_link_item(item, inside) && seen.contains(scan::link_key(item.dev, item.ino)),
        ..dir_entry(item)
    }
}

pub open spec fn seen_after(item: ItemView, seen: Set<u128>, inside: bool) -> Set<u128> {
    if is_link_item(item, inside) {
        seen.insert(scan::link_key(item.dev, item.ino))
    } else {
        seen
    }
}

/// The tree and the counted inodes after a document was put under `p`, or `None` if a total would
/// not fit.
pub open spec fn added(t: TreeView, p: int, v: Json, seen: Set<u128>, inside: bool) -> Option<
    (TreeView, Set<u128>),
>
    decreases v,
{
    match v {
        Json::Array(items) => if items.len() == 0 {
            Some((t, seen))
        } else {
            let item = item_of(items[0]);
            let next = edit::imported(t, p, dir_entry(item));
            if tree::fits(next.nodes) {
                added_all(
                    next,
                    t.nodes.len() as int,
                    items,
                    items.len() as int,
                    seen,
                    inside && item.excluded == Excluded::No,
                )
            } else {
                None
            }
        },
        _ => {
            let next = edit::imported(t, p, leaf_entry(item_of(v), seen, inside));
            if tree::fits(next.nodes) {
                Some((next, seen_after(item_of(v), seen, inside)))
            } else {
                None
            }
        },
    }
}

/// The tree and the counted inodes after the children among the first `k` items were put under `p`.
pub open spec fn added_all(
    t: TreeView,
    p: int,
    items: Seq<Json>,
    k: int,
    seen: Set<u128>,
    inside: bool,
) -> Option<(TreeView, Set<u128>)>
    decreases items, k,
{
    if k <= 1 || k > items.len() {
        Some((t, seen))
    } else {
        match added_all(t, p, items, k - 1, seen, inside) {
            Some((before, counted)) => added(before, p, items[k - 1], counted, inside),
            None => None,
        }
    }
}

/// Why a document is no dump.
#[derive(Clone, Copy, PartialEq, Eq, Structural, Debug)]
pub enum Refusal {
    TopLevel,
    MissingRoot,
    RootNotDirectory,
    EmptyRoot,
    /// A total would not fit.
    TooLarge,
}

/// The tree that a document stands for.
pub open spec fn tree_of(v: Json) -> Result<TreeView, Refusal> {
    match v {
        Json::Array(top) => if top.len() <= 3 {
            Err(Refusal::MissingRoot)
        } else {
            match top[3] {
                Json::Array(items) => if items.len() == 0 {
                    Err(Refusal::EmptyRoot)
                } else {
                    let item = item_of(items[0]);
                    let root = edit::imported_root(
                        item.name,
                        item.apparent as int,
                        item.disk as int,
                        item.dev,
                        item.ino,
                    );
                    match added_all(root, 0, items, items.len() as int, Set::empty(), true) {
                        Some((t, _)) => Ok(t),
                        None => Err(Refusal::TooLarge),
                    }
                },
                _ => Err(Refusal::RootNotDirectory),
            }
        },
        _ => Err(Refusal::TopLevel),
    }
}

// ---- Import -----------------------------------------------------------------------------------------------

/// What an info object says of an entry.
pub struct Item {
    pub name: String,
    pub apparent: u64,
    pub disk: u64,
    pub dev: u64,
    pub ino: u64,
    pub hlink: bool,
    pub notreg: bool,
    pub read_error: bool,
    pub excluded: Excluded,
}

impl View for Item {
    type V = ItemView;

    open spec fn view(&self) -> ItemView {
        ItemView {
            name: self.name@,
            apparent: self.apparent,
            disk: self.disk,
            dev: self.dev,
            ino: self.ino,
            hlink: self.hlink,
            notreg: self.notreg,
            read_error: self.read_error,
            excluded: self.excluded,
        }
    }
}

/// A field of a parsed document that is text.
pub fn get_text(v: &Value, key: &str) -> (found: Option<String>)
    ensures
        match found {
            Some(s) => text_field(outside::json_of(*v), key@) == Some(s@),
            None => text_field(outside::json_of(*v), key@) is None,
        },
{
    match outside::json_field(v, key) {
        Some(value) => match value.as_str() {
            Some(s) => Some(s.to_string()),
            None => None,
        },
        None => None,
    }
}

fn get_number(v: &Value, key: &str) -> (n: u64)
    ensures
        n == number_field(outside::json_of(*v), key@),
{
    match outside::json_field(v, key) {
        Some(value) => match value.as_u64() {
            Some(n) => n,
            None => 0,
        },
        None => 0,
    }
}

fn get_flag(v: &Value, key: &str) -> (yes: bool)
    ensures
        yes == flag_field(outside::json_of(*v), key@),
{
    match outside::json_field(v, key) {
        Some(value) => match value.as_bool() {
            Some(b) => b,
            None => false,
        },
        None => false,
    }
}

pub fn parse_item(v: &Value) -> (item: Item)
    ensures
        item@ == item_of(outside::json_of(*v)),
{
    let name = match get_text(v, "name") {
        Some(s) => s,
        None => "?".to_string(),
    };
    let excluded = match get_text(v, "excluded") {
        Some(s) => if text::same(s.as_str(), "otherfs") {
            Excluded::OtherFs
        } else {
            Excluded::Pattern
        },
        None => Excluded::No,
    };
    Item {
        name,
        apparent: get_number(v, "asize"),
        disk: get_number(v, "dsize"),
        dev: get_number(v, "dev"),
        ino: get_number(v, "ino"),
        hlink: get_flag(v, "hlnkc"),
        notreg: get_flag(v, "notreg"),
        read_error: get_flag(v, "read_error"),
        excluded,
    }
}

/// Whether the totals fit after an import is decided along the way up, and by the number of
/// entries.
pub proof fn lemma_import_fits(nodes: Seq<NodeView>, p: int, e: EntryView)
    requires
        tree::fits(nodes),
        0 <= p < nodes.len(),
        0 <= e.apparent <= u64::MAX,
        0 <= e.disk <= u64::MAX,
    ensures
        tree::fits(edit::with_import(nodes, p, e)) == ((tree::entry_counts(e) ==> tree::fits(
            tree::lifted(nodes, p, tree::growth(e.apparent, e.disk)),
        )) && nodes.len() < usize::MAX),
{
    let up = if tree::entry_counts(e) {
        tree::lifted(nodes, p, tree::growth(e.apparent, e.disk))
    } else {
        nodes
    };
    let after = edit::with_import(nodes, p, e);
    assert(after.len() == nodes.len() + 1);
    if tree::fits(up) && nodes.len() < usize::MAX {
        assert forall|i: int| 0 <= i < after.len() implies {
            &&& 0 <= (#[trigger] after[i]).apparent <= u64::MAX
            &&& 0 <= after[i].disk <= u64::MAX
            &&& 0 <= after[i].unscanned <= u32::MAX
        } by {
            if i < nodes.len() {
                assert(0 <= up[i].apparent <= u64::MAX);
            }
        }
    }
    if tree::fits(after) {
        assert forall|i: int| 0 <= i < up.len() implies {
            &&& 0 <= (#[trigger] up[i]).apparent <= u64::MAX
            &&& 0 <= up[i].disk <= u64::MAX
            &&& 0 <= up[i].unscanned <= u32::MAX
        } by {
            assert(0 <= after[i].apparent <= u64::MAX);
        }
    }
}

/// Put an entry under `parent` if the totals have room for it.
fn import_item(
    tree: &mut Tree,
    parent: NodeIdx,
    item: Item,
    kind: NodeKind,
    shared: bool,
) -> (idx: Option<NodeIdx>)
    requires
        old(tree).wf(),
        parent < old(tree).nodes.len(),
    ensures
        final(tree).wf(),
        ({
            let e = EntryView { kind, shared, ..dir_entry(item@) };
            let next = edit::imported(old(tree)@, parent as int, e);
            match idx {
                Some(idx) => {
                    &&& final(tree)@ == next
                    &&& tree::fits(next.nodes)
                    &&& idx == old(tree).nodes.len()
                    &&& final(tree).nodes.len() == old(tree).nodes.len() + 1
                },
                None => !tree::fits(next.nodes) && *final(tree) == *old(tree),
            }
        }),
{
    let ghost before = tree@;
    let ghost e = EntryView { kind, shared, ..dir_entry(item@) };
    proof {
        tree.lemma_view_fits();
        lemma_import_fits(before.nodes, parent as int, e);
    }
    if !shared && item.excluded == Excluded::No && !tree.can_import(
        parent,
        item.apparent,
        item.disk,
    ) {
        return None;
    }
    let idx: usize = tree.import_child(
        parent,
        Name::new(item.name.as_str()),
        kind,
        item.apparent,
        item.disk,
        item.dev,
        item.ino,
        item.hlink,
        shared,
        item.excluded,
        item.read_error,
    );
    proof {
        let given = EntryView { dir_id: None, ..e };
        assert(given == e);
        assert(tree.nodes.len() == tree@.nodes.len());
    }
    Some(idx)
}

broadcast use vstd::std_specs::hash::group_hash_axioms;

/// Put a document under `parent`; `inside` says whether everything above it counts. Returns whether
/// every total fitted.
pub fn add_value(
    tree: &mut Tree,
    parent: NodeIdx,
    v: &Value,
    seen: &mut HashSet<u128>,
    inside: bool,
) -> (done: bool)
    requires
        old(tree).wf(),
        parent < old(tree).nodes.len(),
    ensures
        final(tree).wf(),
        final(tree).nodes.len() >= old(tree).nodes.len(),
        match added(old(tree)@, parent as int, outside::json_of(*v), old(seen)@, inside) {
            Some(after) => done && after == (final(tree)@, final(seen)@),
            None => !done,
        },
    decreases outside::json_of(*v),
{
    let ghost doc = outside::json_of(*v);
    if let Some(arr) = v.as_array() {
        // Directory: [info, children...].
        if arr.len() == 0 {
            return true;
        }
        let item = parse_item(&arr[0]);
        let counts = inside && item.excluded == Excluded::No;
        match import_item(tree, parent, item, NodeKind::Dir, false) {
            Some(idx) => add_children(tree, idx, arr, seen, counts, Ghost(doc)),
            None => false,
        }
    } else {
        let item = parse_item(v);
        let kind = if item.notreg {
            NodeKind::Other
        } else {
            NodeKind::File
        };
        // Re-derive hard-link sharing so imported totals dedupe like a live scan, which sees nothing
        // of what is below an excluded directory.
        let mut shared = false;
        let ghost before = seen@;
        if item.hlink && item.excluded == Excluded::No && inside {
            shared = !seen.insert(scan::inode_key(item.dev, item.ino));
        }
        assert(seen@ =~= seen_after(item@, before, inside));
        match import_item(tree, parent, item, kind, shared) {
            Some(_) => true,
            None => false,
        }
    }
}

/// Put the children of a directory array under `parent`. Returns whether every total fitted.
fn add_children(
    tree: &mut Tree,
    parent: NodeIdx,
    arr: &Vec<Value>,
    seen: &mut HashSet<u128>,
    inside: bool,
    Ghost(doc): Ghost<Json>,
) -> (done: bool)
    requires
        old(tree).wf(),
        parent < old(tree).nodes.len(),
        doc matches Json::Array(items) && items.len() == arr@.len() && forall|k: int|
            0 <= k < items.len() ==> outside::json_of(#[trigger] arr@[k]) == items[k],
    ensures
        final(tree).wf(),
        final(tree).nodes.len() >= old(tree).nodes.len(),
        match added_all(
            old(tree)@,
            parent as int,
            doc->Array_0,
            arr@.len() as int,
            old(seen)@,
            inside,
        ) {
            Some(after) => done && after == (final(tree)@, final(seen)@),
            None => !done,
        },
    decreases doc, 0int,
{
    let ghost items = doc->Array_0;
    let ghost t0 = tree@;
    let ghost s0 = seen@;
    let mut k: usize = 1;
    while k < arr.len()
        invariant
            tree.wf(),
            parent < tree.nodes.len(),
            tree.nodes.len() >= old(tree).nodes.len(),
            doc == Json::Array(items),
            items.len() == arr@.len(),
            forall|k: int|
                0 <= k < items.len() ==> outside::json_of(#[trigger] arr@[k]) == items[k],
            t0 == old(tree)@,
            s0 == old(seen)@,
            1 <= k,
            k <= arr@.len() || arr@.len() == 0,
            added_all(t0, parent as int, items, k as int, s0, inside) == Some((tree@, seen@)),
        decreases arr@.len() - k,
    {
        assert(outside::json_of(arr@[k as int]) == items[k as int]);
        assert(decreases_to!(doc => items[k as int]));
        if !add_value(tree, parent, &arr[k], seen, inside) {
            proof {
                lemma_added_all_none(
                    t0,
                    parent as int,
                    items,
                    k as int + 1,
                    arr@.len() as int,
                    s0,
                    inside,
                );
            }
            return false;
        }
        k += 1;
    }
    true
}

/// What does not fit does not fit later.
proof fn lemma_added_all_none(
    t: TreeView,
    p: int,
    items: Seq<Json>,
    k: int,
    n: int,
    seen: Set<u128>,
    inside: bool,
)
    requires
        1 <= k <= n <= items.len(),
        added_all(t, p, items, k, seen, inside) is None,
    ensures
        added_all(t, p, items, n, seen, inside) is None,
    decreases n,
{
    if k < n {
        lemma_added_all_none(t, p, items, k, n - 1, seen, inside);
    }
}

/// Why a dump could not be read.
pub enum DumpError {
    /// The text is not JSON; with what is wrong with it.
    Json(String),
    /// The document is no dump.
    Refused(Refusal),
}

impl DumpError {
    /// What is said to the user.
    pub fn message(&self) -> (m: String)
        ensures
            m@ == match *self {
                DumpError::Json(why) => "invalid JSON: "@ + why@,
                DumpError::Refused(
                    Refusal::TopLevel,
                ) => "top level must be an array [major, minor, meta, root]"@,
                DumpError::Refused(Refusal::MissingRoot) => "missing root element (index 3)"@,
                DumpError::Refused(Refusal::RootNotDirectory) => "root must be a directory array"@,
                DumpError::Refused(Refusal::EmptyRoot) => "empty root directory"@,
                DumpError::Refused(Refusal::TooLarge) => "sizes too large to add up"@,
            },
    {
        match self {
            DumpError::Json(why) => text::joined("invalid JSON: ", why.as_str()),
            DumpError::Refused(why) => match why {
                Refusal::TopLevel =>
                "top level must be an array [major, minor, meta, root]".to_string(),
                Refusal::MissingRoot => "missing root element (index 3)".to_string(),
                Refusal::RootNotDirectory => "root must be a directory array".to_string(),
                Refusal::EmptyRoot => "empty root directory".to_string(),
                Refusal::TooLarge => "sizes too large to add up".to_string(),
            },
        }
    }
}

/// The tree that a parsed document stands for.
pub fn import_value(v: &Value) -> (made: Result<Tree, Refusal>)
    ensures
        match tree_of(outside::json_of(*v)) {
            Ok(t) => made is Ok && made->Ok_0@ == t && made->Ok_0.wf(),
            Err(why) => made is Err && made->Err_0 == why,
        },
{
    let top = match v.as_array() {
        Some(top) => top,
        None => {
            return Err(Refusal::TopLevel);
        },
    };
    if top.len() <= 3 {
        return Err(Refusal::MissingRoot);
    }
    // The root must be a directory array: [info, children...].
    let root_val = &top[3];
    let ghost doc = outside::json_of(*root_val);
    let arr = match root_val.as_array() {
        Some(arr) => arr,
        None => {
            return Err(Refusal::RootNotDirectory);
        },
    };
    if arr.len() == 0 {
        return Err(Refusal::EmptyRoot);
    }
    let item = parse_item(&arr[0]);
    let mut tree = Tree::new_imported(
        Name::new(item.name.as_str()),
        item.apparent,
        item.disk,
        item.dev,
        item.ino,
    );
    // Dedup hard links during import too, so totals match a live scan.
    let mut seen: HashSet<u128> = HashSet::new();
    assert(seen@ =~= Set::empty());
    if add_children(&mut tree, 0, arr, &mut seen, true, Ghost(doc)) {
        Ok(tree)
    } else {
        Err(Refusal::TooLarge)
    }
}

/// Read a dump.
pub fn import(bytes: &[u8]) -> (made: Result<Tree, DumpError>)
    ensures
        match outside::json_parse(bytes@) {
            Ok(v) => match tree_of(v) {
                Ok(t) => made is Ok && made->Ok_0@ == t && made->Ok_0.wf(),
                Err(why) => made is Err && made->Err_0 == DumpError::Refused(why),
            },
            Err(why) => made is Err && made->Err_0 is Json && made->Err_0->Json_0@ == why,
        },
        forall|s: Seq<char>, d: Doc|
            vstd::utf8::encode_utf8(s + seq!['\n']) == bytes@ && #[trigger] json::spells(s, d)
                && json::depth(d) <= outside::max_depth() ==> match tree_of(json::meaning(d)) {
                Ok(t) => made is Ok && made->Ok_0@ == t,
                Err(why) => made is Err && made->Err_0 == DumpError::Refused(why),
            },
        forall|d: Doc| #[trigger]
            vstd::utf8::encode_utf8(json::rendered(d) + seq!['\n']) == bytes@ && json::depth(d)
                <= outside::max_depth() ==> match tree_of(json::meaning(d)) {
                Ok(t) => made is Ok && made->Ok_0@ == t,
                Err(why) => made is Err && made->Err_0 == DumpError::Refused(why),
            },
{
    proof {
        assert forall|d: Doc| json::spells(#[trigger] json::rendered(d), d) by {
            json::law_documents_come_back(d);
        }
    }
    let v = match outside::parse_json(bytes) {
        Ok(v) => v,
        Err(why) => {
            return Err(DumpError::Json(why));
        },
    };
    match import_value(&v) {
        Ok(tree) => Ok(tree),
        Err(why) => Err(DumpError::Refused(why)),
    }
}

} // verus!
