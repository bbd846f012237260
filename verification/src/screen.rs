//! What the screen says, told by the entries that it speaks of.
use vstd::prelude::*;

use crate::clock;
use crate::edit;
use crate::info;
use crate::info::DiskInfo;
use crate::model::{Excluded, NodeKind};
use crate::size;
use crate::state;
use crate::state::{AppView, SortKey, TopView};
use crate::text;
use crate::tree::NodeView;
use crate::ui;
use crate::ui::Tone;
use crate::words;

verus! {

/// The size of an entry with all that counts below, in the metric that is on.
pub open spec fn total_of(a: AppView, i: int) -> int {
    if a.disk_usage {
        a.tree.nodes[i].disk
    } else {
        a.tree.nodes[i].apparent
    }
}

/// Which character marks which entries: `!` those that could not be read, else `<` those that are left
/// out, else `H` those that count elsewhere, else directories `/`, links `@`, special files `*` and
/// regular files none.
pub proof fn law_marks_tell_entries_apart(n: NodeView)
    ensures
        ({
            let mark = info::indicator_char(
                n.kind,
                n.shared,
                n.excluded != Excluded::No,
                n.read_error,
            );
            let counts = !n.read_error && n.excluded == Excluded::No && !n.shared;
            &&& mark == '!' <==> n.read_error
            &&& mark == '<' <==> !n.read_error && n.excluded != Excluded::No
            &&& mark == 'H' <==> !n.read_error && n.excluded == Excluded::No && n.shared
            &&& mark == '/' <==> counts && n.kind == NodeKind::Dir
            &&& mark == '@' <==> counts && n.kind == NodeKind::Link
            &&& mark == '*' <==> counts && n.kind == NodeKind::Other
            &&& mark == ' ' <==> counts && n.kind == NodeKind::File
        }),
{
}

/// A row of the list shows the entry at its place: its mark, its name, what is being done to it, and its
/// size, as number and as text.
pub proof fn law_rows_show_their_entries(a: AppView, p: int)
    requires
        0 <= p < state::shown(a).len(),
    ensures
        ({
            let list = ui::list_view(a);
            let k = state::shown(a)[p];
            let n = a.tree.nodes[k as int];
            let row = list.rows[p];
            let busy = a.refreshing_idx == Some(k) || (a.deleting is Some && a.deleting.unwrap().0
                == k);
            let marked = seq![
                info::indicator_char(
                    n.kind,
                    n.shared,
                    n.excluded != Excluded::No,
                    n.read_error,
                ),
            ] + n.name;
            &&& list.rows.len() == state::shown(a).len()
            &&& row.size == total_of(a, k as int)
            &&& size::size_text(total_of(a, k as int)).push(' ').is_suffix_of(row.amount.text)
            &&& marked.is_prefix_of(row.label.text)
            &&& !busy && n.excluded == Excluded::No ==> row.label.text == marked
            &&& !busy && n.excluded == Excluded::OtherFs ==> row.label.text == marked
                + "  <other filesystem>"@
            &&& !busy && (n.excluded == Excluded::Pattern || n.excluded == Excluded::Age)
                ==> row.label.text == marked + "  <excluded>"@
            &&& a.deleting is Some && a.deleting.unwrap().0 == k ==> " deleting…]"@.is_suffix_of(
                row.label.text,
            )
        }),
{
    let k = state::shown(a)[p];
    let n = a.tree.nodes[k as int];
    let row = ui::list_view(a).rows[p];
    assert(row == ui::list_row(a, k));
    let size = size::size_text(total_of(a, k as int));
    reveal_strlit(" ");
    assert(size.push(' ') =~= size + " "@);
    let padded = text::pad_left(size, 10, ' ');
    text::law_padding_keeps_the_text(size, 10, ' ');
    assert(row.amount.text =~= padded + " "@);
    assert(size.push(' ') =~= row.amount.text.subrange(
        row.amount.text.len() - size.len() - 1,
        row.amount.text.len() as int,
    ));
    let marked = seq![
        info::indicator_char(n.kind, n.shared, n.excluded != Excluded::No, n.read_error),
    ] + n.name;
    assert(row.label.text =~= marked + ui::row_suffix(a, k));
    assert(marked =~= row.label.text.subrange(0, marked.len() as int));
    if a.deleting is Some && a.deleting.unwrap().0 == k {
        let end = " deleting…]"@;
        let t = row.label.text;
        assert(end =~= t.subrange(t.len() - end.len(), t.len() as int));
    }
}

proof fn lemma_largest(a: AppView, kids: Seq<usize>)
    ensures
        forall|p: int|
            0 <= p < kids.len() ==> total_of(a, #[trigger] kids[p] as int) <= ui::largest_of(a, kids),
        ui::largest_of(a, kids) <= 0 || exists|p: int|
            0 <= p < kids.len() && total_of(a, #[trigger] kids[p] as int) == ui::largest_of(a, kids),
    decreases kids.len(),
{
    if kids.len() > 0 {
        let less = kids.drop_last();
        lemma_largest(a, less);
        assert forall|p: int| 0 <= p < kids.len() implies total_of(a, #[trigger] kids[p] as int)
            <= ui::largest_of(a, kids) by {
            if p < less.len() {
                assert(less[p] == kids[p]);
            }
        }
        if ui::largest_of(a, kids) > 0 {
            if total_of(a, kids.last() as int) > ui::largest_of(a, less) {
                assert(kids[kids.len() - 1] == kids.last());
            } else {
                let p = choose|p: int|
                    0 <= p < less.len() && total_of(a, #[trigger] less[p] as int) == ui::largest_of(
                        a,
                        less,
                    );
                assert(kids[p] == less[p]);
            }
        }
    }
}

/// Bars and percentages are measured against the largest row and against all of the viewed directory,
/// and the row that is marked as selected is that of the selected entry.
pub proof fn law_rows_are_measured(a: AppView, p: int)
    requires
        0 <= p < state::shown(a).len(),
    ensures
        ({
            let list = ui::list_view(a);
            &&& list.rows[p].size <= list.largest
            &&& list.largest == 1 || exists|q: int|
                0 <= q < list.rows.len() && (#[trigger] list.rows[q]).size == list.largest
            &&& list.largest >= 1
            &&& total_of(a, a.cur as int) >= 1 ==> list.total == total_of(a, a.cur as int)
            &&& total_of(a, a.cur as int) < 1 ==> list.total == 1
            &&& a.selected is None ==> list.selected is None
            &&& list.selected is Some ==> {
                &&& 0 <= list.selected->0 < state::shown(a).len()
                &&& a.selected == Some(state::shown(a)[list.selected->0])
            }
            &&& a.selected == Some(state::shown(a)[p]) ==> list.selected is Some
        }),
{
    let kids = state::shown(a);
    let list = ui::list_view(a);
    lemma_largest(a, kids);
    assert(list.rows[p] == ui::list_row(a, kids[p]));
    assert(total_of(a, kids[p] as int) <= ui::largest_of(a, kids));
    if ui::largest_of(a, kids) > 0 {
        let q = choose|q: int|
            0 <= q < kids.len() && total_of(a, #[trigger] kids[q] as int) == ui::largest_of(a, kids);
        assert(list.rows[q] == ui::list_row(a, kids[q]));
    }
    if a.selected is Some {
        lemma_position_is(kids, a.selected->0);
        if a.selected == Some(kids[p]) {
            assert(kids.contains(kids[p]));
        }
    }
}

proof fn lemma_position_is(kids: Seq<usize>, k: usize)
    ensures
        match state::position(kids, k) {
            Some(p) => 0 <= p < kids.len() && kids[p] == k,
            None => !kids.contains(k),
        },
    decreases kids.len(),
{
    if kids.len() > 0 && kids[0] != k {
        let rest = kids.skip(1);
        lemma_position_is(rest, k);
        if state::position(rest, k) is None && kids.contains(k) {
            let p = choose|p: int| 0 <= p < kids.len() && kids[p] == k;
            assert(rest[p - 1] == k);
        }
    }
}

/// The title of the list counts the rows, and under a filter also the entries of the directory.
pub proof fn law_titles_count(a: AppView)
    ensures
        ({
            let title = ui::list_view(a).title;
            let rows = state::shown(a).len();
            let all = a.tree.nodes[a.cur as int].children.len();
            &&& all > 0 && a.filter is None ==> title == " "@ + text::decimal(rows) + " items "@
            &&& all > 0 && a.filter is Some ==> title == " "@ + text::decimal(rows) + " of "@
                + text::decimal(all) + " items "@
            &&& all == 0 && !a.scanning ==> title == " (empty) "@
        }),
{
}

/// The top of the screen names the viewed directory, and says how much there is in the metric that is on.
pub proof fn law_the_header_speaks_of_the_viewed_directory(a: AppView)
    ensures
        ({
            let cur = a.cur as int;
            let lines = ui::header(a);
            &&& lines.len() == 2
            &&& lines[0].last().text == edit::path(a.tree.nodes, cur)
            &&& a.disk_usage ==> lines[1][0].text == "  total: "@ + ui::short_size(
                a.tree.nodes[cur].disk,
            ) + "  ("@ + "disk usage"@ + ")   own: "@ + ui::short_size(
                edit::own_disk(a.tree.nodes, cur),
            )
            &&& !a.disk_usage ==> lines[1][0].text == "  total: "@ + ui::short_size(
                a.tree.nodes[cur].apparent,
            ) + "  ("@ + "apparent"@ + ")   own: "@ + ui::short_size(
                edit::own_apparent(a.tree.nodes, cur),
            )
        }),
{
}

/// The question before a deletion names the path, and says how much goes with it.
pub proof fn law_the_question_names_what_goes(a: AppView, i: int)
    ensures
        ({
            let n = a.tree.nodes[i];
            let size = ui::short_size(total_of(a, i));
            &&& n.kind == NodeKind::Dir ==> ui::removal(a, i) == "directory and ALL its contents ("@
                + size + ")"@
            &&& n.kind != NodeKind::Dir ==> ui::removal(a, i) == "file ("@ + size + ")"@
            &&& ui::confirmation(a, i)[2] == ui::plain_lines("  "@ + edit::path(a.tree.nodes, i))
            &&& ui::confirmation(a, i)[3][0].text == "  This removes the "@ + ui::removal(a, i)
                + " from disk."@
        }),
{
}

/// The row of a file in the top-files popup: its size and its path.
pub proof fn law_top_rows_say_size_and_path(row: TopView)
    ensures
        ui::top_line(row).len() == 2,
        ui::top_line(row)[0].text == text::pad_left(size::size_text(row.size), 10, ' ') + "  "@,
        ui::top_line(row)[1].text == row.path,
{
}

/// What the bottom line says: a message before anything else, then the filter that is being typed, then
/// what is being deleted, and else how rows are sorted and how the scan goes.
pub proof fn law_the_footer_says_the_most_important_thing(a: AppView, rate: Option<int>)
    ensures
        ({
            let line = ui::footer(a, rate);
            let q = a.filter->0;
            &&& a.status is Some ==> line.len() == 1 && line[0].text == " "@ + a.status->0
            &&& a.status is None && a.searching && a.filter is Some ==> line.len() == 3
                && line[1].text == " /"@ + q + "▌"@
            &&& a.status is None && !a.searching && a.deleting is Some ==> line.len() == 3
                && line[2].text == ui::spinner_text(a.tick as int) + " deleting "@
                + a.tree.nodes[a.deleting.unwrap().0 as int].name + " …"@
            &&& a.status is None && !a.searching && a.deleting is None ==> {
                let sort = match a.sort {
                    SortKey::Size => "size"@,
                    SortKey::Name => "name"@,
                };
                let counts = "  "@ + text::decimal(a.tree.total_dirs as nat) + " dirs  "@
                    + text::decimal(a.tree.total_files as nat) + " files"@;
                let start = " ? help  d delete  s sort:"@ + sort + "  a usage  q quit"@;
                &&& line.len() == 1
                &&& !a.scanning && a.filter is None && a.refreshing_idx is None ==> line[0].text
                    == start + Seq::<char>::empty() + "   │   "@ + ("done"@ + counts)
                    + Seq::<char>::empty()
                &&& !a.scanning && a.filter is Some && a.refreshing_idx is None ==> line[0].text
                    == start + ("  │  /"@ + q + " ("@ + text::decimal(state::shown(a).len()) + "/"@
                    + text::decimal(a.tree.nodes[a.cur as int].children.len()) + ")"@) + "   │   "@
                    + ("done"@ + counts) + Seq::<char>::empty()
            }
        }),
{
}

/// The spinner turns: one frame for each tick, four of them, and then the first again.
pub proof fn law_the_spinner_turns(tick: int)
    ensures
        ui::spinner_text(tick + 4) == ui::spinner_text(tick),
        ui::spinner_text(tick).len() == 1,
        ui::spinner_text(tick + 1) != ui::spinner_text(tick),
        ui::spinner_text(tick + 2) != ui::spinner_text(tick),
{
    reveal_strlit("|");
    reveal_strlit("/");
    reveal_strlit("-");
    reveal_strlit("\\");
    assert(ui::spinner_text(tick)[0] != ui::spinner_text(tick + 1)[0]);
    assert(ui::spinner_text(tick)[0] != ui::spinner_text(tick + 2)[0]);
}

/// A bar takes its width, and is filled from the left.
pub proof fn law_bars_fill_from_the_left(filled: int, width: int, k: int)
    requires
        0 <= k < width,
    ensures
        ui::bar_text(filled, width).len() == width,
        k < filled ==> ui::bar_text(filled, width)[k] == '#',
        k >= filled ==> ui::bar_text(filled, width)[k] == ' ',
{
}

/// A size within a sentence has no blanks before it, and nothing else is taken off it.
pub proof fn law_short_sizes_have_no_padding(bytes: int)
    ensures
        ui::short_size(bytes).is_suffix_of(size::size_text(bytes)),
        ui::short_size(bytes).len() > 0 && ui::short_size(bytes)[0] != ' ',
{
    let s = size::size_text(bytes);
    let i = words::lemma_start_cut(s);
    assert(s.skip(i) =~= s.subrange(s.len() - s.skip(i).len(), s.len() as int));
    reveal_strlit("  B");
    reveal_strlit("KiB");
    reveal_strlit("MiB");
    reveal_strlit("GiB");
    reveal_strlit("TiB");
    reveal_strlit("PiB");
    assert(s[s.len() - 1] == 'B');
    assert(!words::is_white('B'));
}

/// Text that is wrapped takes as many rows as it fills, and at least one.
pub proof fn law_wrapped_text_takes_the_rows_it_fills(columns: int, width: int)
    requires
        0 <= columns <= 65_535,
        1 <= width,
    ensures
        ({
            let rows = ui::wrapped_rows(columns, width);
            &&& rows >= 1
            &&& columns <= rows * width
            &&& rows > 1 ==> (rows - 1) * width < columns
        }),
{
    let c = ui::at_least_one(columns);
    let q = (c + width - 1) / width;
    assert(q * width <= c + width - 1 && c + width - 1 < (q + 1) * width) by (nonlinear_arith)
        requires
            q == (c + width - 1) / width,
            width >= 1,
            c >= 1,
    ;
    assert((q + 1) * width == q * width + width) by (nonlinear_arith);
    assert((q - 1) * width == q * width - width) by (nonlinear_arith);
    assert(1 <= q <= c) by (nonlinear_arith)
        requires
            q * width <= c + width - 1,
            c + width - 1 < (q + 1) * width,
            width >= 1,
            c >= 1,
    ;
    assert(q % 65536 == q);
}

/// A value stands behind a label in the info popup.
pub open spec fn says(rows: Seq<(Seq<char>, Seq<char>)>, label: Seq<char>, value: Seq<char>) -> bool {
    rows.contains((label, value))
}

/// What the info popup says of every entry: its path, what it is, and its sizes in the metric that is on.
pub proof fn law_info_speaks_of_the_entry(a: AppView, i: int, disk: Option<DiskInfo>)
    ensures
        ({
            let n = a.tree.nodes[i];
            let rows = info::info_rows(a, i, disk);
            let own = if a.disk_usage {
                edit::own_disk(a.tree.nodes, i)
            } else {
                edit::own_apparent(a.tree.nodes, i)
            };
            &&& says(rows, "path"@, edit::path(a.tree.nodes, i))
            &&& n.kind == NodeKind::Dir ==> says(rows, "type"@, "directory"@)
            &&& n.kind == NodeKind::File ==> says(rows, "type"@, "file"@)
            &&& n.kind == NodeKind::Link ==> says(rows, "type"@, "symlink"@)
            &&& n.kind == NodeKind::Other ==> says(rows, "type"@, "special"@)
            &&& says(rows, "total size"@, ui::short_size(total_of(a, i)))
            &&& says(rows, "own size"@, ui::short_size(own))
        }),
{
    let n = a.tree.nodes[i];
    let rows = info::info_rows(a, i, disk);
    assert(rows[0] == info::basic_rows(a, i)[0]);
    assert(rows[1] == info::basic_rows(a, i)[1]);
    assert(rows[2] == info::basic_rows(a, i)[2]);
    assert(rows[3] == info::basic_rows(a, i)[3]);
}

/// What the info popup says only where there is reason to: how many entries a directory has, that an
/// entry is a hard link, that it counts elsewhere, why it is left out, and that it could not be read.
pub proof fn law_info_says_what_is_special(n: NodeView)
    ensures
        ({
            let rows = info::special_rows(n);
            let one = |b: bool|
                if b {
                    1int
                } else {
                    0
                };
            let dir = one(n.kind == NodeKind::Dir);
            let links = dir + one(n.hlink);
            let shared = links + one(n.shared);
            let out = shared + one(n.excluded != Excluded::No);
            let error = out + one(n.read_error);
            &&& rows.len() == error
            &&& n.kind == NodeKind::Dir ==> rows[0] == ("entries"@, text::decimal(n.children.len()))
            &&& n.hlink ==> rows[dir] == ("hard links"@, "yes"@)
            &&& n.shared ==> rows[links] == ("duplicate"@, "hard link already counted elsewhere"@)
            &&& n.excluded == Excluded::Pattern ==> rows[shared] == (
                "excluded"@,
                "matched --exclude pattern"@,
            )
            &&& n.excluded == Excluded::OtherFs ==> rows[shared] == (
                "excluded"@,
                "different filesystem (-x)"@,
            )
            &&& n.excluded == Excluded::Age ==> rows[shared] == (
                "excluded"@,
                "outside the --older-than/--newer-than window"@,
            )
            &&& n.read_error ==> rows[out] == ("read error"@, "yes"@)
        }),
{
}

/// What the info popup says of a look at the disk: the permission bits in octal, owner and group, the
/// time of the last change, the inode and the links to it; and if there is nothing, that it says so.
pub proof fn law_info_says_what_is_on_disk(a: AppView, i: int, m: DiskInfo)
    ensures
        ({
            let rows = info::info_rows(a, i, Some(m));
            let last = rows.len() as int;
            &&& last >= 5
            &&& rows[last - 5] == ("permissions"@, text::octal((m.mode as int % 0x1000) as nat))
            &&& rows[last - 4] == (
                "owner"@,
                text::decimal(m.uid as nat) + ":"@ + text::decimal(m.gid as nat),
            )
            &&& rows[last - 3] == ("modified"@, clock::time_text(m.mtime as int))
            &&& rows[last - 2] == ("inode"@, text::decimal(m.ino as nat))
            &&& rows[last - 1] == ("links"@, text::decimal(m.nlink as nat))
            &&& info::info_rows(a, i, None).last().0 == "on disk"@
        }),
{
}

/// A width is kept within its bounds, and changed only where it is beyond one of them.
pub proof fn law_widths_are_kept_within_bounds(x: int, low: int, high: int)
    requires
        low <= high,
    ensures
        low <= ui::clamped(x, low, high) <= high,
        low <= x <= high ==> ui::clamped(x, low, high) == x,
        x < low ==> ui::clamped(x, low, high) == low,
        x > high ==> ui::clamped(x, low, high) == high,
{
}

/// How entries look: what is being deleted or rescanned stands out; then what could not be read or is left
/// out, then what counts elsewhere; and else directories, links and special files.
pub proof fn law_entries_look_like_what_they_are(a: AppView, k: usize)
    ensures
        ({
            let n = a.tree.nodes[k as int];
            let tone = ui::row_tone(a, k);
            let deleting = a.deleting is Some && a.deleting.unwrap().0 == k;
            let rescanning = !deleting && a.refreshing_idx == Some(k);
            let resting = !deleting && !rescanning;
            let dim = n.read_error || n.excluded != Excluded::No;
            &&& deleting ==> tone == Tone::Danger
            &&& rescanning ==> tone == Tone::Busy
            &&& resting && dim ==> tone == Tone::Dim
            &&& resting && !dim && n.shared ==> tone == Tone::DimItalic
            &&& resting && !dim && !n.shared ==> {
                &&& n.kind == NodeKind::Dir <==> tone == Tone::Directory
                &&& n.kind == NodeKind::Link <==> tone == Tone::Link
                &&& n.kind == NodeKind::Other <==> tone == Tone::Special
                &&& n.kind == NodeKind::File <==> tone == Tone::Plain
            }
        }),
{
}

/// The top-files popup has a row for each item and five more, as far as there is room with a row above
/// and one below; and never less than seven rows.
pub proof fn law_the_popup_has_room_for_its_items(items: int, screen: int)
    requires
        0 <= items,
    ensures
        ({
            let rows = ui::rows_taken(items, screen);
            &&& rows >= 7
            &&& rows <= screen - 2 || rows == 7
            &&& 7 <= items + 5 <= screen - 2 ==> rows == items + 5
            &&& items + 5 > screen - 2 && screen - 2 >= 7 ==> rows == screen - 2
        }),
{
}

/// A page of the list is what two lines on top, one at the bottom and the two borders leave of the
/// screen, and at least one row.
pub proof fn law_a_page_is_what_is_left_of_the_screen(screen: int)
    ensures
        ui::rows_left(screen) >= 1,
        screen >= 6 ==> ui::rows_left(screen) + 2 + 1 + 2 == screen,
{
}

} // verus!
