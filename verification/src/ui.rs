//! What is drawn, ncdu-style: a sorted list of the current directory's children, each with a type
//! indicator; a header, a footer, and modal overlays. Everything here is text with a tone for each
//! piece; the terminal gives the tones their colours.
use vstd::prelude::*;

use crate::app::App;
use crate::edit;
use crate::info;
use crate::model::{Excluded, Node, NodeIdx, NodeKind};
use crate::outside;
use crate::outside::Area;
use crate::rows;
use crate::size;
use crate::state;
use crate::state::{AppView, SortKey, TopView};
use crate::text;
use crate::top;
use crate::top::TopFiles;
use crate::tree;
use crate::tree::NodeView;
use crate::words;

verus! {

/// How a piece of text looks.
#[derive(Clone, Copy, PartialEq, Eq, Structural, Debug)]
pub enum Tone {
    Plain,
    /// The program's own name.
    Brand,
    Bold,
    Italic,
    /// A size.
    Size,
    /// Something of little weight.
    Dim,
    DimItalic,
    /// The label of a value.
    Label,
    Directory,
    Link,
    Special,
    /// Being worked on.
    Busy,
    /// Being removed, or about to be.
    Danger,
    /// Hints for the keys.
    Hint,
    /// A message that must not be missed.
    Warning,
    /// What the input goes to.
    Badge,
}

/// A piece of text in one tone.
pub struct Span {
    pub text: String,
    pub tone: Tone,
}

#[verifier::ext_equal]
pub struct SpanView {
    pub text: Seq<char>,
    pub tone: Tone,
}

impl View for Span {
    type V = SpanView;

    open spec fn view(&self) -> SpanView {
        SpanView { text: self.text@, tone: self.tone }
    }
}

/// One line of text.
pub struct Line {
    pub spans: Vec<Span>,
}

impl View for Line {
    type V = Seq<SpanView>;

    open spec fn view(&self) -> Seq<SpanView> {
        self.spans@.map_values(|s: Span| s@)
    }
}

pub open spec fn line_views(lines: Seq<Line>) -> Seq<Seq<SpanView>> {
    lines.map_values(|l: Line| l@)
}

pub open spec fn span(text: Seq<char>, tone: Tone) -> SpanView {
    SpanView { text, tone }
}

impl Line {
    /// A line with nothing on it.
    fn blank() -> (line: Line)
        ensures
            line@ == Seq::<SpanView>::empty(),
    {
        let line = Line { spans: Vec::new() };
        assert(line@ =~= Seq::empty());
        line
    }

    /// The line with one more piece.
    fn with(self, text: &str, tone: Tone) -> (line: Line)
        ensures
            line@ == self@.push(span(text@, tone)),
    {
        let ghost had = self@;
        let mut spans = self.spans;
        spans.push(Span { text: text.to_string(), tone });
        let line = Line { spans };
        assert(line@ =~= had.push(span(text@, tone)));
        line
    }
}

/// A line of one piece.
fn one(text: &str, tone: Tone) -> (line: Line)
    ensures
        line@ == seq![span(text@, tone)],
{
    let line = Line::blank().with(text, tone);
    assert(line@ =~= seq![span(text@, tone)]);
    line
}

/// One more line.
fn add_line(lines: &mut Vec<Line>, line: Line)
    ensures
        line_views(final(lines)@) == line_views(old(lines)@).push(line@),
{
    let ghost had = lines@;
    lines.push(line);
    assert(line_views(lines@) =~= line_views(had).push(line@));
}

// ---- Small pieces ---------------------------------------------------------------------------------

/// A size without the padding in front.
pub open spec fn short_size(bytes: int) -> Seq<char> {
    words::trimmed_start(size::size_text(bytes))
}

fn fmt_short(bytes: u64) -> (out: String)
    ensures
        out@ == short_size(bytes as int),
{
    let padded = size::fmt_size(bytes);
    words::trim_start(padded.as_str())
}

/// The frame of the spinner.
pub open spec fn spinner_text(tick: int) -> Seq<char> {
    if tick % 4 == 0 {
        "|"@
    } else if tick % 4 == 1 {
        "/"@
    } else if tick % 4 == 2 {
        "-"@
    } else {
        "\\"@
    }
}

fn spinner(tick: usize) -> (frame: &'static str)
    ensures
        frame@ == spinner_text(tick as int),
{
    let phase: usize = tick % 4;
    if phase == 0 {
        "|"
    } else if phase == 1 {
        "/"
    } else if phase == 2 {
        "-"
    } else {
        "\\"
    }
}

/// A bar of a given width, filled as far as it goes.
pub open spec fn bar_text(filled: int, width: int) -> Seq<char> {
    Seq::new(
        width as nat,
        |k: int|
            if k < filled {
                '#'
            } else {
                ' '
            },
    )
}

/// A bar of a given width, filled as far as it goes.
pub fn bar(filled: usize, width: usize) -> (out: String)
    ensures
        out@ == bar_text(filled as int, width as int),
{
    let mut out = String::new();
    let mut k: usize = 0;
    while k < width
        invariant
            k <= width,
            out@ == bar_text(filled as int, width as int).take(k as int),
        decreases width - k,
    {
        if k < filled {
            out.push('#');
        } else {
            out.push(' ');
        }
        k += 1;
        assert(out@ =~= bar_text(filled as int, width as int).take(k as int));
    }
    assert(out@ =~= bar_text(filled as int, width as int));
    out
}

// ---- Header ---------------------------------------------------------------------------------------

/// The name of the metric that is shown.
pub open spec fn metric_name(disk_usage: bool) -> Seq<char> {
    if disk_usage {
        "disk usage"@
    } else {
        "apparent"@
    }
}

/// The two lines on top: where we are, and how much is there.
pub open spec fn header(a: AppView) -> Seq<Seq<SpanView>> {
    let cur = a.cur as int;
    seq![
        seq![
            span("rcdu"@, Tone::Brand),
            span("  "@, Tone::Plain),
            span(edit::path(a.tree.nodes, cur), Tone::Bold),
        ],
        seq![
            span(
                "  total: "@ + short_size(state::shown_size(a.tree.nodes[cur], a.disk_usage)) + "  ("@
                    + metric_name(a.disk_usage) + ")   own: "@ + short_size(info::own_size(a, cur)),
                Tone::Plain,
            ),
        ],
    ]
}

/// The two lines on top: where we are, and how much is there.
pub fn header_lines(app: &App) -> (lines: Vec<Line>)
    requires
        app.wf(),
    ensures
        line_views(lines@) == header(app@),
{
    proof {
        reveal(state::valid);
    }
    let path = app.tree.path_of(app.cur);
    let metric = if app.disk_usage {
        "disk usage"
    } else {
        "apparent"
    };
    let first = Line::blank().with("rcdu", Tone::Brand).with("  ", Tone::Plain).with(
        path.as_str(),
        Tone::Bold,
    );
    let mut totals = text::joined("  total: ", fmt_short(app.size_of(app.cur)).as_str());
    totals.append("  (");
    totals.append(metric);
    totals.append(")   own: ");
    totals.append(fmt_short(app.own_size_of(app.cur)).as_str());
    let second = one(totals.as_str(), Tone::Plain);
    let mut lines: Vec<Line> = Vec::new();
    add_line(&mut lines, first);
    add_line(&mut lines, second);
    proof {
        let want = header(app@);
        assert(line_views(lines@)[0] =~= want[0]);
        assert(line_views(lines@)[1] =~= want[1]);
        assert(line_views(lines@) =~= want);
    }
    lines
}

// ---- List -----------------------------------------------------------------------------------------

/// One row of the list: the size to measure by, the size as it is shown, and the entry itself. The
/// bar and the percentage go between the two.
pub struct Row {
    pub size: u64,
    pub amount: Span,
    pub label: Span,
}

#[verifier::ext_equal]
pub struct RowView {
    pub size: int,
    pub amount: SpanView,
    pub label: SpanView,
}

impl View for Row {
    type V = RowView;

    open spec fn view(&self) -> RowView {
        RowView { size: self.size as int, amount: self.amount@, label: self.label@ }
    }
}

/// The list of the viewed directory.
pub struct Listing {
    pub title: String,
    pub rows: Vec<Row>,
    /// The position of the selected row.
    pub selected: Option<usize>,
    /// What the percentages are of: the size of the directory, and at least one byte.
    pub total: u64,
    /// What the bars are measured by: the size of the largest row, and at least one byte.
    pub largest: u64,
}

#[verifier::ext_equal]
pub struct ListingView {
    pub title: Seq<char>,
    pub rows: Seq<RowView>,
    pub selected: Option<int>,
    pub total: int,
    pub largest: int,
}

pub open spec fn row_views(rows: Seq<Row>) -> Seq<RowView> {
    rows.map_values(|r: Row| r@)
}

impl View for Listing {
    type V = ListingView;

    open spec fn view(&self) -> ListingView {
        ListingView {
            title: self.title@,
            rows: row_views(self.rows@),
            selected: match self.selected {
                Some(p) => Some(p as int),
                None => None,
            },
            total: self.total as int,
            largest: self.largest as int,
        }
    }
}

pub open spec fn at_least_one(size: int) -> int {
    if size < 1 {
        1
    } else {
        size
    }
}

/// The tone of an entry that nothing is being done to.
pub open spec fn resting_tone(n: NodeView) -> Tone {
    if n.read_error || n.excluded != Excluded::No {
        Tone::Dim
    } else if n.shared {
        Tone::DimItalic
    } else {
        match n.kind {
            NodeKind::Dir => Tone::Directory,
            NodeKind::Link => Tone::Link,
            NodeKind::Other => Tone::Special,
            NodeKind::File => Tone::Plain,
        }
    }
}

/// The tone of an entry: one that is being deleted or rescanned stands out.
pub open spec fn row_tone(a: AppView, k: usize) -> Tone {
    if state::deleting_idx(a) == Some(k) {
        Tone::Danger
    } else if a.refreshing_idx == Some(k) {
        Tone::Busy
    } else {
        resting_tone(a.tree.nodes[k as int])
    }
}

/// What stands behind the name of an entry.
pub open spec fn row_suffix(a: AppView, k: usize) -> Seq<char> {
    if state::deleting_idx(a) == Some(k) {
        "  ["@ + spinner_text(a.tick as int) + " deleting…]"@
    } else if a.refreshing_idx == Some(k) {
        "  ["@ + spinner_text(a.tick as int) + " rescanning…]"@
    } else {
        match a.tree.nodes[k as int].excluded {
            Excluded::OtherFs => "  <other filesystem>"@,
            Excluded::Pattern => "  <excluded>"@,
            Excluded::Age => "  <excluded>"@,
            Excluded::No => Seq::empty(),
        }
    }
}

/// One row of the list.
pub open spec fn list_row(a: AppView, k: usize) -> RowView {
    let n = a.tree.nodes[k as int];
    let size = state::shown_size(n, a.disk_usage);
    let mark = info::indicator_char(n.kind, n.shared, n.excluded != Excluded::No, n.read_error);
    RowView {
        size,
        amount: span(text::pad_left(size::size_text(size), 10, ' ') + " "@, Tone::Size),
        label: span(seq![mark] + n.name + row_suffix(a, k), row_tone(a, k)),
    }
}

pub open spec fn list_rows(a: AppView, kids: Seq<usize>) -> Seq<RowView> {
    kids.map_values(|k: usize| list_row(a, k))
}

/// The size of the largest of some entries.
pub open spec fn largest_of(a: AppView, kids: Seq<usize>) -> int
    decreases kids.len(),
{
    if kids.len() == 0 {
        0
    } else {
        let size = state::shown_size(a.tree.nodes[kids.last() as int], a.disk_usage);
        let before = largest_of(a, kids.drop_last());
        if size > before {
            size
        } else {
            before
        }
    }
}

/// The title of the list.
pub open spec fn list_title(a: AppView, shown: int) -> Seq<char> {
    let all = a.tree.nodes[a.cur as int].children.len();
    if all == 0 {
        if a.scanning {
            " reading… "@
        } else {
            " (empty) "@
        }
    } else if a.filter is Some {
        // When a filter is active, show how many of the directory's entries match.
        " "@ + text::decimal(shown as nat) + " of "@ + text::decimal(all) + " items "@
    } else {
        " "@ + text::decimal(shown as nat) + " items "@
    }
}

/// The list of the viewed directory.
pub open spec fn list_view(a: AppView) -> ListingView {
    let kids = state::shown(a);
    ListingView {
        title: list_title(a, kids.len() as int),
        rows: list_rows(a, kids),
        selected: match a.selected {
            Some(sel) => state::position(kids, sel),
            None => None,
        },
        total: at_least_one(
            state::shown_size(a.tree.nodes[a.cur as int], a.disk_usage),
        ),
        largest: at_least_one(largest_of(a, kids)),
    }
}

fn tone_of(n: &Node) -> (tone: Tone)
    ensures
        tone == resting_tone(n@),
{
    if n.read_error || n.excluded != Excluded::No {
        Tone::Dim
    } else if n.shared {
        Tone::DimItalic
    } else {
        match n.kind {
            NodeKind::Dir => Tone::Directory,
            NodeKind::Link => Tone::Link,
            NodeKind::Other => Tone::Special,
            NodeKind::File => Tone::Plain,
        }
    }
}

/// The tone of an entry and what stands behind its name. The subtree being deleted is locked: it gets
/// a spinner and stands out. A subtree being rescanned gets a spinner too.
fn tone_and_suffix(app: &App, k: NodeIdx) -> (both: (Tone, String))
    requires
        k < app.tree.nodes.len(),
    ensures
        both.0 == row_tone(app@, k),
        both.1@ == row_suffix(app@, k),
{
    let n = &app.tree.nodes[k];
    assert(n@ == app@.tree.nodes[k as int]);
    let deleting = match app.deleting_idx() {
        Some(idx) => idx == k,
        None => false,
    };
    let rescanning = match app.refreshing_idx {
        Some(idx) => idx == k,
        None => false,
    };
    if deleting {
        let mut suffix = text::joined("  [", spinner(app.tick));
        suffix.append(" deleting…]");
        (Tone::Danger, suffix)
    } else if rescanning {
        let mut suffix = text::joined("  [", spinner(app.tick));
        suffix.append(" rescanning…]");
        (Tone::Busy, suffix)
    } else {
        let suffix = match n.excluded {
            Excluded::OtherFs => "  <other filesystem>".to_string(),
            Excluded::Pattern => "  <excluded>".to_string(),
            Excluded::Age => "  <excluded>".to_string(),
            Excluded::No => String::new(),
        };
        (tone_of(n), suffix)
    }
}

/// One row of the list.
fn row(app: &App, k: NodeIdx) -> (row: Row)
    requires
        k < app.tree.nodes.len(),
    ensures
        row@ == list_row(app@, k),
{
    let n = &app.tree.nodes[k];
    assert(n@ == app@.tree.nodes[k as int]);
    let size = app.size_of(k);
    let mark = info::indicator(n.kind, n.shared, n.excluded != Excluded::No, n.read_error);
    let (tone, suffix) = tone_and_suffix(app, k);
    let mut amount = text::padded(size::fmt_size(size).as_str(), 10, ' ');
    amount.append(" ");
    let mut label = String::new();
    label.push(mark);
    label.append(n.name.as_str());
    label.append(suffix.as_str());
    assert(label@ =~= list_row(app@, k).label.text);
    Row {
        size,
        amount: Span { text: amount, tone: Tone::Size },
        label: Span { text: label, tone },
    }
}

/// The title of the list.
fn title(app: &App, shown: usize) -> (out: String)
    requires
        app.wf(),
    ensures
        out@ == list_title(app@, shown as int),
{
    proof {
        reveal(state::valid);
    }
    assert(app.tree.nodes@[app.cur as int]@ == app@.tree.nodes[app.cur as int]);
    let all: usize = app.tree.nodes[app.cur].children.len();
    if all == 0 {
        if app.scanning {
            " reading… ".to_string()
        } else {
            " (empty) ".to_string()
        }
    } else {
        let mut out = text::joined(" ", text::decimal_text(shown as u64).as_str());
        if app.filter.is_some() {
            out.append(" of ");
            out.append(text::decimal_text(all as u64).as_str());
        }
        out.append(" items ");
        out
    }
}

/// The list of the viewed directory.
pub fn listing(app: &App) -> (list: Listing)
    requires
        app.wf(),
    ensures
        list@ == list_view(app@),
{
    proof {
        reveal(state::valid);
    }
    let kids = app.sorted_children();
    let mut rows: Vec<Row> = Vec::new();
    let mut largest: u64 = 0;
    let mut k: usize = 0;
    while k < kids.len()
        invariant
            app.wf(),
            k <= kids@.len(),
            forall|j: int| 0 <= j < kids@.len() ==> #[trigger] kids@[j] < app.tree.nodes.len(),
            row_views(rows@) == list_rows(app@, kids@.take(k as int)),
            largest == largest_of(app@, kids@.take(k as int)),
        decreases kids@.len() - k,
    {
        let ghost had = rows@;
        let kid = kids[k];
        let size = app.size_of(kid);
        rows.push(row(app, kid));
        proof {
            assert(kids@.take(k + 1).drop_last() =~= kids@.take(k as int));
            assert(row_views(rows@) =~= row_views(had).push(list_row(app@, kid)));
            assert(list_rows(app@, kids@.take(k + 1)) =~= list_rows(
                app@,
                kids@.take(k as int),
            ).push(list_row(app@, kid)));
        }
        if size > largest {
            largest = size;
        }
        k += 1;
    }
    assert(kids@.take(k as int) =~= kids@);
    let selected = match app.selected {
        Some(sel) => rows::position_of(&kids, sel),
        None => None,
    };
    let total = app.size_of(app.cur);
    Listing {
        title: title(app, kids.len()),
        rows,
        selected,
        total: if total < 1 {
            1
        } else {
            total
        },
        largest: if largest < 1 {
            1
        } else {
            largest
        },
    }
}

// ---- Footer ---------------------------------------------------------------------------------------

/// How the scan is going.
pub open spec fn progress(a: AppView, rate: Option<int>) -> Seq<char> {
    let counts = "  "@ + text::decimal(a.tree.total_dirs as nat) + " dirs  "@ + text::decimal(
        a.tree.total_files as nat,
    ) + " files"@;
    if a.scanning {
        spinner_text(a.tick as int) + " scanning"@ + match rate {
            Some(bytes) => "  "@ + short_size(bytes) + "/s"@,
            None => Seq::empty(),
        } + counts
    } else {
        "done"@ + counts
    }
}

/// What is said of a rescan.
pub open spec fn rescan_note(a: AppView) -> Seq<char> {
    match a.refreshing_idx {
        Some(idx) => "  "@ + spinner_text(a.tick as int) + " rescanning "@
            + a.tree.nodes[idx as int].name + "…"@,
        None => Seq::empty(),
    }
}

/// What is said of an applied filter: it is never silently on.
pub open spec fn filter_note(a: AppView) -> Seq<char> {
    match a.filter {
        Some(query) => "  │  /"@ + query + " ("@ + text::decimal(state::shown(a).len()) + "/"@
            + text::decimal(a.tree.nodes[a.cur as int].children.len()) + ")"@,
        None => Seq::empty(),
    }
}

pub open spec fn sort_name(sort: SortKey) -> Seq<char> {
    match sort {
        SortKey::Size => "size"@,
        SortKey::Name => "name"@,
    }
}

/// The line below everything: a message, the filter that is being typed, a deletion that is running,
/// or how the scan is going.
pub open spec fn footer(a: AppView, rate: Option<int>) -> Seq<SpanView> {
    if a.status is Some {
        seq![span(" "@ + a.status->0, Tone::Warning)]
    } else if a.searching {
        let query = match a.filter {
            Some(query) => query,
            None => Seq::empty(),
        };
        seq![
            span(" filter "@, Tone::Badge),
            span(" /"@ + query + "▌"@, Tone::Plain),
            span("  Enter apply · Esc cancel"@, Tone::Dim),
        ]
    } else {
        match state::deleting_idx(a) {
            Some(idx) => seq![
                span(" j/k move  l enter  h up  q quit "@, Tone::Hint),
                span(" │ "@, Tone::Plain),
                span(
                    spinner_text(a.tick as int) + " deleting "@ + a.tree.nodes[idx as int].name
                        + " …"@,
                    Tone::Danger,
                ),
            ],
            None => seq![
                span(
                    " ? help  d delete  s sort:"@ + sort_name(a.sort) + "  a usage  q quit"@
                        + filter_note(a) + "   │   "@ + progress(a, rate) + rescan_note(a),
                    Tone::Hint,
                ),
            ],
        }
    }
}

/// How the scan is going.
fn progress_text(app: &App, rate: Option<u64>) -> (out: String)
    requires
        app.wf(),
    ensures
        out@ == progress(app@, rate_view(rate)),
{
    proof {
        reveal(state::valid);
    }
    let mut out = String::new();
    if app.scanning {
        out.append(spinner(app.tick));
        out.append(" scanning");
        if let Some(bytes) = rate {
            out.append("  ");
            out.append(fmt_short(bytes).as_str());
            out.append("/s");
        }
    } else {
        out.append("done");
    }
    out.append("  ");
    out.append(text::decimal_text(app.tree.total_dirs).as_str());
    out.append(" dirs  ");
    out.append(text::decimal_text(app.tree.total_files).as_str());
    out.append(" files");
    assert(out@ =~= progress(app@, rate_view(rate)));
    out
}

pub open spec fn rate_view(rate: Option<u64>) -> Option<int> {
    match rate {
        Some(bytes) => Some(bytes as int),
        None => None,
    }
}

/// What is said of a rescan.
fn rescan_text(app: &App) -> (out: String)
    requires
        app.wf(),
    ensures
        out@ == rescan_note(app@),
{
    proof {
        reveal(state::valid);
    }
    let mut out = String::new();
    if let Some(idx) = app.refreshing_idx {
        assert(app.tree.nodes@[idx as int]@ == app@.tree.nodes[idx as int]);
        out.append("  ");
        out.append(spinner(app.tick));
        out.append(" rescanning ");
        out.append(app.tree.nodes[idx].name.as_str());
        out.append("…");
    }
    assert(out@ =~= rescan_note(app@));
    out
}

/// What is said of an applied filter.
fn filter_text(app: &App) -> (out: String)
    requires
        app.wf(),
    ensures
        out@ == filter_note(app@),
{
    proof {
        reveal(state::valid);
    }
    let mut out = String::new();
    if let Some(query) = &app.filter {
        assert(app.tree.nodes@[app.cur as int]@ == app@.tree.nodes[app.cur as int]);
        let kids = app.sorted_children();
        let all: usize = app.tree.nodes[app.cur].children.len();
        out.append("  │  /");
        out.append(query.as_str());
        out.append(" (");
        out.append(text::decimal_text(kids.len() as u64).as_str());
        out.append("/");
        out.append(text::decimal_text(all as u64).as_str());
        out.append(")");
    }
    assert(out@ =~= filter_note(app@));
    out
}

/// The hints, with how the scan is going.
fn hints(app: &App, rate: Option<u64>) -> (line: Line)
    requires
        app.wf(),
        app@.status is None,
        !app.searching,
        app@.deleting is None,
    ensures
        line@ == footer(app@, rate_view(rate)),
{
    proof {
        reveal(state::valid);
    }
    let sort = match app.sort {
        SortKey::Size => "size",
        SortKey::Name => "name",
    };
    let mut out = text::joined(" ? help  d delete  s sort:", sort);
    out.append("  a usage  q quit");
    out.append(filter_text(app).as_str());
    out.append("   │   ");
    out.append(progress_text(app, rate).as_str());
    out.append(rescan_text(app).as_str());
    one(out.as_str(), Tone::Hint)
}

/// The line below everything. A transient status message wins (it carries warnings like the armed
/// force-quit prompt); while a filter is being typed, the input line replaces the hints; otherwise a
/// running deletion is the most important thing to surface, but the key hints stay so it's clear
/// browsing still works.
pub fn footer_line(app: &App, rate: Option<u64>) -> (line: Line)
    requires
        app.wf(),
    ensures
        line@ == footer(app@, rate_view(rate)),
{
    proof {
        reveal(state::valid);
    }
    if let Some(message) = &app.status {
        let words = text::joined(" ", message.as_str());
        return one(words.as_str(), Tone::Warning);
    }
    if app.searching {
        let mut input = " /".to_string();
        if let Some(query) = &app.filter {
            input.append(query.as_str());
        }
        input.append("▌");
        let line = Line::blank().with(" filter ", Tone::Badge).with(
            input.as_str(),
            Tone::Plain,
        ).with("  Enter apply · Esc cancel", Tone::Dim);
        proof {
            let want = footer(app@, rate_view(rate));
            assert(input@ =~= want[1].text);
            assert(line@ =~= want);
        }
        return line;
    }
    if let Some(idx) = app.deleting_idx() {
        assert(app.tree.nodes@[idx as int]@ == app@.tree.nodes[idx as int]);
        let mut note = spinner(app.tick).to_string();
        note.append(" deleting ");
        note.append(app.tree.nodes[idx].name.as_str());
        note.append(" …");
        let line = Line::blank().with(" j/k move  l enter  h up  q quit ", Tone::Hint).with(
            " │ ",
            Tone::Plain,
        ).with(note.as_str(), Tone::Danger);
        assert(line@ =~= footer(app@, rate_view(rate)));
        return line;
    }
    hints(app, rate)
}

// ---- Overlays -------------------------------------------------------------------------------------

/// The help popup.
pub open spec fn help() -> Seq<Seq<SpanView>> {
    seq![
        seq![span("rcdu — keys"@, Tone::Brand)],
        seq![span(""@, Tone::Plain)],
        seq![span("  j / k, ↓ / ↑      move selection"@, Tone::Plain)],
        seq![span("  l / Enter / →     enter directory"@, Tone::Plain)],
        seq![span("  h / Backspace / ← go up"@, Tone::Plain)],
        seq![span("  g / G             jump to top / bottom"@, Tone::Plain)],
        seq![span("  PgUp / PgDn, C-d / C-u  page up / down"@, Tone::Plain)],
        seq![span("  s                 toggle sort (size ↔ name)"@, Tone::Plain)],
        seq![span("  /                 filter entries by name (Enter applies, Esc cancels)"@, Tone::Plain)],
        seq![span("  a                 toggle apparent ↔ disk usage"@, Tone::Plain)],
        seq![span("  d                 delete selected (confirm; needs full scan)"@, Tone::Plain)],
        seq![span("  o                 open selected in default app / file manager"@, Tone::Plain)],
        seq![span("  t                 largest files under this directory"@, Tone::Plain)],
        seq![span("  i                 show details of the selected entry"@, Tone::Plain)],
        seq![span("  r                 rescan selected directory in place"@, Tone::Plain)],
        seq![span("  e                 export the tree to an ncdu-format JSON file"@, Tone::Plain)],
        seq![span("  x / !             jump to the next read-error entry"@, Tone::Plain)],
        seq![span("  ?                 toggle this help"@, Tone::Plain)],
        seq![span("  q / Esc / Ctrl-C  quit (during a delete: press twice to abort it)"@, Tone::Plain)],
        seq![span(""@, Tone::Plain)],
        seq![span("  indicators: / dir   @ link   H hard-link dup   < excluded   ! error"@, Tone::Dim)],
        seq![span(""@, Tone::Plain)],
        seq![span("  press any key to close"@, Tone::Italic)],
    ]
}

/// The help popup.
pub fn help_lines() -> (lines: Vec<Line>)
    ensures
        line_views(lines@) == help(),
{
    let mut lines: Vec<Line> = Vec::new();
    assert(line_views(lines@) =~= Seq::empty());
    add_line(&mut lines, one("rcdu — keys", Tone::Brand));
    add_line(&mut lines, one("", Tone::Plain));
    add_line(&mut lines, one("  j / k, ↓ / ↑      move selection", Tone::Plain));
    add_line(&mut lines, one("  l / Enter / →     enter directory", Tone::Plain));
    add_line(&mut lines, one("  h / Backspace / ← go up", Tone::Plain));
    add_line(&mut lines, one("  g / G             jump to top / bottom", Tone::Plain));
    add_line(&mut lines, one("  PgUp / PgDn, C-d / C-u  page up / down", Tone::Plain));
    add_line(&mut lines, one("  s                 toggle sort (size ↔ name)", Tone::Plain));
    add_line(&mut lines, one("  /                 filter entries by name (Enter applies, Esc cancels)", Tone::Plain));
    add_line(&mut lines, one("  a                 toggle apparent ↔ disk usage", Tone::Plain));
    add_line(&mut lines, one("  d                 delete selected (confirm; needs full scan)", Tone::Plain));
    add_line(&mut lines, one("  o                 open selected in default app / file manager", Tone::Plain));
    add_line(&mut lines, one("  t                 largest files under this directory", Tone::Plain));
    add_line(&mut lines, one("  i                 show details of the selected entry", Tone::Plain));
    add_line(&mut lines, one("  r                 rescan selected directory in place", Tone::Plain));
    add_line(&mut lines, one("  e                 export the tree to an ncdu-format JSON file", Tone::Plain));
    add_line(&mut lines, one("  x / !             jump to the next read-error entry", Tone::Plain));
    add_line(&mut lines, one("  ?                 toggle this help", Tone::Plain));
    add_line(&mut lines, one("  q / Esc / Ctrl-C  quit (during a delete: press twice to abort it)", Tone::Plain));
    add_line(&mut lines, one("", Tone::Plain));
    add_line(&mut lines, one("  indicators: / dir   @ link   H hard-link dup   < excluded   ! error", Tone::Dim));
    add_line(&mut lines, one("", Tone::Plain));
    add_line(&mut lines, one("  press any key to close", Tone::Italic));
    assert(line_views(lines@) =~= help());
    lines
}

/// What a deletion removes.
pub open spec fn removal(a: AppView, idx: int) -> Seq<char> {
    let n = a.tree.nodes[idx];
    let size = short_size(state::shown_size(n, a.disk_usage));
    if tree::is_dir(n) {
        "directory and ALL its contents ("@ + size + ")"@
    } else {
        "file ("@ + size + ")"@
    }
}

/// The lines of a text, one behind the other on one line.
pub open spec fn plain_lines(s: Seq<char>) -> Seq<SpanView> {
    words::lines_of(s).map_values(|l: Seq<char>| span(l, Tone::Plain))
}

/// The lines of a text, one behind the other on one line.
fn unbroken(s: &str) -> (line: Line)
    ensures
        line@ == plain_lines(s@),
{
    let all = words::lines(s);
    let ghost views = words::text_views(all@);
    let mut line = Line::blank();
    let mut k: usize = 0;
    while k < all.len()
        invariant
            views == words::text_views(all@),
            views == words::lines_of(s@),
            k <= all@.len(),
            line@ == plain_lines(s@).take(k as int),
        decreases all@.len() - k,
    {
        assert(views[k as int] == all@[k as int]@);
        line = line.with(all[k].as_str(), Tone::Plain);
        k += 1;
        assert(line@ =~= plain_lines(s@).take(k as int));
    }
    assert(line@ =~= plain_lines(s@));
    line
}

/// The question before a deletion.
pub open spec fn confirmation(a: AppView, idx: int) -> Seq<Seq<SpanView>> {
    seq![
        seq![span("Delete?"@, Tone::Danger)],
        seq![span(""@, Tone::Plain)],
        plain_lines("  "@ + edit::path(a.tree.nodes, idx)),
        seq![span("  This removes the "@ + removal(a, idx) + " from disk."@, Tone::Plain)],
        seq![span(""@, Tone::Plain)],
        seq![
            span("  y"@, Tone::Danger),
            span(" confirm    "@, Tone::Plain),
            span("n / Esc"@, Tone::Bold),
            span(" cancel"@, Tone::Plain),
        ],
    ]
}

/// The question before a deletion.
pub fn confirm_lines(app: &App, idx: NodeIdx) -> (lines: Vec<Line>)
    requires
        app.wf(),
        idx < app.tree.nodes.len(),
    ensures
        line_views(lines@) == confirmation(app@, idx as int),
{
    proof {
        reveal(state::valid);
    }
    let path = app.tree.path_of(idx);
    assert(app.tree.nodes@[idx as int]@ == app@.tree.nodes[idx as int]);
    let size = fmt_short(app.size_of(idx));
    let mut what = if app.tree.nodes[idx].is_dir() {
        "directory and ALL its contents (".to_string()
    } else {
        "file (".to_string()
    };
    what.append(size.as_str());
    what.append(")");
    assert(what@ == removal(app@, idx as int));
    let mut removes = text::joined("  This removes the ", what.as_str());
    removes.append(" from disk.");
    let mut lines: Vec<Line> = Vec::new();
    assert(line_views(lines@) =~= Seq::empty());
    add_line(&mut lines, one("Delete?", Tone::Danger));
    add_line(&mut lines, one("", Tone::Plain));
    add_line(&mut lines, unbroken(text::joined("  ", path.as_str()).as_str()));
    add_line(&mut lines, one(removes.as_str(), Tone::Plain));
    add_line(&mut lines, one("", Tone::Plain));
    let keys = Line::blank().with("  y", Tone::Danger).with(" confirm    ", Tone::Plain).with(
        "n / Esc",
        Tone::Bold,
    ).with(" cancel", Tone::Plain);
    proof {
        assert(keys@ =~= confirmation(app@, idx as int)[5]);
    }
    add_line(&mut lines, keys);
    assert(line_views(lines@) =~= confirmation(app@, idx as int));
    lines
}

/// One row of the info popup: a label and a value.
pub open spec fn info_line(row: (Seq<char>, Seq<char>)) -> Seq<SpanView> {
    seq![
        span("  "@ + text::pad_right(row.0, 12, ' ') + " "@, Tone::Label),
        span(row.1, Tone::Plain),
    ]
}

/// The info popup.
pub open spec fn info_popup(rows: Seq<(Seq<char>, Seq<char>)>) -> Seq<Seq<SpanView>> {
    rows.map_values(|row: (Seq<char>, Seq<char>)| info_line(row)) + seq![
        seq![span(""@, Tone::Plain)],
        seq![span("  press any key to close"@, Tone::DimItalic)],
    ]
}

/// The info popup: label/value rows. Read-only; any key closes it.
pub fn info_lines(rows: &Vec<(String, String)>) -> (lines: Vec<Line>)
    ensures
        line_views(lines@) == info_popup(info::pair_views(rows@)),
{
    let ghost all = info::pair_views(rows@);
    let ghost made = all.map_values(|row: (Seq<char>, Seq<char>)| info_line(row));
    let mut lines: Vec<Line> = Vec::new();
    assert(line_views(lines@) =~= Seq::empty());
    let mut k: usize = 0;
    while k < rows.len()
        invariant
            all == info::pair_views(rows@),
            made == all.map_values(|row: (Seq<char>, Seq<char>)| info_line(row)),
            k <= rows@.len(),
            line_views(lines@) == made.take(k as int),
        decreases rows@.len() - k,
    {
        let row = &rows[k];
        assert(all[k as int] == (row.0@, row.1@));
        let mut label = text::joined("  ", text::padded_right(row.0.as_str(), 12, ' ').as_str());
        label.append(" ");
        let line = Line::blank().with(label.as_str(), Tone::Label).with(
            row.1.as_str(),
            Tone::Plain,
        );
        assert(line@ =~= info_line(all[k as int]));
        add_line(&mut lines, line);
        k += 1;
        assert(line_views(lines@) =~= made.take(k as int));
    }
    add_line(&mut lines, one("", Tone::Plain));
    add_line(&mut lines, one("  press any key to close", Tone::DimItalic));
    assert(line_views(lines@) =~= info_popup(all));
    lines
}

/// One row of the top-files popup: a size and a path.
pub open spec fn top_line(row: TopView) -> Seq<SpanView> {
    seq![
        span(text::pad_left(size::size_text(row.size), 10, ' ') + "  "@, Tone::Size),
        span(row.path, Tone::Plain),
    ]
}

/// The rows of the top-files popup: largest regular files under the viewed directory, one row each.
pub fn top_lines(popup: &TopFiles) -> (lines: Vec<Line>)
    ensures
        line_views(lines@) == top::top_views(popup.items@).map_values(
            |row: TopView| top_line(row),
        ),
{
    let ghost all = top::top_views(popup.items@);
    let ghost made = all.map_values(|row: TopView| top_line(row));
    let mut lines: Vec<Line> = Vec::new();
    assert(line_views(lines@) =~= Seq::empty());
    let mut k: usize = 0;
    while k < popup.items.len()
        invariant
            all == top::top_views(popup.items@),
            made == all.map_values(|row: TopView| top_line(row)),
            k <= popup.items@.len(),
            line_views(lines@) == made.take(k as int),
        decreases popup.items@.len() - k,
    {
        let item = &popup.items[k];
        assert(all[k as int] == item@);
        let mut amount = text::padded(size::fmt_size(item.size).as_str(), 10, ' ');
        amount.append("  ");
        let line = Line::blank().with(amount.as_str(), Tone::Size).with(
            item.path.as_str(),
            Tone::Plain,
        );
        assert(line@ =~= top_line(all[k as int]));
        add_line(&mut lines, line);
        k += 1;
        assert(line_views(lines@) =~= made.take(k as int));
    }
    assert(line_views(lines@) =~= made);
    lines
}

/// The title of the top-files popup.
pub fn top_title(app: &App) -> (out: String)
    requires
        app.wf(),
    ensures
        out@ == " Top files in "@ + app@.tree.nodes[app.cur as int].name + " "@,
{
    proof {
        reveal(state::valid);
    }
    assert(app.tree.nodes@[app.cur as int]@ == app@.tree.nodes[app.cur as int]);
    let mut out = text::joined(" Top files in ", app.tree.nodes[app.cur].name.as_str());
    out.append(" ");
    out
}

/// The hints of the top-files popup.
pub fn top_hint(app: &App) -> (line: Line)
    ensures
        line@ == seq![
            span(
                " j/k move · Enter go to file · q close   (sizes: "@ + (if app.disk_usage {
                    "disk usage"@
                } else {
                    "apparent size"@
                }) + ")"@,
                Tone::Dim,
            ),
        ],
{
    let metric = if app.disk_usage {
        "disk usage"
    } else {
        "apparent size"
    };
    let mut out = text::joined(" j/k move · Enter go to file · q close   (sizes: ", metric);
    out.append(")");
    one(out.as_str(), Tone::Dim)
}

// ---- Popups ---------------------------------------------------------------------------------------

/// The rows that text of the given columns takes at a given inner width, accounting for wrapping.
pub open spec fn wrapped_rows(columns: int, inner_width: int) -> int {
    let room = at_least_one(inner_width);
    ((at_least_one(columns) + room - 1) / room) % 65536
}

/// The rows that several lines take.
pub open spec fn wrapped_total(columns: Seq<int>, inner_width: int) -> int
    decreases columns.len(),
{
    if columns.len() == 0 {
        0
    } else {
        wrapped_total(columns.drop_last(), inner_width) + wrapped_rows(columns.last(), inner_width)
    }
}

/// The columns of each of some lines.
pub open spec fn widths(lines: Seq<Seq<SpanView>>) -> Seq<int> {
    lines.map_values(
        |l: Seq<SpanView>| outside::columns_of(l.map_values(|s: SpanView| s.text)) as int,
    )
}

pub open spec fn column_views(columns: Seq<usize>) -> Seq<int> {
    columns.map_values(|c: usize| c as int)
}

/// The rows that lines of the given columns need at a given inner width; nothing if they are more
/// than a screen can have.
pub fn rows_needed(columns: &Vec<usize>, inner_width: u16) -> (rows: Option<u16>)
    ensures
        match rows {
            Some(n) => n == wrapped_total(column_views(columns@), inner_width as int),
            None => wrapped_total(column_views(columns@), inner_width as int) > u16::MAX,
        },
{
    let ghost all = column_views(columns@);
    let room: usize = if inner_width < 1 {
        1
    } else {
        inner_width as usize
    };
    let mut sum: u16 = 0;
    let mut k: usize = 0;
    while k < columns.len()
        invariant
            all == column_views(columns@),
            room == at_least_one(inner_width as int),
            k <= columns@.len(),
            sum == wrapped_total(all.take(k as int), inner_width as int),
        decreases columns@.len() - k,
    {
        let wide: usize = if columns[k] < 1 {
            1
        } else {
            columns[k]
        };
        // Rounded up.
        let needed: usize = (wide - 1) / room + 1;
        proof {
            assert(all[k as int] == columns@[k as int] as int);
            assert(all.take(k + 1).drop_last() =~= all.take(k as int));
            assert(needed == (wide + room - 1) / room as int) by (nonlinear_arith)
                requires
                    needed == (wide - 1) / room as int + 1,
                    room >= 1,
                    wide >= 1,
            ;
        }
        let rows: u16 = (needed % 65536) as u16;
        match sum.checked_add(rows) {
            Some(more) => {
                sum = more;
            },
            None => {
                proof {
                    lemma_rows_grow(all, inner_width as int, k + 1);
                }
                return None;
            },
        }
        k += 1;
    }
    assert(all.take(k as int) =~= all);
    Some(sum)
}

/// The first lines take no more rows than all of them.
proof fn lemma_rows_grow(all: Seq<int>, inner_width: int, k: int)
    requires
        0 <= k <= all.len(),
    ensures
        wrapped_total(all.take(k), inner_width) <= wrapped_total(all, inner_width),
    decreases all.len(),
{
    if k < all.len() {
        lemma_rows_grow(all.drop_last(), inner_width, k);
        assert(all.drop_last().take(k) =~= all.take(k));
    } else {
        assert(all.take(k) =~= all);
    }
}

/// The columns of a line.
fn columns(line: &Line) -> (n: usize)
    ensures
        n == outside::columns_of(line@.map_values(|s: SpanView| s.text)),
{
    let mut pieces: Vec<&str> = Vec::new();
    let mut k: usize = 0;
    while k < line.spans.len()
        invariant
            k <= line.spans@.len(),
            pieces@.len() == k,
            forall|j: int| 0 <= j < k ==> (#[trigger] pieces@[j])@ == line.spans@[j].text@,
        decreases line.spans@.len() - k,
    {
        pieces.push(line.spans[k].text.as_str());
        k += 1;
    }
    assert(Seq::new(pieces@.len(), |k: int| pieces@[k]@) =~= line@.map_values(
        |s: SpanView| s.text,
    ));
    outside::line_width(&pieces)
}

/// Rows a set of lines needs at a given inner width, accounting for wrapping; nothing if they are
/// more than a screen can have.
pub fn wrapped_height(lines: &Vec<Line>, inner_width: u16) -> (rows: Option<u16>)
    ensures
        match rows {
            Some(n) => n == wrapped_total(widths(line_views(lines@)), inner_width as int),
            None => wrapped_total(widths(line_views(lines@)), inner_width as int) > u16::MAX,
        },
{
    let mut all: Vec<usize> = Vec::new();
    let mut k: usize = 0;
    while k < lines.len()
        invariant
            k <= lines@.len(),
            column_views(all@) == widths(line_views(lines@)).take(k as int),
        decreases lines@.len() - k,
    {
        let ghost had = all@;
        all.push(columns(&lines[k]));
        k += 1;
        assert(line_views(lines@)[k - 1] == lines@[k - 1]@);
        assert(column_views(all@) =~= column_views(had).push(widths(line_views(lines@))[k - 1]));
        assert(column_views(all@) =~= widths(line_views(lines@)).take(k as int));
    }
    assert(column_views(all@) =~= widths(line_views(lines@)));
    rows_needed(&all, inner_width)
}

/// Center a popup of the given size within `area`, clamped to fit. What cannot be shared out evenly is
/// left above, and on the left.
pub fn popup(area: Area, width: u16, height: u16) -> (place: Area)
    ensures
        place.width == outside::at_most(width as int, outside::within(area.x, area.width)),
        place.height == outside::at_most(height as int, outside::within(area.y, area.height)),
        place.x == area.x + (outside::within(area.x, area.width) - place.width + 1) / 2,
        place.y == area.y + (outside::within(area.y, area.height) - place.height + 1) / 2,
        place.width <= width && place.height <= height,
        // It lies within the area, with as much room on one side as on the other, or one more.
        area.x + area.width <= u16::MAX ==> {
            let left = place.x - area.x;
            let right = area.x + area.width - place.x - place.width;
            0 <= right <= left <= right + 1
        },
        area.y + area.height <= u16::MAX ==> {
            let above = place.y - area.y;
            let below = area.y + area.height - place.y - place.height;
            0 <= below <= above <= below + 1
        },
{
    let width: u16 = if width < area.width {
        width
    } else {
        area.width
    };
    let height: u16 = if height < area.height {
        height
    } else {
        area.height
    };
    let strip = outside::centre_rows(area, height);
    outside::centre_columns(strip, width)
}

/// The width of the help and info popups.
pub const WIDE_POPUP: u16 = 74;

/// The height of a popup that holds the given lines; nothing if they are more than a screen can have.
pub fn popup_height(lines: &Vec<Line>, width: u16) -> (height: Option<u16>)
    requires
        2 <= width,
    ensures
        ({
            let rows = wrapped_total(widths(line_views(lines@)), width - 2);
            match height {
                Some(h) => h == rows + 2,
                None => rows + 2 > u16::MAX,
            }
        }),
{
    match wrapped_height(lines, width - 2) {
        Some(rows) => rows.checked_add(2),
        None => None,
    }
}

pub open spec fn clamped(x: int, low: int, high: int) -> int {
    if x < low {
        low
    } else if x > high {
        high
    } else {
        x
    }
}

/// The width of the deletion popup on a screen of the given width.
pub fn confirm_width(screen: u16) -> (width: u16)
    ensures
        width == clamped(screen - 4, 24, 72),
{
    if screen < 28 {
        24
    } else if screen > 76 {
        72
    } else {
        screen - 4
    }
}

/// The width of the top-files popup on a screen of the given width.
pub fn top_width(screen: u16) -> (width: u16)
    ensures
        width == clamped(screen - 4, 28, 96),
{
    if screen < 32 {
        28
    } else if screen > 100 {
        96
    } else {
        screen - 4
    }
}

/// The height that the top-files popup takes with some items on a screen of the given height.
pub open spec fn rows_taken(items: int, screen: int) -> int {
    let room = if screen < 2 {
        0
    } else {
        screen - 2
    };
    let wanted = if items + 5 < room {
        items + 5
    } else {
        room
    };
    if wanted < 7 {
        7
    } else {
        wanted
    }
}

/// The height of the top-files popup with some items on a screen of the given height.
pub fn top_height(items: usize, screen: u16) -> (height: u16)
    requires
        items <= 65530,
    ensures
        height == rows_taken(items as int, screen as int),
{
    let room: u16 = if screen < 2 {
        0
    } else {
        screen - 2
    };
    let items: u16 = items as u16;
    let wanted: u16 = if items + 5 < room {
        items + 5
    } else {
        room
    };
    if wanted < 7 {
        7
    } else {
        wanted
    }
}

/// The rows that are left for the list on a screen of the given height.
pub open spec fn rows_left(screen: int) -> int {
    at_least_one(screen - 5)
}

/// The rows of the list on a screen of the given height: all but the header, the footer and the
/// borders of the list, and at least one.
pub fn page_rows(screen: u16) -> (rows: usize)
    ensures
        rows == rows_left(screen as int),
{
    if screen < 6 {
        1
    } else {
        (screen - 5) as usize
    }
}

} // verus!
