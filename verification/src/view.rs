//! What the screen shows: each part of the screen as lines of text pieces,
//! each piece with the role that decides its colours. Drawing them is left
//! to the program.
use vstd::prelude::*;
use vstd::string::StringExecFns;
use crate::app::{
    count_reason, filter_key, filter_label, tab_label, ActivePane, App, DetailTab, FilterCategory,
};
use crate::package::{reason_text, source_text, FileGroup, InstallReason, Package, PackageSource};
use crate::size::{bytes_text, format_bytes};
use crate::text::{chars_of, decimal, push_decimal, push_str, string_from, views};

verus! {

broadcast use vstd::string::group_string_axioms;

/// The role of a piece of text, which decides how it is coloured.
#[derive(Debug, Clone, Copy, PartialEq, Eq, Structural)]
pub enum Tone {
    /// No style of its own.
    Plain,
    /// The program's name in the header.
    Brand,
    /// The filter in use, in the header.
    FilterActive,
    /// A filter not in use, in the header.
    FilterInactive,
    /// The search being typed.
    Search,
    /// The cursor after the search being typed.
    Cursor,
    /// The search in force once typing ended.
    SearchNote,
    /// A key in the footer.
    Key,
    /// What a key does, in the footer.
    Help,
    /// The tab shown in the detail pane.
    TabActive,
    /// Text of little weight.
    Muted,
    /// The name of a field.
    Label,
    /// The value of a field.
    Value,
    /// A package name in the list.
    PkgName,
    /// A package version in the list.
    PkgVersion,
    /// The badge of a foreign package in the list.
    PkgAur,
    /// The badge of an orphan package in the list.
    PkgOrphan,
    /// The package name heading the detail pane.
    Heading,
    /// Ordinary text.
    Text,
    /// A warning.
    Warning,
    /// A section heading in the detail pane.
    Category,
    /// A file path.
    FilePath,
    /// A section heading on the dashboard.
    Title,
    /// A figure on the dashboard.
    Stat,
    /// The count of explicitly installed packages.
    Explicit,
    /// The count of dependencies.
    Dependency,
    /// The count of foreign packages.
    Foreign,
    /// The count of orphans.
    Orphan,
    /// The filled part of a size bar.
    BarFilled,
    /// The empty part of a size bar.
    BarEmpty,
}

/// A piece of text with its role.
pub struct Span {
    pub text: String,
    pub tone: Tone,
}

/// A line of pieces.
pub struct Line {
    pub spans: Vec<Span>,
}

/// The text and role of each piece.
pub open spec fn spans_view(v: Seq<Span>) -> Seq<(Seq<char>, Tone)> {
    v.map_values(|s: Span| (s.text@, s.tone))
}

/// The pieces of each line.
pub open spec fn lines_view(v: Seq<Line>) -> Seq<Seq<(Seq<char>, Tone)>> {
    v.map_values(|l: Line| spans_view(l.spans@))
}

/// `n` copies of `c`.
pub open spec fn repeat(c: char, n: nat) -> Seq<char> {
    Seq::new(n, |i: int| c)
}

/// `s` followed by spaces up to `w` characters (what `{:<w}` prints).
pub open spec fn pad_right(s: Seq<char>, w: nat) -> Seq<char> {
    if s.len() < w {
        s + repeat(' ', (w - s.len()) as nat)
    } else {
        s
    }
}

/// `s` after spaces up to `w` characters (what `{:>w}` prints).
pub open spec fn pad_left(s: Seq<char>, w: nat) -> Seq<char> {
    if s.len() < w {
        repeat(' ', (w - s.len()) as nat) + s
    } else {
        s
    }
}

/// Appends a piece.
fn add_span(out: &mut Vec<Span>, text: String, tone: Tone)
    ensures
        spans_view(final(out)@) == spans_view(old(out)@).push((text@, tone)),
{
    let ghost t = text@;
    out.push(Span { text, tone });
    assert(spans_view(out@) =~= spans_view(old(out)@).push((t, tone)));
}

/// Appends a piece of fixed text.
fn add_str(out: &mut Vec<Span>, text: &str, tone: Tone)
    ensures
        spans_view(final(out)@) == spans_view(old(out)@).push((text@, tone)),
{
    add_span(out, String::from_str(text), tone);
}

/// Appends a line.
fn add_line(out: &mut Vec<Line>, spans: Vec<Span>)
    ensures
        lines_view(final(out)@) == lines_view(old(out)@).push(spans_view(spans@)),
{
    let ghost v = spans_view(spans@);
    out.push(Line { spans });
    assert(lines_view(out@) =~= lines_view(old(out)@).push(v));
}

/// Appends a line of one piece of fixed text.
fn add_line_str(out: &mut Vec<Line>, text: &str, tone: Tone)
    ensures
        lines_view(final(out)@) == lines_view(old(out)@).push(seq![(text@, tone)]),
{
    let mut spans: Vec<Span> = Vec::new();
    add_str(&mut spans, text, tone);
    assert(spans_view(spans@) =~= seq![(text@, tone)]);
    add_line(out, spans);
}

/// Appends an empty line.
fn add_blank(out: &mut Vec<Line>)
    ensures
        lines_view(final(out)@) == lines_view(old(out)@).push(Seq::empty()),
{
    let spans: Vec<Span> = Vec::new();
    assert(spans_view(spans@) =~= Seq::<(Seq<char>, Tone)>::empty());
    add_line(out, spans);
}

/// The decimal notation of `n`.
fn decimal_string(n: u64) -> (s: String)
    ensures
        s@ == decimal(n as nat),
{
    let mut v: Vec<char> = Vec::new();
    push_decimal(&mut v, n);
    assert(v@ =~= decimal(n as nat));
    string_from(&v)
}

/// Appends `n` copies of `c`.
fn push_repeat(out: &mut Vec<char>, c: char, n: usize)
    ensures
        final(out)@ == old(out)@ + repeat(c, n as nat),
{
    let mut k: usize = 0;
    while k < n
        invariant
            k <= n,
            out@ == old(out)@ + repeat(c, k as nat),
        decreases n - k,
    {
        out.push(c);
        assert(out@ =~= old(out)@ + repeat(c, (k + 1) as nat));
        k = k + 1;
    }
}

/// `s` followed by spaces up to `w` characters.
fn padded_right(s: &str, w: usize) -> (r: String)
    ensures
        r@ == pad_right(s@, w as nat),
{
    let mut v = chars_of(s);
    if v.len() < w {
        let n = w - v.len();
        push_repeat(&mut v, ' ', n);
    }
    string_from(&v)
}

/// `s` after spaces up to `w` characters.
fn padded_left(s: &str, w: usize) -> (r: String)
    ensures
        r@ == pad_left(s@, w as nat),
{
    let c = chars_of(s);
    let mut v: Vec<char> = Vec::new();
    if c.len() < w {
        push_repeat(&mut v, ' ', w - c.len());
    }
    push_str(&mut v, s);
    string_from(&v)
}

} // verus!

verus! {

// ---------------------------------------------------------------------------
// header
// ---------------------------------------------------------------------------

/// The header's piece for filter `c`, followed by a space; `active` is the
/// filter in use.
pub open spec fn filter_tab(c: FilterCategory, active: FilterCategory) -> Seq<(Seq<char>, Tone)> {
    seq![
        (seq![' ', filter_key(c), ':'] + filter_label(c) + seq![' '], if c == active {
            Tone::FilterActive
        } else {
            Tone::FilterInactive
        }),
        (" "@, Tone::Plain),
    ]
}

/// The header's pieces for the filters `cs`.
pub open spec fn filter_tabs(cs: Seq<FilterCategory>, active: FilterCategory) -> Seq<(Seq<char>, Tone)>
    decreases cs.len(),
{
    if cs.len() == 0 {
        Seq::empty()
    } else {
        filter_tabs(cs.drop_last(), active) + filter_tab(cs.last(), active)
    }
}

/// Every filter, in the order of their shortcut keys.
pub open spec fn all_filters() -> Seq<FilterCategory> {
    seq![
        FilterCategory::All,
        FilterCategory::Explicit,
        FilterCategory::Dependencies,
        FilterCategory::AUR,
        FilterCategory::Orphans,
        FilterCategory::Recent,
        FilterCategory::Largest,
    ]
}

/// The header line: the program's name, each filter with its key, and the
/// search, with a cursor while it is typed.
pub open spec fn header_view(filter: FilterCategory, searching: bool, query: Seq<char>) -> Seq<(Seq<char>, Tone)> {
    seq![(" GLARE "@, Tone::Brand), ("  "@, Tone::Plain)] + filter_tabs(all_filters(), filter) + if searching {
        seq![("  "@, Tone::Plain), ("/ "@, Tone::Search), (query, Tone::Search), ("█"@, Tone::Cursor)]
    } else if query.len() > 0 {
        seq![("  "@, Tone::Plain), ("filter: "@ + query, Tone::SearchNote)]
    } else {
        Seq::empty()
    }
}

/// The header line of `app`.
pub fn header_spans(app: &App) -> (r: Vec<Span>)
    ensures
        spans_view(r@) == header_view(app.filter, app.is_searching, app.search_query@),
{
    let mut out: Vec<Span> = Vec::new();
    add_str(&mut out, " GLARE ", Tone::Brand);
    add_str(&mut out, "  ", Tone::Plain);
    let cats = FilterCategory::all_categories();
    let ghost start = spans_view(out@);
    assert(start =~= seq![(" GLARE "@, Tone::Brand), ("  "@, Tone::Plain)]);
    let mut k: usize = 0;
    while k < cats.len()
        invariant
            cats@ == all_filters(),
            k <= cats@.len(),
            spans_view(out@) == start + filter_tabs(cats@.take(k as int), app.filter),
        decreases cats@.len() - k,
    {
        let c = cats[k];
        let mut label: Vec<char> = Vec::new();
        label.push(' ');
        label.push(c.shortcut());
        label.push(':');
        push_str(&mut label, c.label());
        label.push(' ');
        let tone = if c == app.filter {
            Tone::FilterActive
        } else {
            Tone::FilterInactive
        };
        add_span(&mut out, string_from(&label), tone);
        add_str(&mut out, " ", Tone::Plain);
        proof {
            assert(label@ =~= seq![' ', filter_key(c), ':'] + filter_label(c) + seq![' ']);
            assert(cats@.take(k + 1).drop_last() =~= cats@.take(k as int));
            assert(spans_view(out@) =~= start + filter_tabs(cats@.take(k + 1), app.filter));
        }
        k = k + 1;
    }
    assert(cats@.take(7) =~= all_filters());
    if app.is_searching {
        add_str(&mut out, "  ", Tone::Plain);
        add_str(&mut out, "/ ", Tone::Search);
        add_span(&mut out, app.search_query.clone(), Tone::Search);
        add_str(&mut out, "█", Tone::Cursor);
    } else if app.search_query.as_str().unicode_len() > 0 {
        add_str(&mut out, "  ", Tone::Plain);
        let note = String::from_str("filter: ").concat(app.search_query.as_str());
        add_span(&mut out, note, Tone::SearchNote);
    }
    assert(spans_view(out@) =~= header_view(app.filter, app.is_searching, app.search_query@));
    out
}

/// The count shown under the header: how many packages the list shows.
pub fn header_count(app: &App) -> (r: String)
    ensures
        r@ == " "@ + decimal(app.filtered_indices@.len()) + " packages "@,
{
    let mut v: Vec<char> = Vec::new();
    push_str(&mut v, " ");
    push_decimal(&mut v, app.filtered_indices.len() as u64);
    push_str(&mut v, " packages ");
    assert(v@ =~= " "@ + decimal(app.filtered_indices@.len()) + " packages "@);
    string_from(&v)
}

// ---------------------------------------------------------------------------
// footer
// ---------------------------------------------------------------------------

/// The footer line: the keys that work in the current mode.
pub open spec fn footer_view(dashboard: bool, searching: bool) -> Seq<(Seq<char>, Tone)> {
    if dashboard {
        seq![(" d"@, Tone::Key), (" Back  "@, Tone::Help), ("q"@, Tone::Key), (" Quit"@, Tone::Help)]
    } else if searching {
        seq![
            (" Type"@, Tone::Key),
            (" to search  "@, Tone::Help),
            ("Enter"@, Tone::Key),
            (" Confirm  "@, Tone::Help),
            ("Esc"@, Tone::Key),
            (" Cancel"@, Tone::Help),
        ]
    } else {
        seq![
            (" ↑↓"@, Tone::Key),
            (" Navigate  "@, Tone::Help),
            ("Tab"@, Tone::Key),
            (" Switch pane  "@, Tone::Help),
            ("/"@, Tone::Key),
            (" Search  "@, Tone::Help),
            ("1-7"@, Tone::Key),
            (" Filter  "@, Tone::Help),
            ("Enter"@, Tone::Key),
            (" Load files  "@, Tone::Help),
            ("d"@, Tone::Key),
            (" Dashboard  "@, Tone::Help),
            ("q"@, Tone::Key),
            (" Quit"@, Tone::Help),
        ]
    }
}

/// The footer line of `app`.
pub fn footer_spans(app: &App) -> (r: Vec<Span>)
    ensures
        spans_view(r@) == footer_view(app.show_dashboard, app.is_searching),
{
    let mut out: Vec<Span> = Vec::new();
    if app.show_dashboard {
        add_str(&mut out, " d", Tone::Key);
        add_str(&mut out, " Back  ", Tone::Help);
        add_str(&mut out, "q", Tone::Key);
        add_str(&mut out, " Quit", Tone::Help);
    } else if app.is_searching {
        add_str(&mut out, " Type", Tone::Key);
        add_str(&mut out, " to search  ", Tone::Help);
        add_str(&mut out, "Enter", Tone::Key);
        add_str(&mut out, " Confirm  ", Tone::Help);
        add_str(&mut out, "Esc", Tone::Key);
        add_str(&mut out, " Cancel", Tone::Help);
    } else {
        add_str(&mut out, " ↑↓", Tone::Key);
        add_str(&mut out, " Navigate  ", Tone::Help);
        add_str(&mut out, "Tab", Tone::Key);
        add_str(&mut out, " Switch pane  ", Tone::Help);
        add_str(&mut out, "/", Tone::Key);
        add_str(&mut out, " Search  ", Tone::Help);
        add_str(&mut out, "1-7", Tone::Key);
        add_str(&mut out, " Filter  ", Tone::Help);
        add_str(&mut out, "Enter", Tone::Key);
        add_str(&mut out, " Load files  ", Tone::Help);
        add_str(&mut out, "d", Tone::Key);
        add_str(&mut out, " Dashboard  ", Tone::Help);
        add_str(&mut out, "q", Tone::Key);
        add_str(&mut out, " Quit", Tone::Help);
    }
    assert(spans_view(out@) =~= footer_view(app.show_dashboard, app.is_searching));
    out
}

// ---------------------------------------------------------------------------
// tab bar of the detail pane
// ---------------------------------------------------------------------------

/// The tab bar's piece for tab `t`, followed by a space; `active` is the tab shown.
pub open spec fn tab_piece(t: DetailTab, active: DetailTab) -> Seq<(Seq<char>, Tone)> {
    seq![
        (" "@ + tab_label(t) + " "@, if t == active {
            Tone::TabActive
        } else {
            Tone::Muted
        }),
        (" "@, Tone::Plain),
    ]
}

/// The tab bar: the three tabs, and a hint while the detail pane has the keys.
pub open spec fn tab_bar_view(tab: DetailTab, pane: ActivePane) -> Seq<(Seq<char>, Tone)> {
    seq![(" "@, Tone::Plain)] + tab_piece(DetailTab::Info, tab) + tab_piece(DetailTab::Files, tab)
        + tab_piece(DetailTab::Dependencies, tab) + if pane == ActivePane::Detail {
        seq![(" ← → switch tabs"@, Tone::Muted)]
    } else {
        Seq::empty()
    }
}

/// Appends the tab bar's piece for tab `t`.
fn add_tab(out: &mut Vec<Span>, t: DetailTab, active: DetailTab)
    ensures
        spans_view(final(out)@) == spans_view(old(out)@) + tab_piece(t, active),
{
    let label = String::from_str(" ").concat(t.label()).concat(" ");
    let tone = if t == active {
        Tone::TabActive
    } else {
        Tone::Muted
    };
    add_span(out, label, tone);
    add_str(out, " ", Tone::Plain);
    assert(spans_view(out@) =~= spans_view(old(out)@) + tab_piece(t, active));
}

/// The tab bar of `app`'s detail pane.
pub fn tab_bar_spans(app: &App) -> (r: Vec<Span>)
    ensures
        spans_view(r@) == tab_bar_view(app.detail_tab, app.active_pane),
{
    let mut out: Vec<Span> = Vec::new();
    add_str(&mut out, " ", Tone::Plain);
    add_tab(&mut out, DetailTab::Info, app.detail_tab);
    add_tab(&mut out, DetailTab::Files, app.detail_tab);
    add_tab(&mut out, DetailTab::Dependencies, app.detail_tab);
    if app.active_pane == ActivePane::Detail {
        add_str(&mut out, " ← → switch tabs", Tone::Muted);
    }
    assert(spans_view(out@) =~= tab_bar_view(app.detail_tab, app.active_pane));
    out
}

} // verus!

verus! {

// ---------------------------------------------------------------------------
// detail pane: Info and Deps
// ---------------------------------------------------------------------------

/// `items` written one after another with `sep` between them.
pub open spec fn join(items: Seq<Seq<char>>, sep: Seq<char>) -> Seq<char>
    decreases items.len(),
{
    if items.len() == 0 {
        Seq::empty()
    } else if items.len() == 1 {
        items[0]
    } else {
        join(items.drop_last(), sep) + sep + items.last()
    }
}

/// A line of a field: its name padded to 16 characters, then its value.
pub open spec fn field(label: Seq<char>, value: Seq<char>) -> Seq<(Seq<char>, Tone)> {
    seq![(pad_right(label, 16), Tone::Label), (value, Tone::Value)]
}

/// The Info tab for package `p`: name and version, description, install
/// facts, and a warning for an orphan. The URL, licenses and groups are
/// shown only when there are any.
pub open spec fn info_view(p: Package) -> Seq<Seq<(Seq<char>, Tone)>> {
    seq![
        seq![(p.name@, Tone::Heading), (" "@, Tone::Plain), (p.version@, Tone::Text)],
        seq![(p.description@, Tone::Text)],
        Seq::empty(),
        field("Install Date"@, p.install_date@),
        field("Reason"@, reason_text(p.install_reason)),
        field("Source"@, source_text(p.source)),
        field("Size"@, p.installed_size@),
        field("Architecture"@, p.architecture@),
    ] + (if p.url@.len() > 0 {
        seq![field("URL"@, p.url@)]
    } else {
        Seq::empty()
    }) + (if p.licenses@.len() > 0 {
        seq![field("Licenses"@, join(views(p.licenses@), ", "@))]
    } else {
        Seq::empty()
    }) + (if p.groups@.len() > 0 {
        seq![field("Groups"@, join(views(p.groups@), ", "@))]
    } else {
        Seq::empty()
    }) + seq![
        Seq::empty(),
        field("Packager"@, p.packager@),
        field("Build Date"@, p.build_date@),
    ] + (if p.is_orphan {
        seq![Seq::empty(), seq![("⚠ This package is an orphan (no package depends on it)"@, Tone::Warning)]]
    } else {
        Seq::empty()
    })
}

/// One line per item, each indented by two spaces.
pub open spec fn item_lines(items: Seq<Seq<char>>, tone: Tone) -> Seq<Seq<(Seq<char>, Tone)>> {
    items.map_values(|it: Seq<char>| seq![("  "@, Tone::Plain), (it, tone)])
}

/// A section of the Deps tab: its title, its items (or "None"), and an
/// empty line.
pub open spec fn section_view(title: Seq<char>, items: Seq<Seq<char>>) -> Seq<Seq<(Seq<char>, Tone)>> {
    seq![seq![(title, Tone::Category)]] + (if items.len() == 0 {
        seq![seq![("  None"@, Tone::Muted)]]
    } else {
        item_lines(items, Tone::Value)
    }) + seq![Seq::empty()]
}

/// The Deps tab for package `p`: its seven relations to other packages.
pub open spec fn deps_view(p: Package) -> Seq<Seq<(Seq<char>, Tone)>> {
    section_view("▸ Depends On"@, views(p.depends@)) + section_view(
        "▸ Optional Dependencies"@,
        views(p.optional_deps@),
    ) + section_view("▸ Required By"@, views(p.required_by@)) + section_view(
        "▸ Optional For"@,
        views(p.optional_for@),
    ) + section_view("▸ Provides"@, views(p.provides@)) + section_view(
        "▸ Conflicts With"@,
        views(p.conflicts@),
    ) + section_view("▸ Replaces"@, views(p.replaces@))
}

/// `items` joined by `sep`.
fn joined(items: &Vec<String>, sep: &str) -> (r: String)
    ensures
        r@ == join(views(items@), sep@),
{
    let mut v: Vec<char> = Vec::new();
    let mut k: usize = 0;
    assert(views(items@).take(0) =~= Seq::<Seq<char>>::empty());
    while k < items.len()
        invariant
            k <= items@.len(),
            v@ == join(views(items@).take(k as int), sep@),
        decreases items@.len() - k,
    {
        if k > 0 {
            push_str(&mut v, sep);
        }
        push_str(&mut v, items[k].as_str());
        proof {
            let t = views(items@).take(k + 1);
            assert(t.drop_last() =~= views(items@).take(k as int));
            assert(t.last() == items@[k as int]@);
            if k == 0 {
                assert(v@ =~= t[0]);
            } else {
                assert(v@ =~= join(t.drop_last(), sep@) + sep@ + t.last());
            }
        }
        k = k + 1;
    }
    assert(views(items@).take(items@.len() as int) =~= views(items@));
    string_from(&v)
}

/// Appends the line of a field.
fn add_field(out: &mut Vec<Line>, label: &str, value: String)
    ensures
        lines_view(final(out)@) == lines_view(old(out)@).push(field(label@, value@)),
{
    let mut spans: Vec<Span> = Vec::new();
    add_span(&mut spans, padded_right(label, 16), Tone::Label);
    add_span(&mut spans, value, Tone::Value);
    assert(spans_view(spans@) =~= field(label@, value@));
    add_line(out, spans);
}

/// The lines of the Info tab for `pkg`.
pub fn info_lines(pkg: &Package) -> (r: Vec<Line>)
    ensures
        lines_view(r@) == info_view(*pkg),
{
    let mut out: Vec<Line> = Vec::new();
    let mut head: Vec<Span> = Vec::new();
    add_span(&mut head, pkg.name.clone(), Tone::Heading);
    add_str(&mut head, " ", Tone::Plain);
    add_span(&mut head, pkg.version.clone(), Tone::Text);
    assert(spans_view(head@) =~= seq![(pkg.name@, Tone::Heading), (" "@, Tone::Plain), (pkg.version@, Tone::Text)]);
    add_line(&mut out, head);
    let mut desc: Vec<Span> = Vec::new();
    add_span(&mut desc, pkg.description.clone(), Tone::Text);
    assert(spans_view(desc@) =~= seq![(pkg.description@, Tone::Text)]);
    add_line(&mut out, desc);
    add_blank(&mut out);
    add_field(&mut out, "Install Date", pkg.install_date.clone());
    add_field(&mut out, "Reason", pkg.install_reason.to_string());
    add_field(&mut out, "Source", pkg.source.to_string());
    add_field(&mut out, "Size", pkg.installed_size.clone());
    add_field(&mut out, "Architecture", pkg.architecture.clone());
    let ghost first = lines_view(out@);
    if pkg.url.as_str().unicode_len() > 0 {
        add_field(&mut out, "URL", pkg.url.clone());
    }
    let ghost second = lines_view(out@);
    if pkg.licenses.len() > 0 {
        add_field(&mut out, "Licenses", joined(&pkg.licenses, ", "));
    }
    let ghost third = lines_view(out@);
    if pkg.groups.len() > 0 {
        add_field(&mut out, "Groups", joined(&pkg.groups, ", "));
    }
    let ghost fourth = lines_view(out@);
    add_blank(&mut out);
    add_field(&mut out, "Packager", pkg.packager.clone());
    add_field(&mut out, "Build Date", pkg.build_date.clone());
    let ghost fifth = lines_view(out@);
    if pkg.is_orphan {
        add_blank(&mut out);
        add_line_str(&mut out, "⚠ This package is an orphan (no package depends on it)", Tone::Warning);
    }
    proof {
        let p = *pkg;
        let a = seq![
            seq![(p.name@, Tone::Heading), (" "@, Tone::Plain), (p.version@, Tone::Text)],
            seq![(p.description@, Tone::Text)],
            Seq::empty(),
            field("Install Date"@, p.install_date@),
            field("Reason"@, reason_text(p.install_reason)),
            field("Source"@, source_text(p.source)),
            field("Size"@, p.installed_size@),
            field("Architecture"@, p.architecture@),
        ];
        assert(first =~= a);
        let b = if p.url@.len() > 0 {
            seq![field("URL"@, p.url@)]
        } else {
            Seq::empty()
        };
        assert(second =~= a + b);
        let c = if p.licenses@.len() > 0 {
            seq![field("Licenses"@, join(views(p.licenses@), ", "@))]
        } else {
            Seq::empty()
        };
        assert(third =~= a + b + c);
        let d = if p.groups@.len() > 0 {
            seq![field("Groups"@, join(views(p.groups@), ", "@))]
        } else {
            Seq::empty()
        };
        assert(fourth =~= a + b + c + d);
        let e = seq![Seq::empty(), field("Packager"@, p.packager@), field("Build Date"@, p.build_date@)];
        assert(fifth =~= a + b + c + d + e);
        assert(lines_view(out@) =~= info_view(p));
    }
    out
}

/// Appends one line per item, each indented by two spaces.
fn add_items(out: &mut Vec<Line>, items: &Vec<String>, tone: Tone)
    ensures
        lines_view(final(out)@) == lines_view(old(out)@) + item_lines(views(items@), tone),
{
    let mut k: usize = 0;
    while k < items.len()
        invariant
            k <= items@.len(),
            lines_view(out@) == lines_view(old(out)@) + item_lines(views(items@).take(k as int), tone),
        decreases items@.len() - k,
    {
        let mut spans: Vec<Span> = Vec::new();
        add_str(&mut spans, "  ", Tone::Plain);
        add_span(&mut spans, items[k].clone(), tone);
        assert(spans_view(spans@) =~= seq![("  "@, Tone::Plain), (items@[k as int]@, tone)]);
        add_line(out, spans);
        assert(item_lines(views(items@).take(k + 1), tone) =~= item_lines(
            views(items@).take(k as int),
            tone,
        ).push(seq![("  "@, Tone::Plain), (items@[k as int]@, tone)]));
        assert(lines_view(out@) =~= lines_view(old(out)@) + item_lines(views(items@).take(k + 1), tone));
        k = k + 1;
    }
    assert(views(items@).take(items@.len() as int) =~= views(items@));
}

/// Appends a section of the Deps tab.
fn add_section(out: &mut Vec<Line>, title: &str, items: &Vec<String>)
    ensures
        lines_view(final(out)@) == lines_view(old(out)@) + section_view(title@, views(items@)),
{
    let ghost start = lines_view(out@);
    add_line_str(out, title, Tone::Category);
    if items.len() == 0 {
        add_line_str(out, "  None", Tone::Muted);
    } else {
        add_items(out, items, Tone::Value);
    }
    add_blank(out);
    assert(lines_view(out@) =~= start + section_view(title@, views(items@)));
}

/// The lines of the Deps tab for `pkg`.
pub fn deps_lines(pkg: &Package) -> (r: Vec<Line>)
    ensures
        lines_view(r@) == deps_view(*pkg),
{
    let mut out: Vec<Line> = Vec::new();
    add_section(&mut out, "▸ Depends On", &pkg.depends);
    add_section(&mut out, "▸ Optional Dependencies", &pkg.optional_deps);
    add_section(&mut out, "▸ Required By", &pkg.required_by);
    add_section(&mut out, "▸ Optional For", &pkg.optional_for);
    add_section(&mut out, "▸ Provides", &pkg.provides);
    add_section(&mut out, "▸ Conflicts With", &pkg.conflicts);
    add_section(&mut out, "▸ Replaces", &pkg.replaces);
    assert(lines_view(out@) =~= deps_view(*pkg));
    out
}

// ---------------------------------------------------------------------------
// package list
// ---------------------------------------------------------------------------

/// The entry of package `p` in the list: name and version, then a badge for
/// a foreign package and a mark for an orphan.
pub open spec fn item_view(p: Package) -> Seq<(Seq<char>, Tone)> {
    seq![(p.name@, Tone::PkgName), (" "@, Tone::Plain), (p.version@, Tone::PkgVersion)] + (if p.source
        == PackageSource::AUR {
        seq![(" "@, Tone::Plain), ("AUR"@, Tone::PkgAur)]
    } else {
        Seq::empty()
    }) + (if p.is_orphan {
        seq![(" "@, Tone::Plain), ("⚠"@, Tone::PkgOrphan)]
    } else {
        Seq::empty()
    })
}

/// The entry of `pkg` in the list.
pub fn list_item(pkg: &Package) -> (r: Vec<Span>)
    ensures
        spans_view(r@) == item_view(*pkg),
{
    let mut out: Vec<Span> = Vec::new();
    add_span(&mut out, pkg.name.clone(), Tone::PkgName);
    add_str(&mut out, " ", Tone::Plain);
    add_span(&mut out, pkg.version.clone(), Tone::PkgVersion);
    let ghost first = spans_view(out@);
    if pkg.source == PackageSource::AUR {
        add_str(&mut out, " ", Tone::Plain);
        add_str(&mut out, "AUR", Tone::PkgAur);
    }
    let ghost second = spans_view(out@);
    if pkg.is_orphan {
        add_str(&mut out, " ", Tone::Plain);
        add_str(&mut out, "⚠", Tone::PkgOrphan);
    }
    proof {
        let p = *pkg;
        let a = seq![(p.name@, Tone::PkgName), (" "@, Tone::Plain), (p.version@, Tone::PkgVersion)];
        assert(first =~= a);
        let b = if p.source == PackageSource::AUR {
            seq![(" "@, Tone::Plain), ("AUR"@, Tone::PkgAur)]
        } else {
            Seq::empty()
        };
        assert(second =~= a + b);
        assert(spans_view(out@) =~= item_view(p));
    }
    out
}

/// The entries of the list, one per listed package, in list order.
pub fn list_items(app: &App) -> (r: Vec<Vec<Span>>)
    requires
        app.wf(),
    ensures
        r@.len() == app.filtered_indices@.len(),
        forall|k: int|
            0 <= k < r@.len() ==> spans_view((#[trigger] r@[k])@) == item_view(
                app.packages@[app.filtered_indices@[k] as int],
            ),
{
    let mut out: Vec<Vec<Span>> = Vec::new();
    let mut k: usize = 0;
    while k < app.filtered_indices.len()
        invariant
            app.wf(),
            k <= app.filtered_indices@.len(),
            out@.len() == k,
            forall|t: int|
                0 <= t < k ==> spans_view((#[trigger] out@[t])@) == item_view(
                    app.packages@[app.filtered_indices@[t] as int],
                ),
        decreases app.filtered_indices@.len() - k,
    {
        let i = app.filtered_indices[k];
        out.push(list_item(&app.packages[i]));
        k = k + 1;
    }
    out
}

} // verus!

verus! {

// ---------------------------------------------------------------------------
// detail pane: Files, and the pane as a whole
// ---------------------------------------------------------------------------

/// The heading of a file group: its location and how many files it holds.
pub open spec fn group_header(g: FileGroup) -> Seq<char> {
    "▸ "@ + g.category@ + " ("@ + decimal(g.files@.len()) + " files)"@
}

/// The lines of a file group: its heading, its files, an empty line.
pub open spec fn group_view(g: FileGroup) -> Seq<Seq<(Seq<char>, Tone)>> {
    seq![seq![(group_header(g), Tone::Category)]] + item_lines(views(g.files@), Tone::FilePath) + seq![
        Seq::empty(),
    ]
}

/// The lines of the file groups `gs`, one group after another.
pub open spec fn groups_view(gs: Seq<FileGroup>) -> Seq<Seq<(Seq<char>, Tone)>>
    decreases gs.len(),
{
    if gs.len() == 0 {
        Seq::empty()
    } else {
        groups_view(gs.drop_last()) + group_view(gs.last())
    }
}

/// The Files tab: a hint while the files are not loaded, a note when the
/// package has none, else its file groups.
pub open spec fn files_view(groups: Option<Seq<FileGroup>>) -> Seq<Seq<(Seq<char>, Tone)>> {
    match groups {
        None => seq![seq![("Press Enter to load file list"@, Tone::Muted)]],
        Some(gs) => if gs.len() == 0 {
            seq![seq![("No files found"@, Tone::Muted)]]
        } else {
            groups_view(gs)
        },
    }
}

/// The lines of the Files tab for the file groups `groups`, if loaded.
pub fn files_lines(groups: Option<&Vec<FileGroup>>) -> (r: Vec<Line>)
    ensures
        lines_view(r@) == files_view(
            match groups {
                Some(g) => Some(g@),
                None => None,
            },
        ),
{
    let mut out: Vec<Line> = Vec::new();
    match groups {
        None => {
            add_line_str(&mut out, "Press Enter to load file list", Tone::Muted);
            assert(lines_view(out@) =~= files_view(None));
        },
        Some(gs) => {
            if gs.len() == 0 {
                add_line_str(&mut out, "No files found", Tone::Muted);
                assert(lines_view(out@) =~= files_view(Some(gs@)));
            } else {
                let mut k: usize = 0;
                assert(gs@.take(0) =~= Seq::<FileGroup>::empty());
                while k < gs.len()
                    invariant
                        k <= gs@.len(),
                        lines_view(out@) == groups_view(gs@.take(k as int)),
                    decreases gs@.len() - k,
                {
                    let g = &gs[k];
                    let mut head: Vec<char> = Vec::new();
                    push_str(&mut head, "▸ ");
                    push_str(&mut head, g.category.as_str());
                    push_str(&mut head, " (");
                    push_decimal(&mut head, g.files.len() as u64);
                    push_str(&mut head, " files)");
                    assert(head@ =~= group_header(*g));
                    let ghost before = lines_view(out@);
                    let mut spans: Vec<Span> = Vec::new();
                    add_span(&mut spans, string_from(&head), Tone::Category);
                    assert(spans_view(spans@) =~= seq![(group_header(*g), Tone::Category)]);
                    add_line(&mut out, spans);
                    add_items(&mut out, &g.files, Tone::FilePath);
                    add_blank(&mut out);
                    proof {
                        assert(gs@.take(k + 1).drop_last() =~= gs@.take(k as int));
                        assert(lines_view(out@) =~= before + group_view(*g));
                    }
                    k = k + 1;
                }
                assert(gs@.take(gs@.len() as int) =~= gs@);
            }
        },
    }
    out
}

/// The lines of the detail pane for `app`'s selected package, by the tab
/// shown; `None` when no package is selected.
pub fn detail_lines(app: &App) -> (r: Option<Vec<Line>>)
    ensures
        r is None <==> app.selected_index() is None,
        r matches Some(lines) ==> lines_view(lines@) == match app.detail_tab {
            DetailTab::Info => info_view(app.packages@[app.selected_index()->0]),
            DetailTab::Files => files_view(
                match app.selected_groups() {
                    Some(g) => Some(g@),
                    None => None,
                },
            ),
            DetailTab::Dependencies => deps_view(app.packages@[app.selected_index()->0]),
        },
{
    let pkg = match app.selected_package() {
        Some(p) => p,
        None => {
            return None;
        },
    };
    let lines = match app.detail_tab {
        DetailTab::Info => info_lines(pkg),
        DetailTab::Files => files_lines(app.selected_files()),
        DetailTab::Dependencies => deps_lines(pkg),
    };
    Some(lines)
}

// ---------------------------------------------------------------------------
// dashboard
// ---------------------------------------------------------------------------

/// The statistics of the dashboard: how many packages, of which explicit,
/// dependencies, foreign and orphans, and the disk they use.
pub open spec fn stats_view(
    total: nat,
    explicit: nat,
    deps: nat,
    aur: nat,
    orphans: nat,
    size: u64,
) -> Seq<Seq<(Seq<char>, Tone)>> {
    seq![
        seq![("  Package Statistics"@, Tone::Title)],
        Seq::empty(),
        seq![("    Total Packages:  "@, Tone::Label), (decimal(total), Tone::Stat)],
        seq![("    ├── Explicit:    "@, Tone::Label), (decimal(explicit), Tone::Explicit)],
        seq![("    ├── Dependencies:"@, Tone::Label), (" "@ + decimal(deps), Tone::Dependency)],
        seq![("    ├── AUR:         "@, Tone::Label), (decimal(aur), Tone::Foreign)],
        seq![("    └── Orphans:     "@, Tone::Label), (decimal(orphans), Tone::Orphan)],
        seq![("    Disk Usage:      "@, Tone::Label), (bytes_text(size), Tone::Stat)],
    ]
}

/// Appends a line of a label and a figure.
fn add_stat(out: &mut Vec<Line>, label: &str, figure: String, tone: Tone)
    ensures
        lines_view(final(out)@) == lines_view(old(out)@).push(
            seq![(label@, Tone::Label), (figure@, tone)],
        ),
{
    let mut spans: Vec<Span> = Vec::new();
    add_str(&mut spans, label, Tone::Label);
    add_span(&mut spans, figure, tone);
    assert(spans_view(spans@) =~= seq![(label@, Tone::Label), (figure@, tone)]);
    add_line(out, spans);
}

/// The statistics of `app`'s dashboard.
pub fn stats_lines(app: &App) -> (r: Vec<Line>)
    ensures
        lines_view(r@) == stats_view(
            app.packages@.len(),
            count_reason(app.packages@, InstallReason::Explicit),
            count_reason(app.packages@, InstallReason::Dependency),
            app.aur_names@.len(),
            app.orphan_names@.len(),
            app.total_installed_size,
        ),
{
    let mut out: Vec<Line> = Vec::new();
    add_line_str(&mut out, "  Package Statistics", Tone::Title);
    add_blank(&mut out);
    add_stat(&mut out, "    Total Packages:  ", decimal_string(app.total_packages() as u64), Tone::Stat);
    add_stat(&mut out, "    ├── Explicit:    ", decimal_string(app.explicit_count() as u64), Tone::Explicit);
    let mut deps: Vec<char> = Vec::new();
    push_str(&mut deps, " ");
    push_decimal(&mut deps, app.dependency_count() as u64);
    assert(deps@ =~= " "@ + decimal(count_reason(app.packages@, InstallReason::Dependency)));
    add_stat(&mut out, "    ├── Dependencies:", string_from(&deps), Tone::Dependency);
    add_stat(&mut out, "    ├── AUR:         ", decimal_string(app.aur_count() as u64), Tone::Foreign);
    add_stat(&mut out, "    └── Orphans:     ", decimal_string(app.orphan_count() as u64), Tone::Orphan);
    add_stat(&mut out, "    Disk Usage:      ", format_bytes(app.total_installed_size), Tone::Stat);
    assert(lines_view(out@) =~= stats_view(
        app.packages@.len(),
        count_reason(app.packages@, InstallReason::Explicit),
        count_reason(app.packages@, InstallReason::Dependency),
        app.aur_names@.len(),
        app.orphan_names@.len(),
        app.total_installed_size,
    ));
    out
}

/// The row of the `i`-th largest package `p` (counting from 0), with a bar
/// of `filled` of 30 cells filled.
pub open spec fn top_row(i: int, p: Package, filled: usize) -> Seq<(Seq<char>, Tone)> {
    seq![
        ("    "@ + pad_right(decimal((i + 1) as nat), 2) + " "@, Tone::Label),
        (pad_right(p.name@, 30), Tone::Value),
        (repeat('█', filled as nat), Tone::BarFilled),
        (repeat('░', if filled < 30 {
            (30 - filled) as nat
        } else {
            0
        }), Tone::BarEmpty),
        (" "@, Tone::Plain),
        (pad_left(p.installed_size@, 10), Tone::Stat),
    ]
}

/// The largest packages on the dashboard: a title, then a row per package.
pub open spec fn top_view(top: Seq<Package>, filled: Seq<usize>) -> Seq<Seq<(Seq<char>, Tone)>> {
    seq![seq![("  Top 10 Largest Packages"@, Tone::Title)], Seq::empty()] + Seq::new(
        top.len(),
        |i: int| top_row(i, top[i], filled[i]),
    )
}

/// The dashboard's rows for the packages `top`, largest first, where the
/// bar of `top[i]` has `filled[i]` of 30 cells filled.
pub fn top_lines(top: &Vec<&Package>, filled: &Vec<usize>) -> (r: Vec<Line>)
    requires
        filled@.len() == top@.len(),
    ensures
        lines_view(r@) == top_view(top@.map_values(|p: &Package| *p), filled@),
{
    let ghost pkgs = top@.map_values(|p: &Package| *p);
    let mut out: Vec<Line> = Vec::new();
    add_line_str(&mut out, "  Top 10 Largest Packages", Tone::Title);
    add_blank(&mut out);
    let ghost start = lines_view(out@);
    assert(start =~= seq![seq![("  Top 10 Largest Packages"@, Tone::Title)], Seq::empty()]);
    let mut k: usize = 0;
    while k < top.len()
        invariant
            k <= top@.len(),
            filled@.len() == top@.len(),
            pkgs == top@.map_values(|p: &Package| *p),
            lines_view(out@) == start + Seq::new(k as nat, |i: int| top_row(i, pkgs[i], filled@[i])),
        decreases top@.len() - k,
    {
        let p = top[k];
        let f = filled[k];
        let mut rank: Vec<char> = Vec::new();
        push_str(&mut rank, "    ");
        let mut num: Vec<char> = Vec::new();
        push_decimal(&mut num, (k + 1) as u64);
        if num.len() < 2 {
            let pad = 2 - num.len();
            push_repeat(&mut num, ' ', pad);
        }
        assert(num@ =~= pad_right(decimal((k + 1) as nat), 2));
        rank.append(&mut num);
        push_str(&mut rank, " ");
        let mut bar: Vec<char> = Vec::new();
        push_repeat(&mut bar, '█', f);
        let mut rest: Vec<char> = Vec::new();
        let empty: usize = if f < 30 {
            30 - f
        } else {
            0
        };
        push_repeat(&mut rest, '░', empty);
        let mut spans: Vec<Span> = Vec::new();
        add_span(&mut spans, string_from(&rank), Tone::Label);
        add_span(&mut spans, padded_right(p.name.as_str(), 30), Tone::Value);
        add_span(&mut spans, string_from(&bar), Tone::BarFilled);
        add_span(&mut spans, string_from(&rest), Tone::BarEmpty);
        add_str(&mut spans, " ", Tone::Plain);
        add_span(&mut spans, padded_left(p.installed_size.as_str(), 10), Tone::Stat);
        proof {
            assert(pkgs[k as int] == *p);
            assert(bar@ =~= repeat('█', f as nat));
            assert(rest@ =~= repeat('░', empty as nat));
            assert(spans_view(spans@) =~= top_row(k as int, pkgs[k as int], filled@[k as int]));
        }
        add_line(&mut out, spans);
        assert(lines_view(out@) =~= start + Seq::new((k + 1) as nat, |i: int| top_row(i, pkgs[i], filled@[i])));
        k = k + 1;
    }
    assert(lines_view(out@) =~= top_view(pkgs, filled@));
    out
}

} // verus!
