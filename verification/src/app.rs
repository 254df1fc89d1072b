//! The application state and what each key does to it.
use vstd::prelude::*;
use vstd::string::StringExecFns;
use crate::config::Config;
use crate::listing::{compute_listing, is_listing};
use crate::package::{FileGroup, Package};

verus! {

broadcast use vstd::string::group_string_axioms;

/// Which packages the list shows.
#[derive(Debug, Clone, Copy, PartialEq, Eq, Structural)]
pub enum FilterCategory {
    All,
    Explicit,
    Dependencies,
    AUR,
    Orphans,
    Recent,
    Largest,
}

impl FilterCategory {
    /// The name shown for the filter.
    pub fn label(&self) -> (s: &'static str)
        ensures
            s@ == filter_label(*self),
    {
        match self {
            FilterCategory::All => "All",
            FilterCategory::Explicit => "Explicit",
            FilterCategory::Dependencies => "Dependencies",
            FilterCategory::AUR => "AUR",
            FilterCategory::Orphans => "Orphans",
            FilterCategory::Recent => "Recent",
            FilterCategory::Largest => "Largest",
        }
    }

    /// Every filter, in the order of their shortcut keys.
    pub fn all_categories() -> (r: &'static [FilterCategory])
        ensures
            r@ == seq![
                FilterCategory::All,
                FilterCategory::Explicit,
                FilterCategory::Dependencies,
                FilterCategory::AUR,
                FilterCategory::Orphans,
                FilterCategory::Recent,
                FilterCategory::Largest,
            ],
    {
        &[
            FilterCategory::All,
            FilterCategory::Explicit,
            FilterCategory::Dependencies,
            FilterCategory::AUR,
            FilterCategory::Orphans,
            FilterCategory::Recent,
            FilterCategory::Largest,
        ]
    }

    /// The key that selects the filter.
    pub fn shortcut(&self) -> (c: char)
        ensures
            c == filter_key(*self),
    {
        match self {
            FilterCategory::All => '1',
            FilterCategory::Explicit => '2',
            FilterCategory::Dependencies => '3',
            FilterCategory::AUR => '4',
            FilterCategory::Orphans => '5',
            FilterCategory::Recent => '6',
            FilterCategory::Largest => '7',
        }
    }

    /// What the filter is called when printed.
    pub fn to_string(&self) -> (s: String)
        ensures
            s@ == filter_label(*self),
    {
        String::from_str(self.label())
    }
}

/// The name of filter `f`.
pub open spec fn filter_label(f: FilterCategory) -> Seq<char> {
    match f {
        FilterCategory::All => "All"@,
        FilterCategory::Explicit => "Explicit"@,
        FilterCategory::Dependencies => "Dependencies"@,
        FilterCategory::AUR => "AUR"@,
        FilterCategory::Orphans => "Orphans"@,
        FilterCategory::Recent => "Recent"@,
        FilterCategory::Largest => "Largest"@,
    }
}

/// The name of tab `t`.
pub open spec fn tab_label(t: DetailTab) -> Seq<char> {
    match t {
        DetailTab::Info => "Info"@,
        DetailTab::Files => "Files"@,
        DetailTab::Dependencies => "Deps"@,
    }
}

/// The key that selects filter `f`: '1' to '7' in the order of `all_categories`.
pub open spec fn filter_key(f: FilterCategory) -> char {
    match f {
        FilterCategory::All => '1',
        FilterCategory::Explicit => '2',
        FilterCategory::Dependencies => '3',
        FilterCategory::AUR => '4',
        FilterCategory::Orphans => '5',
        FilterCategory::Recent => '6',
        FilterCategory::Largest => '7',
    }
}

/// The tab of the detail pane.
#[derive(Debug, Clone, Copy, PartialEq, Eq, Structural)]
pub enum DetailTab {
    Info,
    Files,
    Dependencies,
}

/// The tab after `t`, going round.
pub open spec fn tab_after(t: DetailTab) -> DetailTab {
    match t {
        DetailTab::Info => DetailTab::Files,
        DetailTab::Files => DetailTab::Dependencies,
        DetailTab::Dependencies => DetailTab::Info,
    }
}

/// The tab before `t`, going round.
pub open spec fn tab_before(t: DetailTab) -> DetailTab {
    match t {
        DetailTab::Info => DetailTab::Dependencies,
        DetailTab::Files => DetailTab::Info,
        DetailTab::Dependencies => DetailTab::Files,
    }
}

impl DetailTab {
    /// The name shown for the tab.
    pub fn label(&self) -> (s: &'static str)
        ensures
            s@ == tab_label(*self),
    {
        match self {
            DetailTab::Info => "Info",
            DetailTab::Files => "Files",
            DetailTab::Dependencies => "Deps",
        }
    }

    /// The next tab (Info, Files, Deps, then Info again).
    pub fn next(&self) -> (t: DetailTab)
        ensures
            t == tab_after(*self),
    {
        match self {
            DetailTab::Info => DetailTab::Files,
            DetailTab::Files => DetailTab::Dependencies,
            DetailTab::Dependencies => DetailTab::Info,
        }
    }

    /// The previous tab.
    pub fn prev(&self) -> (t: DetailTab)
        ensures
            t == tab_before(*self),
    {
        match self {
            DetailTab::Info => DetailTab::Dependencies,
            DetailTab::Files => DetailTab::Info,
            DetailTab::Dependencies => DetailTab::Files,
        }
    }

    /// What the tab is called when printed.
    pub fn to_string(&self) -> (s: String)
        ensures
            s@ == tab_label(*self),
    {
        String::from_str(self.label())
    }
}

/// The pane that has the keyboard focus.
#[derive(Debug, Clone, Copy, PartialEq, Eq, Structural)]
pub enum ActivePane {
    List,
    Detail,
}

} // verus!

verus! {

/// Which entry of the package list is selected, and which entry the list
/// is scrolled to (the state that the list widget keeps between frames).
#[derive(Debug, Clone, Copy, PartialEq, Eq, Structural)]
pub struct ListState {
    selected: Option<usize>,
    offset: usize,
}

impl ListState {
    pub closed spec fn sel(&self) -> Option<usize> {
        self.selected
    }

    pub closed spec fn off(&self) -> usize {
        self.offset
    }

    /// Nothing selected, scrolled to the top.
    pub fn new() -> (s: ListState)
        ensures
            s.sel() is None,
            s.off() == 0,
    {
        ListState { selected: None, offset: 0 }
    }

    /// The selected entry.
    pub fn selected(&self) -> (r: Option<usize>)
        ensures
            r == self.sel(),
    {
        self.selected
    }

    /// The first entry shown.
    pub fn offset(&self) -> (r: usize)
        ensures
            r == self.off(),
    {
        self.offset
    }

    /// Selects `index`; selecting nothing scrolls back to the top.
    pub fn select(&mut self, index: Option<usize>)
        ensures
            final(self).sel() == index,
            final(self).off() == (if index is None {
                0
            } else {
                old(self).off()
            }),
    {
        self.selected = index;
        if index.is_none() {
            self.offset = 0;
        }
    }

    /// Records the scroll position that drawing the list chose.
    pub fn set_offset(&mut self, offset: usize)
        ensures
            final(self).sel() == old(self).sel(),
            final(self).off() == offset,
    {
        self.offset = offset;
    }
}

/// A key, as far as the program tells keys apart.
#[derive(Debug, Clone, Copy, PartialEq, Eq, Structural)]
pub enum KeyCode {
    Char(char),
    Tab,
    Enter,
    Esc,
    Backspace,
    Up,
    Down,
    Left,
    Right,
    Home,
    End,
    PageUp,
    PageDown,
    Other,
}

/// A key press: the key and whether Control was held.
#[derive(Debug, Clone, Copy, PartialEq, Eq, Structural)]
pub struct KeyEvent {
    pub code: KeyCode,
    pub control: bool,
}

} // verus!

verus! {

/// The whole state of the program.
pub struct App {
    /// All installed packages, by name.
    pub packages: Vec<Package>,
    /// Positions in `packages` of the packages the list shows, in list order.
    pub filtered_indices: Vec<usize>,
    pub list_state: ListState,
    pub filter: FilterCategory,
    pub search_query: String,
    pub is_searching: bool,
    pub detail_tab: DetailTab,
    pub detail_scroll: u16,
    pub active_pane: ActivePane,
    pub show_dashboard: bool,
    pub should_quit: bool,
    /// Names of orphan packages, each once.
    pub orphan_names: Vec<String>,
    /// Names of foreign (AUR) packages, each once.
    pub aur_names: Vec<String>,
    /// The grouped files of the packages whose files were loaded, each name once.
    pub cached_files: Vec<(String, Vec<FileGroup>)>,
    pub total_installed_size: u64,
    pub config: Config,
}

/// The part of the state that keys change.
pub struct UiState {
    pub filtered: Seq<usize>,
    pub selected: Option<usize>,
    pub offset: usize,
    pub filter: FilterCategory,
    pub query: Seq<char>,
    pub searching: bool,
    pub tab: DetailTab,
    pub scroll: u16,
    pub pane: ActivePane,
    pub dashboard: bool,
    pub quit: bool,
}

/// The names of cached file lists.
pub open spec fn cache_names(c: Seq<(String, Vec<FileGroup>)>) -> Seq<Seq<char>> {
    c.map_values(|e: (String, Vec<FileGroup>)| e.0@)
}

/// The file groups cached under `name`: those of the first entry of that name.
pub open spec fn cached_groups(c: Seq<(String, Vec<FileGroup>)>, name: Seq<char>) -> Option<Vec<FileGroup>>
    decreases c.len(),
{
    if c.len() == 0 {
        None
    } else if c[0].0@ == name {
        Some(c[0].1)
    } else {
        cached_groups(c.drop_first(), name)
    }
}

/// No element occurs twice.
pub open spec fn distinct<T>(s: Seq<T>) -> bool {
    forall|a: int, b: int| 0 <= a < b < s.len() ==> s[a] != s[b]
}

impl App {
    /// The part of the state that keys change.
    pub open spec fn ui(&self) -> UiState {
        UiState {
            filtered: self.filtered_indices@,
            selected: self.list_state.sel(),
            offset: self.list_state.off(),
            filter: self.filter,
            query: self.search_query@,
            searching: self.is_searching,
            tab: self.detail_tab,
            scroll: self.detail_scroll,
            pane: self.active_pane,
            dashboard: self.show_dashboard,
            quit: self.should_quit,
        }
    }

    /// The state is consistent: the list shows distinct packages, an entry
    /// is selected exactly when the list is not empty, and name lists hold
    /// each name once.
    pub open spec fn wf(&self) -> bool {
        &&& self.packages@.len() + 20 <= 0x7fff_ffff
        &&& self.filtered_indices@.len() <= self.packages@.len()
        &&& forall|k: int| 0 <= k < self.filtered_indices@.len() ==> (#[trigger] self.filtered_indices@[k]) < self.packages@.len()
        &&& distinct(self.filtered_indices@)
        &&& (self.list_state.sel() is None <==> self.filtered_indices@.len() == 0)
        &&& (self.list_state.sel() matches Some(s) ==> s < self.filtered_indices@.len())
        &&& distinct(cache_names(self.cached_files@))
        &&& distinct(crate::text::views(self.aur_names@))
        &&& distinct(crate::text::views(self.orphan_names@))
    }

    /// What keys never change: the packages, the name lists, the cache, the
    /// total size and the settings.
    pub open spec fn same_data(&self, other: &App) -> bool {
        &&& self.packages@ == other.packages@
        &&& self.orphan_names@ == other.orphan_names@
        &&& self.aur_names@ == other.aur_names@
        &&& self.cached_files@ == other.cached_files@
        &&& self.total_installed_size == other.total_installed_size
        &&& self.config == other.config
    }
}

/// `u` with `i` selected; selecting nothing scrolls the list to the top.
pub open spec fn select_at(u: UiState, i: Option<usize>) -> UiState {
    UiState {
        selected: i,
        offset: if i is None {
            0
        } else {
            u.offset
        },
        ..u
    }
}

/// `after` is `before` with the list recomputed for its filter and query,
/// the first entry (if any) selected and the detail scrolled to the top.
pub open spec fn refiltered(pkgs: Seq<Package>, before: UiState, after: UiState) -> bool {
    &&& is_listing(pkgs, before.filter, before.query, after.filtered)
    &&& after == UiState {
        filtered: after.filtered,
        scroll: 0,
        ..select_at(
            before,
            if after.filtered.len() == 0 {
                None
            } else {
                Some(0)
            },
        )
    }
}

/// `u` with the selection moved by `delta` entries, held inside the list.
pub open spec fn moved_by(u: UiState, delta: int) -> UiState {
    if u.filtered.len() == 0 {
        u
    } else {
        let cur: int = match u.selected {
            Some(s) => s as int,
            None => 0,
        };
        let target = if cur + delta < 0 {
            0
        } else if cur + delta > u.filtered.len() - 1 {
            u.filtered.len() - 1
        } else {
            cur + delta
        };
        UiState { scroll: 0, ..select_at(u, Some(target as usize)) }
    }
}

/// `u` with the first entry selected.
pub open spec fn to_start(u: UiState) -> UiState {
    if u.filtered.len() == 0 {
        u
    } else {
        UiState { scroll: 0, ..select_at(u, Some(0)) }
    }
}

/// `u` with the last entry selected.
pub open spec fn to_end(u: UiState) -> UiState {
    if u.filtered.len() == 0 {
        u
    } else {
        UiState { scroll: 0, ..select_at(u, Some((u.filtered.len() - 1) as usize)) }
    }
}

impl App {
    /// Recomputes the list for the current filter and search, selects its
    /// first entry (if any) and scrolls the detail to the top.
    pub fn apply_filter(&mut self)
        requires
            old(self).wf(),
        ensures
            final(self).wf(),
            final(self).same_data(&*old(self)),
            refiltered(old(self).packages@, old(self).ui(), final(self).ui()),
    {
        let r = compute_listing(&self.packages, self.filter, self.search_query.as_str());
        proof {
            assert forall|a: int, b: int| 0 <= a < b < r@.len() implies r@[a] != r@[b] by {
                crate::listing::lemma_precedes_order(self.packages@, self.filter, r@[a] as int, r@[b] as int, 0);
            }
        }
        self.filtered_indices = r;
        if self.filtered_indices.len() == 0 {
            self.list_state.select(None);
        } else {
            self.list_state.select(Some(0));
        }
        self.detail_scroll = 0;
    }
}

} // verus!

verus! {

/// The filter that digit key `c` selects.
pub open spec fn filter_of_key(c: char) -> FilterCategory {
    if c == '1' {
        FilterCategory::All
    } else if c == '2' {
        FilterCategory::Explicit
    } else if c == '3' {
        FilterCategory::Dependencies
    } else if c == '4' {
        FilterCategory::AUR
    } else if c == '5' {
        FilterCategory::Orphans
    } else if c == '6' {
        FilterCategory::Recent
    } else {
        FilterCategory::Largest
    }
}

/// A key that selects a filter.
pub open spec fn is_filter_key(c: char) -> bool {
    c == '1' || c == '2' || c == '3' || c == '4' || c == '5' || c == '6' || c == '7'
}

/// The other pane.
pub open spec fn other_pane(p: ActivePane) -> ActivePane {
    match p {
        ActivePane::List => ActivePane::Detail,
        ActivePane::Detail => ActivePane::List,
    }
}

/// A key while the search is being typed.
pub open spec fn search_key_result(pkgs: Seq<Package>, u: UiState, code: KeyCode, after: UiState) -> bool {
    match code {
        KeyCode::Esc => refiltered(pkgs, UiState { searching: false, query: Seq::empty(), ..u }, after),
        KeyCode::Enter => after == UiState { searching: false, ..u },
        KeyCode::Backspace => refiltered(
            pkgs,
            UiState {
                query: if u.query.len() > 0 {
                    u.query.drop_last()
                } else {
                    u.query
                },
                ..u
            },
            after,
        ),
        KeyCode::Char(c) => refiltered(pkgs, UiState { query: u.query.push(c), ..u }, after),
        _ => after == u,
    }
}

/// A key while browsing.
pub open spec fn browse_key_result(pkgs: Seq<Package>, u: UiState, code: KeyCode, after: UiState) -> bool {
    let detail = u.pane == ActivePane::Detail;
    if code == KeyCode::Char('q') {
        after == UiState { quit: true, ..u }
    } else if code == KeyCode::Tab {
        after == UiState { pane: other_pane(u.pane), ..u }
    } else if code == KeyCode::Char('/') {
        after == UiState { searching: true, query: Seq::empty(), ..u }
    } else if code matches KeyCode::Char(c) && is_filter_key(c) {
        refiltered(pkgs, UiState { filter: filter_of_key(code->Char_0), ..u }, after)
    } else if code == KeyCode::Char('d') {
        after == UiState { dashboard: !u.dashboard, ..u }
    } else if code == KeyCode::Enter {
        after == UiState { tab: DetailTab::Files, ..u }
    } else if code == KeyCode::Up || code == KeyCode::Char('k') {
        after == if detail {
            UiState {
                scroll: if u.scroll > 0 {
                    (u.scroll - 1) as u16
                } else {
                    0
                },
                ..u
            }
        } else {
            moved_by(u, -1)
        }
    } else if code == KeyCode::Down || code == KeyCode::Char('j') {
        after == if detail {
            UiState {
                scroll: if u.scroll < u16::MAX {
                    (u.scroll + 1) as u16
                } else {
                    u16::MAX
                },
                ..u
            }
        } else {
            moved_by(u, 1)
        }
    } else if (code == KeyCode::Left || code == KeyCode::Char('h')) && detail {
        after == UiState { tab: tab_before(u.tab), scroll: 0, ..u }
    } else if (code == KeyCode::Right || code == KeyCode::Char('l')) && detail {
        after == UiState { tab: tab_after(u.tab), scroll: 0, ..u }
    } else if code == KeyCode::Home || code == KeyCode::Char('g') {
        after == to_start(u)
    } else if code == KeyCode::End || code == KeyCode::Char('G') {
        after == to_end(u)
    } else if code == KeyCode::PageUp {
        after == moved_by(u, -20)
    } else if code == KeyCode::PageDown {
        after == moved_by(u, 20)
    } else {
        after == u
    }
}

/// What key `key` does: Control-C quits; while searching, keys edit the
/// search; else keys browse.
pub open spec fn key_result(pkgs: Seq<Package>, u: UiState, key: KeyEvent, after: UiState) -> bool {
    if key.control && key.code == KeyCode::Char('c') {
        after == UiState { quit: true, ..u }
    } else if u.searching {
        search_key_result(pkgs, u, key.code, after)
    } else {
        browse_key_result(pkgs, u, key.code, after)
    }
}

impl App {
    /// Position in `packages` of the selected package.
    pub open spec fn selected_index(&self) -> Option<int> {
        match self.list_state.sel() {
            Some(s) => if s < self.filtered_indices@.len() && self.filtered_indices@[s as int]
                < self.packages@.len() {
                Some(self.filtered_indices@[s as int] as int)
            } else {
                None
            },
            None => None,
        }
    }

    /// The name of the selected package, when its files are not cached yet.
    pub open spec fn files_to_load(&self) -> Option<Seq<char>> {
        match self.selected_index() {
            Some(i) => if cache_names(self.cached_files@).contains(self.packages@[i].name@) {
                None
            } else {
                Some(self.packages@[i].name@)
            },
            None => None,
        }
    }

    /// The selected package.
    pub fn selected_package(&self) -> (r: Option<&Package>)
        ensures
            r is Some <==> self.selected_index() is Some,
            r matches Some(p) ==> *p == self.packages@[self.selected_index()->0],
    {
        match self.list_state.selected() {
            Some(s) => {
                if s < self.filtered_indices.len() && self.filtered_indices[s] < self.packages.len() {
                    Some(&self.packages[self.filtered_indices[s]])
                } else {
                    None
                }
            },
            None => None,
        }
    }

    fn move_selection(&mut self, delta: i32)
        requires
            old(self).wf(),
            old(self).filtered_indices@.len() + (if delta < 0 {
                -delta
            } else {
                delta as int
            }) <= 0x7fff_ffff,
        ensures
            final(self).wf(),
            final(self).same_data(&*old(self)),
            final(self).ui() == moved_by(old(self).ui(), delta as int),
    {
        if self.filtered_indices.len() == 0 {
            return;
        }
        let current: i32 = match self.list_state.selected() {
            Some(s) => s as i32,
            None => 0,
        };
        let max: i32 = self.filtered_indices.len() as i32 - 1;
        let target: i32 = current + delta;
        let new: i32 = if target < 0 {
            0
        } else if target > max {
            max
        } else {
            target
        };
        self.list_state.select(Some(new as usize));
        self.detail_scroll = 0;
    }

    fn move_to_start(&mut self)
        requires
            old(self).wf(),
        ensures
            final(self).wf(),
            final(self).same_data(&*old(self)),
            final(self).ui() == to_start(old(self).ui()),
    {
        if self.filtered_indices.len() > 0 {
            self.list_state.select(Some(0));
            self.detail_scroll = 0;
        }
    }

    fn move_to_end(&mut self)
        requires
            old(self).wf(),
        ensures
            final(self).wf(),
            final(self).same_data(&*old(self)),
            final(self).ui() == to_end(old(self).ui()),
    {
        if self.filtered_indices.len() > 0 {
            self.list_state.select(Some(self.filtered_indices.len() - 1));
            self.detail_scroll = 0;
        }
    }
}

} // verus!

verus! {

impl App {
    /// Whether the files of the package named `name` are cached.
    fn is_cached(&self, name: &String) -> (b: bool)
        ensures
            b == cache_names(self.cached_files@).contains(name@),
    {
        let mut k: usize = 0;
        while k < self.cached_files.len()
            invariant
                k <= self.cached_files@.len(),
                forall|t: int| 0 <= t < k ==> cache_names(self.cached_files@)[t] != name@,
            decreases self.cached_files@.len() - k,
        {
            if self.cached_files[k].0 == *name {
                assert(cache_names(self.cached_files@)[k as int] == name@);
                return true;
            }
            k = k + 1;
        }
        false
    }

    /// Shows the Files tab, and names the selected package when its files
    /// still have to be loaded (the caller loads them and hands them to
    /// `store_files`).
    pub fn load_files_for_selected(&mut self) -> (r: Option<String>)
        requires
            old(self).wf(),
        ensures
            final(self).wf(),
            final(self).same_data(&*old(self)),
            final(self).ui() == (UiState { tab: DetailTab::Files, ..old(self).ui() }),
            r matches Some(n) ==> old(self).files_to_load() == Some(n@),
            r is None ==> old(self).files_to_load() is None,
    {
        let r = match self.selected_package() {
            Some(pkg) => {
                if self.is_cached(&pkg.name) {
                    None
                } else {
                    Some(pkg.name.clone())
                }
            },
            None => None,
        };
        self.detail_tab = DetailTab::Files;
        r
    }

    fn handle_search_input(&mut self, key: KeyEvent)
        requires
            old(self).wf(),
        ensures
            final(self).wf(),
            final(self).same_data(&*old(self)),
            search_key_result(old(self).packages@, old(self).ui(), key.code, final(self).ui()),
    {
        match key.code {
            KeyCode::Esc => {
                self.is_searching = false;
                self.search_query = String::new();
                self.apply_filter();
            },
            KeyCode::Enter => {
                self.is_searching = false;
            },
            KeyCode::Backspace => {
                crate::text::pop_char(&mut self.search_query);
                self.apply_filter();
            },
            KeyCode::Char(c) => {
                crate::text::push_char(&mut self.search_query, c);
                self.apply_filter();
            },
            _ => {},
        }
    }

    fn toggle_search(&mut self)
        ensures
            final(self).ui() == (UiState { searching: true, query: Seq::empty(), ..old(self).ui() }),
            final(self).same_data(&*old(self)),
            final(self).filtered_indices@ == old(self).filtered_indices@,
            final(self).list_state == old(self).list_state,
    {
        self.is_searching = true;
        self.search_query = String::new();
    }

    fn toggle_pane(&mut self)
        ensures
            final(self).ui() == (UiState { pane: other_pane(old(self).active_pane), ..old(self).ui() }),
            final(self).same_data(&*old(self)),
            final(self).filtered_indices@ == old(self).filtered_indices@,
            final(self).list_state == old(self).list_state,
    {
        self.active_pane = match self.active_pane {
            ActivePane::List => ActivePane::Detail,
            ActivePane::Detail => ActivePane::List,
        };
    }

    fn set_filter(&mut self, filter: FilterCategory)
        requires
            old(self).wf(),
        ensures
            final(self).wf(),
            final(self).same_data(&*old(self)),
            refiltered(old(self).packages@, UiState { filter, ..old(self).ui() }, final(self).ui()),
    {
        self.filter = filter;
        self.apply_filter();
    }

    /// Applies a key press. Returns the name of the package whose files
    /// must be loaded (Enter on a package whose files are not cached).
    pub fn handle_key(&mut self, key: KeyEvent) -> (r: Option<String>)
        requires
            old(self).wf(),
        ensures
            final(self).wf(),
            final(self).same_data(&*old(self)),
            key_result(old(self).packages@, old(self).ui(), key, final(self).ui()),
            (!(key.control && key.code == KeyCode::Char('c')) && !old(self).is_searching
                && key.code == KeyCode::Enter) ==> (match r {
                Some(n) => old(self).files_to_load() == Some(n@),
                None => old(self).files_to_load() is None,
            }),
            !(!(key.control && key.code == KeyCode::Char('c')) && !old(self).is_searching
                && key.code == KeyCode::Enter) ==> r is None,
    {
        if key.control && key.code == KeyCode::Char('c') {
            self.should_quit = true;
            return None;
        }
        if self.is_searching {
            self.handle_search_input(key);
            return None;
        }
        let detail = self.active_pane == ActivePane::Detail;
        match key.code {
            KeyCode::Char('q') => self.should_quit = true,
            KeyCode::Tab => self.toggle_pane(),
            KeyCode::Char('/') => self.toggle_search(),
            KeyCode::Char('1') => self.set_filter(FilterCategory::All),
            KeyCode::Char('2') => self.set_filter(FilterCategory::Explicit),
            KeyCode::Char('3') => self.set_filter(FilterCategory::Dependencies),
            KeyCode::Char('4') => self.set_filter(FilterCategory::AUR),
            KeyCode::Char('5') => self.set_filter(FilterCategory::Orphans),
            KeyCode::Char('6') => self.set_filter(FilterCategory::Recent),
            KeyCode::Char('7') => self.set_filter(FilterCategory::Largest),
            KeyCode::Char('d') => self.show_dashboard = !self.show_dashboard,
            KeyCode::Enter => {
                return self.load_files_for_selected();
            },
            KeyCode::Up | KeyCode::Char('k') => {
                if detail {
                    self.detail_scroll = self.detail_scroll.saturating_sub(1);
                } else {
                    self.move_selection(-1);
                }
            },
            KeyCode::Down | KeyCode::Char('j') => {
                if detail {
                    self.detail_scroll = self.detail_scroll.saturating_add(1);
                } else {
                    self.move_selection(1);
                }
            },
            KeyCode::Left if detail => {
                self.detail_tab = self.detail_tab.prev();
                self.detail_scroll = 0;
            },
            KeyCode::Char('h') if detail => {
                self.detail_tab = self.detail_tab.prev();
                self.detail_scroll = 0;
            },
            KeyCode::Right if detail => {
                self.detail_tab = self.detail_tab.next();
                self.detail_scroll = 0;
            },
            KeyCode::Char('l') if detail => {
                self.detail_tab = self.detail_tab.next();
                self.detail_scroll = 0;
            },
            KeyCode::Home | KeyCode::Char('g') => self.move_to_start(),
            KeyCode::End | KeyCode::Char('G') => self.move_to_end(),
            KeyCode::PageUp => self.move_selection(-20),
            KeyCode::PageDown => self.move_selection(20),
            _ => {},
        }
        None
    }
}

} // verus!

verus! {

/// The sum of the sizes of `pkgs`.
pub open spec fn total_size(pkgs: Seq<Package>) -> nat
    decreases pkgs.len(),
{
    if pkgs.len() == 0 {
        0
    } else {
        total_size(pkgs.drop_last()) + pkgs.last().installed_size_bytes as nat
    }
}

/// The lowercased name of each package.
pub open spec fn name_keys(pkgs: Seq<Package>) -> Seq<Seq<char>> {
    pkgs.map_values(|p: Package| crate::text::lowercase(p.name@))
}

/// Package `i` comes before package `j` in name order: by lowercased name,
/// ties in input order.
pub open spec fn name_before(keys: Seq<Seq<char>>, i: int, j: int) -> bool {
    crate::text::lex_lt(keys[i], keys[j]) || (keys[i] == keys[j] && i < j)
}

/// `q` is `p` with the name lists applied: foreign when its name is in
/// `aur`, an orphan when its name is in `orphans`.
pub open spec fn marked(p: Package, q: Package, aur: Seq<Seq<char>>, orphans: Seq<Seq<char>>) -> bool {
    &&& q.name == p.name
    &&& q.version == p.version
    &&& q.description == p.description
    &&& q.architecture == p.architecture
    &&& q.url == p.url
    &&& q.licenses == p.licenses
    &&& q.groups == p.groups
    &&& q.provides == p.provides
    &&& q.depends == p.depends
    &&& q.optional_deps == p.optional_deps
    &&& q.required_by == p.required_by
    &&& q.optional_for == p.optional_for
    &&& q.conflicts == p.conflicts
    &&& q.replaces == p.replaces
    &&& q.installed_size == p.installed_size
    &&& q.installed_size_bytes == p.installed_size_bytes
    &&& q.packager == p.packager
    &&& q.build_date == p.build_date
    &&& q.install_date == p.install_date
    &&& q.install_reason == p.install_reason
    &&& q.validated_by == p.validated_by
    &&& q.source == (if aur.contains(p.name@) {
        crate::package::PackageSource::AUR
    } else {
        p.source
    })
    &&& q.is_orphan == (orphans.contains(p.name@) || p.is_orphan)
}

/// `perm` lists every position of `input` once, in name order, and `out`
/// holds the packages in that order, marked.
pub open spec fn sorted_by_name(
    input: Seq<Package>,
    out: Seq<Package>,
    perm: Seq<int>,
    aur: Seq<Seq<char>>,
    orphans: Seq<Seq<char>>,
) -> bool {
    &&& perm.len() == input.len()
    &&& out.len() == input.len()
    &&& forall|k: int| 0 <= k < perm.len() ==> 0 <= #[trigger] perm[k] < input.len()
    &&& forall|i: int| 0 <= i < input.len() ==> perm.contains(i)
    &&& forall|a: int, b: int|
        0 <= a < b < perm.len() ==> name_before(name_keys(input), #[trigger] perm[a], #[trigger] perm[b])
    &&& forall|k: int| 0 <= k < out.len() ==> marked(input[perm[k]], #[trigger] out[k], aur, orphans)
}

proof fn lemma_name_order(keys: Seq<Seq<char>>, i: int, j: int, k: int)
    ensures
        !name_before(keys, i, i),
        name_before(keys, i, j) ==> !name_before(keys, j, i),
        i != j ==> name_before(keys, i, j) || name_before(keys, j, i),
        name_before(keys, i, j) && name_before(keys, j, k) ==> name_before(keys, i, k),
{
    crate::text::lemma_lex_irreflexive(keys[i]);
    crate::text::lemma_lex_asymmetric(keys[i], keys[j]);
    crate::text::lemma_lex_total(keys[i], keys[j]);
    if crate::text::lex_lt(keys[i], keys[j]) && crate::text::lex_lt(keys[j], keys[k]) {
        crate::text::lemma_lex_transitive(keys[i], keys[j], keys[k]);
    }
}

/// The positions `0..keys.len()` in name order.
fn order_by_name(keys: &Vec<Vec<char>>, Ghost(spec_keys): Ghost<Seq<Seq<char>>>) -> (r: Vec<usize>)
    requires
        spec_keys.len() == keys@.len(),
        forall|t: int| 0 <= t < keys@.len() ==> (#[trigger] keys@[t])@ == spec_keys[t],
    ensures
        r@.len() == keys@.len(),
        forall|k: int| 0 <= k < r@.len() ==> (#[trigger] r@[k]) < keys@.len(),
        forall|i: usize| i < keys@.len() ==> r@.contains(i),
        forall|a: int, b: int| 0 <= a < b < r@.len() ==> name_before(spec_keys, #[trigger] r@[a] as int, #[trigger] r@[b] as int),
{
    let mut out: Vec<usize> = Vec::new();
    let mut x: usize = 0;
    while x < keys.len()
        invariant
            x <= keys@.len(),
            spec_keys.len() == keys@.len(),
            forall|t: int| 0 <= t < keys@.len() ==> (#[trigger] keys@[t])@ == spec_keys[t],
            out@.len() == x,
            forall|t: int| 0 <= t < out@.len() ==> (#[trigger] out@[t]) < x,
            forall|i: usize| i < x ==> out@.contains(i),
            forall|a: int, b: int| 0 <= a < b < out@.len() ==> name_before(spec_keys, #[trigger] out@[a] as int, #[trigger] out@[b] as int),
        decreases keys@.len() - x,
    {
        let mut j: usize = 0;
        while j < out.len() && !(compare_keys(keys, x, out[j]))
            invariant
                j <= out@.len(),
                x < keys@.len(),
                spec_keys.len() == keys@.len(),
                forall|t: int| 0 <= t < keys@.len() ==> (#[trigger] keys@[t])@ == spec_keys[t],
                forall|t: int| 0 <= t < out@.len() ==> (#[trigger] out@[t]) < x,
                forall|t: int| 0 <= t < j ==> name_before(spec_keys, #[trigger] out@[t] as int, x as int),
            decreases out@.len() - j,
        {
            proof {
                lemma_name_order(spec_keys, x as int, out@[j as int] as int, 0);
            }
            j = j + 1;
        }
        let ghost prev = out@;
        proof {
            assert forall|t: int| j <= t < prev.len() implies name_before(spec_keys, x as int, #[trigger] prev[t] as int) by {
                lemma_name_order(spec_keys, x as int, prev[j as int] as int, prev[t] as int);
                if t > j {
                    assert(name_before(spec_keys, prev[j as int] as int, prev[t] as int));
                }
            }
        }
        out.insert(j, x);
        proof {
            let now = out@;
            assert(now =~= prev.insert(j as int, x));
            assert forall|i: usize| i < x + 1 implies now.contains(i) by {
                if i < x {
                    assert(prev.contains(i));
                    let w = choose|w: int| 0 <= w < prev.len() && prev[w] == i;
                    if w < j {
                        assert(now[w] == i);
                    } else {
                        assert(now[w + 1] == i);
                    }
                } else {
                    assert(now[j as int] == x);
                }
            }
            assert forall|a: int, b: int| 0 <= a < b < now.len() implies name_before(spec_keys, #[trigger] now[a] as int, #[trigger] now[b] as int) by {
                if a < j && b < j {
                    assert(now[a] == prev[a] && now[b] == prev[b]);
                } else if a < j && b == j {
                    assert(now[a] == prev[a]);
                } else if a < j {
                    assert(now[a] == prev[a] && now[b] == prev[b - 1]);
                    lemma_name_order(spec_keys, prev[a] as int, x as int, prev[b - 1] as int);
                } else if a == j {
                    assert(now[b] == prev[b - 1]);
                } else {
                    assert(now[a] == prev[a - 1] && now[b] == prev[b - 1]);
                }
            }
        }
        x = x + 1;
    }
    out
}

/// Whether `i` comes before `j` in name order.
fn compare_keys(keys: &Vec<Vec<char>>, i: usize, j: usize) -> (b: bool)
    requires
        i < keys@.len(),
        j < keys@.len(),
    ensures
        b == (crate::text::lex_lt(keys@[i as int]@, keys@[j as int]@) || (keys@[i as int]@
            == keys@[j as int]@ && i < j)),
{
    let c = crate::text::compare_chars(&keys[i], &keys[j]);
    c < 0 || (c == 0 && i < j)
}

} // verus!

verus! {

proof fn lemma_total_size_prefix(pkgs: Seq<Package>, k: int)
    requires
        0 <= k <= pkgs.len(),
    ensures
        total_size(pkgs.take(k)) <= total_size(pkgs),
    decreases pkgs.len() - k,
{
    if k < pkgs.len() {
        lemma_total_size_prefix(pkgs, k + 1);
        assert(pkgs.take(k + 1).drop_last() =~= pkgs.take(k));
    } else {
        assert(pkgs.take(k) =~= pkgs);
    }
}

/// Whether `name` is one of `names`.
fn contains_name(names: &Vec<String>, name: &String) -> (b: bool)
    ensures
        b == crate::text::views(names@).contains(name@),
{
    let mut k: usize = 0;
    while k < names.len()
        invariant
            k <= names@.len(),
            forall|t: int| 0 <= t < k ==> crate::text::views(names@)[t] != name@,
        decreases names@.len() - k,
    {
        if names[k] == *name {
            assert(crate::text::views(names@)[k as int] == name@);
            return true;
        }
        k = k + 1;
    }
    false
}

/// The sum of the sizes of `pkgs`.
fn sum_sizes(pkgs: &Vec<Package>) -> (t: u64)
    requires
        total_size(pkgs@) <= u64::MAX,
    ensures
        t == total_size(pkgs@),
{
    let mut t: u64 = 0;
    let mut k: usize = 0;
    assert(pkgs@.take(0) =~= Seq::<Package>::empty());
    while k < pkgs.len()
        invariant
            k <= pkgs@.len(),
            total_size(pkgs@) <= u64::MAX,
            t == total_size(pkgs@.take(k as int)),
        decreases pkgs@.len() - k,
    {
        proof {
            assert(pkgs@.take(k + 1).drop_last() =~= pkgs@.take(k as int));
            lemma_total_size_prefix(pkgs@, k + 1);
        }
        t = t + pkgs[k].installed_size_bytes;
        k = k + 1;
    }
    assert(pkgs@.take(pkgs@.len() as int) =~= pkgs@);
    t
}

/// The lowercased names of `pkgs`, as characters.
fn lowercase_names(pkgs: &Vec<Package>) -> (keys: Vec<Vec<char>>)
    ensures
        keys@.len() == pkgs@.len(),
        forall|t: int| 0 <= t < keys@.len() ==> (#[trigger] keys@[t])@ == name_keys(pkgs@)[t],
{
    let mut keys: Vec<Vec<char>> = Vec::new();
    let mut k: usize = 0;
    while k < pkgs.len()
        invariant
            k <= pkgs@.len(),
            keys@.len() == k,
            forall|t: int| 0 <= t < k ==> (#[trigger] keys@[t])@ == name_keys(pkgs@)[t],
        decreases pkgs@.len() - k,
    {
        let low = crate::text::to_lowercase(pkgs[k].name.as_str());
        keys.push(crate::text::chars_of(low.as_str()));
        k = k + 1;
    }
    keys
}

/// `packages`, put in name order and marked by the name lists.
fn arrange(
    packages: Vec<Package>,
    aur_names: &Vec<String>,
    orphan_names: &Vec<String>,
) -> (out: Vec<Package>)
    ensures
        exists|perm: Seq<int>|
            sorted_by_name(
                packages@,
                out@,
                perm,
                crate::text::views(aur_names@),
                crate::text::views(orphan_names@),
            ),
{
    let ghost input = packages@;
    let ghost aur = crate::text::views(aur_names@);
    let ghost orph = crate::text::views(orphan_names@);
    let n = packages.len();
    let keys = lowercase_names(&packages);
    let perm = order_by_name(&keys, Ghost(name_keys(input)));
    let mut rest = packages;
    let mut slots: Vec<Option<Package>> = Vec::new();
    while rest.len() > 0
        invariant
            n == input.len(),
            rest@.len() + slots@.len() == n,
            rest@ == input.take(rest@.len() as int),
            forall|j: int| 0 <= j < slots@.len() ==> #[trigger] slots@[j] == Some(input[n - 1 - j]),
        decreases rest@.len(),
    {
        let p = rest.pop().unwrap();
        assert(rest@ =~= input.take(rest@.len() as int));
        slots.push(Some(p));
    }
    let mut out: Vec<Package> = Vec::new();
    let mut k: usize = 0;
    while k < n
        invariant
            n == input.len(),
            k <= n,
            slots@.len() == n,
            perm@.len() == n,
            forall|t: int| 0 <= t < n ==> (#[trigger] perm@[t]) < n,
            forall|a: int, b: int| 0 <= a < b < n ==> name_before(name_keys(input), #[trigger] perm@[a] as int, #[trigger] perm@[b] as int),
            forall|i: int|
                0 <= i < n ==> #[trigger] slots@[n - 1 - i] == (if perm@.take(k as int).contains(i as usize) {
                    None
                } else {
                    Some(input[i])
                }),
            out@.len() == k,
            forall|t: int| 0 <= t < k ==> marked(input[perm@[t] as int], #[trigger] out@[t], aur, orph),
            aur == crate::text::views(aur_names@),
            orph == crate::text::views(orphan_names@),
        decreases n - k,
    {
        let i = perm[k];
        proof {
            assert(perm@.take(k + 1) =~= perm@.take(k as int).push(i));
            if perm@.take(k as int).contains(i) {
                let w = choose|w: int| 0 <= w < k && perm@.take(k as int)[w] == i;
                lemma_name_order(name_keys(input), i as int, i as int, 0);
                assert(name_before(name_keys(input), perm@[w] as int, perm@[k as int] as int));
            }
        }
        let mut tmp: Option<Package> = None;
        slots.set_and_swap(n - 1 - i, &mut tmp);
        let mut p = tmp.unwrap();
        if contains_name(aur_names, &p.name) {
            p.source = crate::package::PackageSource::AUR;
        }
        if contains_name(orphan_names, &p.name) {
            p.is_orphan = true;
        }
        let ghost prev = out@;
        out.push(p);
        proof {
            assert forall|t: int| 0 <= t < k + 1 implies marked(input[perm@[t] as int], #[trigger] out@[t], aur, orph) by {
                if t < k {
                    assert(out@[t] == prev[t]);
                }
            }
            assert forall|j: int|
                0 <= j < n implies #[trigger] slots@[n - 1 - j] == (if perm@.take(k + 1).contains(j as usize) {
                    None
                } else {
                    Some(input[j])
                }) by {
                if j != i {
                    assert(perm@.take(k + 1).contains(j as usize) == perm@.take(k as int).contains(j as usize)) by {
                        if perm@.take(k + 1).contains(j as usize) {
                            let w = choose|w: int| 0 <= w < k + 1 && #[trigger] perm@.take(k + 1)[w] == j as usize;
                            assert(perm@.take(k as int)[w] == j as usize);
                        }
                        if perm@.take(k as int).contains(j as usize) {
                            let w = choose|w: int| 0 <= w < k && #[trigger] perm@.take(k as int)[w] == j as usize;
                            assert(perm@.take(k + 1)[w] == j as usize);
                        }
                    }
                } else {
                    assert(perm@.take(k + 1)[k as int] == i);
                }
            }
        }
        k = k + 1;
    }
    let ghost sperm = perm@.map_values(|x: usize| x as int);
    assert(sorted_by_name(input, out@, sperm, aur, orph)) by {
        assert forall|i: int| 0 <= i < input.len() implies sperm.contains(i) by {
            assert(perm@.contains(i as usize));
            let w = choose|w: int| 0 <= w < perm@.len() && perm@[w] == i as usize;
            assert(sperm[w] == i);
        }
    }
    out
}

} // verus!

verus! {

/// The filter that a configured name selects: "all", "explicit",
/// "dependencies", "aur", "orphans", "recent" or "largest"; All for any
/// other name.
pub open spec fn filter_named(name: Seq<char>) -> FilterCategory {
    if name == "explicit"@ {
        FilterCategory::Explicit
    } else if name == "dependencies"@ {
        FilterCategory::Dependencies
    } else if name == "aur"@ {
        FilterCategory::AUR
    } else if name == "orphans"@ {
        FilterCategory::Orphans
    } else if name == "recent"@ {
        FilterCategory::Recent
    } else if name == "largest"@ {
        FilterCategory::Largest
    } else {
        FilterCategory::All
    }
}

/// Whether the characters `u` are those of `word`.
fn same_text(u: &Vec<char>, word: &str) -> (b: bool)
    ensures
        b == (u@ == word@),
{
    let w = crate::text::chars_of(word);
    crate::text::compare_chars(u, &w) == 0
}

/// `filter_named(name)`.
pub fn filter_named_exec(name: &str) -> (f: FilterCategory)
    ensures
        f == filter_named(name@),
{
    let u = crate::text::chars_of(name);
    if same_text(&u, "explicit") {
        FilterCategory::Explicit
    } else if same_text(&u, "dependencies") {
        FilterCategory::Dependencies
    } else if same_text(&u, "aur") {
        FilterCategory::AUR
    } else if same_text(&u, "orphans") {
        FilterCategory::Orphans
    } else if same_text(&u, "recent") {
        FilterCategory::Recent
    } else if same_text(&u, "largest") {
        FilterCategory::Largest
    } else {
        FilterCategory::All
    }
}

/// The positions `0..n`.
fn all_positions(n: usize) -> (r: Vec<usize>)
    ensures
        r@ == Seq::new(n as nat, |i: int| i as usize),
{
    let mut r: Vec<usize> = Vec::new();
    let mut i: usize = 0;
    while i < n
        invariant
            i <= n,
            r@ == Seq::new(i as nat, |j: int| j as usize),
        decreases n - i,
    {
        r.push(i);
        assert(r@ =~= Seq::new((i + 1) as nat, |j: int| j as usize));
        i = i + 1;
    }
    r
}

impl App {
    /// The state at start: the packages in name order, marked as foreign or
    /// orphan by the name lists, listed under the configured filter with no
    /// search, the first entry selected.
    pub fn new(
        config: Config,
        packages: Vec<Package>,
        aur_names: Vec<String>,
        orphan_names: Vec<String>,
    ) -> (app: App)
        requires
            packages@.len() + 20 <= 0x7fff_ffff,
            total_size(packages@) <= u64::MAX,
            distinct(crate::text::views(aur_names@)),
            distinct(crate::text::views(orphan_names@)),
        ensures
            app.wf(),
            exists|perm: Seq<int>|
                sorted_by_name(
                    packages@,
                    app.packages@,
                    perm,
                    crate::text::views(aur_names@),
                    crate::text::views(orphan_names@),
                ),
            is_listing(
                app.packages@,
                filter_named(config.default_filter@),
                Seq::empty(),
                app.filtered_indices@,
            ),
            app.ui() == (UiState {
                filtered: app.filtered_indices@,
                selected: if app.filtered_indices@.len() == 0 {
                    None
                } else {
                    Some(0)
                },
                offset: 0,
                filter: filter_named(config.default_filter@),
                query: Seq::empty(),
                searching: false,
                tab: DetailTab::Info,
                scroll: 0,
                pane: ActivePane::List,
                dashboard: false,
                quit: false,
            }),
            app.orphan_names@ == orphan_names@,
            app.aur_names@ == aur_names@,
            app.cached_files@.len() == 0,
            app.total_installed_size == total_size(packages@),
            app.config == config,
    {
        let total = sum_sizes(&packages);
        let n = packages.len();
        let sorted = arrange(packages, &aur_names, &orphan_names);
        let filtered_indices = all_positions(n);
        let mut list_state = ListState::new();
        if n > 0 {
            list_state.select(Some(0));
        }
        let start = filter_named_exec(config.default_filter.as_str());
        let mut app = App {
            packages: sorted,
            filtered_indices,
            list_state,
            filter: FilterCategory::All,
            search_query: String::new(),
            is_searching: false,
            detail_tab: DetailTab::Info,
            detail_scroll: 0,
            active_pane: ActivePane::List,
            show_dashboard: false,
            should_quit: false,
            orphan_names,
            aur_names,
            cached_files: Vec::new(),
            total_installed_size: total,
            config,
        };
        assert(app.ui().query =~= Seq::<char>::empty());
        assert(app.wf());
        app.filter = start;
        app.apply_filter();
        app
    }

    /// Caches the files `files` of the package named `name`, grouped by
    /// location, unless files of that name are cached already.
    pub fn store_files(&mut self, name: String, files: Vec<String>)
        requires
            old(self).wf(),
        ensures
            final(self).wf(),
            final(self).ui() == old(self).ui(),
            final(self).packages@ == old(self).packages@,
            final(self).orphan_names@ == old(self).orphan_names@,
            final(self).aur_names@ == old(self).aur_names@,
            final(self).total_installed_size == old(self).total_installed_size,
            final(self).config == old(self).config,
            cache_names(final(self).cached_files@).contains(name@),
            cache_names(old(self).cached_files@).contains(name@) ==> final(self).cached_files@
                == old(self).cached_files@,
            !cache_names(old(self).cached_files@).contains(name@) ==> {
                &&& final(self).cached_files@.len() == old(self).cached_files@.len() + 1
                &&& final(self).cached_files@.take(old(self).cached_files@.len() as int)
                    == old(self).cached_files@
                &&& final(self).cached_files@.last().0@ == name@
                &&& crate::package::groups_of(
                    crate::text::views(files@),
                    final(self).cached_files@.last().1@,
                )
            },
    {
        if !self.is_cached(&name) {
            let groups = crate::package::group_files(files);
            let ghost prev = self.cached_files@;
            self.cached_files.push((name, groups));
            proof {
                assert(self.cached_files@.take(prev.len() as int) =~= prev);
                assert(cache_names(self.cached_files@) =~= cache_names(prev).push(self.cached_files@.last().0@));
                assert(cache_names(self.cached_files@)[prev.len() as int] == name@);
            }
        }
    }

    /// The file groups of the selected package, when they are cached.
    pub open spec fn selected_groups(&self) -> Option<Vec<FileGroup>> {
        match self.selected_index() {
            Some(i) => cached_groups(self.cached_files@, self.packages@[i].name@),
            None => None,
        }
    }

    /// The cached file groups of the selected package.
    pub fn selected_files(&self) -> (r: Option<&Vec<FileGroup>>)
        ensures
            r is Some <==> self.selected_groups() is Some,
            r matches Some(g) ==> *g == self.selected_groups()->0,
    {
        let pkg = match self.selected_package() {
            Some(p) => p,
            None => {
                return None;
            },
        };
        let ghost c = self.cached_files@;
        let mut k: usize = 0;
        assert(c.skip(0) =~= c);
        while k < self.cached_files.len()
            invariant
                c == self.cached_files@,
                k <= c.len(),
                self.selected_index() is Some,
                *pkg == self.packages@[self.selected_index()->0],
                cached_groups(c, pkg.name@) == cached_groups(c.skip(k as int), pkg.name@),
            decreases c.len() - k,
        {
            assert(c.skip(k as int)[0] == c[k as int]);
            if self.cached_files[k].0 == pkg.name {
                return Some(&self.cached_files[k].1);
            }
            assert(c.skip(k as int).drop_first() =~= c.skip(k + 1));
            k = k + 1;
        }
        None
    }
}

} // verus!

verus! {

/// How many of `pkgs` were installed for reason `r`.
pub open spec fn count_reason(pkgs: Seq<Package>, r: crate::package::InstallReason) -> nat
    decreases pkgs.len(),
{
    if pkgs.len() == 0 {
        0
    } else {
        count_reason(pkgs.drop_last(), r) + if pkgs.last().install_reason == r {
            1nat
        } else {
            0nat
        }
    }
}

/// `order` lists every position of `pkgs` once, largest package first,
/// equal sizes in position order.
pub open spec fn is_size_order(pkgs: Seq<Package>, order: Seq<usize>) -> bool {
    &&& order.len() == pkgs.len()
    &&& forall|k: int| 0 <= k < order.len() ==> (#[trigger] order[k]) < pkgs.len()
    &&& forall|i: usize| i < pkgs.len() ==> order.contains(i)
    &&& forall|a: int, b: int|
        0 <= a < b < order.len() ==> crate::listing::precedes(
            pkgs,
            FilterCategory::Largest,
            #[trigger] order[a] as int,
            #[trigger] order[b] as int,
        )
}

impl App {
    /// Number of packages.
    pub fn total_packages(&self) -> (n: usize)
        ensures
            n == self.packages@.len(),
    {
        self.packages.len()
    }

    fn count_with_reason(&self, r: crate::package::InstallReason) -> (n: usize)
        ensures
            n == count_reason(self.packages@, r),
    {
        let mut n: usize = 0;
        let mut k: usize = 0;
        assert(self.packages@.take(0) =~= Seq::<Package>::empty());
        while k < self.packages.len()
            invariant
                k <= self.packages@.len(),
                n == count_reason(self.packages@.take(k as int), r),
                n <= k,
            decreases self.packages@.len() - k,
        {
            assert(self.packages@.take(k + 1).drop_last() =~= self.packages@.take(k as int));
            if self.packages[k].install_reason == r {
                n = n + 1;
            }
            k = k + 1;
        }
        assert(self.packages@.take(self.packages@.len() as int) =~= self.packages@);
        n
    }

    /// Number of explicitly installed packages.
    pub fn explicit_count(&self) -> (n: usize)
        ensures
            n == count_reason(self.packages@, crate::package::InstallReason::Explicit),
    {
        self.count_with_reason(crate::package::InstallReason::Explicit)
    }

    /// Number of packages installed as dependencies.
    pub fn dependency_count(&self) -> (n: usize)
        ensures
            n == count_reason(self.packages@, crate::package::InstallReason::Dependency),
    {
        self.count_with_reason(crate::package::InstallReason::Dependency)
    }

    /// Number of foreign (AUR) package names.
    pub fn aur_count(&self) -> (n: usize)
        ensures
            n == self.aur_names@.len(),
    {
        self.aur_names.len()
    }

    /// Number of orphan package names.
    pub fn orphan_count(&self) -> (n: usize)
        ensures
            n == self.orphan_names@.len(),
    {
        self.orphan_names.len()
    }

    /// The `n` largest packages, largest first (equal sizes in list order).
    pub fn top_largest(&self, n: usize) -> (r: Vec<&Package>)
        ensures
            r@.len() == (if n < self.packages@.len() {
                n as int
            } else {
                self.packages@.len() as int
            }),
            exists|order: Seq<usize>|
                is_size_order(self.packages@, order) && forall|k: int|
                    0 <= k < r@.len() ==> *(#[trigger] r@[k]) == self.packages@[order[k] as int],
    {
        let all = all_positions(self.packages.len());
        let order = crate::listing::order_by_filter(&self.packages, FilterCategory::Largest, all);
        let mut r: Vec<&Package> = Vec::new();
        let mut k: usize = 0;
        while k < n && k < order.len()
            invariant
                k <= order@.len(),
                k <= n,
                order@.len() == self.packages@.len(),
                forall|t: int| 0 <= t < order@.len() ==> (#[trigger] order@[t]) < self.packages@.len(),
                r@.len() == k,
                forall|t: int| 0 <= t < k ==> *(#[trigger] r@[t]) == self.packages@[order@[t] as int],
            decreases order@.len() - k,
        {
            r.push(&self.packages[order[k]]);
            k = k + 1;
        }
        proof {
            assert forall|i: usize| i < self.packages@.len() implies order@.contains(i) by {
                let all_s = Seq::new(self.packages@.len(), |j: int| j as usize);
                assert(all_s[i as int] == i);
                assert(all_s.contains(i));
            }
            assert(is_size_order(self.packages@, order@));
        }
        r
    }
}

} // verus!
