use glare::app::{ActivePane, App, DetailTab, FilterCategory, KeyCode, KeyEvent, ListState};
use glare::config::Config;
use glare::package::{format_bytes, InstallReason, Package, PackageSource};

fn pkg(name: &str, desc: &str, bytes: u64, date: &str, reason: InstallReason) -> Package {
    Package {
        name: name.to_string(),
        version: "1.0-1".to_string(),
        description: desc.to_string(),
        architecture: "x86_64".to_string(),
        url: String::new(),
        licenses: Vec::new(),
        groups: Vec::new(),
        provides: Vec::new(),
        depends: Vec::new(),
        optional_deps: Vec::new(),
        required_by: Vec::new(),
        optional_for: Vec::new(),
        conflicts: Vec::new(),
        replaces: Vec::new(),
        installed_size: format_bytes(bytes),
        installed_size_bytes: bytes,
        packager: "Arch Linux".to_string(),
        build_date: String::new(),
        install_date: date.to_string(),
        install_reason: reason,
        validated_by: "Signature".to_string(),
        source: PackageSource::Official,
        is_orphan: false,
    }
}

fn packages() -> Vec<Package> {
    vec![
        pkg("zlib", "Compression library", 200_000, "Fri 01 Mar 2024 09:00:00 AM UTC", InstallReason::Dependency),
        pkg("Firefox", "Web browser", 250_000_000, "Fri 10 May 2024 02:30:00 PM UTC", InstallReason::Explicit),
        pkg("bash", "The GNU Bourne Again shell", 9_000_000, "Sun 15 Jan 2023 10:00:00 AM UTC", InstallReason::Explicit),
        pkg("yay", "AUR helper written in Go", 8_000_000, "Sat 01 Jun 2024 08:00:00 AM UTC", InstallReason::Explicit),
        pkg("libfoo", "Leftover library", 9_000_000, "Tue 20 Feb 2024 11:59:59 PM UTC", InstallReason::Dependency),
    ]
}

fn sample() -> App {
    App::new(Config::default(), packages(), vec!["yay".to_string()], vec!["libfoo".to_string()])
}

fn key(c: char) -> KeyEvent {
    KeyEvent { code: KeyCode::Char(c), control: false }
}

fn code(c: KeyCode) -> KeyEvent {
    KeyEvent { code: c, control: false }
}

fn names(app: &App) -> Vec<String> {
    app.filtered_indices.iter().map(|&i| app.packages[i].name.clone()).collect()
}

#[test]
fn new_sorts_by_lowercased_name_and_marks_packages() {
    let app = sample();
    let all: Vec<&str> = app.packages.iter().map(|p| p.name.as_str()).collect();
    assert_eq!(all, vec!["bash", "Firefox", "libfoo", "yay", "zlib"]);
    assert_eq!(app.filtered_indices, vec![0, 1, 2, 3, 4]);
    assert_eq!(app.list_state.selected(), Some(0));
    assert_eq!(app.packages[3].source, PackageSource::AUR);
    assert_eq!(app.packages[0].source, PackageSource::Official);
    assert!(app.packages[2].is_orphan);
    assert!(!app.packages[3].is_orphan);
    assert_eq!(app.total_installed_size, 276_200_000);
    assert_eq!(app.filter, FilterCategory::All);
    assert_eq!(app.detail_tab, DetailTab::Info);
    assert_eq!(app.active_pane, ActivePane::List);
    assert!(!app.is_searching && !app.should_quit && !app.show_dashboard);
    assert_eq!(app.search_query, "");
    assert!(app.cached_files.is_empty());
    assert_eq!(app.config.aur_helper, "paru");
}

#[test]
fn new_keeps_input_order_for_equal_names() {
    let app = App::new(
        Config::default(),
        vec![
            pkg("Same", "first", 1, "", InstallReason::Unknown),
            pkg("same", "second", 2, "", InstallReason::Unknown),
        ],
        Vec::new(),
        Vec::new(),
    );
    assert_eq!(app.packages[0].description, "first");
    assert_eq!(app.packages[1].description, "second");
}

#[test]
fn starts_with_the_configured_filter() {
    let mut config = Config::default();
    config.default_filter = "largest".to_string();
    let app = App::new(config, packages(), vec!["yay".to_string()], vec!["libfoo".to_string()]);
    assert_eq!(app.filter, FilterCategory::Largest);
    assert_eq!(names(&app), vec!["Firefox", "bash", "libfoo", "yay", "zlib"]);
    assert_eq!(app.list_state.selected(), Some(0));

    let mut config = Config::default();
    config.default_filter = "orphans".to_string();
    let app = App::new(config, packages(), vec!["yay".to_string()], vec!["libfoo".to_string()]);
    assert_eq!(names(&app), vec!["libfoo"]);

    let mut config = Config::default();
    config.default_filter = "nonsense".to_string();
    let app = App::new(config, packages(), Vec::new(), Vec::new());
    assert_eq!(app.filter, FilterCategory::All);
    assert_eq!(app.filtered_indices, vec![0, 1, 2, 3, 4]);
}

#[test]
fn empty_system_selects_nothing() {
    let mut app = App::new(Config::default(), Vec::new(), Vec::new(), Vec::new());
    assert_eq!(app.list_state.selected(), None);
    assert_eq!(app.handle_key(code(KeyCode::Down)), None);
    assert_eq!(app.list_state.selected(), None);
    assert_eq!(app.handle_key(code(KeyCode::End)), None);
    assert_eq!(app.list_state.selected(), None);
    assert_eq!(app.handle_key(code(KeyCode::Enter)), None);
    assert_eq!(app.detail_tab, DetailTab::Files);
    assert!(app.selected_package().is_none());
    assert!(app.selected_files().is_none());
    assert!(app.top_largest(10).is_empty());
    assert_eq!(app.total_installed_size, 0);
}

#[test]
fn filter_keys_select_categories() {
    let mut app = sample();
    app.handle_key(key('2'));
    assert_eq!(app.filter, FilterCategory::Explicit);
    assert_eq!(names(&app), vec!["bash", "Firefox", "yay"]);
    app.handle_key(key('3'));
    assert_eq!(names(&app), vec!["libfoo", "zlib"]);
    app.handle_key(key('4'));
    assert_eq!(names(&app), vec!["yay"]);
    app.handle_key(key('5'));
    assert_eq!(names(&app), vec!["libfoo"]);
    assert_eq!(app.list_state.selected(), Some(0));
    app.handle_key(key('1'));
    assert_eq!(app.filtered_indices, vec![0, 1, 2, 3, 4]);
}

#[test]
fn largest_filter_orders_by_size_ties_in_name_order() {
    let mut app = sample();
    app.handle_key(key('7'));
    assert_eq!(app.filter, FilterCategory::Largest);
    assert_eq!(names(&app), vec!["Firefox", "bash", "libfoo", "yay", "zlib"]);
}

#[test]
fn recent_filter_orders_by_install_date_latest_first() {
    let mut app = sample();
    app.handle_key(key('6'));
    assert_eq!(app.filter, FilterCategory::Recent);
    assert_eq!(names(&app), vec!["yay", "Firefox", "zlib", "libfoo", "bash"]);
}

#[test]
fn recent_filter_goes_by_time_not_by_text() {
    let mut app = App::new(
        Config::default(),
        vec![
            pkg("monday", "", 1, "Mon 01 Jan 2024 10:00:00 AM CET", InstallReason::Explicit),
            pkg("friday", "", 1, "Fri 05 Jan 2024 09:00:00 AM CET", InstallReason::Explicit),
            pkg("midnight", "", 1, "Fri 05 Jan 2024 12:30:00 AM CET", InstallReason::Explicit),
            pkg("noon", "", 1, "Fri 05 Jan 2024 12:30:00 PM CET", InstallReason::Explicit),
            pkg("clocale", "", 1, "Thu Jan  4 23:00:00 2024", InstallReason::Explicit),
            pkg("h24", "", 1, "Sat 06 Jan 2024 07:00:00 CET", InstallReason::Explicit),
            pkg("unknown", "", 1, "sometime", InstallReason::Explicit),
            pkg("alsounknown", "", 1, "", InstallReason::Explicit),
        ],
        Vec::new(),
        Vec::new(),
    );
    app.handle_key(key('6'));
    assert_eq!(
        names(&app),
        vec!["h24", "noon", "friday", "midnight", "clocale", "monday", "alsounknown", "unknown"]
    );
}

#[test]
fn filter_key_twice_changes_nothing() {
    let mut app = sample();
    app.handle_key(key('7'));
    app.handle_key(code(KeyCode::Down));
    let once = app.filtered_indices.clone();
    app.handle_key(key('7'));
    assert_eq!(app.filtered_indices, once);
    assert_eq!(app.list_state.selected(), Some(0));
    app.handle_key(key('7'));
    assert_eq!(app.filtered_indices, once);
}

#[test]
fn filter_change_resets_selection_and_scroll() {
    let mut app = sample();
    app.handle_key(code(KeyCode::End));
    app.handle_key(code(KeyCode::Tab));
    app.handle_key(code(KeyCode::Down));
    assert_eq!(app.detail_scroll, 1);
    app.handle_key(key('4'));
    assert_eq!(app.list_state.selected(), Some(0));
    assert_eq!(app.detail_scroll, 0);
}

#[test]
fn search_is_case_insensitive_over_name_and_description() {
    let mut app = sample();
    app.handle_key(key('/'));
    assert!(app.is_searching);
    for c in "LIB".chars() {
        app.handle_key(key(c));
    }
    assert_eq!(app.search_query, "LIB");
    assert_eq!(names(&app), vec!["libfoo", "zlib"]);
    app.handle_key(key('/'));
    assert_eq!(app.search_query, "LIB/");
    assert!(names(&app).is_empty());
    assert_eq!(app.list_state.selected(), None);
}

#[test]
fn search_by_uppercase_finds_mixed_case_name() {
    let mut app = sample();
    app.handle_key(key('/'));
    for c in "FIRE".chars() {
        app.handle_key(key(c));
    }
    assert_eq!(names(&app), vec!["Firefox"]);
}

#[test]
fn typing_then_deleting_restores_the_list() {
    let mut app = sample();
    app.handle_key(key('/'));
    app.handle_key(key('l'));
    let before = app.filtered_indices.clone();
    assert_eq!(names(&app), vec!["bash", "libfoo", "yay", "zlib"]);
    app.handle_key(key('i'));
    assert_eq!(names(&app), vec!["libfoo", "zlib"]);
    app.handle_key(code(KeyCode::Backspace));
    assert_eq!(app.search_query, "l");
    assert_eq!(app.filtered_indices, before);
    app.handle_key(code(KeyCode::Backspace));
    app.handle_key(code(KeyCode::Backspace));
    assert_eq!(app.search_query, "");
    assert_eq!(app.filtered_indices, vec![0, 1, 2, 3, 4]);
}

#[test]
fn longer_search_lists_fewer() {
    let mut app = sample();
    app.handle_key(key('/'));
    let mut previous = app.filtered_indices.clone();
    for c in "LIBR".chars() {
        app.handle_key(key(c));
        assert!(app.filtered_indices.iter().all(|i| previous.contains(i)));
        previous = app.filtered_indices.clone();
    }
    assert_eq!(names(&app), vec!["libfoo", "zlib"]);
}

#[test]
fn enter_ends_search_and_keeps_it() {
    let mut app = sample();
    app.handle_key(key('/'));
    app.handle_key(key('g'));
    app.handle_key(key('o'));
    app.handle_key(code(KeyCode::Enter));
    assert!(!app.is_searching);
    assert_eq!(app.search_query, "go");
    assert_eq!(names(&app), vec!["yay"]);
}

#[test]
fn escape_clears_search_and_lists_everything() {
    let mut app = sample();
    app.handle_key(key('2'));
    app.handle_key(key('/'));
    app.handle_key(key('g'));
    app.handle_key(key('o'));
    assert_eq!(names(&app), vec!["yay"]);
    app.handle_key(code(KeyCode::Esc));
    assert!(!app.is_searching);
    assert_eq!(app.search_query, "");
    assert_eq!(app.filter, FilterCategory::Explicit);
    assert_eq!(names(&app), vec!["bash", "Firefox", "yay"]);
}

#[test]
fn slash_clears_query_without_refiltering() {
    let mut app = sample();
    app.handle_key(key('/'));
    app.handle_key(key('g'));
    app.handle_key(key('o'));
    app.handle_key(code(KeyCode::Enter));
    app.handle_key(key('/'));
    assert!(app.is_searching);
    assert_eq!(app.search_query, "");
    assert_eq!(names(&app), vec!["yay"]);
}

#[test]
fn q_quits_while_browsing_and_is_typed_while_searching() {
    let mut app = sample();
    app.handle_key(key('/'));
    app.handle_key(key('q'));
    assert!(!app.should_quit);
    assert_eq!(app.search_query, "q");
    app.handle_key(code(KeyCode::Esc));
    app.handle_key(key('q'));
    assert!(app.should_quit);
}

#[test]
fn control_c_quits_even_while_searching() {
    let mut app = sample();
    app.handle_key(key('/'));
    app.handle_key(KeyEvent { code: KeyCode::Char('c'), control: true });
    assert!(app.should_quit);
    assert_eq!(app.search_query, "");
}

#[test]
fn tab_and_d_toggle_back_after_two_presses() {
    let mut app = sample();
    app.handle_key(code(KeyCode::Tab));
    assert_eq!(app.active_pane, ActivePane::Detail);
    app.handle_key(code(KeyCode::Tab));
    assert_eq!(app.active_pane, ActivePane::List);
    app.handle_key(key('d'));
    assert!(app.show_dashboard);
    app.handle_key(key('d'));
    assert!(!app.show_dashboard);
}

#[test]
fn list_navigation_stays_inside_the_list() {
    let mut app = sample();
    app.handle_key(code(KeyCode::Up));
    assert_eq!(app.list_state.selected(), Some(0));
    app.handle_key(code(KeyCode::Down));
    app.handle_key(key('j'));
    assert_eq!(app.list_state.selected(), Some(2));
    app.handle_key(key('k'));
    assert_eq!(app.list_state.selected(), Some(1));
    app.handle_key(code(KeyCode::PageDown));
    assert_eq!(app.list_state.selected(), Some(4));
    app.handle_key(code(KeyCode::Down));
    assert_eq!(app.list_state.selected(), Some(4));
    app.handle_key(code(KeyCode::PageUp));
    assert_eq!(app.list_state.selected(), Some(0));
    app.handle_key(key('G'));
    assert_eq!(app.list_state.selected(), Some(4));
    app.handle_key(key('g'));
    assert_eq!(app.list_state.selected(), Some(0));
    app.handle_key(code(KeyCode::End));
    app.handle_key(code(KeyCode::Home));
    assert_eq!(app.list_state.selected(), Some(0));
}

#[test]
fn down_then_up_returns_to_the_same_entry() {
    let mut app = sample();
    app.handle_key(code(KeyCode::Down));
    assert_eq!(app.list_state.selected(), Some(1));
    app.handle_key(code(KeyCode::Down));
    app.handle_key(code(KeyCode::Up));
    assert_eq!(app.list_state.selected(), Some(1));
    assert_eq!(app.selected_package().unwrap().name, "Firefox");
}

#[test]
fn detail_pane_scrolls_and_switches_tabs() {
    let mut app = sample();
    app.handle_key(code(KeyCode::Tab));
    app.handle_key(code(KeyCode::Up));
    assert_eq!(app.detail_scroll, 0);
    app.handle_key(code(KeyCode::Down));
    app.handle_key(key('j'));
    assert_eq!(app.detail_scroll, 2);
    assert_eq!(app.list_state.selected(), Some(0));
    app.handle_key(code(KeyCode::Right));
    assert_eq!(app.detail_tab, DetailTab::Files);
    assert_eq!(app.detail_scroll, 0);
    app.handle_key(key('l'));
    assert_eq!(app.detail_tab, DetailTab::Dependencies);
    app.handle_key(code(KeyCode::Right));
    assert_eq!(app.detail_tab, DetailTab::Info);
    app.handle_key(code(KeyCode::Left));
    assert_eq!(app.detail_tab, DetailTab::Dependencies);
    app.handle_key(key('h'));
    assert_eq!(app.detail_tab, DetailTab::Files);
}

#[test]
fn detail_scroll_saturates_at_the_top_and_bottom() {
    let mut app = sample();
    app.handle_key(code(KeyCode::Tab));
    app.detail_scroll = u16::MAX;
    app.handle_key(code(KeyCode::Down));
    assert_eq!(app.detail_scroll, u16::MAX);
}

#[test]
fn left_and_right_do_nothing_in_the_list_pane() {
    let mut app = sample();
    app.handle_key(code(KeyCode::Right));
    app.handle_key(key('l'));
    app.handle_key(key('h'));
    assert_eq!(app.detail_tab, DetailTab::Info);
    assert_eq!(app.list_state.selected(), Some(0));
}

#[test]
fn enter_asks_for_files_once() {
    let mut app = sample();
    let wanted = app.handle_key(code(KeyCode::Enter));
    assert_eq!(wanted, Some("bash".to_string()));
    assert_eq!(app.detail_tab, DetailTab::Files);
    assert!(app.selected_files().is_none());
    app.store_files(
        "bash".to_string(),
        vec![
            "/usr/share/man/man1/bash.1.gz".to_string(),
            "/usr/bin/bash".to_string(),
            "/etc/bash.bashrc".to_string(),
            "/usr/share/".to_string(),
            "/usr/bin/bashbug".to_string(),
        ],
    );
    let groups = app.selected_files().unwrap();
    let cats: Vec<&str> = groups.iter().map(|g| g.category.as_str()).collect();
    assert_eq!(cats, vec!["Binaries", "Documentation", "Configuration"]);
    assert_eq!(groups[0].files, vec!["/usr/bin/bash", "/usr/bin/bashbug"]);
    assert_eq!(app.handle_key(code(KeyCode::Enter)), None);
    app.store_files("bash".to_string(), Vec::new());
    assert_eq!(app.cached_files.len(), 1);
    assert_eq!(app.selected_files().unwrap().len(), 3);
    app.handle_key(code(KeyCode::Down));
    assert!(app.selected_files().is_none());
    assert_eq!(app.load_files_for_selected(), Some("Firefox".to_string()));
}

#[test]
fn enter_while_searching_does_not_load() {
    let mut app = sample();
    app.handle_key(key('/'));
    assert_eq!(app.handle_key(code(KeyCode::Enter)), None);
    assert_eq!(app.detail_tab, DetailTab::Info);
}

#[test]
fn dashboard_counts() {
    let mut pkgs = packages();
    pkgs.push(pkg("mystery", "", 1, "", InstallReason::Unknown));
    let app = App::new(Config::default(), pkgs, vec!["yay".to_string()], vec!["libfoo".to_string()]);
    assert_eq!(app.total_packages(), 6);
    assert_eq!(app.explicit_count(), 3);
    assert_eq!(app.dependency_count(), 2);
    assert!(app.explicit_count() + app.dependency_count() <= app.total_packages());
    assert_eq!(app.aur_count(), 1);
    assert_eq!(app.orphan_count(), 1);
}

#[test]
fn top_largest_is_the_head_of_the_largest_list() {
    let mut app = sample();
    let top: Vec<String> = app.top_largest(2).iter().map(|p| p.name.clone()).collect();
    assert_eq!(top, vec!["Firefox", "bash"]);
    let all: Vec<String> = app.top_largest(10).iter().map(|p| p.name.clone()).collect();
    app.handle_key(key('7'));
    assert_eq!(all, names(&app));
    assert!(app.top_largest(0).is_empty());
}

#[test]
fn apply_filter_recomputes_for_the_fields_set() {
    let mut app = sample();
    app.filter = FilterCategory::Dependencies;
    app.search_query = "ZLIB".to_string();
    app.apply_filter();
    assert_eq!(names(&app), vec!["zlib"]);
    assert_eq!(app.list_state.selected(), Some(0));
}

#[test]
fn list_state_selects_and_scrolls() {
    let mut s = ListState::new();
    assert_eq!(s.selected(), None);
    assert_eq!(s.offset(), 0);
    s.select(Some(3));
    s.set_offset(2);
    assert_eq!(s.selected(), Some(3));
    assert_eq!(s.offset(), 2);
    s.select(Some(5));
    assert_eq!(s.offset(), 2);
    s.select(None);
    assert_eq!(s.offset(), 0);
}

#[test]
fn filter_categories_and_their_keys() {
    let cats = FilterCategory::all_categories();
    let keys: String = cats.iter().map(|c| c.shortcut()).collect();
    assert_eq!(keys, "1234567");
    let labels: Vec<&str> = cats.iter().map(|c| c.label()).collect();
    assert_eq!(labels, vec!["All", "Explicit", "Dependencies", "AUR", "Orphans", "Recent", "Largest"]);
    assert_eq!(FilterCategory::Orphans.to_string(), "Orphans");
}

#[test]
fn detail_tabs_go_round() {
    assert_eq!(DetailTab::Info.next(), DetailTab::Files);
    assert_eq!(DetailTab::Files.next(), DetailTab::Dependencies);
    assert_eq!(DetailTab::Dependencies.next(), DetailTab::Info);
    for t in [DetailTab::Info, DetailTab::Files, DetailTab::Dependencies] {
        assert_eq!(t.next().prev(), t);
        assert_eq!(t.prev().next(), t);
        assert_eq!(t.next().next().next(), t);
    }
    assert_eq!(DetailTab::Dependencies.label(), "Deps");
    assert_eq!(DetailTab::Files.to_string(), "Files");
}
