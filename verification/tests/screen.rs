use glare::app::{App, KeyCode, KeyEvent};
use glare::config::Config;
use glare::package::{FileGroup, InstallReason, Package, PackageSource};
use glare::view::{
    deps_lines, detail_lines, files_lines, footer_spans, header_count, header_spans, info_lines,
    list_item, list_items, stats_lines, tab_bar_spans, top_lines, Line, Span, Tone,
};

fn pkg(name: &str, bytes: u64, size: &str, reason: InstallReason) -> Package {
    Package {
        name: name.to_string(),
        version: "2.1-3".to_string(),
        description: format!("the {} package", name),
        architecture: "x86_64".to_string(),
        url: String::new(),
        licenses: Vec::new(),
        groups: Vec::new(),
        provides: Vec::new(),
        depends: Vec::new(),
        optional_deps: Vec::new(),
        required_by: Vec::new(),
        optional_for: Vec::new(),
        conflicts: Vec::new(),
        replaces: Vec::new(),
        installed_size: size.to_string(),
        installed_size_bytes: bytes,
        packager: "Packer".to_string(),
        build_date: "Mon 01 Jan 2024".to_string(),
        install_date: "Tue 02 Jan 2024".to_string(),
        install_reason: reason,
        validated_by: "Signature".to_string(),
        source: PackageSource::Official,
        is_orphan: false,
    }
}

fn sample() -> App {
    App::new(
        Config::default(),
        vec![
            pkg("vim", 4_000_000, "3.81 MiB", InstallReason::Explicit),
            pkg("acl", 300_000, "292.97 KiB", InstallReason::Dependency),
            pkg("paru", 9_000_000, "8.58 MiB", InstallReason::Explicit),
        ],
        vec!["paru".to_string()],
        vec!["acl".to_string()],
    )
}

fn spans(v: &[Span]) -> Vec<(String, Tone)> {
    v.iter().map(|s| (s.text.clone(), s.tone)).collect()
}

fn lines(v: &[Line]) -> Vec<Vec<(String, Tone)>> {
    v.iter().map(|l| spans(&l.spans)).collect()
}

fn s(t: &str, tone: Tone) -> (String, Tone) {
    (t.to_string(), tone)
}

fn key(c: char) -> KeyEvent {
    KeyEvent { code: KeyCode::Char(c), control: false }
}

#[test]
fn header_shows_filters_and_search() {
    let mut app = sample();
    let h = spans(&header_spans(&app));
    assert_eq!(h[0], s(" GLARE ", Tone::Brand));
    assert_eq!(h[1], s("  ", Tone::Plain));
    assert_eq!(h[2], s(" 1:All ", Tone::FilterActive));
    assert_eq!(h[3], s(" ", Tone::Plain));
    assert_eq!(h[4], s(" 2:Explicit ", Tone::FilterInactive));
    assert_eq!(h[14], s(" 7:Largest ", Tone::FilterInactive));
    assert_eq!(h.len(), 16);
    app.handle_key(key('/'));
    app.handle_key(key('v'));
    let h = spans(&header_spans(&app));
    assert_eq!(h.len(), 20);
    assert_eq!(&h[16..], &[s("  ", Tone::Plain), s("/ ", Tone::Search), s("v", Tone::Search), s("█", Tone::Cursor)]);
    app.handle_key(KeyEvent { code: KeyCode::Enter, control: false });
    let h = spans(&header_spans(&app));
    assert_eq!(&h[16..], &[s("  ", Tone::Plain), s("filter: v", Tone::SearchNote)]);
    assert_eq!(header_count(&app), " 1 packages ");
}

#[test]
fn header_marks_the_filter_in_use() {
    let mut app = sample();
    app.handle_key(key('5'));
    let h = spans(&header_spans(&app));
    assert_eq!(h[2], s(" 1:All ", Tone::FilterInactive));
    assert_eq!(h[10], s(" 5:Orphans ", Tone::FilterActive));
    assert_eq!(header_count(&app), " 1 packages ");
}

#[test]
fn footer_follows_the_mode() {
    let mut app = sample();
    let f = spans(&footer_spans(&app));
    assert_eq!(f.len(), 14);
    assert_eq!(f[0], s(" ↑↓", Tone::Key));
    assert_eq!(f[13], s(" Quit", Tone::Help));
    app.handle_key(key('d'));
    assert_eq!(
        spans(&footer_spans(&app)),
        vec![s(" d", Tone::Key), s(" Back  ", Tone::Help), s("q", Tone::Key), s(" Quit", Tone::Help)]
    );
    app.handle_key(key('d'));
    app.handle_key(key('/'));
    let f = spans(&footer_spans(&app));
    assert_eq!(f[0], s(" Type", Tone::Key));
    assert_eq!(f[5], s(" Cancel", Tone::Help));
}

#[test]
fn tab_bar_highlights_the_tab_and_hints_in_the_detail_pane() {
    let mut app = sample();
    let t = spans(&tab_bar_spans(&app));
    assert_eq!(
        t,
        vec![
            s(" ", Tone::Plain),
            s(" Info ", Tone::TabActive),
            s(" ", Tone::Plain),
            s(" Files ", Tone::Muted),
            s(" ", Tone::Plain),
            s(" Deps ", Tone::Muted),
            s(" ", Tone::Plain),
        ]
    );
    app.handle_key(KeyEvent { code: KeyCode::Tab, control: false });
    app.handle_key(KeyEvent { code: KeyCode::Left, control: false });
    let t = spans(&tab_bar_spans(&app));
    assert_eq!(t[5], s(" Deps ", Tone::TabActive));
    assert_eq!(t[7], s(" ← → switch tabs", Tone::Muted));
}

#[test]
fn info_tab_lists_fields() {
    let mut p = pkg("vim", 4_000_000, "3.81 MiB", InstallReason::Explicit);
    let l = lines(&info_lines(&p));
    assert_eq!(l.len(), 11);
    assert_eq!(l[0], vec![s("vim", Tone::Heading), s(" ", Tone::Plain), s("2.1-3", Tone::Text)]);
    assert_eq!(l[1], vec![s("the vim package", Tone::Text)]);
    assert!(l[2].is_empty());
    assert_eq!(l[3], vec![s("Install Date    ", Tone::Label), s("Tue 02 Jan 2024", Tone::Value)]);
    assert_eq!(l[4], vec![s("Reason          ", Tone::Label), s("Explicitly installed", Tone::Value)]);
    assert_eq!(l[5], vec![s("Source          ", Tone::Label), s("Official", Tone::Value)]);
    assert_eq!(l[6][1], s("3.81 MiB", Tone::Value));
    assert_eq!(l[7][0], s("Architecture    ", Tone::Label));
    assert!(l[8].is_empty());
    assert_eq!(l[9], vec![s("Packager        ", Tone::Label), s("Packer", Tone::Value)]);
    assert_eq!(l[10][0], s("Build Date      ", Tone::Label));

    p.url = "https://vim.org".to_string();
    p.licenses = vec!["Vim".to_string(), "GPL".to_string()];
    p.groups = vec!["editors".to_string()];
    p.is_orphan = true;
    p.source = PackageSource::AUR;
    let l = lines(&info_lines(&p));
    assert_eq!(l.len(), 16);
    assert_eq!(l[5][1], s("AUR", Tone::Value));
    assert_eq!(l[8], vec![s("URL             ", Tone::Label), s("https://vim.org", Tone::Value)]);
    assert_eq!(l[9], vec![s("Licenses        ", Tone::Label), s("Vim, GPL", Tone::Value)]);
    assert_eq!(l[10], vec![s("Groups          ", Tone::Label), s("editors", Tone::Value)]);
    assert!(l[14].is_empty());
    assert_eq!(l[15], vec![s("⚠ This package is an orphan (no package depends on it)", Tone::Warning)]);
}

#[test]
fn deps_tab_has_seven_sections() {
    let mut p = pkg("vim", 1, "1 B", InstallReason::Explicit);
    p.depends = vec!["acl".to_string(), "glibc".to_string()];
    let l = lines(&deps_lines(&p));
    assert_eq!(l.len(), 4 + 6 * 3);
    assert_eq!(l[0], vec![s("▸ Depends On", Tone::Category)]);
    assert_eq!(l[1], vec![s("  ", Tone::Plain), s("acl", Tone::Value)]);
    assert_eq!(l[2], vec![s("  ", Tone::Plain), s("glibc", Tone::Value)]);
    assert!(l[3].is_empty());
    assert_eq!(l[4], vec![s("▸ Optional Dependencies", Tone::Category)]);
    assert_eq!(l[5], vec![s("  None", Tone::Muted)]);
    assert_eq!(l[19], vec![s("▸ Replaces", Tone::Category)]);
}

#[test]
fn files_tab_before_and_after_loading() {
    assert_eq!(lines(&files_lines(None)), vec![vec![s("Press Enter to load file list", Tone::Muted)]]);
    let none: Vec<FileGroup> = Vec::new();
    assert_eq!(lines(&files_lines(Some(&none))), vec![vec![s("No files found", Tone::Muted)]]);
    let groups = vec![FileGroup {
        category: "Binaries".to_string(),
        base_path: "/usr/bin/".to_string(),
        files: vec!["/usr/bin/vim".to_string(), "/usr/bin/vimdiff".to_string()],
    }];
    assert_eq!(
        lines(&files_lines(Some(&groups))),
        vec![
            vec![s("▸ Binaries (2 files)", Tone::Category)],
            vec![s("  ", Tone::Plain), s("/usr/bin/vim", Tone::FilePath)],
            vec![s("  ", Tone::Plain), s("/usr/bin/vimdiff", Tone::FilePath)],
            vec![],
        ]
    );
}

#[test]
fn detail_follows_selection_and_tab() {
    let mut app = sample();
    let info = lines(&detail_lines(&app).unwrap());
    assert_eq!(info[0][0], s("acl", Tone::Heading));
    app.handle_key(KeyEvent { code: KeyCode::Enter, control: false });
    assert_eq!(lines(&detail_lines(&app).unwrap()), vec![vec![s("Press Enter to load file list", Tone::Muted)]]);
    app.store_files("acl".to_string(), vec!["/usr/lib/libacl.so".to_string()]);
    let f = lines(&detail_lines(&app).unwrap());
    assert_eq!(f[0], vec![s("▸ Libraries (1 files)", Tone::Category)]);
    app.handle_key(key('/'));
    app.handle_key(key('x'));
    assert!(detail_lines(&app).is_none());
}

#[test]
fn list_entries_carry_badges() {
    let app = sample();
    let items: Vec<Vec<(String, Tone)>> = list_items(&app).iter().map(|v| spans(v)).collect();
    assert_eq!(
        items[0],
        vec![s("acl", Tone::PkgName), s(" ", Tone::Plain), s("2.1-3", Tone::PkgVersion), s(" ", Tone::Plain), s("⚠", Tone::PkgOrphan)]
    );
    assert_eq!(
        items[1],
        vec![s("paru", Tone::PkgName), s(" ", Tone::Plain), s("2.1-3", Tone::PkgVersion), s(" ", Tone::Plain), s("AUR", Tone::PkgAur)]
    );
    assert_eq!(spans(&list_item(&app.packages[2])), vec![s("vim", Tone::PkgName), s(" ", Tone::Plain), s("2.1-3", Tone::PkgVersion)]);
}

#[test]
fn dashboard_statistics() {
    let app = sample();
    let l = lines(&stats_lines(&app));
    assert_eq!(l.len(), 8);
    assert_eq!(l[0], vec![s("  Package Statistics", Tone::Title)]);
    assert!(l[1].is_empty());
    assert_eq!(l[2], vec![s("    Total Packages:  ", Tone::Label), s("3", Tone::Stat)]);
    assert_eq!(l[3], vec![s("    ├── Explicit:    ", Tone::Label), s("2", Tone::Explicit)]);
    assert_eq!(l[4], vec![s("    ├── Dependencies:", Tone::Label), s(" 1", Tone::Dependency)]);
    assert_eq!(l[5], vec![s("    ├── AUR:         ", Tone::Label), s("1", Tone::Foreign)]);
    assert_eq!(l[6], vec![s("    └── Orphans:     ", Tone::Label), s("1", Tone::Orphan)]);
    assert_eq!(l[7], vec![s("    Disk Usage:      ", Tone::Label), s("12.68 MiB", Tone::Stat)]);
}

#[test]
fn dashboard_top_rows() {
    let app = sample();
    let top = app.top_largest(10);
    let filled = vec![30usize, 13, 0];
    let l = lines(&top_lines(&top, &filled));
    assert_eq!(l.len(), 5);
    assert_eq!(l[0], vec![s("  Top 10 Largest Packages", Tone::Title)]);
    assert!(l[1].is_empty());
    assert_eq!(
        l[2],
        vec![
            s("    1  ", Tone::Label),
            s(&format!("{:<30}", "paru"), Tone::Value),
            s(&"█".repeat(30), Tone::BarFilled),
            s("", Tone::BarEmpty),
            s(" ", Tone::Plain),
            s("  8.58 MiB", Tone::Stat),
        ]
    );
    assert_eq!(l[3][2], s(&"█".repeat(13), Tone::BarFilled));
    assert_eq!(l[3][3], s(&"░".repeat(17), Tone::BarEmpty));
    assert_eq!(l[4][0], s("    3  ", Tone::Label));
    assert_eq!(l[4][5], s("292.97 KiB", Tone::Stat));
    let many: Vec<&Package> = std::iter::repeat(&app.packages[0]).take(10).collect();
    let l = lines(&top_lines(&many, &vec![40usize; 10]));
    assert_eq!(l[11][0], s("    10 ", Tone::Label));
    assert_eq!(l[11][3], s("", Tone::BarEmpty));
}
