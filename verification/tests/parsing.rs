use glare::config::{default_aur_helper, default_filter, default_sort, Config};
use glare::package::{categorize_path, group_files, InstallReason, PackageSource};
use glare::pacman::{
    find_field_separator, parse_aur_names, parse_orphan_names, parse_package_files, parse_qi_output,
};

const QI: &str = "Name            : bash
Version         : 5.2.026-2
Description     : The GNU Bourne Again shell
Architecture    : x86_64
URL             : https://www.gnu.org/software/bash/bash.html
Licenses        : GPL-3.0-or-later
Groups          : None
Provides        : sh
Depends On      : readline  libreadline.so=8-64  glibc  ncurses
Optional Deps   : bash-completion: for tab completion
Required By     : bzip2  gzip
Optional For    : None
Conflicts With  : None
Replaces        : None
Installed Size  : 9.33 MiB
Packager        : Tobias Powalowski <tpowa@archlinux.org>
Build Date      : Mon 01 Jan 2024 10:00:00 AM UTC
Install Date    : Tue 02 Jan 2024 11:00:00 AM UTC
Install Reason  : Explicitly installed
Install Script  : No
Validated By    : Signature

Name            : zlib
Version         : 1:1.3.1-2
Description     : Compression library implementing the deflate compression method
Architecture    : x86_64
URL             : https://www.zlib.net/
Licenses        : Zlib
Groups          : None
Provides        : libz.so=1-64
Depends On      : glibc
Optional Deps   : foo: first thing
                  bar: second thing [installed]
Required By     : None
Optional For    : None
Conflicts With  : None
Replaces        : None
Installed Size  : 370.45 KiB
Packager        : Someone
Build Date      : Wed 03 Jan 2024
Install Date    : Thu 04 Jan 2024
Install Reason  : Installed as a dependency for another package
Install Script  : No
Validated By    : Signature
";

#[test]
fn reads_records_of_pacman_qi() {
    let pkgs = parse_qi_output(QI);
    assert_eq!(pkgs.len(), 2);
    let bash = &pkgs[0];
    assert_eq!(bash.name, "bash");
    assert_eq!(bash.version, "5.2.026-2");
    assert_eq!(bash.description, "The GNU Bourne Again shell");
    assert_eq!(bash.architecture, "x86_64");
    assert_eq!(bash.url, "https://www.gnu.org/software/bash/bash.html");
    assert_eq!(bash.licenses, vec!["GPL-3.0-or-later"]);
    assert!(bash.groups.is_empty());
    assert_eq!(bash.provides, vec!["sh"]);
    assert_eq!(bash.depends, vec!["readline", "libreadline.so=8-64", "glibc", "ncurses"]);
    assert_eq!(bash.optional_deps, vec!["bash-completion: for tab completion"]);
    assert_eq!(bash.required_by, vec!["bzip2", "gzip"]);
    assert!(bash.optional_for.is_empty() && bash.conflicts.is_empty() && bash.replaces.is_empty());
    assert_eq!(bash.installed_size, "9.33 MiB");
    assert_eq!(bash.installed_size_bytes, 9783214);
    assert_eq!(bash.packager, "Tobias Powalowski <tpowa@archlinux.org>");
    assert_eq!(bash.build_date, "Mon 01 Jan 2024 10:00:00 AM UTC");
    assert_eq!(bash.install_date, "Tue 02 Jan 2024 11:00:00 AM UTC");
    assert_eq!(bash.install_reason, InstallReason::Explicit);
    assert_eq!(bash.validated_by, "Signature");
    assert_eq!(bash.source, PackageSource::Official);
    assert!(!bash.is_orphan);

    let zlib = &pkgs[1];
    assert_eq!(zlib.name, "zlib");
    assert_eq!(zlib.installed_size_bytes, 379340);
    assert_eq!(zlib.install_reason, InstallReason::Dependency);
    assert_eq!(zlib.optional_deps, vec!["foo: first thing bar: second thing [installed]"]);
}

#[test]
fn record_without_name_is_skipped() {
    let out = "Version         : 1.0\n\nName            : a\nInstall Reason  : whatever\n";
    let pkgs = parse_qi_output(out);
    assert_eq!(pkgs.len(), 1);
    assert_eq!(pkgs[0].name, "a");
    assert_eq!(pkgs[0].install_reason, InstallReason::Unknown);
    assert_eq!(pkgs[0].installed_size_bytes, 0);
    assert_eq!(pkgs[0].version, "");
}

#[test]
fn empty_output_has_no_packages() {
    assert!(parse_qi_output("").is_empty());
    assert!(parse_qi_output("\n\n").is_empty());
}

#[test]
fn continuation_before_any_key_is_ignored() {
    let pkgs = parse_qi_output("   stray text\nName : x\n");
    assert_eq!(pkgs.len(), 1);
    assert_eq!(pkgs[0].name, "x");
}

#[test]
fn optional_deps_split_on_double_spaces() {
    let out = "Name : p\nOptional Deps : a: one  b: two  \n";
    let pkgs = parse_qi_output(out);
    assert_eq!(pkgs[0].optional_deps, vec!["a: one", "b: two"]);
}

#[test]
fn field_separator_is_space_colon_space() {
    assert_eq!(find_field_separator("Name            : bash"), Some(15));
    assert_eq!(find_field_separator("Depends On : a : b"), Some(10));
    assert_eq!(find_field_separator("no separator: here"), None);
    assert_eq!(find_field_separator(""), None);
    assert_eq!(find_field_separator("Größe : 5 MiB"), Some("Größe".len()));
    assert_eq!(find_field_separator("Größe : 5 MiB"), Some(7));
    assert_eq!(find_field_separator("€ x : y"), Some(5));
}

#[test]
fn aur_names_are_first_words_once_each() {
    let names = parse_aur_names("yay 12.3.5-1\nparu-bin 2.0.4-1\n\nyay 12.3.5-1\n   \n");
    assert_eq!(names, vec!["yay", "paru-bin"]);
    assert!(parse_aur_names("").is_empty());
}

#[test]
fn orphan_names_are_trimmed_lines_once_each() {
    let names = parse_orphan_names("libfoo\n  libbar  \n\nlibfoo\n");
    assert_eq!(names, vec!["libfoo", "libbar"]);
}

#[test]
fn package_files_follow_the_first_space() {
    let files = parse_package_files("bash /usr/\nbash /usr/bin/bash\nbash /usr/share/doc/my file.txt\nnoseparator\n");
    assert_eq!(files, vec!["/usr/", "/usr/bin/bash", "/usr/share/doc/my file.txt"]);
}

#[test]
fn paths_fall_in_their_install_location() {
    let cases = [
        ("/usr/bin/ls", 0, "Binaries", "/usr/bin/"),
        ("/sbin/init", 0, "Binaries", "/usr/bin/"),
        ("/usr/lib/libc.so", 1, "Libraries", "/usr/lib/"),
        ("/lib/modules/x", 1, "Libraries", "/usr/lib/"),
        ("/usr/include/stdio.h", 2, "Headers", "/usr/include/"),
        ("/usr/share/man/man1/ls.1.gz", 4, "Documentation", "/usr/share/doc/"),
        ("/usr/share/doc/bash/README", 4, "Documentation", "/usr/share/doc/"),
        ("/usr/share/doc/foo/README", 4, "Documentation", "/usr/share/doc/"),
        ("/usr/share/licenses/bash/COPYING", 5, "Licenses", "/usr/share/licenses/"),
        ("/usr/share/icons/a.png", 6, "Data and Resources", "/usr/share/"),
        ("/etc/bash.bashrc", 7, "Configuration", "/etc/"),
        ("/var/lib/pacman", 8, "Variable Data", "/var/"),
        ("/opt/app/run", 9, "Optional", "/opt/"),
        ("/srv/http/index.html", 10, "Other", "/"),
        ("/usr/binx", 10, "Other", "/"),
        ("usr/bin/relative", 10, "Other", "/"),
    ];
    for (path, order, name, base) in cases {
        let (o, n, b) = categorize_path(path);
        assert_eq!((o, n.as_str(), b.as_str()), (order, name, base), "{}", path);
    }
}

#[test]
fn files_are_grouped_by_location_sorted_and_directories_skipped() {
    let files: Vec<String> = vec![
        "  /etc/b.conf  ",
        "/usr/bin/zz",
        "/usr/share/doc/",
        "",
        "/usr/bin/aa",
        "/etc/a.conf",
        "/srv/x",
    ]
    .into_iter()
    .map(String::from)
    .collect();
    let groups = group_files(files);
    assert_eq!(groups.len(), 3);
    assert_eq!(groups[0].category, "Binaries");
    assert_eq!(groups[0].base_path, "/usr/bin/");
    assert_eq!(groups[0].files, vec!["/usr/bin/aa", "/usr/bin/zz"]);
    assert_eq!(groups[1].category, "Configuration");
    assert_eq!(groups[1].files, vec!["/etc/a.conf", "/etc/b.conf"]);
    assert_eq!(groups[2].category, "Other");
    assert_eq!(groups[2].base_path, "/");
    assert_eq!(groups[2].files, vec!["/srv/x"]);
    assert!(group_files(Vec::new()).is_empty());
}

#[test]
fn manual_pages_and_documentation_share_a_group() {
    let groups = group_files(vec![
        "/usr/share/man/man1/ls.1.gz".to_string(),
        "/usr/share/doc/ls/README".to_string(),
        "/usr/share/man/man1/dir.1.gz".to_string(),
    ]);
    assert_eq!(groups.len(), 1);
    assert_eq!(groups[0].category, "Documentation");
    assert_eq!(
        groups[0].files,
        vec!["/usr/share/doc/ls/README", "/usr/share/man/man1/dir.1.gz", "/usr/share/man/man1/ls.1.gz"]
    );
}

#[test]
fn reasons_and_sources_print_as_shown() {
    assert_eq!(InstallReason::Explicit.to_string(), "Explicitly installed");
    assert_eq!(InstallReason::Dependency.to_string(), "Installed as dependency");
    assert_eq!(InstallReason::Unknown.to_string(), "Unknown");
    assert_eq!(PackageSource::Official.to_string(), "Official");
    assert_eq!(PackageSource::AUR.to_string(), "AUR");
}

#[test]
fn config_defaults() {
    let c = Config::default();
    assert_eq!(c.aur_helper, "paru");
    assert_eq!(c.default_filter, "all");
    assert_eq!(c.default_sort, "name");
    assert_eq!(default_aur_helper(), "paru");
    assert_eq!(default_filter(), "all");
    assert_eq!(default_sort(), "name");
}

#[test]
fn grouping_does_not_depend_on_input_order() {
    let a: Vec<String> = vec!["/etc/x", "/usr/bin/b", "/usr/bin/a", "/opt/z", "/usr/share/man/m.1"]
        .into_iter()
        .map(String::from)
        .collect();
    let mut b = a.clone();
    b.reverse();
    let ga = group_files(a);
    let gb = group_files(b);
    assert_eq!(ga.len(), gb.len());
    for (x, y) in ga.iter().zip(gb.iter()) {
        assert_eq!(x.category, y.category);
        assert_eq!(x.base_path, y.base_path);
        assert_eq!(x.files, y.files);
    }
}
