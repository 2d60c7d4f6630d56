use std::cell::RefCell;
use std::collections::BTreeMap;
use std::rc::Rc;

use tuxcleaner::catalog::{default_desktop_dirs, flatpak_application, nonempty, ApplicationCatalog, PendingReport};
use tuxcleaner::command::{CommandOutput, CommandRunner};
use tuxcleaner::desktop::{
    discover_desktop_entries, is_desktop_file, parse_desktop_name, DesktopApplication, DesktopCandidate,
};
use tuxcleaner::distro::{Distribution, DistroFamily};
use tuxcleaner::listings::{
    parse_owner, parse_owner_listing, parse_package_listing, parse_pacman_detail_map, parse_pacman_details,
    parse_tab_detail_map, parse_tab_details,
};
use tuxcleaner::packages::{is_protected_package, is_valid_identifier, normalize_native_package};
use tuxcleaner::path::FilePath;
use tuxcleaner::sizes::ReportedSize;
use tuxcleaner::uninstall::{Application, ApplicationReport, ApplicationSource, Measurement};

/// The bytes of a size with a binary unit, as in `245MiB`.
fn binary_size(text: &str) -> Option<u64> {
    let upper = text.to_ascii_uppercase();
    let units: [(&str, u64); 3] = [("KIB", 1 << 10), ("MIB", 1 << 20), ("GIB", 1 << 30)];
    for (suffix, multiplier) in units {
        if let Some(number) = upper.strip_suffix(suffix) {
            return number.parse::<u64>().ok().map(|n| n * multiplier);
        }
    }
    upper.parse::<u64>().ok()
}

fn bytes_of(size: &ReportedSize) -> u64 {
    match size {
        ReportedSize::Bytes(n) => *n,
        ReportedSize::Scaled { number, multiplier } => number
            .parse::<f64>()
            .ok()
            .filter(|value| value.is_finite() && *value >= 0.0)
            .map(|value| (value * *multiplier as f64).round() as u64)
            .unwrap_or(0),
        ReportedSize::Text(text) => binary_size(text).unwrap_or(0),
    }
}

fn parse_reported_size(value: &str) -> u64 {
    bytes_of(&tuxcleaner::sizes::parse_reported_size(value))
}

struct FixtureRunner {
    outputs: BTreeMap<String, CommandReply>,
}

enum CommandReply {
    Printed(String),
    Failed(String, String),
    Missing(String),
}

impl FixtureRunner {
    fn new(entries: &[(&str, &str)]) -> Self {
        Self {
            outputs: entries
                .iter()
                .map(|(key, value)| ((*key).to_owned(), CommandReply::Printed((*value).to_owned())))
                .collect(),
        }
    }

    fn with(mut self, key: &str, reply: CommandReply) -> Self {
        self.outputs.insert(key.to_owned(), reply);
        self
    }
}

impl CommandRunner for FixtureRunner {
    fn run(&self, program: &str, args: &[String], _: bool) -> Result<CommandOutput, String> {
        let key = format!("{program} {}", args.join(" "));
        match self.outputs.get(&key) {
            Some(CommandReply::Missing(reason)) => Err(reason.clone()),
            Some(CommandReply::Failed(status, stderr)) => Ok(CommandOutput {
                success: false,
                status: status.clone(),
                stdout: Vec::new(),
                stderr: stderr.clone().into_bytes(),
            }),
            Some(CommandReply::Printed(text)) => Ok(CommandOutput {
                success: true,
                status: "exit status: 0".to_owned(),
                stdout: text.clone().into_bytes(),
                stderr: Vec::new(),
            }),
            None => Ok(CommandOutput {
                success: true,
                status: "exit status: 0".to_owned(),
                stdout: Vec::new(),
                stderr: Vec::new(),
            }),
        }
    }
}

const ROOT: &str = "/home/user";
const DESKTOP: &str = "/home/user/applications/firefox.desktop";

fn distribution(family: DistroFamily, name: &str) -> Distribution {
    Distribution { family, name: name.to_owned() }
}

fn firefox() -> Vec<DesktopApplication> {
    discover_desktop_entries(&vec![DesktopCandidate {
        path: FilePath::from_text(DESKTOP),
        depth: 1,
        is_file: true,
        content: Some("[Desktop Entry]\nType=Application\nName=Firefox\n".to_owned()),
    }])
}

fn measured(report: PendingReport) -> ApplicationReport {
    let measurements: Vec<Measurement> = report
        .applications
        .iter()
        .map(|application| Measurement {
            installed_bytes: bytes_of(&application.installed),
            data_exists: false,
            data_bytes: 0,
        })
        .collect();
    report.complete(&measurements)
}

fn catalog(family: DistroFamily, name: &str, runner: FixtureRunner) -> ApplicationCatalog<FixtureRunner> {
    ApplicationCatalog::with_runner(
        FilePath::from_text(ROOT),
        distribution(family, name),
        vec![FilePath::from_text("/home/user/applications")],
        runner,
    )
}

#[test]
fn desktop_parser_skips_hidden_entries() {
    let visible = "[Desktop Entry]\nType=Application\nName=Visible App\n";
    let hidden = "[Desktop Entry]\nType=Application\nName=Hidden App\nNoDisplay=true\n";
    assert_eq!(parse_desktop_name(visible).as_deref(), Some("Visible App"));
    assert!(parse_desktop_name(hidden).is_none());
}

#[test]
fn desktop_parser_reads_the_entry_group_alone() {
    let other = "[Desktop Action new]\nName=Action\n[Desktop Entry]\nName= Editor \n# Name=No\n[Else]\nName=Other\n";
    assert_eq!(parse_desktop_name(other).as_deref(), Some("Editor"));
    assert!(parse_desktop_name("Name=Stray\n").is_none());
    assert!(parse_desktop_name("[Desktop Entry]\nName=Link\nType=Link\n").is_none());
    assert!(parse_desktop_name("[Desktop Entry]\nName=\n").is_none());
    assert!(parse_desktop_name("[Desktop Entry]\nName=Gone\nHidden=TRUE\n").is_none());
    assert_eq!(parse_desktop_name("[Desktop Entry]\nName=Kept\nHidden=no\n").as_deref(), Some("Kept"));
    assert_eq!(parse_desktop_name("[Desktop Entry]\nName=One\nName=Two\n").as_deref(), Some("Two"));
}

#[test]
fn only_readable_desktop_files_are_entries() {
    let content = "[Desktop Entry]\nName=A\n";
    let candidate = |path: &str, is_file: bool, content: Option<&str>| DesktopCandidate {
        path: FilePath::from_text(path),
        depth: 2,
        is_file,
        content: content.map(|text| text.to_owned()),
    };
    let entries = discover_desktop_entries(&vec![
        candidate("/a/one.desktop", true, Some(content)),
        candidate("/a/two.desktop", false, Some(content)),
        candidate("/a/three.txt", true, Some(content)),
        candidate("/a/four.desktop", true, None),
        candidate("/a/five.desktop", true, Some("nothing")),
        DesktopCandidate { depth: 3, ..candidate("/a/six.desktop", true, Some(content)) },
    ]);
    assert_eq!(entries.len(), 1);
    assert_eq!(entries[0].path, FilePath::from_text("/a/one.desktop"));
    assert!(is_desktop_file(&FilePath::from_text("/a/b.c.desktop")));
    assert!(!is_desktop_file(&FilePath::from_text("/a/.desktop")));
    assert!(!is_desktop_file(&FilePath::from_text("/a/desktop")));
}

#[test]
fn arch_catalog_only_includes_explicit_desktop_packages() {
    let runner = FixtureRunner::new(&[
        ("pacman -Qqe", "firefox\nbash\n"),
        (&format!("pacman -Qqo {DESKTOP}"), "firefox\n"),
        ("pacman -Qi -- firefox", "Name : firefox\nVersion : 140.0-1\nInstalled Size : 245 MiB\n"),
    ]);
    let report = measured(catalog(DistroFamily::Arch, "Arch Linux", runner).discover(&firefox()));
    assert_eq!(report.applications.len(), 1);
    assert_eq!(report.applications[0].id, "pacman:firefox");
    assert_eq!(report.applications[0].installed_bytes, 245 * 1024 * 1024);
}

#[test]
fn debian_catalog_uses_manual_packages_and_installed_size() {
    let runner = FixtureRunner::new(&[
        ("apt-mark showmanual", "firefox\nlibc6\n"),
        (&format!("dpkg-query -S {DESKTOP}"), &format!("firefox: {DESKTOP}\n")),
        ("dpkg-query -W -f=${Version}\t${Installed-Size}\n firefox", "128.0-1\t250000\n"),
    ]);
    let report = measured(catalog(DistroFamily::Debian, "Ubuntu", runner).discover(&firefox()));
    assert_eq!(report.applications.len(), 1);
    assert_eq!(report.applications[0].id, "apt:firefox");
    assert_eq!(report.applications[0].installed_bytes, 250_000 * 1024);
}

#[test]
fn fedora_catalog_uses_userinstalled_packages() {
    let runner = FixtureRunner::new(&[
        ("dnf repoquery --installed --userinstalled --qf %{name}", "firefox\nsystemd\n"),
        (&format!("rpm -qf --qf %{{NAME}}\n {DESKTOP}"), "firefox\n"),
        ("rpm -q --qf %{VERSION}-%{RELEASE}\t%{SIZE}\n firefox", "128.0-1.fc42\t300000000\n"),
    ]);
    let report = measured(catalog(DistroFamily::Fedora, "Fedora Linux", runner).discover(&firefox()));
    assert_eq!(report.applications.len(), 1);
    assert_eq!(report.applications[0].id, "dnf:firefox");
    assert_eq!(report.applications[0].installed_bytes, 300_000_000);
}

#[test]
fn batch_answers_come_before_single_ones() {
    let runner = FixtureRunner::new(&[
        ("pacman -Qqe", "firefox\n"),
        (&format!("pacman -Qo {DESKTOP}"), &format!("{DESKTOP} is owned by firefox 140.0-1\n")),
        (&format!("pacman -Qqo {DESKTOP}"), "other\n"),
        ("pacman -Qi -- firefox", "Name : firefox\nVersion : 140.0-1\nInstalled Size : 1,5 GB\n"),
    ]);
    let report = measured(catalog(DistroFamily::Arch, "Arch Linux", runner).discover(&firefox()));
    assert_eq!(report.applications.len(), 1);
    assert_eq!(report.applications[0].package, "firefox");
    assert_eq!(report.applications[0].version, "140.0-1");
    assert_eq!(report.applications[0].installed_bytes, 1_500_000_000);
    assert_eq!(report.applications[0].desktop_file, Some(FilePath::from_text(DESKTOP)));
    assert!(report.warnings.is_empty());
}

#[test]
fn packages_without_details_are_of_unknown_version() {
    let runner = FixtureRunner::new(&[
        ("apt-mark showmanual", "firefox\n"),
        (&format!("dpkg-query -S {DESKTOP}"), &format!("firefox: {DESKTOP}\n")),
    ])
    .with(
        "dpkg-query -W -f=${Package}\t${Version}\t${Installed-Size}\n firefox",
        CommandReply::Missing("no such program".to_owned()),
    )
    .with(
        "dpkg-query -W -f=${Version}\t${Installed-Size}\n firefox",
        CommandReply::Missing("no such program".to_owned()),
    );
    let report = measured(catalog(DistroFamily::Debian, "Debian", runner).discover(&firefox()));
    assert_eq!(report.applications.len(), 1);
    assert_eq!(report.applications[0].version, "unknown");
    assert_eq!(report.applications[0].installed_bytes, 0);
}

#[test]
fn protected_packages_are_never_offered() {
    let runner = FixtureRunner::new(&[
        ("pacman -Qqe", "gnome-shell\n"),
        (&format!("pacman -Qqo {DESKTOP}"), "gnome-shell\n"),
    ]);
    let report = measured(catalog(DistroFamily::Arch, "Arch Linux", runner).discover(&firefox()));
    assert!(report.applications.is_empty());
}

#[test]
fn one_package_is_offered_once() {
    let entry = |path: &str, name: &str| DesktopApplication { name: name.to_owned(), path: FilePath::from_text(path) };
    let runner = FixtureRunner::new(&[
        ("pacman -Qqe", "office\n"),
        ("pacman -Qqo /a/writer.desktop", "office\n"),
        ("pacman -Qqo /a/calc.desktop", "office\n"),
    ]);
    let entries = vec![entry("/a/writer.desktop", "Writer"), entry("/a/calc.desktop", "Calc")];
    let report = measured(catalog(DistroFamily::Arch, "Arch Linux", runner).discover(&entries));
    assert_eq!(report.applications.len(), 1);
    assert_eq!(report.applications[0].name, "Writer");
}

#[test]
fn failed_queries_become_warnings() {
    let listing = "flatpak list --app --columns=application,name,version,size,installation";
    let runner = FixtureRunner::new(&[])
        .with("pacman -Qqe", CommandReply::Failed("exit status: 1".to_owned(), " no database \n".to_owned()))
        .with(listing, CommandReply::Missing("not found".to_owned()));
    let report = measured(catalog(DistroFamily::Arch, "Arch Linux", runner).discover(&firefox()));
    assert!(report.applications.is_empty());
    assert_eq!(
        report.warnings,
        vec![
            "failed to list explicitly installed packages: pacman -Qqe exited with exit status: 1: no database".to_owned(),
            "failed to list Flatpak applications: not found".to_owned(),
        ]
    );
}

#[test]
fn unsupported_distributions_still_have_flatpaks() {
    let listing = "flatpak list --app --columns=application,name,version,size,installation";
    let runner = FixtureRunner::new(&[(
        listing,
        "org.b.App\tbeta\t2\t14.8?MB\tuser\n\nshort\tline\n--bad\tx\t1\t1\tuser\norg.a.App\tAlpha\t\t1.5?GB\tsystem\norg.a.App\tAlpha\t\t1.5?GB\tsystem\n",
    )]);
    let report = measured(catalog(DistroFamily::Unsupported, "Custom", runner).discover(&Vec::new()));
    let ids: Vec<&str> = report.applications.iter().map(|application| application.id.as_str()).collect();
    assert_eq!(ids, vec!["flatpak-system:org.a.App", "flatpak-user:org.b.App"]);
    assert_eq!(report.applications[0].version, "unknown");
    assert_eq!(report.applications[0].installed_bytes, 1_500_000_000);
    assert_eq!(report.applications[1].installed_bytes, 14_800_000);
    assert_eq!(
        report.warnings,
        vec!["Custom does not have a native package uninstall provider; Flatpak applications are still available".to_owned()]
    );
}

#[test]
fn parses_flatpak_scope_and_preserves_user_data() {
    let texts: Vec<Vec<char>> = ["com.spotify.Client", "Spotify", "1.2.3", "600 MiB", "user"]
        .iter()
        .map(|text| text.chars().collect())
        .collect();
    let columns: Vec<&[char]> = texts.iter().map(|text| text.as_slice()).collect();
    let pending = flatpak_application(&FilePath::from_text(ROOT), &columns);
    assert_eq!(pending.data_path, Some(FilePath::from_text("/home/user/.var/app/com.spotify.Client")));
    let measurement = Measurement { installed_bytes: bytes_of(&pending.installed), data_exists: true, data_bytes: 128 };
    let app = pending.complete(&measurement);
    assert_eq!(app.source, ApplicationSource::FlatpakUser);
    assert_eq!(app.user_data_bytes, 128);
    assert_eq!(app.installed_bytes, 600 * 1024 * 1024);
    assert_eq!(app.user_data_paths, vec![FilePath::from_text("/home/user/.var/app/com.spotify.Client")]);
}

#[test]
fn identifiers_and_protected_packages_are_conservative() {
    assert!(is_valid_identifier("org.mozilla.firefox"));
    assert!(!is_valid_identifier("--help"));
    assert!(!is_valid_identifier("name with spaces"));
    assert!(is_protected_package("systemd"));
    assert!(is_protected_package("linux-image-amd64"));
    assert!(!is_protected_package("firefox"));
    assert_eq!(parse_reported_size("441.3\u{a0}MB"), 441_300_000);
}

#[test]
fn reported_sizes_survive_the_c_locale_transliterating_the_unit_separator() {
    assert_eq!(parse_reported_size("14.8?MB"), 14_800_000);
    assert_eq!(parse_reported_size("14.8\u{a0}MB"), 14_800_000);
    assert_eq!(parse_reported_size("14.8 MB"), 14_800_000);
    assert_eq!(parse_reported_size("14.8MB"), 14_800_000);
    assert_eq!(parse_reported_size("14.8\u{202f}MB"), 14_800_000);
    assert_eq!(parse_reported_size("14.8\u{2009}MB"), 14_800_000);
    assert_eq!(parse_reported_size("441,3?MB"), 441_300_000);
    assert_eq!(parse_reported_size("1.5?GB"), 1_500_000_000);
    assert_eq!(parse_reported_size("?"), 0);
    assert_eq!(parse_reported_size(""), 0);
}

#[test]
fn reported_sizes_are_split_into_number_and_unit() {
    let read = tuxcleaner::sizes::parse_reported_size;
    let scaled = |number: &str, multiplier: u64| ReportedSize::Scaled { number: number.to_owned(), multiplier };
    assert_eq!(read("14,8?MB"), scaled("14.8", 1_000_000));
    assert_eq!(read("2 kb"), scaled("2", 1_000));
    assert_eq!(read("3 GB"), scaled("3", 1_000_000_000));
    assert_eq!(read("4TB"), scaled("4", 1_000_000_000_000));
    assert_eq!(read("245 MiB"), ReportedSize::Text("245MiB".to_owned()));
    assert_eq!(read("?"), ReportedSize::Text(String::new()));
}

#[test]
fn identifiers_are_bounded() {
    assert!(is_valid_identifier(&"a".repeat(255)));
    assert!(!is_valid_identifier(&"a".repeat(256)));
    assert!(!is_valid_identifier(""));
    assert!(is_valid_identifier("a._+:@-9Z"));
    assert!(!is_valid_identifier("é"));
    assert!(!is_valid_identifier("a/b"));
}

#[test]
fn packages_are_normalized_before_they_are_judged() {
    assert_eq!(normalize_native_package(" libc6:amd64 "), "libc6");
    assert_eq!(normalize_native_package(" firefox "), "firefox");
    assert_eq!(normalize_native_package(&normalize_native_package(" libc6:amd64 ")), "libc6");
    assert_eq!(normalize_native_package(" : x"), "");
    assert!(is_protected_package("LIBC6:amd64"));
    assert!(is_protected_package("amd-ucode"));
    assert!(is_protected_package("linux-firmware"));
    assert!(is_protected_package("linux-headers-6.1"));
    assert!(!is_protected_package("bash-completion"));
}

#[test]
fn sources_have_titles_slugs_and_identifiers() {
    let all = [
        (ApplicationSource::Pacman, "pacman", "pacman", false),
        (ApplicationSource::Apt, "APT", "apt", false),
        (ApplicationSource::Dnf, "DNF", "dnf", false),
        (ApplicationSource::FlatpakUser, "Flatpak (user)", "flatpak-user", true),
        (ApplicationSource::FlatpakSystem, "Flatpak (system)", "flatpak-system", true),
    ];
    for (source, title, slug, flatpak) in all {
        assert_eq!(source.title(), title);
        assert_eq!(source.slug(), slug);
        assert_eq!(source.is_flatpak(), flatpak);
        assert_eq!(Application::new_id(source, "a"), format!("{slug}:a"));
    }
}

#[test]
fn listings_are_read_line_by_line() {
    let (version, size) = parse_pacman_details("Name : a\nVersion : 1:2-3\nInstalled Size : 10 KB\n");
    assert_eq!(version, "1:2-3");
    assert_eq!(bytes_of(&size), 10_000);
    let (version, size) = parse_pacman_details("nothing here");
    assert_eq!(version, "unknown");
    assert_eq!(bytes_of(&size), 0);

    let map = parse_pacman_detail_map("Name : a\nVersion : 1\n\nVersion : 2\n\nName : b\nInstalled Size : 2 MB\n");
    assert_eq!(map.get(&"a".to_owned()).map(|found| found.0.as_str()), Some("1"));
    assert_eq!(map.get(&"b".to_owned()).map(|found| bytes_of(&found.1)), Some(2_000_000));
    assert!(!map.contains(&"c".to_owned()));

    let (version, size) = parse_tab_details(" 1.0 \t 3 \n", 1024);
    assert_eq!(version, "1.0");
    assert_eq!(bytes_of(&size), 3072);
    assert_eq!(bytes_of(&parse_tab_details("1.0\t18446744073709551615", 1024).1), u64::MAX);
    assert_eq!(bytes_of(&parse_tab_details("1.0\tmany", 1024).1), 0);

    let map = parse_tab_detail_map("a:amd64\t1\t2\nb\n", 1);
    assert_eq!(map.get(&"a".to_owned()).map(|found| bytes_of(&found.1)), Some(2));
    assert!(map.get(&"b".to_owned()).is_none());

    let owners = parse_owner_listing("/a/b.desktop is owned by app 1.0\nnothing\n", true);
    assert_eq!(owners.get(&FilePath::from_text("/a/b.desktop")).map(|owner| owner.as_str()), Some("app"));
    let owners = parse_owner_listing("app:amd64: /a/b.desktop\n", false);
    assert_eq!(owners.get(&FilePath::from_text("/a/b.desktop")).map(|owner| owner.as_str()), Some("app"));

    assert_eq!(parse_owner("app:amd64: /a\nother: /b\n", true).as_deref(), Some("app"));
    assert_eq!(parse_owner("app\n", false).as_deref(), Some("app"));
    assert_eq!(parse_owner("not an identifier\n", false), None);
    assert_eq!(parse_owner("", false), None);

    assert_eq!(parse_package_listing(" a \n\nb:i386\n-x\n"), vec!["a".to_owned(), "b".to_owned()]);
}

#[test]
fn outputs_that_are_not_utf8_are_read_with_replacements() {
    struct Raw;
    impl CommandRunner for Raw {
        fn run(&self, program: &str, _: &[String], _: bool) -> Result<CommandOutput, String> {
            let stdout = if program == "flatpak" {
                b"org.a.App\tN\xffme\t1\t1 KB\tuser\n".to_vec()
            } else {
                Vec::new()
            };
            Ok(CommandOutput { success: true, status: String::new(), stdout, stderr: Vec::new() })
        }
    }
    let catalog = ApplicationCatalog::with_runner(
        FilePath::from_text(ROOT),
        distribution(DistroFamily::Unsupported, "Custom"),
        Vec::new(),
        Raw,
    );
    let report = measured(catalog.discover(&Vec::new()));
    assert_eq!(report.applications[0].name, "N\u{fffd}me");
}

#[test]
fn desktop_entries_are_looked_for_in_three_places() {
    let home = FilePath::from_text(ROOT);
    let shown: Vec<String> = default_desktop_dirs(&home).iter().map(|path| path.display()).collect();
    assert_eq!(
        shown,
        vec![
            "/usr/share/applications".to_owned(),
            "/usr/local/share/applications".to_owned(),
            "/home/user/.local/share/applications".to_owned(),
        ]
    );
    let catalog = catalog(DistroFamily::Arch, "Arch Linux", FixtureRunner::new(&[]));
    assert_eq!(catalog.desktop_dirs().len(), 1);
}

struct RecordingRunner {
    inner: FixtureRunner,
    run: RefCell<Vec<(String, bool)>>,
}

impl CommandRunner for RecordingRunner {
    fn run(&self, program: &str, args: &[String], requires_root: bool) -> Result<CommandOutput, String> {
        self.run.borrow_mut().push((format!("{program} {}", args.join(" ")), requires_root));
        self.inner.run(program, args, requires_root)
    }
}

/// The commands that a discovery runs, none of which runs as root.
fn commands_of(family: DistroFamily, inner: FixtureRunner, entries: &Vec<DesktopApplication>) -> Vec<String> {
    let runner = Rc::new(RecordingRunner { inner, run: RefCell::new(Vec::new()) });
    struct Shared(Rc<RecordingRunner>);
    impl CommandRunner for Shared {
        fn run(&self, program: &str, args: &[String], requires_root: bool) -> Result<CommandOutput, String> {
            self.0.run(program, args, requires_root)
        }
    }
    let catalog = ApplicationCatalog::with_runner(
        FilePath::from_text(ROOT),
        distribution(family, "Linux"),
        Vec::new(),
        Shared(Rc::clone(&runner)),
    );
    catalog.discover(entries);
    let run = runner.run.borrow();
    assert!(run.iter().all(|(_, requires_root)| !requires_root));
    run.iter().map(|(command, _)| command.clone()).collect()
}

#[test]
fn only_the_queries_that_are_due_are_run() {
    let flatpak = "flatpak list --app --columns=application,name,version,size,installation".to_owned();
    let failing = || {
        FixtureRunner::new(&[]).with("pacman -Qqe", CommandReply::Failed("exit status: 1".to_owned(), String::new()))
    };
    assert_eq!(
        commands_of(DistroFamily::Arch, failing(), &firefox()),
        vec!["pacman -Qqe".to_owned(), flatpak.clone()]
    );
    assert_eq!(
        commands_of(DistroFamily::Arch, FixtureRunner::new(&[]), &Vec::new()),
        vec!["pacman -Qqe".to_owned(), flatpak.clone()]
    );
    assert_eq!(
        commands_of(DistroFamily::Unsupported, FixtureRunner::new(&[]), &firefox()),
        vec![flatpak.clone()]
    );
    let known = FixtureRunner::new(&[
        ("pacman -Qqe", "firefox\n"),
        (&format!("pacman -Qo {DESKTOP}"), &format!("{DESKTOP} is owned by firefox 140.0-1\n")),
        ("pacman -Qi -- firefox", "Name : firefox\nVersion : 140.0-1\n"),
    ]);
    assert_eq!(
        commands_of(DistroFamily::Arch, known, &firefox()),
        vec![
            "pacman -Qqe".to_owned(),
            format!("pacman -Qo {DESKTOP}"),
            "pacman -Qi -- firefox".to_owned(),
            flatpak.clone(),
        ]
    );
    let dnf = "dnf repoquery --installed --userinstalled --qf %{name}".to_owned();
    assert_eq!(
        commands_of(DistroFamily::Fedora, FixtureRunner::new(&[]), &firefox()),
        vec![dnf, format!("rpm -qf --qf %{{NAME}}\n {DESKTOP}"), flatpak]
    );
}

#[test]
fn paths_are_handed_to_commands_as_they_were_given() {
    let path = "/home//user/./applications/firefox.desktop";
    let runner = FixtureRunner::new(&[
        ("pacman -Qqe", "firefox\n"),
        (&format!("pacman -Qo {path}"), "/home/user/applications/firefox.desktop is owned by firefox 140.0-1\n"),
    ]);
    let entry = DesktopApplication { name: "Firefox".to_owned(), path: FilePath::from_text(path) };
    let report = measured(catalog(DistroFamily::Arch, "Arch Linux", runner).discover(&vec![entry]));
    assert_eq!(report.applications.len(), 1);
    assert_eq!(report.applications[0].desktop_file.as_ref().unwrap().display(), path);
}

#[test]
fn flatpak_data_lies_one_component_down() {
    let listing = "flatpak list --app --columns=application,name,version,size,installation";
    let runner = FixtureRunner::new(&[(listing, "org.a.App\tA\t1\t1\tuser\n.\tB\t1\t1\tuser\n..\tC\t1\t1\tuser\n")]);
    let report = catalog(DistroFamily::Unsupported, "Custom", runner).discover(&Vec::new());
    let home = FilePath::from_text("/home/user/.var/app");
    let parts: Vec<Vec<Vec<u8>>> = report
        .applications
        .iter()
        .map(|application| application.data_path.as_ref().unwrap().strip_prefix(&home).unwrap().parts)
        .collect();
    assert_eq!(parts, vec![vec![b"org.a.App".to_vec()], vec![], vec![b"..".to_vec()]]);
}

#[test]
fn blank_columns_fall_back() {
    let blank: Vec<char> = " \t".chars().collect();
    let word: Vec<char> = " x ".chars().collect();
    assert_eq!(nonempty(&blank, "unknown"), "unknown");
    assert_eq!(nonempty(&word, "unknown"), "x");
}
