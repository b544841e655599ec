use whypkg::commands::browse::{empty_pool_message, pool, Args as BrowseArgs};
use whypkg::commands::pending::{classify, desc, reason, report, size_kb, version_change, Args, Category};
use whypkg::model::{Package, World};

fn sized(name: &str, kb: u64, desc: &str) -> Package {
    let mut p = Package::named(name.to_string());
    p.installed_size = kb;
    p.description = desc.to_string();
    p.version = "1.0".to_string();
    p
}

/// firefox (manual) -> libnss3 -> libfoo; liborphan has no manual package
/// above it; a kernel image; all but libnss3 have an upgrade pending.
fn world() -> World {
    let mut w = World::from_edges(&[("firefox", "libnss3"), ("libnss3", "libfoo")], &["firefox"]);
    w.insert_package(sized("firefox", 512, "Web browser"));
    w.insert_package(sized("libfoo", 512, "Foo library"));
    w.insert_package(sized("liborphan", 0, "Orphan"));
    w.insert_package(sized("linux-image-6.1", 2048, "Kernel"));
    w.set_candidate("firefox", "2.0".to_string());
    w.set_candidate("libfoo", "2.0".to_string());
    w.set_candidate("liborphan", "2.0".to_string());
    w.set_candidate("linux-image-6.1", "2.0".to_string());
    w
}

#[test]
fn every_upgrade_gets_its_category() {
    let w = world();
    assert!(matches!(classify(&w, "linux-image-6.1"), Category::Kernel));
    assert!(matches!(classify(&w, "firefox"), Category::App));
    assert!(matches!(classify(&w, "libfoo"), Category::PulledIn(r) if r == "firefox"));
    assert!(matches!(classify(&w, "liborphan"), Category::Untraced));
}

#[test]
fn many_dependents_make_a_foundation() {
    let edges: Vec<(String, String)> = (0..26).map(|i| (format!("app{i:02}"), "libcore".to_string())).collect();
    let refs: Vec<(&str, &str)> = edges.iter().map(|(a, b)| (a.as_str(), b.as_str())).collect();
    let w = World::from_edges(&refs, &["app00"]);
    assert!(matches!(classify(&w, "libcore"), Category::Foundation));
    assert_eq!(reason(Some(&Category::Foundation)), "system lib");
}

#[test]
fn package_facts_for_the_report() {
    let w = world();
    assert_eq!(version_change(&w, "firefox"), "1.0  →  2.0");
    assert_eq!(version_change(&w, "libnss3"), "");
    assert_eq!(version_change(&w, "missing"), "");
    assert_eq!(desc(&w, "firefox"), "Web browser");
    assert_eq!(desc(&w, "missing"), "");
    assert_eq!(size_kb(&w, "linux-image-6.1"), 2048);
    assert_eq!(size_kb(&w, "missing"), 0);
    assert_eq!(reason(Some(&Category::PulledIn("firefox".into()))), "← firefox");
    assert_eq!(reason(None), "auto");
    assert_eq!(reason(Some(&Category::App)), "you");
    assert_eq!(reason(Some(&Category::Kernel)), "kernel");
    assert_eq!(reason(Some(&Category::Untraced)), "auto");
}

fn flat(lines: &[Vec<whypkg::styled::Span>]) -> Vec<String> {
    lines.iter().map(|l| l.iter().map(|s| s.text.as_str()).collect::<String>()).collect()
}

#[test]
fn quick_report_is_one_line_per_package_largest_first() {
    let w = world();
    let args = Args { kernel: false, apps: false, auto: false, quick: true, sizes: false };
    let lines = flat(&report(&w, &args));
    let want: Vec<String> = [
        ("linux-image-6.1", "2.0 MB", "kernel"),
        ("firefox", "512 KB", "you"),
        ("libfoo", "512 KB", "← firefox"),
        ("liborphan", "n/a", "auto"),
    ]
    .iter()
    .map(|(n, s, r)| format!("{:<36}  {:>10}   {}", n, s, r))
    .collect();
    assert_eq!(lines, want);
}

#[test]
fn an_up_to_date_system_says_so() {
    let w = World::from_edges(&[("a", "b")], &["a"]);
    let args = Args { kernel: false, apps: false, auto: false, quick: false, sizes: false };
    let lines = flat(&report(&w, &args));
    assert_eq!(lines, vec!["".to_string(), "  System is fully up to date.".to_string(), "".to_string()]);
}

#[test]
fn the_full_report_has_every_section() {
    let w = world();
    let args = Args { kernel: false, apps: false, auto: false, quick: false, sizes: false };
    let lines = flat(&report(&w, &args));
    assert_eq!(lines[1], "whypkg pending  4 packages to upgrade");
    assert!(lines.iter().any(|l| l.starts_with("  KERNEL, FIRMWARE & SYSTEM LIBS  (1 packages)")));
    assert!(lines.iter().any(|l| l.contains("DISK USAGE")));
    assert_eq!(lines.last().unwrap(), "");
    let only_kernel = Args { kernel: true, apps: false, auto: false, quick: false, sizes: false };
    let k = flat(&report(&w, &only_kernel));
    assert!(!k.iter().any(|l| l.contains("DISK USAGE")));
}

#[test]
fn the_browser_pool_follows_the_flag() {
    let w = world();
    let all = pool(&w, &BrowseArgs { upgradable: false });
    assert_eq!(all, vec!["firefox", "libfoo", "libnss3", "liborphan", "linux-image-6.1"]);
    let up = pool(&w, &BrowseArgs { upgradable: true });
    assert_eq!(up, vec!["firefox", "libfoo", "liborphan", "linux-image-6.1"]);
    assert_eq!(empty_pool_message(&BrowseArgs { upgradable: true }), "Nothing to upgrade - system is up to date.");
    assert_eq!(empty_pool_message(&BrowseArgs { upgradable: false }), "No packages found.");
}
