use whypkg::engine::{bfs_root, format_size, is_kernel_pkg, relative_time, same_session};
use whypkg::model::World;

// ── bfs_root: the "why is this here" origin trace ────────────────────────

#[test]
fn traces_an_auto_package_to_the_manual_one_that_pulled_it_in() {
    // firefox (you installed it) -> libnss3 -> libfoo
    let w = World::from_edges(&[("firefox", "libnss3"), ("libnss3", "libfoo")], &["firefox"]);
    let path = bfs_root(&w, "libfoo").expect("libfoo should trace to firefox");
    assert_eq!(path.first().unwrap(), "libfoo");
    assert_eq!(path.last().unwrap(), "firefox");
}

#[test]
fn picks_the_shortest_chain_when_several_manual_roots_exist() {
    // libfoo is needed by libnss3 (-> firefox) and directly by vlc.
    let w = World::from_edges(
        &[("firefox", "libnss3"), ("libnss3", "libfoo"), ("vlc", "libfoo")],
        &["firefox", "vlc"],
    );
    let path = bfs_root(&w, "libfoo").unwrap();
    assert_eq!(path.last().unwrap(), "vlc", "vlc is one hop away");
    assert_eq!(path.len(), 2);
}

#[test]
fn returns_none_for_an_orphan_with_no_manual_ancestor() {
    let w = World::from_edges(&[("liba", "libb")], &[]);
    assert!(bfs_root(&w, "libb").is_none());
}

#[test]
fn survives_dependency_cycles() {
    // Mutually-dependent packages are real (and a naive walk would hang).
    let w = World::from_edges(&[("liba", "libb"), ("libb", "liba")], &[]);
    assert!(bfs_root(&w, "liba").is_none());

    // …and still finds the root when a cycle sits in the middle.
    let w = World::from_edges(&[("app", "liba"), ("liba", "libb"), ("libb", "liba")], &["app"]);
    assert_eq!(bfs_root(&w, "libb").unwrap().last().unwrap(), "app");
}

#[test]
fn a_manual_package_still_traces_out_to_whatever_needs_it() {
    // Being manual doesn't stop the walk at itself: `bfs_root` looks
    // *outward*, so a manual leaf with no dependents has no root.
    let w = World::from_edges(&[("app", "libfoo")], &["app", "libfoo"]);
    assert_eq!(bfs_root(&w, "libfoo").unwrap().last().unwrap(), "app");
    assert!(bfs_root(&w, "app").is_none());
}

#[test]
fn every_hop_of_a_trace_is_a_reverse_dependency() {
    let w = World::from_edges(
        &[("app", "libx"), ("libx", "liby"), ("liby", "libz"), ("other", "libz")],
        &["app"],
    );
    let path = bfs_root(&w, "libz").unwrap();
    assert_eq!(path, vec!["libz".to_string(), "liby".to_string(), "libx".to_string(), "app".to_string()]);
    for pair in path.windows(2) {
        assert!(w.rdeps_of(&pair[0]).iter().any(|r| *r == pair[1]));
    }
}

#[test]
fn an_unknown_package_has_no_root() {
    let w = World::from_edges(&[("app", "lib")], &["app"]);
    assert!(bfs_root(&w, "nowhere").is_none());
}

// ── same_session ─────────────────────────────────────────────────────────

#[test]
fn same_session_is_empty_without_an_install_time() {
    let w = World::from_edges(&[("app", "lib")], &["app"]);
    assert!(same_session(&w, "app").is_empty());
}

#[test]
fn same_session_returns_packages_installed_near_the_anchor() {
    let mut w = World::from_edges(&[("app", "lib")], &["app"]);
    let t: i64 = 1_700_000_000;
    w.set_install_epoch("app", Some(t));
    w.set_install_log(vec![
        (t - 10, "installed-with-it".into()),
        (t, "app".into()),
        (t + 10, "also-with-it".into()),
        (t + 60 * 60 * 24 * 30, "much-later".into()),
    ]);
    let session = same_session(&w, "app");
    assert!(session.contains(&"installed-with-it".to_string()));
    assert!(session.contains(&"also-with-it".to_string()));
    assert!(!session.contains(&"much-later".to_string()));
    assert!(!session.contains(&"app".to_string()), "excludes itself");
}

#[test]
fn same_session_window_edges_sorting_and_duplicates() {
    let mut w = World::from_edges(&[("app", "lib")], &["app"]);
    let t: i64 = 1_000_000;
    let half: i64 = 259_200;
    w.set_install_epoch("app", Some(t));
    w.set_install_log(vec![
        (t - half - 1, "too-early".into()),
        (t - half, "zeta-edge".into()),
        (t, "app".into()),
        (t + 5, "twice".into()),
        (t + 6, "twice".into()),
        (t + half, "alpha-edge".into()),
        (t + half + 1, "too-late".into()),
    ]);
    let session = same_session(&w, "app");
    assert_eq!(
        session,
        vec!["alpha-edge".to_string(), "twice".to_string(), "zeta-edge".to_string()]
    );
}

#[test]
fn same_session_narrows_a_busy_window() {
    let mut w = World::from_edges(&[("app", "lib")], &["app"]);
    let t: i64 = 5_000_000;
    w.set_install_epoch("app", Some(t));
    let mut log: Vec<(i64, String)> = Vec::new();
    // 25 packages two days away, 3 within the hour.
    for i in 0..25 {
        log.push((t - 172_800, format!("far{i:02}")));
    }
    log.push((t - 100, "near-a".into()));
    log.push((t, "app".into()));
    log.push((t + 100, "near-b".into()));
    log.push((t + 200, "near-c".into()));
    w.set_install_log(log);
    let session = same_session(&w, "app");
    assert_eq!(session, vec!["near-a".to_string(), "near-b".to_string(), "near-c".to_string()]);
}

// ── classification helpers ───────────────────────────────────────────────

#[test]
fn kernel_packages_are_recognised() {
    assert!(is_kernel_pkg("linux-image-6.1"));
    assert!(is_kernel_pkg("intel-microcode"));
    assert!(is_kernel_pkg("firmware-realtek"));
    assert!(!is_kernel_pkg("firefox"));
    assert!(!is_kernel_pkg("linuxlogo"), "prefix must be `linux-`");
}

#[test]
fn kernel_names_by_every_rule() {
    assert!(is_kernel_pkg("amd64-microcode"));
    assert!(is_kernel_pkg("initramfs-tools"));
    assert!(is_kernel_pkg("linux-"));
    assert!(!is_kernel_pkg("intel-microcode-extra"));
    assert!(!is_kernel_pkg("firmware"));
}

#[test]
fn sizes_render_in_the_right_unit() {
    assert_eq!(format_size(0), "n/a");
    assert_eq!(format_size(512), "512 KB");
    assert_eq!(format_size(1024), "1.0 MB");
}

#[test]
fn sizes_round_like_one_decimal_formatting() {
    for kb in [1023u64, 1536, 2304, 2355, 1024 * 1024, 1024 * 1024 * 3 / 2, 5_000_000, 123_456_789] {
        let want = if kb < 1024 { format!("{} KB", kb) } else { format!("{:.1} MB", kb as f64 / 1024.0) };
        assert_eq!(format_size(kb), want, "kb = {kb}");
    }
    // 2304 KB is exactly 2.25 MB: a tie, which goes to the even digit.
    assert_eq!(format_size(2304), "2.2 MB");
    assert_eq!(format_size(1024 * 1024), "1024.0 MB");
}

#[test]
fn relative_time_reads_naturally() {
    let now = chrono::Utc::now().timestamp();
    assert_eq!(relative_time(now, now), "today");
    assert_eq!(relative_time(now, now - 86_400), "yesterday");
    assert_eq!(relative_time(now, now - 86_400 * 3), "3 days ago");
    assert_eq!(relative_time(now, now - 86_400 * 14), "2 weeks ago");
    assert_eq!(relative_time(now, now - 86_400 * 60), "2 months ago");
    assert_eq!(relative_time(now, now - 86_400 * 400), "1 year ago");
}

#[test]
fn ages_from_a_fixed_clock() {
    let now: i64 = 1_800_000_000;
    assert_eq!(relative_time(now, now + 500), "in the future");
    assert_eq!(relative_time(now, now - 86_399), "today");
    assert_eq!(relative_time(now, now - 86_400 * 6), "6 days ago");
    assert_eq!(relative_time(now, now - 86_400 * 7), "1 week ago");
    assert_eq!(relative_time(now, now - 86_400 * 30), "1 month ago");
    assert_eq!(relative_time(now, now - 86_400 * 800), "2 years ago");
}

#[test]
fn equally_near_roots_go_to_the_first_reverse_dependency_listed() {
    // lib is needed by b_app first, then by a_app: the walk reads that list
    // in order, so b_app is the root.
    let w = World::from_edges(&[("b_app", "lib"), ("a_app", "lib")], &["a_app", "b_app"]);
    assert_eq!(bfs_root(&w, "lib").unwrap(), vec!["lib".to_string(), "b_app".to_string()]);
    let w = World::from_edges(&[("a_app", "lib"), ("b_app", "lib")], &["a_app", "b_app"]);
    assert_eq!(bfs_root(&w, "lib").unwrap(), vec!["lib".to_string(), "a_app".to_string()]);
    // Two hops either way: the chain goes through the first middle package.
    let w = World::from_edges(
        &[("mid2", "lib"), ("mid1", "lib"), ("app1", "mid1"), ("app2", "mid2")],
        &["app1", "app2"],
    );
    assert_eq!(
        bfs_root(&w, "lib").unwrap(),
        vec!["lib".to_string(), "mid2".to_string(), "app2".to_string()]
    );
}
