use whypkg::backend::flatpak::augment;
use whypkg::model::World;
use whypkg::tui::filter::FilterMode;
use whypkg::tui::render::{plural, truncate};
use whypkg::tui::{App, Frame, Key, KeyCode, Origin, Relation, Step};

fn key(code: KeyCode) -> Key {
    Key { code, ctrl: false }
}

fn ctrl(c: char) -> Key {
    Key { code: KeyCode::Char(c), ctrl: true }
}

fn world() -> World {
    World::from_edges(
        &[("firefox", "libnss3"), ("libnss3", "libfoo"), ("vlc", "libfoo"), ("vlc", "libvlc")],
        &["firefox", "vlc"],
    )
}

fn names(v: &[&str]) -> Vec<String> {
    v.iter().map(|s| s.to_string()).collect()
}

#[test]
fn relation_toggle_flips_and_undoes_itself() {
    assert_eq!(Relation::NeededBy.toggle(), Relation::DependsOn);
    assert_eq!(Relation::DependsOn.toggle(), Relation::NeededBy);
    for r in [Relation::NeededBy, Relation::DependsOn] {
        assert_eq!(r.toggle().toggle(), r);
    }
}

#[test]
fn the_filter_cycles_through_four_buckets() {
    let mut m = FilterMode::All;
    let mut seen = Vec::new();
    for _ in 0..4 {
        seen.push(m.label());
        m = m.next();
    }
    assert_eq!(m, FilterMode::All);
    assert_eq!(seen, vec!["all", "manual [M]", "auto [A]", "flatpak [F]"]);
}

#[test]
fn every_package_is_in_exactly_one_bucket() {
    let mut w = world();
    augment(&mut w, "org.gimp.GIMP\tGIMP\t\t3.2\t1 MB\tflathub\t\n", "", &[]);
    for n in ["firefox", "libfoo", "org.gimp.GIMP", "absent"] {
        let hits = [FilterMode::Manual, FilterMode::Auto, FilterMode::Flatpak]
            .iter()
            .filter(|m| m.matches(&w, n))
            .count();
        assert_eq!(hits, 1, "{n}");
        assert!(FilterMode::All.matches(&w, n));
    }
    assert!(FilterMode::Flatpak.matches(&w, "org.gimp.GIMP"));
    assert!(FilterMode::Manual.matches(&w, "firefox"));
    assert!(FilterMode::Auto.matches(&w, "libfoo"));
}

#[test]
fn enter_opens_a_dossier_and_escape_goes_back() {
    let w = world();
    let mut app = App::new(w, names(&["firefox", "libfoo", "libnss3", "libvlc", "vlc"]));
    let visible = app.filtered();
    assert_eq!(visible.len(), 5);
    assert_eq!(app.handle_key(key(KeyCode::Down), &visible), Step::Stay);
    assert_eq!(app.frame().selected, 1);
    assert_eq!(app.handle_key(key(KeyCode::Enter), &visible), Step::Stay);
    assert_eq!(app.stack.len(), 2);
    {
        let f = app.frame();
        assert_eq!(f.focus.as_deref(), Some("libfoo"));
        assert_eq!(f.needed_by, names(&["libnss3", "vlc"]));
        assert!(f.depends_on.is_empty());
        assert!(matches!(&f.origin, Origin::PulledIn(r) if r == "vlc"));
    }
    let inner = app.filtered();
    assert_eq!(inner, names(&["libnss3", "vlc"]));
    assert_eq!(app.handle_key(key(KeyCode::Right), &inner), Step::Stay);
    assert_eq!(app.relation, Relation::DependsOn);
    assert!(app.filtered().is_empty());
    assert_eq!(app.handle_key(key(KeyCode::Esc), &[]), Step::Stay);
    assert_eq!(app.stack.len(), 1);
    assert_eq!(app.frame().selected, 1);
    assert_eq!(app.handle_key(key(KeyCode::Esc), &visible), Step::Quit);
}

#[test]
fn selection_stays_inside_the_list() {
    let mut app = App::new(world(), names(&["firefox", "vlc"]));
    let visible = app.filtered();
    app.handle_key(key(KeyCode::Up), &visible);
    assert_eq!(app.frame().selected, 0);
    app.handle_key(ctrl('n'), &visible);
    app.handle_key(ctrl('j'), &visible);
    app.handle_key(key(KeyCode::Down), &visible);
    assert_eq!(app.frame().selected, 1);
    app.clamp_selection(0);
    assert_eq!(app.frame().selected, 0);
}

#[test]
fn typing_filters_and_ranks() {
    let mut app = App::new(world(), names(&["firefox", "libfoo", "libnss3", "libvlc", "vlc"]));
    for c in "vlc".chars() {
        app.handle_key(key(KeyCode::Char(c)), &[]);
    }
    assert_eq!(app.frame().query, "vlc");
    let hits = app.filtered();
    assert!(hits.contains(&"vlc".to_string()));
    assert!(hits.contains(&"libvlc".to_string()));
    assert!(!hits.contains(&"firefox".to_string()));
    app.handle_key(key(KeyCode::Backspace), &hits);
    assert_eq!(app.frame().query, "vl");
    assert_eq!(app.frame().selected, 0);
}

#[test]
fn tab_skips_the_flatpak_bucket_without_flatpaks() {
    let mut app = App::new(world(), names(&["firefox", "libfoo"]));
    assert!(!app.has_flatpak());
    app.handle_key(key(KeyCode::Tab), &[]);
    assert_eq!(app.filter, FilterMode::Manual);
    assert_eq!(app.filtered(), names(&["firefox"]));
    app.handle_key(key(KeyCode::Tab), &[]);
    assert_eq!(app.filter, FilterMode::Auto);
    assert_eq!(app.filtered(), names(&["libfoo"]));
    app.handle_key(key(KeyCode::Tab), &[]);
    assert_eq!(app.filter, FilterMode::All);
}

#[test]
fn ctrl_keys_quit_and_ask_for_the_graph() {
    let mut app = App::new(world(), names(&["firefox", "vlc"]));
    let visible = app.filtered();
    assert_eq!(app.handle_key(ctrl('g'), &visible), Step::Graph("firefox".to_string()));
    assert_eq!(app.handle_key(ctrl('g'), &[]), Step::Stay);
    assert_eq!(app.handle_key(ctrl('c'), &visible), Step::Quit);
}

#[test]
fn rows_and_bars_render() {
    let app = App::new(world(), names(&["firefox", "vlc"]));
    let row: String = app.pkg_line("firefox").iter().map(|s| s.text.as_str()).collect();
    assert!(row.starts_with("[M] firefox"));
    let row: String = app.pkg_line("libfoo").iter().map(|s| s.text.as_str()).collect();
    assert!(row.starts_with("[A] libfoo"));
    let status: String = app.status_line().iter().map(|s| s.text.as_str()).collect();
    assert!(status.contains("all"));
    assert!(!app.help_line().is_empty());
    let crumbs: String = app.breadcrumb().iter().map(|s| s.text.as_str()).collect();
    assert!(!crumbs.is_empty());
    let f = app.frame();
    assert!(!app.dossier_lines(f, 0).is_empty() || f.focus.is_none());
}

#[test]
fn truncation_never_splits_a_multibyte_character() {
    assert_eq!(truncate("short", 10), "short");
    assert_eq!(truncate("0123456789", 5), "0123…");
    assert_eq!(truncate("café-utils", 5), "café…");
    assert_eq!(truncate("日本語パッケージ名", 4), "日本語…");
    assert_eq!(truncate("abc", 0), "");
    assert_eq!(truncate("", 0), "");
    assert_eq!(truncate("abc", 1), "…");
    assert_eq!(plural(1, "package"), "package");
    assert_eq!(plural(3, "package"), "packages");
    assert_eq!(plural(0, "package"), "packages");
}

#[test]
fn a_dossier_of_an_unknown_kernel_package() {
    let app = App::new(World::empty(), Vec::new());
    let frame = Frame {
        focus: Some("linux-image-6.1".to_string()),
        pool: Vec::new(),
        needed_by: Vec::new(),
        depends_on: Vec::new(),
        query: String::new(),
        selected: 0,
        alongside: Vec::new(),
        origin: Origin::Untraced,
    };
    let lines: Vec<String> = app
        .dossier_lines(&frame, 0)
        .iter()
        .map(|l| l.iter().map(|s| s.text.as_str()).collect())
        .collect();
    assert_eq!(
        lines,
        vec![
            "  linux-image-6.1",
            "  ",
            "  why here    auto-installed (origin untraced)",
            "  version     unknown",
            "  size        n/a",
            "  installed   unknown",
            "  needed by   nothing - but kernel/firmware, do not remove  ← showing below",
            "  depends on  0 packages",
        ]
    );
}

#[test]
fn a_dossier_shows_install_age_from_the_given_moment() {
    let mut w = World::from_edges(&[("app", "lib")], &["app"]);
    w.set_install_epoch("lib", Some(1_000_000));
    let mut app = App::new(w, names(&["app", "lib"]));
    app.open("lib".to_string());
    let f = app.frame();
    let text: Vec<String> = app
        .dossier_lines(f, 1_000_000 + 86_400 * 3)
        .iter()
        .map(|l| l.iter().map(|s| s.text.as_str()).collect())
        .collect();
    assert!(text.iter().any(|l| l.starts_with("  why here    pulled in by app")), "{text:?}");
    assert!(text.iter().any(|l| l.starts_with("  needed by   1 package")), "{text:?}");
}
