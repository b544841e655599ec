use whypkg::model::World;
use whypkg::tui::graph::{graph_side, GraphNav, GraphStep, PER_SIDE};
use whypkg::tui::{App, Key, KeyCode};

#[test]
fn caps_each_side_and_reports_what_it_hid() {
    let needed: Vec<String> = (0..30).map(|i| format!("n{i:02}")).collect();
    let edges: Vec<(&str, &str)> = needed.iter().map(|n| (n.as_str(), "center")).collect();
    let w = World::from_edges(&edges, &["center"]);
    let (shown, hidden) = graph_side(w.rdeps_of("center"));
    assert_eq!(shown.len(), PER_SIDE);
    assert_eq!(hidden, 30 - PER_SIDE);
    assert_eq!(shown[0], "n00");
    assert_eq!(shown[PER_SIDE - 1], "n15");
}

#[test]
fn a_side_shows_each_neighbour_once() {
    let list: Vec<String> = ["b", "a", "b", "c", "a"].iter().map(|s| s.to_string()).collect();
    let (shown, hidden) = graph_side(&list);
    assert_eq!(shown, vec!["b".to_string(), "a".to_string(), "c".to_string()]);
    assert_eq!(hidden, 0);
    let (none, zero) = graph_side(&[]);
    assert!(none.is_empty());
    assert_eq!(zero, 0);
}

#[test]
fn digging_in_and_backing_out_retraces_your_steps() {
    let mut g = GraphNav::new("center".to_string());
    let first_hop = "needs-me-00";

    assert!(g.recenter(first_hop));
    assert_eq!(g.center, first_hop, "Enter re-centres on the node");

    assert_eq!(g.back(), Some("center".to_string()), "Esc unwinds one step");
    assert_eq!(g.center, "center");

    assert_eq!(g.back(), None, "no history left, so the caller closes the graph");
    assert_eq!(g.center, "center");
}

#[test]
fn recentring_on_the_current_centre_is_a_no_op() {
    let mut g = GraphNav::new("center".to_string());
    assert!(!g.recenter("center")); // selection starts on the centre
    assert_eq!(g.center, "center");
    assert!(g.back().is_none(), "should not have pushed a pointless history entry");
}

#[test]
fn a_long_dig_retraces_in_reverse() {
    let mut g = GraphNav::new("a".to_string());
    for n in ["b", "c", "d"] {
        g.recenter(n);
    }
    assert_eq!(g.history, vec!["a".to_string(), "b".to_string(), "c".to_string()]);
    assert_eq!(g.back().as_deref(), Some("c"));
    assert_eq!(g.back().as_deref(), Some("b"));
    assert_eq!(g.back().as_deref(), Some("a"));
    assert_eq!(g.back(), None);
}

fn key(code: KeyCode) -> Key {
    Key { code, ctrl: false }
}

fn ctrl(c: char) -> Key {
    Key { code: KeyCode::Char(c), ctrl: true }
}

fn browser() -> App {
    let w = World::from_edges(&[("app", "lib"), ("lib", "libc")], &["app"]);
    App::new(w, vec!["app".to_string(), "lib".to_string(), "libc".to_string()])
}

#[test]
fn graph_escape_retraces_then_closes() {
    let mut app = browser();
    let mut nav = GraphNav::new("lib".to_string());
    assert_eq!(app.graph_key(&mut nav, "libc", key(KeyCode::Enter)), GraphStep::Recentred);
    assert_eq!(nav.center, "libc");
    assert_eq!(app.graph_key(&mut nav, "libc", key(KeyCode::Esc)), GraphStep::Recentred);
    assert_eq!(nav.center, "lib");
    assert_eq!(app.graph_key(&mut nav, "lib", ctrl('[')), GraphStep::Close);
    assert_eq!(nav.center, "lib");
    assert_eq!(app.stack.len(), 1);
}

#[test]
fn graph_ctrl_g_opens_the_selected_dossier_once() {
    let mut app = browser();
    let mut nav = GraphNav::new("lib".to_string());
    assert_eq!(app.graph_key(&mut nav, "libc", ctrl('g')), GraphStep::Close);
    assert_eq!(app.stack.len(), 2);
    assert_eq!(app.frame().focus.as_deref(), Some("libc"));
    // Already on top: nothing new is pushed.
    assert_eq!(app.graph_key(&mut nav, "libc", ctrl('g')), GraphStep::Close);
    assert_eq!(app.stack.len(), 2);
}

#[test]
fn graph_keys_close_quit_and_move() {
    let mut app = browser();
    let mut nav = GraphNav::new("lib".to_string());
    assert_eq!(app.graph_key(&mut nav, "lib", key(KeyCode::Char('q'))), GraphStep::Close);
    assert_eq!(app.graph_key(&mut nav, "lib", ctrl('c')), GraphStep::Quit);
    assert_eq!(app.graph_key(&mut nav, "lib", key(KeyCode::Enter)), GraphStep::Stay);
    assert!(nav.history.is_empty());
    assert_eq!(app.graph_key(&mut nav, "lib", key(KeyCode::Char('h'))), GraphStep::Left);
    assert_eq!(app.graph_key(&mut nav, "lib", key(KeyCode::Right)), GraphStep::Right);
    assert_eq!(app.graph_key(&mut nav, "lib", key(KeyCode::Char('k'))), GraphStep::Up);
    assert_eq!(app.graph_key(&mut nav, "lib", key(KeyCode::Down)), GraphStep::Down);
    assert_eq!(app.graph_key(&mut nav, "lib", key(KeyCode::Tab)), GraphStep::Stay);
    assert_eq!(app.stack.len(), 1);
}
