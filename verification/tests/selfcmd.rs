use whypkg::commands::selfcmd::{accepts, check_outcome, latest_from_search, newer, run, CheckOutcome, Cmd, SelfStep, UpdateArgs};

/// The check compares field by field, because a plain string compare puts
/// `0.9.9` above `0.10.0` and would tell everyone they are up to date.
#[test]
fn a_newer_release_is_recognised_field_by_field() {
    assert!(newer("0.10.0", "0.9.9"));
    assert!(newer("1.0.0", "0.9.9"));
    assert!(newer("0.4.2", "0.4.1"));
    assert!(!newer("0.4.1", "0.4.1"));
    assert!(!newer("0.4.0", "0.4.1"));
    assert!(!newer("0.9.9", "0.10.0"));
}

#[test]
fn newer_is_a_strict_order_on_examples() {
    let vs = ["0.1.0", "0.1.1", "0.10.0", "1.0", "1.0.0", "1.0.0-rc.1", "2.0.0+build"];
    for a in vs {
        assert!(!newer(a, a));
        for b in vs {
            assert!(!(newer(a, b) && newer(b, a)), "{a} vs {b}");
            for c in vs {
                if newer(a, b) && newer(b, c) {
                    assert!(newer(a, c), "{a} > {b} > {c}");
                }
            }
        }
    }
}

#[test]
fn update_asks_unless_told_yes() {
    assert_eq!(run(Cmd::Update(UpdateArgs { yes: false })), SelfStep::Confirm);
    assert_eq!(run(Cmd::Update(UpdateArgs { yes: true })), SelfStep::Install);
    assert_eq!(run(Cmd::Check), SelfStep::Check);
}

#[test]
fn only_yes_answers_accept() {
    assert!(accepts("y\n"));
    assert!(accepts("  YES "));
    assert!(accepts("Yes"));
    assert!(!accepts(""));
    assert!(!accepts("\n"));
    assert!(!accepts("no"));
    assert!(!accepts("yess"));
}

#[test]
fn search_output_gives_the_latest_release() {
    let out = "whypkg = \"0.5.1\"    # Why is this package here?\n... and 3 crates more\n";
    assert_eq!(latest_from_search(true, out, ""), Ok("0.5.1".to_string()));
    assert_eq!(
        latest_from_search(true, "other = \"1.0\"\n", ""),
        Err("the registry did not list `whypkg`".to_string())
    );
    assert_eq!(latest_from_search(false, out, "  network down \n"), Err("network down".to_string()));
}

#[test]
fn check_outcome_compares_with_the_installed_release() {
    assert!(matches!(check_outcome(Ok("0.5.1".into()), "0.5.0"), CheckOutcome::Available(v) if v == "0.5.1"));
    assert!(matches!(check_outcome(Ok("0.5.0".into()), "0.5.0"), CheckOutcome::Latest));
    assert!(matches!(check_outcome(Ok("0.4.9".into()), "0.5.0"), CheckOutcome::Latest));
    assert!(matches!(check_outcome(Err("boom".into()), "0.5.0"), CheckOutcome::Failed(e) if e == "boom"));
}
