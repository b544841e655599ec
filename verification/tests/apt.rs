use whypkg::backend::apt::{
    parse_deb_installs, parse_dep_field, parse_dpkg_logs, parse_install_targets, parse_installed_local,
    parse_upgradable, Apt,
};
use whypkg::model::{Origin, Source};

#[test]
fn installed_local_flags() {
    // Real `apt list --installed` shapes: repo pkgs carry a suite, local
    // ones are tagged `[installed,local]`.
    let text = "Listing...\n\
        bash/testing,now 5.3-3 amd64 [installed]\n\
        git-delta/now 0.19.1+ds-2 amd64 [installed,local]\n\
        coreutils/testing,now 9.10-1 amd64 [installed]\n\
        lazygit/now 0.60.0-1+forky amd64 [installed,local]\n";
    let local = parse_installed_local(text);
    assert!(local.contains("git-delta"));
    assert!(local.contains("lazygit"));
    assert!(!local.contains("bash"));
    assert_eq!(local.len(), 2);
}

#[test]
fn install_targets_skip_automatic_and_handle_parens() {
    // Real history `Install:` line: versions contain commas inside parens,
    // and `, automatic` marks pulled-in deps we must skip.
    let line = "lua-luv:amd64 (1.51.0-1-1+b1, automatic), \
        neovim:amd64 (0.12.3-4), neovim-runtime:amd64 (0.12.3-4, automatic), \
        dos2unix:amd64 (7.5.4-1), python3-msgpack:amd64 (1.1.2-4, automatic)";
    let targets = parse_install_targets(line);
    assert_eq!(targets, vec!["neovim".to_string(), "dos2unix".to_string()]);
}

#[test]
fn install_targets_of_an_empty_line() {
    assert!(parse_install_targets("").is_empty());
    assert_eq!(parse_install_targets("tool (1.0)"), vec!["tool".to_string()]);
}

#[test]
fn upgradable_lines_give_name_and_candidate() {
    let text = "Listing...\n\
        bash/testing 5.3-4 amd64 [upgradable from: 5.3-3]\n\
        \n\
        curl/testing 8.14.1-2 amd64 [upgradable from: 8.14.1-1]\n";
    let ups = parse_upgradable(text);
    assert_eq!(
        ups,
        vec![
            ("bash".to_string(), "5.3-4".to_string()),
            ("curl".to_string(), "8.14.1-2".to_string()),
        ]
    );
}

#[test]
fn dep_field_keeps_first_alternative_and_drops_versions_and_arch() {
    let deps = parse_dep_field("libc6 (>= 2.34), default-mta | mail-transport-agent, python3:any,, zlib1g (>= 1:1.2)");
    assert_eq!(
        deps,
        vec![
            "libc6".to_string(),
            "default-mta".to_string(),
            "python3".to_string(),
            "zlib1g".to_string(),
        ]
    );
}

#[test]
fn deb_installs_come_from_entries_whose_command_names_a_deb() {
    let history = "Start-Date: 2026-01-02  10:00:00\n\
        Commandline: apt install ./lazygit_0.60.0_amd64.deb\n\
        Install: lazygit:amd64 (0.60.0-1), libgit:amd64 (1.0, automatic)\n\
        End-Date: 2026-01-02  10:00:05\n\
        \n\
        Start-Date: 2026-01-03  11:00:00\n\
        Commandline: apt install vim\n\
        Install: vim:amd64 (9.1)\n\
        End-Date: 2026-01-03  11:00:02\n"
        .to_string();
    let set = parse_deb_installs(&[history]);
    assert!(set.contains("lazygit"));
    assert!(!set.contains("libgit"));
    assert!(!set.contains("vim"));
    assert_eq!(set.len(), 1);
}

#[test]
fn dpkg_logs_give_sorted_install_events() {
    let a = "2026-06-14 02:57:01 install zsh:amd64 <none> 5.9\n\
        2026-06-14 02:57:02 status installed zsh:amd64 5.9\n\
        garbage\n"
        .to_string();
    let b = "2026-06-13 00:00:00 install bash:amd64 <none> 5.3\n".to_string();
    let events = parse_dpkg_logs(&[a, b]);
    assert_eq!(
        events,
        vec![(1_781_308_800, "bash".to_string()), (1_781_405_821, "zsh".to_string())]
    );
}

#[test]
fn apt_world_from_captured_texts() {
    let manual = "vim\n\n";
    let meta = "vim\t2:9.1-1\t4000\tVi IMproved\n \
        Vim is an almost compatible version of the UNIX editor Vi.\n \
        .\n\
        libgpm2\t1.20-1\t50\tGeneral Purpose Mouse\n";
    let deps = "vim\tlibgpm2 (>= 1.20), vim\t\n\
        libgpm2\t\t\n";
    let upgradable = "Listing...\nvim/testing 2:9.1-2 amd64 [upgradable from: 2:9.1-1]\n";
    let installed = "Listing...\nvim/testing,now 2:9.1-1 amd64 [installed]\n\
        libgpm2/now 1.20-1 amd64 [installed,local]\n";
    let logs = vec!["2026-06-13 00:00:00 install libgpm2:amd64 <none> 1.20-1\n\
        2026-06-13 00:00:05 install vim:amd64 <none> 2:9.1-1\n"
        .to_string()];
    let w = Apt.build_world(manual, meta, deps, Some(upgradable), installed, &[], &logs);

    let vim = w.package("vim").unwrap();
    assert!(vim.manual);
    assert_eq!(vim.version, "2:9.1-1");
    assert_eq!(vim.installed_size, 4000);
    assert_eq!(vim.description, "Vi IMproved");
    assert_eq!(vim.details.as_deref(), Some("Vim is an almost compatible version of the UNIX editor Vi."));
    assert_eq!(vim.candidate.as_deref(), Some("2:9.1-2"));
    assert_eq!(vim.source, Source::System);
    assert_eq!(vim.origin, Origin::Repo);
    assert_eq!(vim.install_epoch, Some(1_781_308_805));
    assert_eq!(vim.install_date.as_deref(), Some("2026-06-13"));

    let gpm = w.package("libgpm2").unwrap();
    assert!(!gpm.manual);
    assert_eq!(gpm.origin, Origin::Orphaned);
    assert!(gpm.candidate.is_none());

    assert_eq!(w.deps_of("vim"), &["libgpm2".to_string()]);
    assert_eq!(w.rdeps_of("libgpm2"), &["vim".to_string()]);
    assert!(w.is_manual("vim"));
    assert!(w.is_upgradable("vim"));
    assert_eq!(w.install_log().len(), 2);
    assert_eq!(Apt.name(), "apt");
}
