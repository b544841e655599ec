use whypkg::backend::flatpak::{augment, describe, parse_apps, parse_runtimes, parse_size_kb, runtime_key};
use whypkg::model::{Origin, Source, World};

#[test]
fn parses_apps_with_friendly_names_and_runtime_edge() {
    let text = "im.riot.Riot\tElement\tSecure messenger\t1.12.24\t544.4 MB\tflathub\torg.freedesktop.Platform/x86_64/25.08\n\
                org.gimp.GIMP\tGNU Image Manipulation Program\t\t3.2.4\t268.3 MB\tflathub\torg.gnome.Platform/x86_64/50\n";
    let (apps, edges) = parse_apps(text);
    assert_eq!(apps.len(), 2);

    let riot = &apps[0];
    assert_eq!(riot.name, "im.riot.Riot"); // keyed by app ID
    assert!(riot.description.starts_with("Element")); // friendly name first
    assert!(riot.manual);
    assert_eq!(riot.source, Source::Flatpak);
    assert_eq!(riot.remote.as_deref(), Some("flathub"));
    assert!(riot.installed_size > 0);

    // Edge points at the normalised runtime key (arch dropped).
    assert!(edges.contains(&("im.riot.Riot".to_string(), "org.freedesktop.Platform/25.08".to_string())));
}

#[test]
fn app_columns_in_detail() {
    let text = "im.riot.Riot\tElement\tSecure messenger\t1.12.24\t544.4 MB\tflathub\torg.freedesktop.Platform/x86_64/25.08\n\
                \n\
                org.gimp.GIMP\tGNU Image Manipulation Program\t\t3.2.4\t268.3 MB\t\t\n";
    let (apps, edges) = parse_apps(text);
    assert_eq!(apps.len(), 2);
    assert_eq!(apps[0].description, "Element - Secure messenger");
    assert_eq!(apps[0].version, "1.12.24");
    assert_eq!(apps[0].installed_size, 557_465);
    assert_eq!(apps[0].origin, Origin::Repo);
    assert_eq!(apps[1].description, "GNU Image Manipulation Program");
    assert!(apps[1].remote.is_none());
    assert_eq!(edges.len(), 1);
}

#[test]
fn runtime_ref_normalises_to_id_branch() {
    assert_eq!(runtime_key("org.freedesktop.Platform/x86_64/25.08"), "org.freedesktop.Platform/25.08");
    assert_eq!(runtime_key("runtime/org.gnome.Platform/x86_64/50"), "org.gnome.Platform/50");
}

#[test]
fn a_runtime_key_is_its_own_key() {
    for r in ["org.freedesktop.Platform/x86_64/25.08", "runtime/org.gnome.Platform/x86_64/50", "short/one", "plain"] {
        let k = runtime_key(r);
        assert_eq!(runtime_key(&k), k);
    }
    assert_eq!(runtime_key("short/one"), "short/one");
}

#[test]
fn runtimes_parse_as_non_manual() {
    let text = "org.freedesktop.Platform/x86_64/25.08\tFreedesktop Platform\t25.08\t900.0 MB\tflathub\n";
    let rts = parse_runtimes(text);
    assert_eq!(rts.len(), 1);
    assert_eq!(rts[0].name, "org.freedesktop.Platform/25.08");
    assert!(!rts[0].manual);
    assert_eq!(rts[0].source, Source::Flatpak);
}

#[test]
fn runtime_descriptions_say_what_they_are() {
    let rts = parse_runtimes("org.gnome.Platform/x86_64/50\t\t50\t1.0 GB\tflathub\n");
    assert_eq!(rts[0].description, "shared flatpak runtime");
    assert_eq!(rts[0].installed_size, 1024 * 1024);
    assert_eq!(describe("Name", ""), "Name");
    assert_eq!(describe("", ""), "");
    assert_eq!(describe("Name", "blurb"), "Name - blurb");
}

#[test]
fn flatpak_size_units() {
    assert_eq!(parse_size_kb("2.0 MB"), 2048);
    assert_eq!(parse_size_kb("1.0 GB"), 1024 * 1024);
    assert_eq!(parse_size_kb("512 KiB"), 512);
}

#[test]
fn flatpak_sizes_with_odd_input() {
    assert_eq!(parse_size_kb("2048 bytes"), 2);
    assert_eq!(parse_size_kb("1.5\u{a0}MB"), 1536);
    assert_eq!(parse_size_kb("7 furlongs"), 7);
    assert_eq!(parse_size_kb("lots"), 0);
    assert_eq!(parse_size_kb(""), 0);
}

#[test]
fn augment_layers_apps_and_runtimes_onto_the_world() {
    let mut w = World::from_edges(&[("bash", "libc6")], &["bash"]);
    let apps = "im.riot.Riot\tElement\tSecure messenger\t1.12.24\t544.4 MB\tflathub\torg.freedesktop.Platform/x86_64/25.08\n\
                org.gimp.GIMP\tGIMP\t\t3.2.4\t268.3 MB\tflathub\torg.gnome.Platform/x86_64/50\n";
    let runtimes = "org.freedesktop.Platform/x86_64/25.08\tFreedesktop Platform\t25.08\t900.0 MB\tflathub\n";
    let deploys = vec![("im.riot.Riot".to_string(), 1_781_308_800i64)];
    augment(&mut w, apps, runtimes, &deploys);

    assert!(w.is_manual("im.riot.Riot"));
    assert!(w.is_manual("org.gimp.GIMP"));
    assert!(!w.is_manual("org.freedesktop.Platform/25.08"));
    assert!(w.is_manual("bash"));
    assert!(w.has_flatpak());

    let riot = w.package("im.riot.Riot").unwrap();
    assert_eq!(riot.install_epoch, Some(1_781_308_800));
    assert_eq!(riot.install_date.as_deref(), Some("2026-06-13"));
    assert!(w.package("org.gimp.GIMP").unwrap().install_epoch.is_none());

    // Only the runtime that is installed gets an edge.
    assert_eq!(w.deps_of("im.riot.Riot"), &["org.freedesktop.Platform/25.08".to_string()]);
    assert_eq!(w.rdeps_of("org.freedesktop.Platform/25.08"), &["im.riot.Riot".to_string()]);
    assert!(w.deps_of("org.gimp.GIMP").is_empty());
    assert_eq!(w.deps_of("bash"), &["libc6".to_string()]);
}

#[test]
fn flatpak_sizes_in_every_float_form() {
    let cases: [(&str, f64); 11] = [
        ("1e5 KiB", 1.0),
        ("1.5e3 MB", 1024.0),
        ("2.5E-1 MiB", 1024.0),
        ("+3e0 GB", 1048576.0),
        ("inf MB", 1024.0),
        ("-inf MB", 1024.0),
        ("NaN KiB", 1.0),
        ("Infinity B", 1.0 / 1024.0),
        ("1e400 KiB", 1.0),
        ("1e-400 GiB", 1.0),
        ("0e99999999999999999999 KiB", 1.0),
    ];
    for (text, mult) in cases {
        let amount: f64 = text.split_whitespace().next().unwrap().parse().unwrap();
        assert_eq!(parse_size_kb(text), (amount * mult) as u64, "{text}");
    }
    assert_eq!(parse_size_kb("1e5 KiB"), 100_000);
    assert_eq!(parse_size_kb("inf MB"), u64::MAX);
    assert_eq!(parse_size_kb("1e MB"), 0);
    assert_eq!(parse_size_kb("e5 MB"), 0);
}
