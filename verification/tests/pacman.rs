use whypkg::backend::pacman::{apply_upgradable, parse_log, parse_qi, parse_size_kb, Pacman};

const QI: &str = "Name            : vim\n\
Version         : 9.2.0653-1\n\
Description     : Vi Improved, a highly configurable, improved version of the vi text editor\n\
Architecture    : x86_64\n\
Depends On      : vim-runtime=9.2.0653-1  gpm  acl  glibc>=2.40  libgcrypt  zlib\n\
Optional Deps   : python: Python language support\n\
                  ruby: Ruby language support\n\
Required By     : None\n\
Installed Size  : 5.37 MiB\n\
Install Date    : Tue Jun 16 17:33:00 2026\n\
Install Reason  : Explicitly installed\n\
\n\
Name            : glibc\n\
Version         : 2.43+r5-1\n\
Description     : GNU C Library\n\
Depends On      : linux-api-headers>=4.10  tzdata  filesystem\n\
Required By     : vim  bash\n\
Installed Size  : 48.10 MiB\n\
Install Date    : Sun Jun 14 00:03:53 2026\n\
Install Reason  : Installed as a dependency for another package\n\
\n";

#[test]
fn pacman_parses_all_packages() {
    let w = parse_qi(QI);
    assert_eq!(w.packages().len(), 2);
    assert!(w.package("vim").is_some());
    assert!(w.package("glibc").is_some());
}

#[test]
fn manual_vs_auto_from_install_reason() {
    let w = parse_qi(QI);
    assert!(w.is_manual("vim"), "vim was explicitly installed");
    assert!(!w.is_manual("glibc"), "glibc is a dependency");
}

#[test]
fn graph_uses_native_depends_and_required_by() {
    let w = parse_qi(QI);
    assert!(w.deps_of("vim").iter().any(|d| d == "glibc"));
    assert!(w.deps_of("vim").iter().any(|d| d == "vim-runtime"));
    assert!(w.rdeps_of("glibc").iter().any(|r| r == "vim"));
    assert!(w.rdeps_of("vim").is_empty());
}

#[test]
fn parses_size_and_date() {
    let w = parse_qi(QI);
    let vim = w.package("vim").unwrap();
    assert_eq!(vim.installed_size, 5498); // 5.37 MiB → KB
    assert_eq!(vim.version, "9.2.0653-1");
    assert_eq!(vim.install_epoch, Some(1_781_631_180));
    assert_eq!(vim.install_date.as_deref(), Some("2026-06-16"));
}

#[test]
fn pacman_upgradable_parsing() {
    let mut world = parse_qi(QI);
    apply_upgradable(&mut world, "vim 9.2.0653-1 -> 9.2.0700-1\nnope 1 -> 2\nglibc\n");
    assert_eq!(world.package("vim").unwrap().candidate.as_deref(), Some("9.2.0700-1"));
    assert!(world.package("glibc").unwrap().candidate.is_none());
    assert!(world.package("nope").is_none());
}

#[test]
fn parses_install_log() {
    let log = "[2026-06-14T00:03:53+0000] [ALPM] installed glibc (2.43+r5-1)\n\
               [2026-06-14T00:03:50+0000] [ALPM] installed tzdata (2026a-1)\n\
               [2026-06-14T00:03:54+0000] [ALPM] upgraded bash (5.2-1 -> 5.3-1)\n\
               [2026-06-14T02:03:53+0200] [ALPM] installed zlib (1.3-1)\n";
    let events = parse_log(log);
    assert_eq!(
        events,
        vec![
            (1_781_395_430, "tzdata".to_string()),
            (1_781_395_433, "glibc".to_string()),
            (1_781_395_433, "zlib".to_string()),
        ]
    );
}

#[test]
fn pacman_size_units() {
    assert_eq!(parse_size_kb("512.00 KiB"), 512);
    assert_eq!(parse_size_kb("2.00 MiB"), 2048);
    assert_eq!(parse_size_kb("1.00 GiB"), 1024 * 1024);
}

#[test]
fn pacman_sizes_in_bytes_truncate() {
    assert_eq!(parse_size_kb("2047.00 B"), 1);
    assert_eq!(parse_size_kb("0.00 B"), 0);
    assert_eq!(Pacman.name(), "pacman");
}

#[test]
fn pacman_sizes_in_exponent_form() {
    assert_eq!(parse_size_kb("1.25e1 MiB"), 12800);
    assert_eq!(parse_size_kb("infinity GiB"), u64::MAX);
    assert_eq!(parse_size_kb("-1e3 KiB"), 0);
    assert_eq!(parse_size_kb("5e-1 B"), 0);
}
