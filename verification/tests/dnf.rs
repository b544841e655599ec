use whypkg::backend::dnf::{apply_upgradable, build, Dnf};

const META: &str = "bash\t5.3.0-1.fc44\t8650752\t1781308800\tThe GNU Bourne Again shell\n\
glibc\t2.43-1.fc44\t6291456\t1781308700\tThe GNU libc libraries\n\
vim-minimal\t9.1-1.fc44\t1048576\t0\tA minimal version of the VIM editor\n\
broken line\n";
const PROVIDES: &str = "bash\tbash bash(x86-64) config(bash) \n\
glibc\tglibc libc.so.6()(64bit) libc.so.6(GLIBC_2.34)(64bit) \n\
vim-minimal\tvi vim-minimal \n";
const REQUIRES: &str = "bash\tlibc.so.6(GLIBC_2.34)(64bit) rpmlib(CompressedFileNames) /usr/bin/sh libc.so.6()(64bit) \n\
glibc\tglibc rtld(GNU_HASH) \n\
vim-minimal\tlibc.so.6()(64bit) nothing-provides-this \n";
const FILES: &str = "bash\t/usr/bin/bash /usr/bin/sh \n\
glibc\t/usr/lib64/libc.so.6 \n";
const USERINSTALLED: &str = "vim-minimal\n  \nbash\n";

#[test]
fn dnf_parses_all_packages() {
    let w = build(META, PROVIDES, REQUIRES, FILES, USERINSTALLED);
    assert_eq!(w.packages().len(), 3);
    assert!(w.package("bash").is_some());
    assert!(w.package("glibc").is_some());
    assert_eq!(Dnf.name(), "dnf");
}

#[test]
fn meta_size_and_installtime() {
    let w = build(META, PROVIDES, REQUIRES, FILES, USERINSTALLED);
    let bash = w.package("bash").unwrap();
    assert_eq!(bash.installed_size, 8448); // SIZE bytes → KB
    assert_eq!(bash.install_epoch, Some(1_781_308_800));
    assert_eq!(bash.install_date.as_deref(), Some("2026-06-13"));
    assert_eq!(bash.description, "The GNU Bourne Again shell");
    let vim = w.package("vim-minimal").unwrap();
    assert!(vim.install_epoch.is_none());
    assert!(vim.install_date.is_none());
}

#[test]
fn resolves_capability_deps_to_packages() {
    let w = build(META, PROVIDES, REQUIRES, FILES, USERINSTALLED);
    assert_eq!(w.deps_of("bash"), &["glibc".to_string()]);
    assert!(w.rdeps_of("glibc").iter().any(|r| r == "bash"));
    assert!(w.rdeps_of("glibc").iter().any(|r| r == "vim-minimal"));
    // A package that provides what it requires gets no edge to itself.
    assert!(w.deps_of("glibc").is_empty());
}

#[test]
fn manual_set_from_userinstalled() {
    let w = build(META, PROVIDES, REQUIRES, FILES, USERINSTALLED);
    assert!(w.is_manual("vim-minimal"));
    assert!(w.is_manual("bash"));
    assert!(!w.is_manual("glibc"));
}

#[test]
fn install_log_sorted_and_populated() {
    let w = build(META, PROVIDES, REQUIRES, FILES, USERINSTALLED);
    assert_eq!(
        w.install_log(),
        &[(1_781_308_700, "glibc".to_string()), (1_781_308_800, "bash".to_string())]
    );
}

#[test]
fn dnf_upgradable_parsing() {
    let mut w = build(META, PROVIDES, REQUIRES, FILES, USERINSTALLED);
    apply_upgradable(&mut w, "bash\t5.3.0-2.fc44\n");
    assert_eq!(w.package("bash").unwrap().candidate.as_deref(), Some("5.3.0-2.fc44"));
    assert!(w.is_upgradable("bash"));
    assert!(!w.is_upgradable("glibc"));
}
