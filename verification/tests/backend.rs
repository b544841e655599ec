use std::io::Write;

use flate2::write::GzEncoder;
use flate2::Compression;
use whypkg::backend::detect::{detection_order, BackendKind};
use whypkg::backend::{decode_log, epoch_to_date};

#[test]
fn plain_logs_are_read_as_text() {
    assert_eq!(decode_log("dpkg.log", b"2026-06-13 install a\n"), Some("2026-06-13 install a\n".to_string()));
    assert_eq!(decode_log("dpkg.log.1", b"ok \xff end"), Some("ok \u{fffd} end".to_string()));
}

#[test]
fn gzipped_logs_are_inflated() {
    let mut enc = GzEncoder::new(Vec::new(), Compression::default());
    enc.write_all("Install: vim:amd64 (9.1)\n".as_bytes()).unwrap();
    let bytes = enc.finish().unwrap();
    assert_eq!(decode_log("history.log.2.gz", &bytes), Some("Install: vim:amd64 (9.1)\n".to_string()));
    assert_eq!(decode_log("history.log.3.gz", b"not gzip at all"), None);
    // Only the extension decides: the same bytes under a plain name stay as they are.
    assert_ne!(decode_log("history.log", &bytes), Some("Install: vim:amd64 (9.1)\n".to_string()));
}

#[test]
fn epochs_render_as_utc_days() {
    assert_eq!(epoch_to_date(0), "1970-01-01");
    assert_eq!(epoch_to_date(1_781_308_799), "2026-06-12");
    assert_eq!(epoch_to_date(1_781_308_800), "2026-06-13");
    assert_eq!(epoch_to_date(-86_400), "1969-12-31");
    assert_eq!(epoch_to_date(i64::MAX), "unknown");
}

#[test]
fn package_managers_are_probed_most_common_first() {
    assert_eq!(
        detection_order(),
        vec![
            ("dpkg-query", BackendKind::Apt),
            ("apt", BackendKind::Apt),
            ("dnf", BackendKind::Dnf),
            ("rpm", BackendKind::Dnf),
            ("pacman", BackendKind::Pacman),
        ]
    );
}

/// The calendar arithmetic the library states for days of years 0 to 9999,
/// written out here to hold chrono's text against it.
fn civil(epoch: i64) -> (i64, i64, i64) {
    let z = epoch.div_euclid(86_400) + 719_468;
    let era = z.div_euclid(146_097);
    let doe = z - era * 146_097;
    let yoe = (doe - doe / 1460 + doe / 36_524 - doe / 146_096) / 365;
    let doy = doe - (365 * yoe + yoe / 4 - yoe / 100);
    let mp = (5 * doy + 2) / 153;
    let d = doy - (153 * mp + 2) / 5 + 1;
    let m = if mp < 10 { mp + 3 } else { mp - 9 };
    let y = yoe + era * 400 + if m <= 2 { 1 } else { 0 };
    (y, m, d)
}

#[test]
fn days_follow_the_calendar_arithmetic() {
    let first = -62_167_219_200i64; // 0000-01-01
    let last = 253_402_300_799i64; // 9999-12-31 23:59:59
    let mut e = first;
    while e <= last {
        let (y, m, d) = civil(e);
        assert_eq!(epoch_to_date(e), format!("{y:04}-{m:02}-{d:02}"), "epoch {e}");
        e += 86_400 * 37 + 3_601;
    }
    for e in [first, first - 1, last, last + 1, 0, -1, 951_782_400, 951_868_800, 4_107_542_400] {
        let (y, m, d) = civil(e);
        if (0..=9999).contains(&y) {
            assert_eq!(epoch_to_date(e), format!("{y:04}-{m:02}-{d:02}"), "epoch {e}");
        }
    }
    assert_eq!(epoch_to_date(first - 1), "-0001-12-31");
    assert_eq!(epoch_to_date(last + 1), "+10000-01-01");
}
