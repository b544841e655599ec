//! The Flatpak overlay.
//!
//! Flatpak coexists with the system package manager, so it is no backend of
//! its own: its apps and runtimes are layered onto whatever world the system
//! backend built, each tagged [`Source::Flatpak`]. Apps are keyed by their
//! ID (`im.riot.Riot`) with the friendly name leading the description, and
//! each app gets a dependency edge to its runtime, so a shared runtime shows
//! what needs it.

use vstd::prelude::*;
use vstd::string::*;
use crate::text::{
    lines, split_on, starts_with, trim, words, views, sviews, chars_of, string_of, split_pieces,
    split_lines, split_words, trim_chars, same_text, match_at, slice_vec, first_match, lemma_first_match_char,
    lemma_split_char_pieces, lemma_split_char_two,
};
use crate::model::{World, Package, PackageView, Source, Origin, opt_view, list_of, starts_list};
use crate::backend::{scaled_amount, scale_amount, utc_day, utc_day_of};

verus! {

// ───────────────────────────── sizes ─────────────────────────────

/// KB per unit of a flatpak size, as `(mul, div)`.
pub open spec fn flatpak_unit(u: Seq<char>) -> (nat, nat) {
    if u == "B"@ || u == "bytes"@ {
        (1, 1024)
    } else if u == "kB"@ || u == "KB"@ || u == "KiB"@ {
        (1, 1)
    } else if u == "MB"@ || u == "MiB"@ {
        (1024, 1)
    } else if u == "GB"@ || u == "GiB"@ {
        (1048576, 1)
    } else {
        (1, 1)
    }
}

/// A flatpak size such as "544.4 MB", in whole KB (1024-based).
pub open spec fn flatpak_size(v: Seq<char>) -> nat {
    let ws = words(v);
    let amount = if ws.len() > 0 { ws[0] } else { Seq::empty() };
    let unit = if ws.len() > 1 { ws[1] } else { Seq::empty() };
    scaled_amount(amount, flatpak_unit(unit).0, flatpak_unit(unit).1)
}

fn size_of_chars(v: &[char]) -> (r: u64)
    ensures
        r == flatpak_size(v@),
{
    let ws = split_words(v);
    let amount: Vec<char> = if ws.len() > 0 { ws[0].clone() } else { Vec::new() };
    let unit: Vec<char> = if ws.len() > 1 { ws[1].clone() } else { Vec::new() };
    proof {
        if ws.len() > 0 {
            assert(amount@ == views(ws@)[0]);
        }
        if ws.len() > 1 {
            assert(unit@ == views(ws@)[1]);
        }
    }
    let (mul, div): (u64, u64) = if same_text(&unit, "B") || same_text(&unit, "bytes") {
        (1, 1024)
    } else if same_text(&unit, "kB") || same_text(&unit, "KB") || same_text(&unit, "KiB") {
        (1, 1)
    } else if same_text(&unit, "MB") || same_text(&unit, "MiB") {
        (1024, 1)
    } else if same_text(&unit, "GB") || same_text(&unit, "GiB") {
        (1048576, 1)
    } else {
        (1, 1)
    };
    scale_amount(&amount, mul, div)
}

/// Parse a flatpak human size like "544.4 MB" into KB (1024-based). Flatpak
/// puts a non-breaking space between number and unit, which counts as
/// whitespace here too.
pub fn parse_size_kb(value: &str) -> (r: u64)
    ensures
        r == flatpak_size(value@),
{
    size_of_chars(&chars_of(value))
}

// ───────────────────────────── descriptions and keys ─────────────────────────────

/// The friendly name, then the blurb, joined by " - " when both are there.
pub open spec fn description_of(friendly: Seq<char>, blurb: Seq<char>) -> Seq<char> {
    if friendly.len() > 0 && blurb.len() > 0 {
        friendly + " - "@ + blurb
    } else if friendly.len() > 0 {
        friendly
    } else {
        blurb
    }
}

/// Lead a description with the friendly name, then a blurb.
pub fn describe(friendly: &str, blurb: &str) -> (s: String)
    ensures
        s@ == description_of(friendly@, blurb@),
{
    let fe = friendly.is_empty();
    let be = blurb.is_empty();
    if !fe && !be {
        let mut s = String::from_str(friendly);
        s.append(" - ");
        s.append(blurb);
        s
    } else if !fe {
        String::from_str(friendly)
    } else {
        String::from_str(blurb)
    }
}

/// `s` without every leading copy of the non-empty `p`, as
/// `trim_start_matches(p)` leaves it.
pub open spec fn strip_all(s: Seq<char>, p: Seq<char>) -> Seq<char>
    decreases s.len(),
{
    if p.len() > 0 && starts_with(s, p) {
        strip_all(s.skip(p.len() as int), p)
    } else {
        s
    }
}

/// A flatpak ref or runtime column as a short `id/branch` key, the
/// architecture dropped: `org.freedesktop.Platform/x86_64/25.08` becomes
/// `org.freedesktop.Platform/25.08`. Text with fewer than three parts is
/// kept as it is.
pub open spec fn runtime_key_of(s: Seq<char>) -> Seq<char> {
    let parts = split_on(strip_all(s, "runtime/"@), "/"@);
    if parts.len() >= 3 {
        parts[0] + "/"@ + parts[2]
    } else {
        s
    }
}

/// What `strip_all` leaves no longer begins with `p`.
proof fn lemma_strip_all_done(s: Seq<char>, p: Seq<char>)
    requires
        p.len() > 0,
    ensures
        !starts_with(strip_all(s, p), p),
    decreases s.len(),
{
    if starts_with(s, p) {
        lemma_strip_all_done(s.skip(p.len() as int), p);
    }
}

/// A runtime key is its own key: normalising a key again gives it back, so
/// the keys that apps' edges point at and the names of runtimes stay put.
pub proof fn lemma_runtime_key_idempotent(s: Seq<char>)
    ensures
        runtime_key_of(runtime_key_of(s)) == runtime_key_of(s),
{
    reveal_strlit("runtime/");
    reveal_strlit("/");
    let pre = "runtime/"@;
    let slash = "/"@;
    assert(pre.len() == 8);
    assert(slash.len() == 1);
    assert(slash =~= seq!['/']);
    let t = strip_all(s, pre);
    let parts = split_on(t, slash);
    if parts.len() >= 3 {
        let a = parts[0];
        let b = parts[2];
        let key = a + slash + b;
        lemma_split_char_pieces(t, '/');
        assert forall|j: int| 0 <= j < a.len() implies a[j] != '/' by {
            assert(parts[0][j] != '/');
        }
        assert forall|j: int| 0 <= j < b.len() implies b[j] != '/' by {
            assert(parts[2][j] != '/');
        }
        lemma_split_char_two(a, b, '/');
        lemma_strip_all_done(s, pre);
        lemma_first_match_char(t, '/');
        let n = a.len() as int;
        match first_match(t, slash) {
            Some(i) => {
                assert(parts == seq![t.take(i)] + split_on(t.skip(i + 1), slash));
                assert(a == t.take(i));
                assert(t[n] == '/');
            },
            None => {
                assert(parts == seq![t]);
            },
        }
        assert(key[n] == '/');
        if starts_with(key, pre) {
            assert(key.subrange(0, 8) == pre);
            if n < 7 {
                assert(key.subrange(0, 8)[n] == key[n]);
                assert(pre[n] != '/');
            } else if n > 7 {
                assert(key.subrange(0, 8)[7] == key[7]);
                assert(key[7] == a[7]);
                assert(pre[7] == '/');
            } else {
                assert(t.subrange(0, 8) =~= key.subrange(0, 8)) by {
                    assert forall|j: int| 0 <= j < 8 implies t.subrange(0, 8)[j] == key.subrange(0, 8)[j] by {
                        if j < 7 {
                            assert(key[j] == a[j]);
                            assert(a[j] == t[j]);
                        }
                    }
                }
                assert(starts_with(t, pre));
            }
        }
        assert(strip_all(key, pre) == key);
        assert(split_on(key, slash) == seq![a, b]);
    }
}

/// Normalise a flatpak ref/runtime string to a short `id/branch` key,
/// dropping the architecture. An app's `runtime` column and a runtime's
/// `ref` normalise the same way, so edges resolve.
pub fn runtime_key(s: &str) -> (r: String)
    ensures
        r@ == runtime_key_of(s@),
{
    let c = chars_of(s);
    let p = chars_of("runtime/");
    let slash = chars_of("/");
    proof {
        reveal_strlit("runtime/");
        reveal_strlit("/");
        assert(p@.len() == 8);
        assert(slash@.len() == 1);
    }
    let mut i: usize = 0;
    proof {
        assert(c@.skip(0) == c@);
    }
    while match_at(&c, &p, i)
        invariant
            i <= c.len(),
            p@ == "runtime/"@,
            p@.len() == 8,
            strip_all(c@, p@) == strip_all(c@.skip(i as int), p@),
        decreases c.len() - i,
    {
        proof {
            assert(starts_with(c@.skip(i as int), p@)) by {
                assert(c@.skip(i as int).subrange(0, 8) == c@.subrange(i as int, i + 8));
            }
            assert(c@.skip(i as int).skip(8) == c@.skip(i + 8));
        }
        i = i + 8;
    }
    proof {
        assert(!starts_with(c@.skip(i as int), p@)) by {
            if starts_with(c@.skip(i as int), p@) {
                assert(c@.skip(i as int).subrange(0, 8) == c@.subrange(i as int, i + 8));
            }
        }
    }
    let t = slice_vec(&c, i, c.len());
    let parts = split_pieces(&t, &slash);
    if parts.len() >= 3 {
        proof {
            assert(views(parts@)[0] == parts@[0]@);
            assert(views(parts@)[2] == parts@[2]@);
        }
        let mut r = string_of(&parts[0]);
        r.append("/");
        r.append(string_of(&parts[2]).as_str());
        r
    } else {
        String::from_str(s)
    }
}

// ───────────────────────────── `flatpak list` ─────────────────────────────

/// Column `i` of a tab-separated row, trimmed; empty past the last column.
pub open spec fn column(f: Seq<Seq<char>>, i: int) -> Seq<char> {
    if 0 <= i < f.len() {
        trim(f[i])
    } else {
        Seq::empty()
    }
}

/// A remote column: `None` when empty.
pub open spec fn remote_of(r: Seq<char>) -> Option<Seq<char>> {
    if r.len() > 0 {
        Some(r)
    } else {
        None
    }
}

/// The size column `i`, in KB; `0` past the last column.
pub open spec fn size_column(f: Seq<Seq<char>>, i: int) -> u64 {
    if 0 <= i < f.len() {
        flatpak_size(trim(f[i])) as u64
    } else {
        0
    }
}

/// The app a `flatpak list --app` row describes (columns: application,
/// name, description, version, size, origin, runtime); `None` for a row
/// without an application ID.
pub open spec fn app_row(line: Seq<char>) -> Option<PackageView> {
    let f = split_on(line, "\t"@);
    if column(f, 0).len() == 0 {
        None
    } else {
        Some(
            PackageView {
                name: column(f, 0),
                version: column(f, 3),
                candidate: None,
                installed_size: size_column(f, 4),
                description: description_of(column(f, 1), column(f, 2)),
                details: None,
                manual: true,
                source: Source::Flatpak,
                remote: remote_of(column(f, 5)),
                origin: Origin::Repo,
                install_epoch: None,
                install_date: None,
            },
        )
    }
}

/// The apps of `flatpak list --app` rows, in order.
pub open spec fn app_rows(ls: Seq<Seq<char>>) -> Seq<PackageView>
    decreases ls.len(),
{
    if ls.len() == 0 {
        Seq::empty()
    } else {
        match app_row(ls.last()) {
            Some(p) => app_rows(ls.drop_last()).push(p),
            None => app_rows(ls.drop_last()),
        }
    }
}

/// The `(app, runtime key)` edges of `flatpak list --app` rows, in order.
pub open spec fn app_edges(ls: Seq<Seq<char>>) -> Seq<(Seq<char>, Seq<char>)>
    decreases ls.len(),
{
    if ls.len() == 0 {
        Seq::empty()
    } else {
        let f = split_on(ls.last(), "\t"@);
        let r = app_edges(ls.drop_last());
        if column(f, 0).len() > 0 && column(f, 6).len() > 0 {
            r.push((column(f, 0), runtime_key_of(column(f, 6))))
        } else {
            r
        }
    }
}

/// Column `i` of the split row `f`, trimmed.
fn column_at(f: &Vec<Vec<char>>, i: usize) -> (r: Vec<char>)
    ensures
        r@ == column(views(f@), i as int),
{
    if i < f.len() {
        proof {
            assert(views(f@)[i as int] == f@[i as int]@);
        }
        trim_chars(&f[i])
    } else {
        Vec::new()
    }
}

/// The size column `i` of the split row `f`.
fn size_at(f: &Vec<Vec<char>>, i: usize) -> (r: u64)
    ensures
        r == size_column(views(f@), i as int),
{
    if i < f.len() {
        proof {
            assert(views(f@)[i as int] == f@[i as int]@);
        }
        size_of_chars(&trim_chars(&f[i]))
    } else {
        0
    }
}

/// The views of packages.
pub open spec fn pkg_views(v: Seq<Package>) -> Seq<PackageView> {
    v.map_values(|p: Package| p@)
}

/// The views of `(app, runtime)` pairs.
pub open spec fn edge_views(v: Seq<(String, String)>) -> Seq<(Seq<char>, Seq<char>)> {
    v.map_values(|e: (String, String)| (e.0@, e.1@))
}

/// An optional text, `None` when empty.
fn remote_text(r: Vec<char>) -> (o: Option<String>)
    ensures
        opt_view(o) == remote_of(r@),
{
    if r.len() > 0 {
        Some(string_of(&r))
    } else {
        None
    }
}

/// Parse `flatpak list --app` (columns: application, name, description,
/// version, size, origin, runtime) into packages plus `(app, runtime_key)`
/// edges.
pub fn parse_apps(text: &str) -> (r: (Vec<Package>, Vec<(String, String)>))
    ensures
        pkg_views(r.0@) == app_rows(lines(text@)),
        edge_views(r.1@) == app_edges(lines(text@)),
{
    let ls = split_lines(&chars_of(text));
    let tab = chars_of("\t");
    proof {
        reveal_strlit("\t");
        assert(tab@.len() == 1);
    }
    let mut pkgs: Vec<Package> = Vec::new();
    let mut edges: Vec<(String, String)> = Vec::new();
    let mut i: usize = 0;
    while i < ls.len()
        invariant
            i <= ls@.len(),
            views(ls@) == lines(text@),
            tab@ == "\t"@,
            tab@.len() == 1,
            pkg_views(pkgs@) == app_rows(views(ls@).take(i as int)),
            edge_views(edges@) == app_edges(views(ls@).take(i as int)),
        decreases ls@.len() - i,
    {
        let ghost vl = views(ls@);
        proof {
            assert(vl.take(i + 1).drop_last() == vl.take(i as int));
            assert(vl.take(i + 1).last() == ls@[i as int]@);
        }
        let f = split_pieces(&ls[i], &tab);
        let app_id = column_at(&f, 0);
        if app_id.len() > 0 {
            let runtime = column_at(&f, 6);
            if runtime.len() > 0 {
                let ghost before = edge_views(edges@);
                let key = runtime_key(string_of(&runtime).as_str());
                edges.push((string_of(&app_id), key));
                proof {
                    assert(edge_views(edges@) =~= before.push((app_id@, runtime_key_of(runtime@))));
                }
            }
            let friendly = string_of(&column_at(&f, 1));
            let blurb = string_of(&column_at(&f, 2));
            let ghost before = pkg_views(pkgs@);
            let p = Package {
                name: string_of(&app_id),
                version: string_of(&column_at(&f, 3)),
                candidate: None,
                installed_size: size_at(&f, 4),
                description: describe(friendly.as_str(), blurb.as_str()),
                details: None,
                manual: true,
                source: Source::Flatpak,
                remote: remote_text(column_at(&f, 5)),
                origin: Origin::Repo,
                install_epoch: None,
                install_date: None,
            };
            pkgs.push(p);
            proof {
                assert(pkg_views(pkgs@) =~= before.push(app_row(vl[i as int]).unwrap()));
            }
        }
        i += 1;
    }
    proof {
        assert(views(ls@).take(ls@.len() as int) == views(ls@));
    }
    (pkgs, edges)
}

/// The runtime a `flatpak list --runtime` row describes (columns: ref,
/// name, version, size, origin), keyed by its short `id/branch`; `None` for
/// a row without a ref.
pub open spec fn runtime_row(line: Seq<char>) -> Option<PackageView> {
    let f = split_on(line, "\t"@);
    if column(f, 0).len() == 0 {
        None
    } else {
        Some(
            PackageView {
                name: runtime_key_of(column(f, 0)),
                version: column(f, 2),
                candidate: None,
                installed_size: size_column(f, 3),
                description: description_of(column(f, 1), "shared flatpak runtime"@),
                details: None,
                manual: false,
                source: Source::Flatpak,
                remote: remote_of(column(f, 4)),
                origin: Origin::Repo,
                install_epoch: None,
                install_date: None,
            },
        )
    }
}

/// The runtimes of `flatpak list --runtime` rows, in order.
pub open spec fn runtime_rows(ls: Seq<Seq<char>>) -> Seq<PackageView>
    decreases ls.len(),
{
    if ls.len() == 0 {
        Seq::empty()
    } else {
        match runtime_row(ls.last()) {
            Some(p) => runtime_rows(ls.drop_last()).push(p),
            None => runtime_rows(ls.drop_last()),
        }
    }
}

/// Parse `flatpak list --runtime` (columns: ref, name, version, size,
/// origin) into packages keyed by a short `id/branch`, so app runtime refs
/// resolve.
pub fn parse_runtimes(text: &str) -> (r: Vec<Package>)
    ensures
        pkg_views(r@) == runtime_rows(lines(text@)),
{
    let ls = split_lines(&chars_of(text));
    let tab = chars_of("\t");
    proof {
        reveal_strlit("\t");
        assert(tab@.len() == 1);
    }
    let mut pkgs: Vec<Package> = Vec::new();
    let mut i: usize = 0;
    while i < ls.len()
        invariant
            i <= ls@.len(),
            views(ls@) == lines(text@),
            tab@ == "\t"@,
            tab@.len() == 1,
            pkg_views(pkgs@) == runtime_rows(views(ls@).take(i as int)),
        decreases ls@.len() - i,
    {
        let ghost vl = views(ls@);
        proof {
            assert(vl.take(i + 1).drop_last() == vl.take(i as int));
            assert(vl.take(i + 1).last() == ls@[i as int]@);
        }
        let f = split_pieces(&ls[i], &tab);
        let r0 = column_at(&f, 0);
        if r0.len() > 0 {
            let friendly = string_of(&column_at(&f, 1));
            let ghost before = pkg_views(pkgs@);
            let p = Package {
                name: runtime_key(string_of(&r0).as_str()),
                version: string_of(&column_at(&f, 2)),
                candidate: None,
                installed_size: size_at(&f, 3),
                description: describe(friendly.as_str(), "shared flatpak runtime"),
                details: None,
                manual: false,
                source: Source::Flatpak,
                remote: remote_text(column_at(&f, 4)),
                origin: Origin::Repo,
                install_epoch: None,
                install_date: None,
            };
            pkgs.push(p);
            proof {
                assert(pkg_views(pkgs@) =~= before.push(runtime_row(vl[i as int]).unwrap()));
            }
        }
        i += 1;
    }
    proof {
        assert(views(ls@).take(ls@.len() as int) == views(ls@));
    }
    pkgs
}

// ───────────────────────────── the overlay ─────────────────────────────

/// When the deploy directory of `id` was last changed, from `(id, mtime)`
/// pairs: the first pair for `id`.
pub open spec fn deploy_time(deploys: Seq<(Seq<char>, i64)>, id: Seq<char>) -> Option<i64>
    decreases deploys.len(),
{
    if deploys.len() == 0 {
        None
    } else if deploys[0].0 == id {
        Some(deploys[0].1)
    } else {
        deploy_time(deploys.drop_first(), id)
    }
}

/// An app with its install time taken from its deploy directory, when
/// there is one; the day is empty when chrono cannot place the time.
pub open spec fn with_deploy(p: PackageView, deploys: Seq<(Seq<char>, i64)>) -> PackageView {
    match deploy_time(deploys, p.name) {
        Some(e) => PackageView {
            install_epoch: Some(e),
            install_date: Some(
                match utc_day(e) {
                    Some(d) => d,
                    None => Seq::empty(),
                },
            ),
            ..p
        },
        None => p,
    }
}

/// `cat` with the packages `ps` inserted in order.
pub open spec fn insert_all(cat: Map<Seq<char>, PackageView>, ps: Seq<PackageView>) -> Map<
    Seq<char>,
    PackageView,
>
    decreases ps.len(),
{
    if ps.len() == 0 {
        cat
    } else {
        insert_all(cat, ps.drop_last()).insert(ps.last().name, ps.last())
    }
}

/// The dependency maps `(deps, rdeps)` with each `(app, runtime)` edge of
/// `es` added in order, for runtimes that `cat` holds.
pub open spec fn edge_fold(
    deps: Map<Seq<char>, Seq<Seq<char>>>,
    rdeps: Map<Seq<char>, Seq<Seq<char>>>,
    es: Seq<(Seq<char>, Seq<char>)>,
    cat: Map<Seq<char>, PackageView>,
) -> (Map<Seq<char>, Seq<Seq<char>>>, Map<Seq<char>, Seq<Seq<char>>>)
    decreases es.len(),
{
    if es.len() == 0 {
        (deps, rdeps)
    } else {
        let m = edge_fold(deps, rdeps, es.drop_last(), cat);
        let (a, rt) = es.last();
        if cat.contains_key(rt) {
            (m.0.insert(a, list_of(m.0, a).push(rt)), m.1.insert(rt, list_of(m.1, rt).push(a)))
        } else {
            m
        }
    }
}

/// The apps of `apps_raw` with their deploy times, then the runtimes of
/// `runtimes_raw`.
pub open spec fn overlay_pkgs(apps_raw: Seq<char>, runtimes_raw: Seq<char>, deploys: Seq<(Seq<char>, i64)>) -> Seq<
    PackageView,
> {
    app_rows(lines(apps_raw)).map_values(|p: PackageView| with_deploy(p, deploys)) + runtime_rows(
        lines(runtimes_raw),
    )
}

/// Among the first `upto` packages of `ps`, one called `n` is manual.
pub open spec fn manual_among(ps: Seq<PackageView>, upto: int, n: Seq<char>) -> bool {
    exists|k: int| 0 <= k < upto && #[trigger] ps[k].name == n && ps[k].manual
}

proof fn lemma_manual_among_step(ps: Seq<PackageView>, i: int)
    requires
        0 <= i < ps.len(),
    ensures
        forall|n: Seq<char>|
            #[trigger] manual_among(ps, i + 1, n) <==> (manual_among(ps, i, n) || (ps[i].name == n
                && ps[i].manual)),
{
    assert forall|n: Seq<char>|
        #[trigger] manual_among(ps, i + 1, n) <==> (manual_among(ps, i, n) || (ps[i].name == n
            && ps[i].manual)) by {
        if manual_among(ps, i + 1, n) {
            let k = choose|k: int| 0 <= k < i + 1 && #[trigger] ps[k].name == n && ps[k].manual;
            if k < i {
                assert(manual_among(ps, i, n));
            }
        }
        if manual_among(ps, i, n) {
            let k = choose|k: int| 0 <= k < i && #[trigger] ps[k].name == n && ps[k].manual;
            assert(manual_among(ps, i + 1, n));
        }
        if ps[i].name == n && ps[i].manual {
            assert(manual_among(ps, i + 1, n));
        }
    }
}

/// The views of `(id, mtime)` pairs.
pub open spec fn deploy_views(v: Seq<(String, i64)>) -> Seq<(Seq<char>, i64)> {
    v.map_values(|e: (String, i64)| (e.0@, e.1))
}

/// The deploy time of `id`, if its directory is listed.
fn find_deploy(deploys: &[(String, i64)], id: &str) -> (r: Option<i64>)
    ensures
        r == deploy_time(deploy_views(deploys@), id@),
{
    let mut i: usize = 0;
    proof {
        assert(deploy_views(deploys@).skip(0) == deploy_views(deploys@));
    }
    while i < deploys.len()
        invariant
            i <= deploys@.len(),
            deploy_time(deploy_views(deploys@), id@) == deploy_time(deploy_views(deploys@).skip(i as int), id@),
        decreases deploys@.len() - i,
    {
        let ghost rest = deploy_views(deploys@).skip(i as int);
        proof {
            assert(rest[0] == (deploys@[i as int].0@, deploys@[i as int].1));
            assert(rest.drop_first() == deploy_views(deploys@).skip(i + 1));
        }
        if crate::engine::name_is(deploys[i].0.as_str(), id) {
            return Some(deploys[i].1);
        }
        i += 1;
    }
    None
}

/// Edges only add: every list of what depends on a package, and of what a
/// package depends on, keeps what it held and grows at its end; and every
/// app whose runtime is installed ends up among what needs that runtime,
/// with the runtime among what the app needs. A runtime shared by several
/// apps is needed by all of them.
pub proof fn lemma_edges_only_add(
    deps: Map<Seq<char>, Seq<Seq<char>>>,
    rdeps: Map<Seq<char>, Seq<Seq<char>>>,
    es: Seq<(Seq<char>, Seq<char>)>,
    cat: Map<Seq<char>, PackageView>,
)
    ensures
        forall|n: Seq<char>| #[trigger] starts_list(list_of(rdeps, n), list_of(edge_fold(deps, rdeps, es, cat).1, n)),
        forall|n: Seq<char>| #[trigger] starts_list(list_of(deps, n), list_of(edge_fold(deps, rdeps, es, cat).0, n)),
        forall|i: int|
            0 <= i < es.len() && cat.contains_key(#[trigger] es[i].1) ==> {
                &&& list_of(edge_fold(deps, rdeps, es, cat).1, es[i].1).contains(es[i].0)
                &&& list_of(edge_fold(deps, rdeps, es, cat).0, es[i].0).contains(es[i].1)
            },
    decreases es.len(),
{
    if es.len() == 0 {
        assert forall|n: Seq<char>| #[trigger] starts_list(list_of(rdeps, n), list_of(rdeps, n)) by {
            assert(list_of(rdeps, n).take(list_of(rdeps, n).len() as int) =~= list_of(rdeps, n));
        }
        assert forall|n: Seq<char>| #[trigger] starts_list(list_of(deps, n), list_of(deps, n)) by {
            assert(list_of(deps, n).take(list_of(deps, n).len() as int) =~= list_of(deps, n));
        }
    } else {
        let es0 = es.drop_last();
        lemma_edges_only_add(deps, rdeps, es0, cat);
        let m = edge_fold(deps, rdeps, es0, cat);
        let r = edge_fold(deps, rdeps, es, cat);
        let a = es.last().0;
        let rt = es.last().1;
        // Each list of `m` starts the matching list of `r`.
        assert forall|n: Seq<char>| #[trigger] starts_list(list_of(m.1, n), list_of(r.1, n)) by {
            if cat.contains_key(rt) && n == rt {
                assert(list_of(r.1, n) == list_of(m.1, n).push(a));
                assert(list_of(r.1, n).take(list_of(m.1, n).len() as int) =~= list_of(m.1, n));
            } else {
                assert(list_of(r.1, n) == list_of(m.1, n));
                assert(list_of(r.1, n).take(list_of(m.1, n).len() as int) =~= list_of(m.1, n));
            }
        }
        assert forall|n: Seq<char>| #[trigger] starts_list(list_of(m.0, n), list_of(r.0, n)) by {
            if cat.contains_key(rt) && n == a {
                assert(list_of(r.0, n) == list_of(m.0, n).push(rt));
                assert(list_of(r.0, n).take(list_of(m.0, n).len() as int) =~= list_of(m.0, n));
            } else {
                assert(list_of(r.0, n) == list_of(m.0, n));
                assert(list_of(r.0, n).take(list_of(m.0, n).len() as int) =~= list_of(m.0, n));
            }
        }
        assert forall|n: Seq<char>| #[trigger] starts_list(list_of(rdeps, n), list_of(r.1, n)) by {
            assert(starts_list(list_of(rdeps, n), list_of(m.1, n)));
            assert(starts_list(list_of(m.1, n), list_of(r.1, n)));
            let x = list_of(rdeps, n);
            let y = list_of(m.1, n);
            let z = list_of(r.1, n);
            assert(z.take(x.len() as int) =~= y.take(x.len() as int));
        }
        assert forall|n: Seq<char>| #[trigger] starts_list(list_of(deps, n), list_of(r.0, n)) by {
            assert(starts_list(list_of(deps, n), list_of(m.0, n)));
            assert(starts_list(list_of(m.0, n), list_of(r.0, n)));
            let x = list_of(deps, n);
            let y = list_of(m.0, n);
            let z = list_of(r.0, n);
            assert(z.take(x.len() as int) =~= y.take(x.len() as int));
        }
        assert forall|i: int| 0 <= i < es.len() && cat.contains_key(#[trigger] es[i].1) implies {
            &&& list_of(r.1, es[i].1).contains(es[i].0)
            &&& list_of(r.0, es[i].0).contains(es[i].1)
        } by {
            if i < es.len() - 1 {
                assert(es0[i] == es[i]);
                assert(cat.contains_key(es0[i].1));
                let x1 = list_of(m.1, es[i].1);
                let z1 = list_of(r.1, es[i].1);
                let j1 = choose|j: int| 0 <= j < x1.len() && x1[j] == es[i].0;
                assert(starts_list(x1, z1));
                assert(z1[j1] == z1.take(x1.len() as int)[j1]);
                let x0 = list_of(m.0, es[i].0);
                let z0 = list_of(r.0, es[i].0);
                let j0 = choose|j: int| 0 <= j < x0.len() && x0[j] == es[i].1;
                assert(starts_list(x0, z0));
                assert(z0[j0] == z0.take(x0.len() as int)[j0]);
            } else {
                assert(es[i] == es.last());
                assert(list_of(r.1, rt) == list_of(m.1, rt).push(a));
                assert(list_of(r.1, rt)[list_of(m.1, rt).len() as int] == a);
                assert(list_of(r.0, a) == list_of(m.0, a).push(rt));
                assert(list_of(r.0, a)[list_of(m.0, a).len() as int] == rt);
            }
        }
    }
}

/// Layer flatpak apps and runtimes into `world`: the apps of `apps_raw`
/// (`flatpak list --app` output) with install times from `deploys` (the
/// `(app id, mtime)` of each deploy directory, system ones first), then the
/// runtimes of `runtimes_raw`, each replacing any package of its name; apps
/// join the manual set; each app gets an edge to its runtime when that
/// runtime is installed.
pub fn augment(world: &mut World, apps_raw: &str, runtimes_raw: &str, deploys: &[(String, i64)])
    requires
        old(world).wf(),
    ensures
        final(world).wf(),
        final(world).catalog() == insert_all(
            old(world).catalog(),
            overlay_pkgs(apps_raw@, runtimes_raw@, deploy_views(deploys@)),
        ),
        final(world).manual_set() == old(world).manual_set().union(
            Set::new(
                |n: Seq<char>|
                    manual_among(
                        overlay_pkgs(apps_raw@, runtimes_raw@, deploy_views(deploys@)),
                        overlay_pkgs(apps_raw@, runtimes_raw@, deploy_views(deploys@)).len() as int,
                        n,
                    ),
            ),
        ),
        (final(world).deps_map(), final(world).rdeps_map()) == edge_fold(
            old(world).deps_map(),
            old(world).rdeps_map(),
            app_edges(lines(apps_raw@)),
            final(world).catalog(),
        ),
        final(world).log() == old(world).log(),
{
    let (apps, edges) = parse_apps(apps_raw);
    let runtimes = parse_runtimes(runtimes_raw);
    let ghost ps = overlay_pkgs(apps_raw@, runtimes_raw@, deploy_views(deploys@));
    let ghost na = apps@.len();
    let ghost m0 = world.manual_set();
    let ghost c0 = world.catalog();
    proof {
        assert(pkg_views(apps@).len() == na);
    }
    let mut i: usize = 0;
    while i < apps.len()
        invariant
            world.wf(),
            i <= apps@.len(),
            na == apps@.len(),
            pkg_views(apps@) == app_rows(lines(apps_raw@)),
            ps == overlay_pkgs(apps_raw@, runtimes_raw@, deploy_views(deploys@)),
            ps.len() == apps@.len() + runtimes@.len(),
            pkg_views(runtimes@) == runtime_rows(lines(runtimes_raw@)),
            forall|k: int| 0 <= k < na ==> #[trigger] ps[k] == with_deploy(apps@[k]@, deploy_views(deploys@)),
            forall|k: int| 0 <= k < runtimes@.len() ==> #[trigger] ps[na + k] == runtimes@[k]@,
            world.catalog() == insert_all(c0, ps.take(i as int)),
            world.manual_set() == m0.union(
                Set::new(|n: Seq<char>| manual_among(ps, i as int, n)),
            ),
            world.deps_map() == old(world).deps_map(),
            world.rdeps_map() == old(world).rdeps_map(),
            world.log() == old(world).log(),
            c0 == old(world).catalog(),
            m0 == old(world).manual_set(),
        decreases apps@.len() - i,
    {
        let a = &apps[i];
        let mut p = a.copy();
        proof {
            assert(pkg_views(apps@)[i as int] == apps@[i as int]@);
            assert(app_rows(lines(apps_raw@)).len() == na);
        }
        match find_deploy(deploys, a.name.as_str()) {
            Some(e) => {
                p.install_epoch = Some(e);
                p.install_date = Some(
                    match utc_day_of(e) {
                        Some(d) => d,
                        None => String::new(),
                    },
                );
            },
            None => {},
        }
        proof {
            assert(p@ == ps[i as int]);
        }
        let ghost ms = world.manual_set();
        if p.manual {
            world.mark_manual(p.name.clone());
        }
        world.insert_package(p);
        proof {
            assert(ps.take(i + 1).drop_last() == ps.take(i as int));
            assert(ps.take(i + 1).last() == ps[i as int]);
            lemma_manual_among_step(ps, i as int);
            assert(world.manual_set() =~= m0.union(Set::new(|n: Seq<char>| manual_among(ps, i + 1, n))));
        }
        i += 1;
    }
    let mut j: usize = 0;
    while j < runtimes.len()
        invariant
            world.wf(),
            j <= runtimes@.len(),
            na == apps@.len(),
            ps == overlay_pkgs(apps_raw@, runtimes_raw@, deploy_views(deploys@)),
            ps.len() == apps@.len() + runtimes@.len(),
            forall|k: int| 0 <= k < runtimes@.len() ==> #[trigger] ps[na + k] == runtimes@[k]@,
            world.catalog() == insert_all(c0, ps.take(na + j)),
            world.manual_set() == m0.union(
                Set::new(|n: Seq<char>| manual_among(ps, na + j, n)),
            ),
            world.deps_map() == old(world).deps_map(),
            world.rdeps_map() == old(world).rdeps_map(),
            world.log() == old(world).log(),
            c0 == old(world).catalog(),
            m0 == old(world).manual_set(),
        decreases runtimes@.len() - j,
    {
        let p = runtimes[j].copy();
        proof {
            assert(pkg_views(runtimes@)[j as int] == runtimes@[j as int]@);
            assert(p@ == ps[na + j]);
        }
        if p.manual {
            world.mark_manual(p.name.clone());
        }
        world.insert_package(p);
        proof {
            assert(ps.take(na + j + 1).drop_last() == ps.take(na + j));
            assert(ps.take(na + j + 1).last() == ps[na + j]);
            lemma_manual_among_step(ps, na + j);
            assert(world.manual_set() =~= m0.union(Set::new(|n: Seq<char>| manual_among(ps, na + j + 1, n))));
        }
        j += 1;
    }
    proof {
        assert(ps.take(ps.len() as int) == ps);
    }
    let ghost cat = world.catalog();
    let mut k: usize = 0;
    while k < edges.len()
        invariant
            world.wf(),
            k <= edges@.len(),
            edge_views(edges@) == app_edges(lines(apps_raw@)),
            world.catalog() == cat,
            world.manual_set() == m0.union(
                Set::new(|n: Seq<char>| manual_among(ps, ps.len() as int, n)),
            ),
            (world.deps_map(), world.rdeps_map()) == edge_fold(
                old(world).deps_map(),
                old(world).rdeps_map(),
                edge_views(edges@).take(k as int),
                cat,
            ),
            world.log() == old(world).log(),
        decreases edges@.len() - k,
    {
        proof {
            assert(edge_views(edges@).take(k + 1).drop_last() == edge_views(edges@).take(k as int));
            assert(edge_views(edges@).take(k + 1).last() == (edges@[k as int].0@, edges@[k as int].1@));
        }
        let (app, rt) = (&edges[k].0, &edges[k].1);
        if world.package(rt.as_str()).is_some() {
            world.push_dep(app.as_str(), rt.clone());
            world.push_rdep(rt.as_str(), app.clone());
        }
        k += 1;
    }
    proof {
        assert(edge_views(edges@).take(edges@.len() as int) == edge_views(edges@));
    }
}

} // verus!
