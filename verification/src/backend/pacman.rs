//! The pacman backend: Arch Linux and derivatives.
//!
//! One `pacman -Qi` dump gives every package with both `Depends On` and
//! `Required By` (so the graph need not be inverted here) and its `Install
//! Reason` (explicit or dependency, that is manual or auto). Upgrades come
//! from `pacman -Qu` and install history from `/var/log/pacman.log`.

use vstd::prelude::*;
use vstd::string::*;
use crate::text::{
    lines, split_on, split_once, starts_with, trim, words, cut_at, strip_leading, sviews, views,
    chars_of, string_of, split_pieces, split_lines, split_once_at, split_words, trim_chars,
    cut_at_any, strip_leading_chars, has_prefix, same_text,
};
use crate::model::{World, Package, PackageView, Source, Origin, log_view, pair_views, with_candidates};
use crate::order::{time_sort, sort_events};
use crate::backend::{
    scaled_amount, scale_amount, naive_utc_seconds, parse_naive_utc, offset_seconds,
    parse_offset_time, utc_day, utc_day_of,
};

verus! {

/// The pacman backend.
pub struct Pacman;

impl Pacman {
    /// Short label for messages.
    pub fn name(&self) -> (s: &'static str)
        ensures
            s@ == "pacman"@,
    {
        "pacman"
    }
}

// ───────────────────────────── sizes ─────────────────────────────

/// KB per unit of a pacman size, as `(mul, div)`.
pub open spec fn pacman_unit(u: Seq<char>) -> (nat, nat) {
    if u == "B"@ {
        (1, 1024)
    } else if u == "KiB"@ || u == "KB"@ {
        (1, 1)
    } else if u == "MiB"@ || u == "MB"@ {
        (1024, 1)
    } else if u == "GiB"@ || u == "GB"@ {
        (1048576, 1)
    } else {
        (1, 1)
    }
}

/// An "Installed Size" value such as "5.37 MiB", in whole KB.
pub open spec fn pacman_size(v: Seq<char>) -> nat {
    let ws = words(v);
    let amount = if ws.len() > 0 { ws[0] } else { Seq::empty() };
    let unit = if ws.len() > 1 { ws[1] } else { Seq::empty() };
    scaled_amount(amount, pacman_unit(unit).0, pacman_unit(unit).1)
}

fn size_of_chars(v: &[char]) -> (r: u64)
    ensures
        r == pacman_size(v@),
{
    let ws = split_words(v);
    let amount: Vec<char> = if ws.len() > 0 { ws[0].clone() } else { Vec::new() };
    let unit: Vec<char> = if ws.len() > 1 { ws[1].clone() } else { Vec::new() };
    proof {
        if ws.len() > 0 {
            assert(amount@ == views(ws@)[0]);
        }
        if ws.len() > 1 {
            assert(unit@ == views(ws@)[1]);
        }
    }
    let (mul, div): (u64, u64) = if same_text(&unit, "B") {
        (1, 1024)
    } else if same_text(&unit, "KiB") || same_text(&unit, "KB") {
        (1, 1)
    } else if same_text(&unit, "MiB") || same_text(&unit, "MB") {
        (1024, 1)
    } else if same_text(&unit, "GiB") || same_text(&unit, "GB") {
        (1048576, 1)
    } else {
        (1, 1)
    };
    scale_amount(&amount, mul, div)
}

/// Parse an "Installed Size" value like "5.37 MiB" into KB, the unit the
/// rest of the tool uses.
pub fn parse_size_kb(value: &str) -> (r: u64)
    ensures
        r == pacman_size(value@),
{
    size_of_chars(&chars_of(value))
}

// ───────────────────────────── `pacman -Qi` ─────────────────────────────

/// A `Key : value` line: the trimmed key and the value. `None` for an
/// indented continuation line and for a line without ` : `.
pub open spec fn qi_field(line: Seq<char>) -> Option<(Seq<char>, Seq<char>)> {
    if starts_with(line, " "@) {
        None
    } else {
        match split_once(line, " : "@) {
            Some(kv) => Some((trim(kv.0), kv.1)),
            None => None,
        }
    }
}

/// The value of the last `key` line among `ls`.
pub open spec fn qi_value(ls: Seq<Seq<char>>, key: Seq<char>) -> Option<Seq<char>>
    decreases ls.len(),
{
    if ls.len() == 0 {
        None
    } else if qi_field(ls.last()) is Some && qi_field(ls.last()).unwrap().0 == key {
        Some(qi_field(ls.last()).unwrap().1)
    } else {
        qi_value(ls.drop_last(), key)
    }
}

/// The layout of pacman's install date under `LC_ALL=C`.
pub open spec fn qi_date_format() -> Seq<char> {
    "%a %b %e %T %Y"@
}

/// The time of the last "Install Date" line among `ls` that parses.
pub open spec fn qi_date(ls: Seq<Seq<char>>) -> Option<i64>
    decreases ls.len(),
{
    if ls.len() == 0 {
        None
    } else if qi_field(ls.last()) is Some && qi_field(ls.last()).unwrap().0 == "Install Date"@
        && naive_utc_seconds(trim(qi_field(ls.last()).unwrap().1), qi_date_format()) is Some {
        naive_utc_seconds(trim(qi_field(ls.last()).unwrap().1), qi_date_format())
    } else {
        qi_date(ls.drop_last())
    }
}

/// The package names of a token list, each stripped of its version
/// constraint, empty ones dropped.
pub open spec fn dep_names(ws: Seq<Seq<char>>) -> Seq<Seq<char>>
    decreases ws.len(),
{
    if ws.len() == 0 {
        Seq::empty()
    } else {
        let r = dep_names(ws.drop_last());
        let n = cut_at(ws.last(), "=<>"@);
        if n.len() > 0 {
            r.push(n)
        } else {
            r
        }
    }
}

/// A space-separated package list as pacman prints it; "None" is empty.
pub open spec fn pkg_list(v: Seq<char>) -> Seq<Seq<char>> {
    if trim(v) == "None"@ {
        Seq::empty()
    } else {
        dep_names(words(v))
    }
}

/// The list under `key`, empty when there is none.
pub open spec fn qi_list(ls: Seq<Seq<char>>, key: Seq<char>) -> Seq<Seq<char>> {
    match qi_value(ls, key) {
        Some(v) => pkg_list(v),
        None => Seq::empty(),
    }
}

/// The text under `key`, empty when there is none.
pub open spec fn qi_text(ls: Seq<Seq<char>>, key: Seq<char>) -> Seq<char> {
    match qi_value(ls, key) {
        Some(v) => v,
        None => Seq::empty(),
    }
}

/// The package one block describes.
pub open spec fn qi_package(ls: Seq<Seq<char>>) -> PackageView {
    PackageView {
        name: qi_text(ls, "Name"@),
        version: qi_text(ls, "Version"@),
        candidate: None,
        installed_size: match qi_value(ls, "Installed Size"@) {
            Some(v) => pacman_size(v) as u64,
            None => 0,
        },
        description: qi_text(ls, "Description"@),
        details: None,
        manual: match qi_value(ls, "Install Reason"@) {
            Some(v) => starts_with(v, "Explicitly"@),
            None => false,
        },
        source: Source::System,
        remote: None,
        origin: Origin::Unknown,
        install_epoch: qi_date(ls),
        install_date: match qi_date(ls) {
            Some(e) => utc_day(e),
            None => None,
        },
    }
}

/// The packages, dependencies and reverse dependencies that the blocks
/// `bs` describe, later blocks replacing earlier ones of the same name.
pub open spec fn qi_fold(bs: Seq<Seq<char>>) -> (
    Map<Seq<char>, PackageView>,
    Map<Seq<char>, Seq<Seq<char>>>,
    Map<Seq<char>, Seq<Seq<char>>>,
)
    decreases bs.len(),
{
    if bs.len() == 0 {
        (Map::empty(), Map::empty(), Map::empty())
    } else {
        let st = qi_fold(bs.drop_last());
        let ls = lines(bs.last());
        let p = qi_package(ls);
        let dl = qi_list(ls, "Depends On"@);
        let rl = qi_list(ls, "Required By"@);
        if trim(bs.last()).len() == 0 || p.name.len() == 0 {
            st
        } else {
            (
                st.0.insert(p.name, p),
                if dl.len() > 0 { st.1.insert(p.name, dl) } else { st.1 },
                if rl.len() > 0 { st.2.insert(p.name, rl) } else { st.2 },
            )
        }
    }
}

/// The world a whole `pacman -Qi` dump describes.
pub open spec fn qi_world(text: Seq<char>) -> (
    Map<Seq<char>, PackageView>,
    Map<Seq<char>, Seq<Seq<char>>>,
    Map<Seq<char>, Seq<Seq<char>>>,
) {
    qi_fold(split_on(text, "\n\n"@))
}

/// The names a package list holds.
fn parse_pkg_list(value: &[char]) -> (r: Vec<String>)
    ensures
        sviews(r@) == pkg_list(value@),
{
    let t = trim_chars(value);
    if same_text(&t, "None") {
        return Vec::new();
    }
    let ws = split_words(value);
    let stops = chars_of("=<>");
    let mut r: Vec<String> = Vec::new();
    let mut i: usize = 0;
    while i < ws.len()
        invariant
            i <= ws@.len(),
            stops@ == "=<>"@,
            sviews(r@) == dep_names(views(ws@).take(i as int)),
        decreases ws@.len() - i,
    {
        let n = cut_at_any(&ws[i], &stops);
        proof {
            assert(views(ws@).take(i + 1).drop_last() == views(ws@).take(i as int));
            assert(views(ws@).take(i + 1).last() == ws@[i as int]@);
        }
        if n.len() > 0 {
            let ghost before = sviews(r@);
            r.push(string_of(&n));
            proof {
                assert(sviews(r@) =~= before.push(n@));
            }
        }
        i += 1;
    }
    proof {
        assert(views(ws@).take(ws@.len() as int) == views(ws@));
    }
    r
}

/// The last values seen of the keys a block's package needs.
struct QiScan {
    name: Option<Vec<char>>,
    version: Option<Vec<char>>,
    description: Option<Vec<char>>,
    size: Option<Vec<char>>,
    reason: Option<Vec<char>>,
    depends: Option<Vec<char>>,
    required: Option<Vec<char>>,
    date: Option<i64>,
}

/// The view of an optional character vector.
pub open spec fn vopt(o: Option<Vec<char>>) -> Option<Seq<char>> {
    match o {
        Some(v) => Some(v@),
        None => None,
    }
}

/// The scan holds the values of the first `n` lines of `ls`.
spec fn scan_at(sc: QiScan, ls: Seq<Seq<char>>, n: int) -> bool {
    &&& vopt(sc.name) == qi_value(ls.take(n), "Name"@)
    &&& vopt(sc.version) == qi_value(ls.take(n), "Version"@)
    &&& vopt(sc.description) == qi_value(ls.take(n), "Description"@)
    &&& vopt(sc.size) == qi_value(ls.take(n), "Installed Size"@)
    &&& vopt(sc.reason) == qi_value(ls.take(n), "Install Reason"@)
    &&& vopt(sc.depends) == qi_value(ls.take(n), "Depends On"@)
    &&& vopt(sc.required) == qi_value(ls.take(n), "Required By"@)
    &&& sc.date == qi_date(ls.take(n))
}

proof fn lemma_qi_step(ls: Seq<Seq<char>>, i: int)
    requires
        0 <= i < ls.len(),
    ensures
        forall|key: Seq<char>|
            #[trigger] qi_value(ls.take(i + 1), key) == if qi_field(ls[i]) is Some && qi_field(ls[i]).unwrap().0
                == key {
                Some(qi_field(ls[i]).unwrap().1)
            } else {
                qi_value(ls.take(i), key)
            },
        qi_date(ls.take(i + 1)) == if qi_field(ls[i]) is Some && qi_field(ls[i]).unwrap().0 == "Install Date"@
            && naive_utc_seconds(trim(qi_field(ls[i]).unwrap().1), qi_date_format()) is Some {
            naive_utc_seconds(trim(qi_field(ls[i]).unwrap().1), qi_date_format())
        } else {
            qi_date(ls.take(i))
        },
{
    assert(ls.take(i + 1).drop_last() == ls.take(i));
    assert(ls.take(i + 1).last() == ls[i]);
}

/// Split a field line `Key : value` into `(key, value)`; `None` for
/// indented continuation lines.
fn field(line: &[char]) -> (r: Option<(Vec<char>, Vec<char>)>)
    ensures
        match qi_field(line@) {
            Some(kv) => r matches Some(q) && q.0@ == kv.0 && q.1@ == kv.1,
            None => r is None,
        },
{
    if has_prefix(line, &chars_of(" ")) {
        return None;
    }
    match split_once_at(line, &chars_of(" : ")) {
        Some(kv) => Some((trim_chars(&kv.0), kv.1)),
        None => None,
    }
}

/// `old`, or the value of `line` when `line` is a `key` line.
pub open spec fn qi_upd(old: Option<Seq<char>>, line: Seq<char>, key: Seq<char>) -> Option<Seq<char>> {
    if qi_field(line) is Some && qi_field(line).unwrap().0 == key {
        Some(qi_field(line).unwrap().1)
    } else {
        old
    }
}

/// `old`, or the time of `line` when `line` is an "Install Date" line that
/// parses.
pub open spec fn qi_date_upd(old: Option<i64>, line: Seq<char>) -> Option<i64> {
    if qi_field(line) is Some && qi_field(line).unwrap().0 == "Install Date"@ && naive_utc_seconds(
        trim(qi_field(line).unwrap().1),
        qi_date_format(),
    ) is Some {
        naive_utc_seconds(trim(qi_field(line).unwrap().1), qi_date_format())
    } else {
        old
    }
}

/// Take in one line of a block.
fn scan_line(sc: &mut QiScan, line: &[char], fmt: &String)
    requires
        fmt@ == qi_date_format(),
    ensures
        vopt(final(sc).name) == qi_upd(vopt(old(sc).name), line@, "Name"@),
        vopt(final(sc).version) == qi_upd(vopt(old(sc).version), line@, "Version"@),
        vopt(final(sc).description) == qi_upd(vopt(old(sc).description), line@, "Description"@),
        vopt(final(sc).size) == qi_upd(vopt(old(sc).size), line@, "Installed Size"@),
        vopt(final(sc).reason) == qi_upd(vopt(old(sc).reason), line@, "Install Reason"@),
        vopt(final(sc).depends) == qi_upd(vopt(old(sc).depends), line@, "Depends On"@),
        vopt(final(sc).required) == qi_upd(vopt(old(sc).required), line@, "Required By"@),
        final(sc).date == qi_date_upd(old(sc).date, line@),
{
    proof {
        reveal_strlit("Name");
        reveal_strlit("Version");
        reveal_strlit("Description");
        reveal_strlit("Installed Size");
        reveal_strlit("Install Reason");
        reveal_strlit("Depends On");
        reveal_strlit("Required By");
        reveal_strlit("Install Date");
        assert("Name"@.len() == 4);
        assert("Version"@.len() == 7);
        assert("Description"@.len() == 11 && "Description"@[0] == 'D');
        assert("Installed Size"@.len() == 14 && "Installed Size"@[7] == 'e');
        assert("Install Reason"@.len() == 14 && "Install Reason"@[7] == ' ');
        assert("Depends On"@.len() == 10);
        assert("Required By"@.len() == 11 && "Required By"@[0] == 'R');
        assert("Install Date"@.len() == 12);
    }
    match field(line) {
        Some(kv) => {
            let (k, v) = kv;
            if same_text(&k, "Name") {
                sc.name = Some(v);
            } else if same_text(&k, "Version") {
                sc.version = Some(v);
            } else if same_text(&k, "Description") {
                sc.description = Some(v);
            } else if same_text(&k, "Installed Size") {
                sc.size = Some(v);
            } else if same_text(&k, "Install Reason") {
                sc.reason = Some(v);
            } else if same_text(&k, "Depends On") {
                sc.depends = Some(v);
            } else if same_text(&k, "Required By") {
                sc.required = Some(v);
            } else if same_text(&k, "Install Date") {
                let t = string_of(&trim_chars(&v));
                match parse_naive_utc(t.as_str(), fmt.as_str()) {
                    Some(e) => {
                        sc.date = Some(e);
                    },
                    None => {},
                }
            }
        },
        None => {},
    }
}

/// Read one block's lines.
fn scan_block(ls: &Vec<Vec<char>>) -> (sc: QiScan)
    ensures
        scan_at(sc, views(ls@), ls@.len() as int),
{
    let mut sc = QiScan {
        name: None,
        version: None,
        description: None,
        size: None,
        reason: None,
        depends: None,
        required: None,
        date: None,
    };
    let fmt = String::from_str("%a %b %e %T %Y");
    let mut i: usize = 0;
    proof {
        assert(views(ls@).take(0) == Seq::<Seq<char>>::empty());
    }
    while i < ls.len()
        invariant
            i <= ls@.len(),
            fmt@ == qi_date_format(),
            scan_at(sc, views(ls@), i as int),
        decreases ls@.len() - i,
    {
        let ghost vl = views(ls@);
        proof {
            lemma_qi_step(vl, i as int);
            assert(vl[i as int] == ls@[i as int]@);
        }
        scan_line(&mut sc, &ls[i], &fmt);
        i += 1;
    }
    proof {
        assert(views(ls@).take(ls@.len() as int) == views(ls@));
    }
    sc
}

/// The text of an optional value, empty when absent.
fn text_or_empty(o: &Option<Vec<char>>) -> (s: String)
    ensures
        s@ == match vopt(*o) {
            Some(v) => v,
            None => Seq::empty(),
        },
{
    match o {
        Some(v) => string_of(v),
        None => String::new(),
    }
}

/// The package, dependencies and reverse dependencies of one block.
fn block_package(block: &[char]) -> (r: (Package, Vec<String>, Vec<String>))
    ensures
        r.0@ == qi_package(lines(block@)),
        sviews(r.1@) == qi_list(lines(block@), "Depends On"@),
        sviews(r.2@) == qi_list(lines(block@), "Required By"@),
{
    let ls = split_lines(block);
    let sc = scan_block(&ls);
    proof {
        assert(views(ls@).take(ls@.len() as int) == views(ls@));
    }
    let size = match &sc.size {
        Some(v) => size_of_chars(v),
        None => 0,
    };
    let manual = match &sc.reason {
        Some(v) => has_prefix(v, &chars_of("Explicitly")),
        None => false,
    };
    let date = match sc.date {
        Some(e) => utc_day_of(e),
        None => None,
    };
    let depends = match &sc.depends {
        Some(v) => parse_pkg_list(v),
        None => {
            let e: Vec<String> = Vec::new();
            proof {
                assert(sviews(e@) =~= Seq::<Seq<char>>::empty());
            }
            e
        },
    };
    let required = match &sc.required {
        Some(v) => parse_pkg_list(v),
        None => {
            let e: Vec<String> = Vec::new();
            proof {
                assert(sviews(e@) =~= Seq::<Seq<char>>::empty());
            }
            e
        },
    };
    let p = Package {
        name: text_or_empty(&sc.name),
        version: text_or_empty(&sc.version),
        candidate: None,
        installed_size: size,
        description: text_or_empty(&sc.description),
        details: None,
        manual,
        source: Source::System,
        remote: None,
        origin: Origin::Unknown,
        install_epoch: sc.date,
        install_date: date,
    };
    (p, depends, required)
}

/// Parse a full `pacman -Qi` dump (run under `LC_ALL=C`) into a [`World`].
/// Packages are separated by blank lines; within a block each field is
/// `Key : value`, with wrapped continuation lines skipped. The graph comes
/// from pacman's own `Depends On` / `Required By`.
pub fn parse_qi(text: &str) -> (w: World)
    ensures
        w.wf(),
        w.catalog() == qi_world(text@).0,
        w.deps_map() == qi_world(text@).1,
        w.rdeps_map() == qi_world(text@).2,
        w.manual_set() == Set::new(
            |n: Seq<char>| qi_world(text@).0.contains_key(n) && qi_world(text@).0[n].manual,
        ),
        w.log() == Seq::<(i64, Seq<char>)>::empty(),
{
    let chars = chars_of(text);
    let sep = chars_of("\n\n");
    proof {
        reveal_strlit("\n\n");
    }
    let blocks = split_pieces(&chars, &sep);
    let mut w = World::empty();
    let mut i: usize = 0;
    while i < blocks.len()
        invariant
            i <= blocks@.len(),
            views(blocks@) == split_on(text@, "\n\n"@),
            w.wf(),
            w.catalog() == qi_fold(views(blocks@).take(i as int)).0,
            w.deps_map() == qi_fold(views(blocks@).take(i as int)).1,
            w.rdeps_map() == qi_fold(views(blocks@).take(i as int)).2,
            w.manual_set() == Set::<Seq<char>>::empty(),
            w.log() == Seq::<(i64, Seq<char>)>::empty(),
        decreases blocks@.len() - i,
    {
        let ghost vb = views(blocks@);
        proof {
            assert(vb.take(i + 1).drop_last() == vb.take(i as int));
            assert(vb.take(i + 1).last() == blocks@[i as int]@);
        }
        let b = &blocks[i];
        let blank = trim_chars(b).len() == 0;
        if !blank {
            let (p, depends, required) = block_package(b);
            if !p.name.as_str().is_empty() {
                let name = p.name.clone();
                if depends.len() > 0 {
                    w.set_deps(name.as_str(), depends);
                }
                if required.len() > 0 {
                    w.set_rdeps(name.as_str(), required);
                }
                w.insert_package(p);
            }
        }
        i += 1;
    }
    proof {
        assert(views(blocks@).take(blocks@.len() as int) == views(blocks@));
    }
    mark_manual_packages(&mut w);
    w
}

/// Put every package whose `manual` flag is set into the manual set.
fn mark_manual_packages(w: &mut World)
    requires
        old(w).wf(),
    ensures
        final(w).wf(),
        final(w).manual_set() == old(w).manual_set().union(
            Set::new(|n: Seq<char>| old(w).catalog().contains_key(n) && old(w).catalog()[n].manual),
        ),
        final(w).catalog() == old(w).catalog(),
        final(w).names() == old(w).names(),
        final(w).deps_map() == old(w).deps_map(),
        final(w).rdeps_map() == old(w).rdeps_map(),
        final(w).log() == old(w).log(),
{
    let ghost cat = w.catalog();
    let ghost m0 = w.manual_set();
    let ghost names = w.names();
    proof {
        w.lemma_names();
    }
    let n = w.packages().len();
    let mut i: usize = 0;
    while i < n
        invariant
            w.wf(),
            n == names.len(),
            i <= n,
            w.catalog() == cat,
            w.names() == names,
            w.deps_map() == old(w).deps_map(),
            w.rdeps_map() == old(w).rdeps_map(),
            w.log() == old(w).log(),
            cat == old(w).catalog(),
            m0 == old(w).manual_set(),
            names.no_duplicates(),
            forall|x: Seq<char>| names.contains(x) <==> cat.contains_key(x),
            w.manual_set() == m0.union(
                Set::new(|x: Seq<char>| names.take(i as int).contains(x) && cat[x].manual),
            ),
        decreases n - i,
    {
        let ps = w.packages();
        let ghost xi = names[i as int];
        proof {
            assert(names.contains(xi));
            assert(ps@.map_values(|p: Package| p.name@)[i as int] == ps@[i as int].name@);
            assert(xi == ps@[i as int].name@);
            assert(cat[xi] == ps@[i as int]@);
        }
        let manual = ps[i].manual;
        let name = ps[i].name.clone();
        proof {
            assert(cat[xi].manual == manual);
            assert(name@ == xi);
        }
        if manual {
            w.mark_manual(name);
        }
        proof {
            assert(names.take(i + 1) == names.take(i as int).push(xi));
            let rhs = m0.union(Set::new(|x: Seq<char>| names.take(i + 1).contains(x) && cat[x].manual));
            assert forall|x: Seq<char>| #[trigger] w.manual_set().contains(x) <==> rhs.contains(x) by {
                if x == xi {
                    assert(names.take(i + 1)[i as int] == x);
                } else if names.take(i + 1).contains(x) {
                    let j = choose|j: int| 0 <= j < i + 1 && #[trigger] names.take(i + 1)[j] == x;
                    assert(names.take(i as int)[j] == x);
                } else if names.take(i as int).contains(x) {
                    let j = choose|j: int| 0 <= j < i && #[trigger] names.take(i as int)[j] == x;
                    assert(names.take(i + 1)[j] == x);
                }
            }
            assert(w.manual_set() =~= m0.union(
                Set::new(|x: Seq<char>| names.take(i + 1).contains(x) && cat[x].manual),
            )) by {
                assert forall|x: Seq<char>| names.take(i + 1).contains(x) <==> (names.take(i as int).contains(x)
                    || x == xi) by {
                    if names.take(i + 1).contains(x) && x != xi {
                        let j = choose|j: int| 0 <= j < i + 1 && #[trigger] names.take(i + 1)[j] == x;
                        assert(names.take(i as int)[j] == x);
                    }
                    if x == xi {
                        assert(names.take(i + 1)[i as int] == x);
                    }
                }
            }
        }
        i += 1;
    }
    proof {
        assert(names.take(n as int) == names);
        assert(w.manual_set() =~= m0.union(
            Set::new(|n: Seq<char>| cat.contains_key(n) && cat[n].manual),
        ));
    }
}

// ───────────────────────────── upgrades and history ─────────────────────────────

/// The `(name, version)` pairs of `pacman -Qu` lines (`name old -> new`).
pub open spec fn qu_pairs(ls: Seq<Seq<char>>) -> Seq<(Seq<char>, Seq<char>)>
    decreases ls.len(),
{
    if ls.len() == 0 {
        Seq::empty()
    } else {
        let r = qu_pairs(ls.drop_last());
        let l = ls.last();
        let ws = words(l);
        let parts = split_on(l, "->"@);
        let cand = if parts.len() > 1 { trim(parts[1]) } else { Seq::empty() };
        if ws.len() > 0 && cand.len() > 0 {
            r.push((ws[0], cand))
        } else {
            r
        }
    }
}

/// Apply `pacman -Qu` output (`name oldver -> newver`) as pending upgrades.
pub fn apply_upgradable(world: &mut World, qu: &str)
    requires
        old(world).wf(),
    ensures
        final(world).wf(),
        final(world).catalog() == with_candidates(old(world).catalog(), qu_pairs(lines(qu@))),
        final(world).names() == old(world).names(),
        final(world).deps_map() == old(world).deps_map(),
        final(world).rdeps_map() == old(world).rdeps_map(),
        final(world).manual_set() == old(world).manual_set(),
        final(world).log() == old(world).log(),
{
    let ls = split_lines(&chars_of(qu));
    let arrow = chars_of("->");
    proof {
        reveal_strlit("->");
    }
    let mut ups: Vec<(String, String)> = Vec::new();
    let mut i: usize = 0;
    while i < ls.len()
        invariant
            i <= ls@.len(),
            views(ls@) == lines(qu@),
            arrow@ == "->"@,
            arrow@.len() == 2,
            pair_views(ups@) == qu_pairs(views(ls@).take(i as int)),
        decreases ls@.len() - i,
    {
        let ghost vl = views(ls@);
        proof {
            assert(vl.take(i + 1).drop_last() == vl.take(i as int));
            assert(vl.take(i + 1).last() == ls@[i as int]@);
        }
        let l = &ls[i];
        let ws = split_words(l);
        let parts = split_pieces(l, &arrow);
        let cand = if parts.len() > 1 { trim_chars(&parts[1]) } else { Vec::new() };
        proof {
            if parts.len() > 1 {
                assert(views(parts@)[1] == parts@[1]@);
            }
        }
        if ws.len() > 0 && cand.len() > 0 {
            let ghost before = pair_views(ups@);
            proof {
                assert(views(ws@)[0] == ws@[0]@);
            }
            ups.push((string_of(&ws[0]), string_of(&cand)));
            proof {
                assert(pair_views(ups@) =~= before.push((ws@[0]@, cand@)));
            }
        }
        i += 1;
    }
    proof {
        assert(views(ls@).take(ls@.len() as int) == views(ls@));
    }
    world.apply_candidates(&ups);
}

/// The layout of a pacman log timestamp.
pub open spec fn log_time_format() -> Seq<char> {
    "%Y-%m-%dT%H:%M:%S%z"@
}

/// The install events of pacman log lines, in log order:
/// `[2026-06-14T00:03:53+0000] [ALPM] installed glibc (2.43-1)`.
pub open spec fn log_events(ls: Seq<Seq<char>>) -> Seq<(i64, Seq<char>)>
    decreases ls.len(),
{
    if ls.len() == 0 {
        Seq::empty()
    } else {
        let r = log_events(ls.drop_last());
        match split_once(ls.last(), "] [ALPM] installed "@) {
            Some(pair) => {
                let ts = strip_leading(pair.0, '[');
                let ws = words(pair.1);
                if ws.len() > 0 && offset_seconds(ts, log_time_format()) is Some {
                    r.push((offset_seconds(ts, log_time_format()).unwrap(), ws[0]))
                } else {
                    r
                }
            },
            None => r,
        }
    }
}

/// Parse `/var/log/pacman.log` install events into `(epoch, package)`,
/// oldest first (events of one second keep their log order).
pub fn parse_log(text: &str) -> (r: Vec<(i64, String)>)
    ensures
        log_view(r@) == time_sort(log_events(lines(text@))),
{
    let ls = split_lines(&chars_of(text));
    let marker = chars_of("] [ALPM] installed ");
    let fmt = String::from_str("%Y-%m-%dT%H:%M:%S%z");
    let mut events: Vec<(i64, String)> = Vec::new();
    let mut i: usize = 0;
    while i < ls.len()
        invariant
            i <= ls@.len(),
            views(ls@) == lines(text@),
            marker@ == "] [ALPM] installed "@,
            fmt@ == log_time_format(),
            log_view(events@) == log_events(views(ls@).take(i as int)),
        decreases ls@.len() - i,
    {
        let ghost vl = views(ls@);
        proof {
            assert(vl.take(i + 1).drop_last() == vl.take(i as int));
            assert(vl.take(i + 1).last() == ls@[i as int]@);
        }
        match split_once_at(&ls[i], &marker) {
            Some(pair) => {
                let ts = strip_leading_chars(&pair.0, '[');
                let ws = split_words(&pair.1);
                if ws.len() > 0 {
                    let t = string_of(&ts);
                    match parse_offset_time(t.as_str(), fmt.as_str()) {
                        Some(e) => {
                            let ghost before = log_view(events@);
                            proof {
                                assert(views(ws@)[0] == ws@[0]@);
                            }
                            events.push((e, string_of(&ws[0])));
                            proof {
                                assert(log_view(events@) =~= before.push((e, ws@[0]@)));
                            }
                        },
                        None => {},
                    }
                }
            },
            None => {},
        }
        i += 1;
    }
    proof {
        assert(views(ls@).take(ls@.len() as int) == views(ls@));
    }
    sort_events(events)
}

} // verus!
