//! The dnf/rpm backend: Fedora, RHEL and derivatives.
//!
//! rpm states dependencies as capabilities (`libc.so.6()(64bit)`,
//! `config(bash)`, `/usr/bin/sh`), not package names. So a provider map
//! (capability or file to package) is built from `PROVIDES` and
//! `FILENAMES`, and each package's `REQUIRES` is resolved through it into a
//! package-to-package graph. The manual set and the upgrade list come from
//! dnf.

use vstd::prelude::*;
use vstd::string::*;
use vstd::hash_map::StringHashMap;
use vstd::hash_set::StringHashSet;
use crate::text::{
    lines, splitn, split_once, starts_with, trim, words, views, sviews, chars_of, string_of,
    splitn_pieces, split_lines, split_once_at, split_words, trim_chars, has_prefix, parse_u64,
    parse_i64, parse_u64_spec, parse_i64_spec,
};
use crate::model::{
    World, Package, PackageView, Source, Origin, log_view, list_of, pair_views, with_candidates, starts_list,
    lemma_starts_refl, lemma_starts_trans, lemma_starts_push,
};
use crate::order::{time_sort, sort_events};
use crate::backend::{utc_day, utc_day_of};
use crate::backend::apt::{set_manual_flags, lemma_keyed};

verus! {

broadcast use vstd::hash_map::group_hash_map_axioms;

/// The dnf backend.
pub struct Dnf;

impl Dnf {
    /// Short label for messages.
    pub fn name(&self) -> (s: &'static str)
        ensures
            s@ == "dnf"@,
    {
        "dnf"
    }
}

// ───────────────────────────── the manual set ─────────────────────────────

/// The names `dnf repoquery --userinstalled` lists: each line trimmed,
/// empty ones dropped.
pub open spec fn listed_names(ls: Seq<Seq<char>>) -> Set<Seq<char>> {
    Set::new(|n: Seq<char>| n.len() > 0 && exists|i: int| 0 <= i < ls.len() && #[trigger] trim(ls[i]) == n)
}

/// The trimmed, non-empty lines of `text`, as a set.
pub fn parse_name_lines(text: &str) -> (r: StringHashSet)
    ensures
        r@ == listed_names(lines(text@)),
{
    let ls = split_lines(&chars_of(text));
    let mut r = StringHashSet::new();
    let mut i: usize = 0;
    while i < ls.len()
        invariant
            i <= ls@.len(),
            views(ls@) == lines(text@),
            forall|n: Seq<char>|
                r@.contains(n) <==> (n.len() > 0 && exists|k: int| 0 <= k < i && #[trigger] trim(views(ls@)[k]) == n),
        decreases ls@.len() - i,
    {
        let t = trim_chars(&ls[i]);
        proof {
            assert(views(ls@)[i as int] == ls@[i as int]@);
        }
        if t.len() > 0 {
            r.insert(string_of(&t));
        }
        proof {
            assert forall|n: Seq<char>|
                r@.contains(n) <==> (n.len() > 0 && exists|k: int| 0 <= k < i + 1 && #[trigger] trim(views(ls@)[k]) == n) by {
                if n == t@ && n.len() > 0 {
                    assert(trim(views(ls@)[i as int]) == n);
                }
            }
        }
        i += 1;
    }
    proof {
        assert(r@ =~= listed_names(lines(text@)));
    }
    r
}

// ───────────────────────────── metadata ─────────────────────────────

/// The package a metadata line describes
/// (`name<TAB>version<TAB>size_bytes<TAB>installtime<TAB>summary`), before
/// the manual flag is known; `None` for a short line or an empty name.
pub open spec fn meta_row(line: Seq<char>) -> Option<PackageView> {
    let f = splitn(line, 5, "\t"@);
    if f.len() < 5 || f[0].len() == 0 {
        None
    } else {
        let size = match parse_u64_spec(trim(f[2])) {
            Some(b) => b / 1024,
            None => 0,
        };
        let epoch = match parse_i64_spec(trim(f[3])) {
            Some(e) => if e > 0 { Some(e) } else { None },
            None => None,
        };
        Some(
            PackageView {
                name: f[0],
                version: f[1],
                candidate: None,
                installed_size: size as u64,
                description: f[4],
                details: None,
                manual: false,
                source: Source::System,
                remote: None,
                origin: Origin::Unknown,
                install_epoch: epoch,
                install_date: match epoch {
                    Some(e) => utc_day(e),
                    None => None,
                },
            },
        )
    }
}

/// The packages of metadata lines, later lines replacing earlier ones.
pub open spec fn meta_fold(ls: Seq<Seq<char>>) -> Map<Seq<char>, PackageView>
    decreases ls.len(),
{
    if ls.len() == 0 {
        Map::empty()
    } else {
        match meta_row(ls.last()) {
            Some(p) => meta_fold(ls.drop_last()).insert(p.name, p),
            None => meta_fold(ls.drop_last()),
        }
    }
}

/// The install events of metadata lines, in line order.
pub open spec fn meta_events(ls: Seq<Seq<char>>) -> Seq<(i64, Seq<char>)>
    decreases ls.len(),
{
    if ls.len() == 0 {
        Seq::empty()
    } else {
        match meta_row(ls.last()) {
            Some(p) => match p.install_epoch {
                Some(e) => meta_events(ls.drop_last()).push((e, p.name)),
                None => meta_events(ls.drop_last()),
            },
            None => meta_events(ls.drop_last()),
        }
    }
}

/// The package of one metadata line.
fn meta_line(line: &[char]) -> (r: Option<Package>)
    ensures
        match meta_row(line@) {
            Some(p) => r matches Some(q) && q@ == p,
            None => r is None,
        },
{
    let tab = chars_of("\t");
    proof {
        reveal_strlit("\t");
        assert(tab@.len() == 1);
    }
    let f = splitn_pieces(line, 5, &tab);
    proof {
        if f.len() >= 5 {
            assert(views(f@)[0] == f@[0]@);
            assert(views(f@)[1] == f@[1]@);
            assert(views(f@)[2] == f@[2]@);
            assert(views(f@)[3] == f@[3]@);
            assert(views(f@)[4] == f@[4]@);
        }
    }
    if f.len() < 5 || f[0].len() == 0 {
        return None;
    }
    let size: u64 = match parse_u64(&trim_chars(&f[2])) {
        Some(b) => b / 1024,
        None => 0,
    };
    let epoch: Option<i64> = match parse_i64(&trim_chars(&f[3])) {
        Some(e) => if e > 0 { Some(e) } else { None },
        None => None,
    };
    let date = match epoch {
        Some(e) => utc_day_of(e),
        None => None,
    };
    Some(
        Package {
            name: string_of(&f[0]),
            version: string_of(&f[1]),
            candidate: None,
            installed_size: size,
            description: string_of(&f[4]),
            details: None,
            manual: false,
            source: Source::System,
            remote: None,
            origin: Origin::Unknown,
            install_epoch: epoch,
            install_date: date,
        },
    )
}

// ───────────────────────────── capabilities ─────────────────────────────

/// The `(package, capabilities)` entries of a `NAME<TAB>cap1 cap2 …` dump.
pub open spec fn caps_entries(ls: Seq<Seq<char>>) -> Seq<(Seq<char>, Seq<Seq<char>>)>
    decreases ls.len(),
{
    if ls.len() == 0 {
        Seq::empty()
    } else {
        let r = caps_entries(ls.drop_last());
        match split_once(ls.last(), "\t"@) {
            Some(kv) => if kv.0.len() > 0 {
                r.push((kv.0, words(kv.1)))
            } else {
                r
            },
            None => r,
        }
    }
}

/// The views of capability entries.
pub open spec fn entry_views(v: Seq<(String, Vec<String>)>) -> Seq<(Seq<char>, Seq<Seq<char>>)> {
    v.map_values(|e: (String, Vec<String>)| (e.0@, sviews(e.1@)))
}

/// The strings of character vectors.
fn strings_of(v: &Vec<Vec<char>>) -> (r: Vec<String>)
    ensures
        sviews(r@) == views(v@),
{
    let mut r: Vec<String> = Vec::new();
    let mut i: usize = 0;
    while i < v.len()
        invariant
            i <= v@.len(),
            sviews(r@) == views(v@).take(i as int),
        decreases v@.len() - i,
    {
        let ghost before = sviews(r@);
        r.push(string_of(&v[i]));
        proof {
            assert(sviews(r@) =~= before.push(v@[i as int]@));
            assert(views(v@).take(i + 1) =~= views(v@).take(i as int).push(v@[i as int]@));
        }
        i += 1;
    }
    proof {
        assert(views(v@).take(v@.len() as int) == views(v@));
    }
    r
}

/// Parse a `NAME<TAB>cap1 cap2 …` dump into `(package, capabilities)`
/// pairs.
pub fn name_caps(text: &str) -> (r: Vec<(String, Vec<String>)>)
    ensures
        entry_views(r@) == caps_entries(lines(text@)),
{
    let ls = split_lines(&chars_of(text));
    let tab = chars_of("\t");
    proof {
        reveal_strlit("\t");
    }
    let mut r: Vec<(String, Vec<String>)> = Vec::new();
    let mut i: usize = 0;
    while i < ls.len()
        invariant
            i <= ls@.len(),
            views(ls@) == lines(text@),
            tab@ == "\t"@,
            entry_views(r@) == caps_entries(views(ls@).take(i as int)),
        decreases ls@.len() - i,
    {
        let ghost vl = views(ls@);
        proof {
            assert(vl.take(i + 1).drop_last() == vl.take(i as int));
            assert(vl.take(i + 1).last() == ls@[i as int]@);
        }
        match split_once_at(&ls[i], &tab) {
            Some(kv) => {
                if kv.0.len() > 0 {
                    let ghost before = entry_views(r@);
                    let caps = strings_of(&split_words(&kv.1));
                    r.push((string_of(&kv.0), caps));
                    proof {
                        assert(entry_views(r@) =~= before.push((kv.0@, words(kv.1@))));
                    }
                }
            },
            None => {},
        }
        i += 1;
    }
    proof {
        assert(views(ls@).take(ls@.len() as int) == views(ls@));
    }
    r
}

/// `m` with each capability of `caps` given to `pkg`, unless already given.
pub open spec fn caps_fold(m: Map<Seq<char>, Seq<char>>, pkg: Seq<char>, caps: Seq<Seq<char>>) -> Map<
    Seq<char>,
    Seq<char>,
>
    decreases caps.len(),
{
    if caps.len() == 0 {
        m
    } else {
        let r = caps_fold(m, pkg, caps.drop_last());
        if r.contains_key(caps.last()) {
            r
        } else {
            r.insert(caps.last(), pkg)
        }
    }
}

/// The provider map of capability entries: the first package to provide a
/// capability keeps it.
pub open spec fn provider_fold(es: Seq<(Seq<char>, Seq<Seq<char>>)>) -> Map<Seq<char>, Seq<char>>
    decreases es.len(),
{
    if es.len() == 0 {
        Map::empty()
    } else {
        caps_fold(provider_fold(es.drop_last()), es.last().0, es.last().1)
    }
}

/// The view of a provider map.
pub open spec fn provider_view(m: StringHashMap<String>) -> Map<Seq<char>, Seq<char>> {
    m@.map_values(|s: String| s@)
}

/// Give `pkg` each capability of `caps` that has no provider yet.
fn add_caps(m: &mut StringHashMap<String>, pkg: &String, caps: &Vec<String>)
    ensures
        provider_view(*final(m)) == caps_fold(provider_view(*old(m)), pkg@, sviews(caps@)),
{
    let mut i: usize = 0;
    while i < caps.len()
        invariant
            i <= caps@.len(),
            provider_view(*m) == caps_fold(provider_view(*old(m)), pkg@, sviews(caps@).take(i as int)),
        decreases caps@.len() - i,
    {
        proof {
            assert(sviews(caps@).take(i + 1).drop_last() == sviews(caps@).take(i as int));
            assert(sviews(caps@).take(i + 1).last() == caps@[i as int]@);
        }
        if !m.contains_key(caps[i].as_str()) {
            let ghost before = provider_view(*m);
            m.insert(caps[i].clone(), pkg.clone());
            proof {
                assert(provider_view(*m) =~= before.insert(caps@[i as int]@, pkg@));
            }
        }
        i += 1;
    }
    proof {
        assert(sviews(caps@).take(caps@.len() as int) == sviews(caps@));
    }
}

/// Build `capability/file → providing package` from the PROVIDES and
/// FILENAMES dumps. The first provider wins on ties.
pub fn provider_map(provides: &str, files: &str) -> (m: StringHashMap<String>)
    ensures
        provider_view(m) == provider_fold(caps_entries(lines(provides@)) + caps_entries(lines(files@))),
{
    let mut es = name_caps(provides);
    let mut more = name_caps(files);
    let ghost e1 = entry_views(es@);
    let ghost e2 = entry_views(more@);
    es.append(&mut more);
    let ghost all = entry_views(es@);
    proof {
        assert(all =~= e1 + e2);
    }
    let mut m: StringHashMap<String> = StringHashMap::new();
    proof {
        assert(provider_view(m) =~= Map::<Seq<char>, Seq<char>>::empty());
    }
    let mut i: usize = 0;
    while i < es.len()
        invariant
            i <= es@.len(),
            all == entry_views(es@),
            all == caps_entries(lines(provides@)) + caps_entries(lines(files@)),
            provider_view(m) == provider_fold(all.take(i as int)),
        decreases es@.len() - i,
    {
        proof {
            assert(all.take(i + 1).drop_last() == all.take(i as int));
            assert(all.take(i + 1).last() == (es@[i as int].0@, sviews(es@[i as int].1@)));
        }
        add_caps(&mut m, &es[i].0, &es[i].1);
        i += 1;
    }
    proof {
        assert(all.take(es@.len() as int) == all);
    }
    m
}

// ───────────────────────────── the graph ─────────────────────────────

/// rpm-internal features, which no package provides.
pub open spec fn internal_req(r: Seq<char>) -> bool {
    starts_with(r, "rpmlib("@) || starts_with(r, "rtld("@)
}

/// One requirement of `pkg` taken in: its provider becomes a dependency of
/// `pkg` (and `pkg` a reverse dependency of it), once per line.
pub open spec fn req_step(
    st: (Map<Seq<char>, Seq<Seq<char>>>, Map<Seq<char>, Seq<Seq<char>>>, Set<Seq<char>>),
    pkg: Seq<char>,
    req: Seq<char>,
    pm: Map<Seq<char>, Seq<char>>,
) -> (Map<Seq<char>, Seq<Seq<char>>>, Map<Seq<char>, Seq<Seq<char>>>, Set<Seq<char>>) {
    if !internal_req(req) && pm.contains_key(req) && pm[req] != pkg && !st.2.contains(pm[req]) {
        let p = pm[req];
        (st.0.insert(pkg, list_of(st.0, pkg).push(p)), st.1.insert(p, list_of(st.1, p).push(pkg)), st.2.insert(p))
    } else {
        st
    }
}

/// The requirements `reqs` of `pkg` taken in, in order.
pub open spec fn reqs_fold(
    st: (Map<Seq<char>, Seq<Seq<char>>>, Map<Seq<char>, Seq<Seq<char>>>, Set<Seq<char>>),
    pkg: Seq<char>,
    reqs: Seq<Seq<char>>,
    pm: Map<Seq<char>, Seq<char>>,
) -> (Map<Seq<char>, Seq<Seq<char>>>, Map<Seq<char>, Seq<Seq<char>>>, Set<Seq<char>>)
    decreases reqs.len(),
{
    if reqs.len() == 0 {
        st
    } else {
        req_step(reqs_fold(st, pkg, reqs.drop_last(), pm), pkg, reqs.last(), pm)
    }
}

/// The dependency maps `(deps, rdeps)` after the REQUIRES entries `es`.
pub open spec fn graph_fold(
    d: Map<Seq<char>, Seq<Seq<char>>>,
    r: Map<Seq<char>, Seq<Seq<char>>>,
    es: Seq<(Seq<char>, Seq<Seq<char>>)>,
    pm: Map<Seq<char>, Seq<char>>,
) -> (Map<Seq<char>, Seq<Seq<char>>>, Map<Seq<char>, Seq<Seq<char>>>)
    decreases es.len(),
{
    if es.len() == 0 {
        (d, r)
    } else {
        let g = graph_fold(d, r, es.drop_last(), pm);
        let st = reqs_fold((g.0, g.1, Set::empty()), es.last().0, es.last().1, pm);
        (st.0, st.1)
    }
}

/// A requirement that names a real capability: not one of rpm's own
/// `rpmlib(…)` or `rtld(…)` features.
pub open spec fn real_req(r: Seq<char>) -> bool {
    !starts_with(r, "rpmlib("@) && !starts_with(r, "rtld("@)
}

/// What one package's requirements do to the maps, given that every
/// provider already recorded for it is linked both ways: lists only grow,
/// that stays so, and each real requirement provided by another package
/// links the two.
proof fn lemma_reqs_fold_links(
    st: (Map<Seq<char>, Seq<Seq<char>>>, Map<Seq<char>, Seq<Seq<char>>>, Set<Seq<char>>),
    pkg: Seq<char>,
    reqs: Seq<Seq<char>>,
    pm: Map<Seq<char>, Seq<char>>,
)
    requires
        forall|y: Seq<char>| #[trigger] st.2.contains(y) ==> list_of(st.0, pkg).contains(y) && list_of(st.1, y).contains(pkg),
    ensures
        ({
            let r = reqs_fold(st, pkg, reqs, pm);
            &&& forall|n: Seq<char>| #[trigger] starts_list(list_of(st.0, n), list_of(r.0, n))
            &&& forall|n: Seq<char>| #[trigger] starts_list(list_of(st.1, n), list_of(r.1, n))
            &&& forall|y: Seq<char>| #[trigger] r.2.contains(y) ==> list_of(r.0, pkg).contains(y) && list_of(r.1, y).contains(pkg)
            &&& forall|j: int|
                0 <= j < reqs.len() && real_req(#[trigger] reqs[j]) && pm.contains_key(reqs[j]) && pm[reqs[j]] != pkg ==> {
                    &&& list_of(r.0, pkg).contains(pm[reqs[j]])
                    &&& list_of(r.1, pm[reqs[j]]).contains(pkg)
                }
        }),
    decreases reqs.len(),
{
    let r = reqs_fold(st, pkg, reqs, pm);
    if reqs.len() == 0 {
        assert forall|n: Seq<char>| #[trigger] starts_list(list_of(st.0, n), list_of(r.0, n)) by {
            lemma_starts_refl(list_of(st.0, n));
        }
        assert forall|n: Seq<char>| #[trigger] starts_list(list_of(st.1, n), list_of(r.1, n)) by {
            lemma_starts_refl(list_of(st.1, n));
        }
    } else {
        let r0 = reqs.drop_last();
        lemma_reqs_fold_links(st, pkg, r0, pm);
        let m = reqs_fold(st, pkg, r0, pm);
        let req = reqs.last();
        assert(r == req_step(m, pkg, req, pm));
        let applies = !internal_req(req) && pm.contains_key(req) && pm[req] != pkg && !m.2.contains(pm[req]);
        // One step: lists grow at most by one name at their end.
        assert forall|n: Seq<char>| #[trigger] starts_list(list_of(m.0, n), list_of(r.0, n)) by {
            if applies && n == pkg {
                lemma_starts_push(list_of(m.0, n), pm[req]);
            } else {
                lemma_starts_refl(list_of(m.0, n));
            }
        }
        assert forall|n: Seq<char>| #[trigger] starts_list(list_of(m.1, n), list_of(r.1, n)) by {
            if applies && n == pm[req] {
                lemma_starts_push(list_of(m.1, n), pkg);
            } else {
                lemma_starts_refl(list_of(m.1, n));
            }
        }
        assert forall|n: Seq<char>| #[trigger] starts_list(list_of(st.0, n), list_of(r.0, n)) by {
            lemma_starts_trans(list_of(st.0, n), list_of(m.0, n), list_of(r.0, n));
        }
        assert forall|n: Seq<char>| #[trigger] starts_list(list_of(st.1, n), list_of(r.1, n)) by {
            lemma_starts_trans(list_of(st.1, n), list_of(m.1, n), list_of(r.1, n));
        }
        // What was linked stays linked.
        assert forall|y: Seq<char>, x: Seq<char>|
            list_of(m.0, y).contains(x) implies #[trigger] list_of(r.0, y).contains(x) by {
            assert(starts_list(list_of(m.0, y), list_of(r.0, y)));
            lemma_starts_refl(list_of(r.0, y));
            lemma_starts_trans(list_of(m.0, y), list_of(r.0, y), list_of(r.0, y));
        }
        assert forall|y: Seq<char>, x: Seq<char>|
            list_of(m.1, y).contains(x) implies #[trigger] list_of(r.1, y).contains(x) by {
            assert(starts_list(list_of(m.1, y), list_of(r.1, y)));
            lemma_starts_refl(list_of(r.1, y));
            lemma_starts_trans(list_of(m.1, y), list_of(r.1, y), list_of(r.1, y));
        }
        if applies {
            lemma_starts_push(list_of(m.0, pkg), pm[req]);
            lemma_starts_push(list_of(m.1, pm[req]), pkg);
        }
        assert forall|y: Seq<char>| #[trigger] r.2.contains(y) implies list_of(r.0, pkg).contains(y) && list_of(r.1, y).contains(pkg) by {
            if applies && y == pm[req] {
            } else {
                assert(m.2.contains(y));
                assert(list_of(m.0, pkg).contains(y));
                assert(list_of(m.1, y).contains(pkg));
            }
        }
        assert forall|j: int|
            0 <= j < reqs.len() && real_req(#[trigger] reqs[j]) && pm.contains_key(reqs[j]) && pm[reqs[j]] != pkg implies {
                &&& list_of(r.0, pkg).contains(pm[reqs[j]])
                &&& list_of(r.1, pm[reqs[j]]).contains(pkg)
            } by {
            if j < reqs.len() - 1 {
                assert(r0[j] == reqs[j]);
                assert(list_of(m.0, pkg).contains(pm[r0[j]]));
                assert(list_of(m.1, pm[r0[j]]).contains(pkg));
            } else {
                assert(reqs[j] == req);
                assert(!internal_req(req));
                if !applies {
                    assert(m.2.contains(pm[req]));
                }
            }
        }
    }
}

/// Every real requirement is resolved: for each REQUIRES entry of `pkg`
/// and each of its requirements that is not one of rpm's own features
/// (`rpmlib(…)`, `rtld(…)`) and that another package provides — a soname,
/// a file path, anything the PROVIDES and FILENAMES dumps name — that
/// provider is among what `pkg` depends on and `pkg` among what depends on
/// the provider. The lists only grow from the maps the entries start from.
pub proof fn lemma_every_real_requirement_resolves(
    d: Map<Seq<char>, Seq<Seq<char>>>,
    r: Map<Seq<char>, Seq<Seq<char>>>,
    es: Seq<(Seq<char>, Seq<Seq<char>>)>,
    pm: Map<Seq<char>, Seq<char>>,
)
    ensures
        forall|n: Seq<char>| #[trigger] starts_list(list_of(d, n), list_of(graph_fold(d, r, es, pm).0, n)),
        forall|n: Seq<char>| #[trigger] starts_list(list_of(r, n), list_of(graph_fold(d, r, es, pm).1, n)),
        forall|i: int, j: int|
            0 <= i < es.len() && 0 <= j < es[i].1.len() && real_req(#[trigger] es[i].1[j]) && pm.contains_key(es[i].1[j])
                && pm[es[i].1[j]] != es[i].0 ==> {
                &&& list_of(graph_fold(d, r, es, pm).0, es[i].0).contains(pm[es[i].1[j]])
                &&& list_of(graph_fold(d, r, es, pm).1, pm[es[i].1[j]]).contains(es[i].0)
            },
    decreases es.len(),
{
    let g = graph_fold(d, r, es, pm);
    if es.len() == 0 {
        assert forall|n: Seq<char>| #[trigger] starts_list(list_of(d, n), list_of(g.0, n)) by {
            lemma_starts_refl(list_of(d, n));
        }
        assert forall|n: Seq<char>| #[trigger] starts_list(list_of(r, n), list_of(g.1, n)) by {
            lemma_starts_refl(list_of(r, n));
        }
    } else {
        let e0 = es.drop_last();
        lemma_every_real_requirement_resolves(d, r, e0, pm);
        let m = graph_fold(d, r, e0, pm);
        let st = (m.0, m.1, Set::<Seq<char>>::empty());
        lemma_reqs_fold_links(st, es.last().0, es.last().1, pm);
        let t = reqs_fold(st, es.last().0, es.last().1, pm);
        assert(g == (t.0, t.1));
        assert(st.0 == m.0 && st.1 == m.1);
        assert(t.0 == g.0 && t.1 == g.1);
        assert forall|n: Seq<char>| #[trigger] starts_list(list_of(m.0, n), list_of(g.0, n)) by {
            assert(starts_list(list_of(st.0, n), list_of(t.0, n)));
        }
        assert forall|n: Seq<char>| #[trigger] starts_list(list_of(m.1, n), list_of(g.1, n)) by {
            assert(starts_list(list_of(st.1, n), list_of(t.1, n)));
        }
        assert forall|n: Seq<char>| #[trigger] starts_list(list_of(d, n), list_of(g.0, n)) by {
            assert(starts_list(list_of(m.0, n), list_of(g.0, n)));
            lemma_starts_trans(list_of(d, n), list_of(m.0, n), list_of(g.0, n));
        }
        assert forall|n: Seq<char>| #[trigger] starts_list(list_of(r, n), list_of(g.1, n)) by {
            assert(starts_list(list_of(m.1, n), list_of(g.1, n)));
            lemma_starts_trans(list_of(r, n), list_of(m.1, n), list_of(g.1, n));
        }
        assert forall|i: int, j: int|
            0 <= i < es.len() && 0 <= j < es[i].1.len() && real_req(#[trigger] es[i].1[j]) && pm.contains_key(es[i].1[j])
                && pm[es[i].1[j]] != es[i].0 implies {
                &&& list_of(g.0, es[i].0).contains(pm[es[i].1[j]])
                &&& list_of(g.1, pm[es[i].1[j]]).contains(es[i].0)
            } by {
            if i < es.len() - 1 {
                assert(e0[i] == es[i]);
                assert(real_req(e0[i].1[j]));
                assert(starts_list(list_of(m.0, es[i].0), list_of(g.0, es[i].0)));
                assert(starts_list(list_of(m.1, pm[es[i].1[j]]), list_of(g.1, pm[es[i].1[j]])));
                lemma_starts_refl(list_of(g.0, es[i].0));
                lemma_starts_refl(list_of(g.1, pm[es[i].1[j]]));
                lemma_starts_trans(list_of(m.0, es[i].0), list_of(g.0, es[i].0), list_of(g.0, es[i].0));
                lemma_starts_trans(list_of(m.1, pm[es[i].1[j]]), list_of(g.1, pm[es[i].1[j]]), list_of(g.1, pm[es[i].1[j]]));
            } else {
                assert(es[i] == es.last());
                assert(real_req(es.last().1[j]));
            }
        }
    }
}

/// Take in the requirements of one REQUIRES entry.
fn add_reqs(w: &mut World, pkg: &String, reqs: &Vec<String>, provider: &StringHashMap<String>)
    requires
        old(w).wf(),
    ensures
        final(w).wf(),
        ({
            let st = reqs_fold(
                (old(w).deps_map(), old(w).rdeps_map(), Set::empty()),
                pkg@,
                sviews(reqs@),
                provider_view(*provider),
            );
            final(w).deps_map() == st.0 && final(w).rdeps_map() == st.1
        }),
        final(w).catalog() == old(w).catalog(),
        final(w).names() == old(w).names(),
        final(w).manual_set() == old(w).manual_set(),
        final(w).log() == old(w).log(),
{
    let ghost pm = provider_view(*provider);
    let mut seen = StringHashSet::new();
    let mut i: usize = 0;
    let rpmlib = chars_of("rpmlib(");
    let rtld = chars_of("rtld(");
    while i < reqs.len()
        invariant
            w.wf(),
            i <= reqs@.len(),
            pm == provider_view(*provider),
            rpmlib@ == "rpmlib("@,
            rtld@ == "rtld("@,
            ({
                let st = reqs_fold(
                    (old(w).deps_map(), old(w).rdeps_map(), Set::empty()),
                    pkg@,
                    sviews(reqs@).take(i as int),
                    pm,
                );
                w.deps_map() == st.0 && w.rdeps_map() == st.1 && seen@ == st.2
            }),
            w.catalog() == old(w).catalog(),
            w.names() == old(w).names(),
            w.manual_set() == old(w).manual_set(),
            w.log() == old(w).log(),
        decreases reqs@.len() - i,
    {
        proof {
            assert(sviews(reqs@).take(i + 1).drop_last() == sviews(reqs@).take(i as int));
            assert(sviews(reqs@).take(i + 1).last() == reqs@[i as int]@);
        }
        let rc = chars_of(reqs[i].as_str());
        if !(has_prefix(&rc, &rpmlib) || has_prefix(&rc, &rtld)) {
            match provider.get(reqs[i].as_str()) {
                Some(prov) => {
                    proof {
                        assert(pm.contains_key(reqs@[i as int]@));
                        assert(pm[reqs@[i as int]@] == prov@);
                    }
                    if !prov.eq(pkg) && !seen.contains(prov.as_str()) {
                        seen.insert(prov.clone());
                        w.push_dep(pkg.as_str(), prov.clone());
                        w.push_rdep(prov.as_str(), pkg.clone());
                    }
                },
                None => {},
            }
        }
        i += 1;
    }
    proof {
        assert(sviews(reqs@).take(reqs@.len() as int) == sviews(reqs@));
    }
}

/// Resolve every package's REQUIRES through the provider map into a
/// package-to-package graph, recorded in `w`.
pub fn resolve_graph(w: &mut World, reqs_text: &str, provider: &StringHashMap<String>)
    requires
        old(w).wf(),
    ensures
        final(w).wf(),
        (final(w).deps_map(), final(w).rdeps_map()) == graph_fold(
            old(w).deps_map(),
            old(w).rdeps_map(),
            caps_entries(lines(reqs_text@)),
            provider_view(*provider),
        ),
        final(w).catalog() == old(w).catalog(),
        final(w).names() == old(w).names(),
        final(w).manual_set() == old(w).manual_set(),
        final(w).log() == old(w).log(),
{
    let es = name_caps(reqs_text);
    let ghost ev = entry_views(es@);
    let mut i: usize = 0;
    while i < es.len()
        invariant
            w.wf(),
            i <= es@.len(),
            ev == entry_views(es@),
            ev == caps_entries(lines(reqs_text@)),
            (w.deps_map(), w.rdeps_map()) == graph_fold(
                old(w).deps_map(),
                old(w).rdeps_map(),
                ev.take(i as int),
                provider_view(*provider),
            ),
            w.catalog() == old(w).catalog(),
            w.names() == old(w).names(),
            w.manual_set() == old(w).manual_set(),
            w.log() == old(w).log(),
        decreases es@.len() - i,
    {
        proof {
            assert(ev.take(i + 1).drop_last() == ev.take(i as int));
            assert(ev.take(i + 1).last() == (es@[i as int].0@, sviews(es@[i as int].1@)));
        }
        add_reqs(w, &es[i].0, &es[i].1, provider);
        i += 1;
    }
    proof {
        assert(ev.take(es@.len() as int) == ev);
    }
}

// ───────────────────────────── the world ─────────────────────────────

/// Parse the metadata dump into the packages (later lines replacing
/// earlier ones of the same name) and the install timeline, oldest first.
/// Each line is `name<TAB>version<TAB>size_bytes<TAB>installtime<TAB>summary`.
/// The world holds no manual set and no graph yet.
pub fn parse_meta(meta: &str) -> (w: World)
    ensures
        w.wf(),
        w.catalog() == meta_fold(lines(meta@)),
        w.manual_set() == Set::<Seq<char>>::empty(),
        w.log() == time_sort(meta_events(lines(meta@))),
        w.deps_map() == Map::<Seq<char>, Seq<Seq<char>>>::empty(),
        w.rdeps_map() == Map::<Seq<char>, Seq<Seq<char>>>::empty(),
{
    let ls = split_lines(&chars_of(meta));
    let ghost vl = views(ls@);
    let mut w = World::empty();
    let mut events: Vec<(i64, String)> = Vec::new();
    let mut i: usize = 0;
    while i < ls.len()
        invariant
            i <= ls@.len(),
            vl == views(ls@),
            vl == lines(meta@),
            w.wf(),
            w.catalog() == meta_fold(vl.take(i as int)),
            w.manual_set() == Set::<Seq<char>>::empty(),
            log_view(events@) == meta_events(vl.take(i as int)),
            w.deps_map() == Map::<Seq<char>, Seq<Seq<char>>>::empty(),
            w.rdeps_map() == Map::<Seq<char>, Seq<Seq<char>>>::empty(),
            w.log() == Seq::<(i64, Seq<char>)>::empty(),
        decreases ls@.len() - i,
    {
        proof {
            assert(vl.take(i + 1).drop_last() == vl.take(i as int));
            assert(vl.take(i + 1).last() == ls@[i as int]@);
            assert(vl[i as int] == ls@[i as int]@);
        }
        match meta_line(&ls[i]) {
            Some(p) => {
                let ghost pv = p@;
                match p.install_epoch {
                    Some(e) => {
                        let ghost before = log_view(events@);
                        events.push((e, p.name.clone()));
                        proof {
                            assert(log_view(events@) =~= before.push((e, pv.name)));
                        }
                    },
                    None => {},
                }
                w.insert_package(p);
            },
            None => {},
        }
        i += 1;
    }
    proof {
        assert(vl.take(ls@.len() as int) == vl);
    }
    w.set_install_log(sort_events(events));
    w
}

/// Add to the manual set every package of `w` that `users` names.
fn mark_listed(w: &mut World, users: &StringHashSet)
    requires
        old(w).wf(),
    ensures
        final(w).wf(),
        final(w).manual_set() == old(w).manual_set().union(
            Set::new(|n: Seq<char>| old(w).catalog().contains_key(n) && users@.contains(n)),
        ),
        final(w).pkgs() == old(w).pkgs(),
        final(w).catalog() == old(w).catalog(),
        final(w).deps_map() == old(w).deps_map(),
        final(w).rdeps_map() == old(w).rdeps_map(),
        final(w).log() == old(w).log(),
{
    let ghost names = w.names();
    let ghost m0 = w.manual_set();
    proof {
        lemma_keyed(*w);
    }
    let n = w.packages().len();
    let mut i: usize = 0;
    while i < n
        invariant
            w.wf(),
            n == names.len(),
            i <= n,
            w.names() == names,
            w.pkgs() == old(w).pkgs(),
            w.catalog() == old(w).catalog(),
            forall|x: Seq<char>| names.contains(x) <==> old(w).catalog().contains_key(x),
            w.manual_set() == m0.union(Set::new(|x: Seq<char>| names.take(i as int).contains(x) && users@.contains(x))),
            m0 == old(w).manual_set(),
            w.deps_map() == old(w).deps_map(),
            w.rdeps_map() == old(w).rdeps_map(),
            w.log() == old(w).log(),
        decreases n - i,
    {
        let ps = w.packages();
        proof {
            assert(ps@.map_values(|p: Package| p.name@)[i as int] == ps@[i as int].name@);
            assert(names.take(i + 1) == names.take(i as int).push(names[i as int]));
        }
        proof {
            let t = names.take(i as int);
            let t1 = names.take(i + 1);
            assert forall|x: Seq<char>| t1.contains(x) <==> (t.contains(x) || x == names[i as int]) by {
                if t1.contains(x) {
                    let k = choose|k: int| 0 <= k < t1.len() && t1[k] == x;
                    if k < i {
                        assert(t[k] == x);
                    }
                }
                if t.contains(x) {
                    let k = choose|k: int| 0 <= k < t.len() && t[k] == x;
                    assert(t1[k] == x);
                }
                if x == names[i as int] {
                    assert(t1[i as int] == x);
                }
            }
        }
        if users.contains(ps[i].name.as_str()) {
            let name = ps[i].name.clone();
            w.mark_manual(name);
            proof {
                assert(w.manual_set() =~= m0.union(
                    Set::new(|x: Seq<char>| names.take(i + 1).contains(x) && users@.contains(x)),
                ));
            }
        } else {
            proof {
                assert(w.manual_set() =~= m0.union(
                    Set::new(|x: Seq<char>| names.take(i + 1).contains(x) && users@.contains(x)),
                ));
            }
        }
        i += 1;
    }
    proof {
        assert(names.take(n as int) == names);
        assert(w.manual_set() =~= m0.union(
            Set::new(|x: Seq<char>| old(w).catalog().contains_key(x) && users@.contains(x)),
        ));
    }
}

/// Assemble a [`World`] from the raw rpm/dnf dumps: packages and install
/// times from `meta`, the manual flag from `userinstalled`, and the graph
/// from `requires` resolved through `provides` and `files`.
pub fn build(meta: &str, provides: &str, reqs_text: &str, files: &str, userinstalled: &str) -> (w: World)
    ensures
        w.wf(),
        w.catalog() == meta_fold(lines(meta@)).map_values(
            |p: PackageView| PackageView { manual: listed_names(lines(userinstalled@)).contains(p.name), ..p },
        ),
        w.manual_set() == Set::new(
            |n: Seq<char>| meta_fold(lines(meta@)).contains_key(n) && listed_names(lines(userinstalled@)).contains(n),
        ),
        w.log() == time_sort(meta_events(lines(meta@))),
        (w.deps_map(), w.rdeps_map()) == graph_fold(
            Map::empty(),
            Map::empty(),
            caps_entries(lines(reqs_text@)),
            provider_fold(caps_entries(lines(provides@)) + caps_entries(lines(files@))),
        ),
{
    let users = parse_name_lines(userinstalled);
    let mut w = parse_meta(meta);
    mark_listed(&mut w, &users);
    set_manual_flags(&mut w, &users);
    proof {
        assert(w.manual_set() =~= Set::new(
            |n: Seq<char>| meta_fold(lines(meta@)).contains_key(n) && listed_names(lines(userinstalled@)).contains(n),
        ));
    }
    let provider = provider_map(provides, files);
    resolve_graph(&mut w, reqs_text, &provider);
    w
}

// ───────────────────────────── upgrades ─────────────────────────────

/// The `(name, version)` pairs of `dnf repoquery --upgrades` lines
/// (`name<TAB>evr`), both trimmed, empty versions dropped.
pub open spec fn up_pairs(ls: Seq<Seq<char>>) -> Seq<(Seq<char>, Seq<char>)>
    decreases ls.len(),
{
    if ls.len() == 0 {
        Seq::empty()
    } else {
        let r = up_pairs(ls.drop_last());
        match split_once(ls.last(), "\t"@) {
            Some(kv) => if trim(kv.1).len() > 0 {
                r.push((trim(kv.0), trim(kv.1)))
            } else {
                r
            },
            None => r,
        }
    }
}

/// Apply `dnf repoquery --upgrades` output (`name<TAB>evr`) as pending
/// upgrades.
pub fn apply_upgradable(world: &mut World, up: &str)
    requires
        old(world).wf(),
    ensures
        final(world).wf(),
        final(world).catalog() == with_candidates(old(world).catalog(), up_pairs(lines(up@))),
        final(world).names() == old(world).names(),
        final(world).deps_map() == old(world).deps_map(),
        final(world).rdeps_map() == old(world).rdeps_map(),
        final(world).manual_set() == old(world).manual_set(),
        final(world).log() == old(world).log(),
{
    let ls = split_lines(&chars_of(up));
    let tab = chars_of("\t");
    let mut ups: Vec<(String, String)> = Vec::new();
    let mut i: usize = 0;
    while i < ls.len()
        invariant
            i <= ls@.len(),
            views(ls@) == lines(up@),
            tab@ == "\t"@,
            pair_views(ups@) == up_pairs(views(ls@).take(i as int)),
        decreases ls@.len() - i,
    {
        let ghost vl = views(ls@);
        proof {
            assert(vl.take(i + 1).drop_last() == vl.take(i as int));
            assert(vl.take(i + 1).last() == ls@[i as int]@);
        }
        match split_once_at(&ls[i], &tab) {
            Some(kv) => {
                let evr = trim_chars(&kv.1);
                if evr.len() > 0 {
                    let ghost before = pair_views(ups@);
                    ups.push((string_of(&trim_chars(&kv.0)), string_of(&evr)));
                    proof {
                        assert(pair_views(ups@) =~= before.push((trim(kv.0@), evr@)));
                    }
                }
            },
            None => {},
        }
        i += 1;
    }
    proof {
        assert(views(ls@).take(ls@.len() as int) == views(ls@));
    }
    world.apply_candidates(&ups);
}

} // verus!
