//! The apt/dpkg backend: Debian, Ubuntu, Mint and friends.
//!
//! The whole [`World`] comes from a few bulk queries, parsed once:
//!
//!   * `apt-mark showmanual`         → which packages the user chose
//!   * `dpkg-query -W` (metadata)    → version, size, synopsis
//!   * `dpkg-query -W` (deps)        → the dependency graph
//!   * `apt list --upgradable`       → pending upgrades
//!   * `apt list --installed` and the apt history → where packages came from
//!   * the dpkg logs                 → install dates and "same session"

use vstd::prelude::*;
use vstd::string::*;
use vstd::hash_set::StringHashSet;
use crate::text::{
    lines, split_on, splitn, first_match, starts_with, contains, trim, words, cut_at, views, sviews,
    chars_of, string_of, split_pieces, splitn_pieces, split_lines, split_words, trim_chars,
    cut_at_any, has_prefix, has_infix, same_text, find_from, slice_vec, parse_u64,
    parse_u64_spec, lemma_first_match, lemma_split_on_nonempty, utf8_len, utf8_shorter, lemma_split_char_concat,
};
use crate::model::{
    World, Package, PackageView, Source, Origin, log_view, list_of, pair_views, with_candidates, starts_list,
    lemma_starts_refl, lemma_starts_trans, lemma_starts_push,
};
use crate::order::{time_sort, sort_events};
use crate::backend::{naive_utc_seconds, parse_naive_utc, date_or_unknown, epoch_to_date};
use crate::backend::dnf::{listed_names, parse_name_lines};
use crate::model::copy_opt;

verus! {

broadcast use vstd::hash_map::group_hash_map_axioms;

/// The apt backend.
pub struct Apt;

impl Apt {
    /// Short label for messages.
    pub fn name(&self) -> (s: &'static str)
        ensures
            s@ == "apt"@,
    {
        "apt"
    }
}

// ───────────────────────────── `apt list` ─────────────────────────────

/// The package name of an `apt list` line (`name/suite ver arch [flags]`):
/// `None` for the "Listing..." header, an empty line or an empty name.
pub open spec fn list_name(line: Seq<char>) -> Option<Seq<char>> {
    if starts_with(line, "Listing"@) || line.len() == 0 || split_on(line, "/"@)[0].len() == 0 {
        None
    } else {
        Some(split_on(line, "/"@)[0])
    }
}

/// An `apt list --installed` line tagged `local`: what follows its first
/// `[` (up to any second one) mentions "local".
pub open spec fn local_line(line: Seq<char>) -> bool {
    list_name(line) is Some && split_on(line, "["@).len() > 1 && contains(split_on(line, "["@)[1], "local"@)
}

/// The names `apt list --installed` tags `[installed,local]`: installed but
/// offered by no configured repository.
pub open spec fn local_names(ls: Seq<Seq<char>>) -> Set<Seq<char>> {
    Set::new(|n: Seq<char>| exists|i: int| 0 <= i < ls.len() && local_line(#[trigger] ls[i]) && list_name(ls[i]) == Some(n))
}

/// The name of an `apt list` line, as [`list_name`] reads it.
fn list_line_name(line: &[char]) -> (r: Option<Vec<char>>)
    ensures
        match list_name(line@) {
            Some(n) => r matches Some(v) && v@ == n,
            None => r is None,
        },
{
    let slash = chars_of("/");
    proof {
        reveal_strlit("/");
    }
    if has_prefix(line, &chars_of("Listing")) || line.len() == 0 {
        return None;
    }
    let parts = split_pieces(line, &slash);
    proof {
        lemma_split_on_nonempty(line@, slash@);
        assert(views(parts@)[0] == parts@[0]@);
    }
    if parts[0].len() == 0 {
        None
    } else {
        Some(parts[0].clone())
    }
}

/// Parse `apt list --installed` and return the names tagged
/// `[installed,local]`, i.e. installed but not offered by any configured
/// repository.
pub fn parse_installed_local(text: &str) -> (r: StringHashSet)
    ensures
        r@ == local_names(lines(text@)),
{
    let ls = split_lines(&chars_of(text));
    let bracket = chars_of("[");
    let local = chars_of("local");
    proof {
        reveal_strlit("[");
    }
    let mut set = StringHashSet::new();
    let mut i: usize = 0;
    while i < ls.len()
        invariant
            i <= ls@.len(),
            views(ls@) == lines(text@),
            bracket@ == "["@,
            bracket@.len() == 1,
            local@ == "local"@,
            forall|n: Seq<char>|
                set@.contains(n) <==> exists|k: int|
                    0 <= k < i && local_line(#[trigger] views(ls@)[k]) && list_name(views(ls@)[k]) == Some(n),
        decreases ls@.len() - i,
    {
        let ghost l = views(ls@)[i as int];
        proof {
            assert(l == ls@[i as int]@);
        }
        match list_line_name(&ls[i]) {
            Some(name) => {
                let parts = split_pieces(&ls[i], &bracket);
                proof {
                    if parts.len() > 1 {
                        assert(views(parts@)[1] == parts@[1]@);
                    }
                }
                if parts.len() > 1 && has_infix(&parts[1], &local) {
                    set.insert(string_of(&name));
                }
            },
            None => {},
        }
        proof {
            assert forall|n: Seq<char>|
                set@.contains(n) <==> exists|k: int|
                    0 <= k < i + 1 && local_line(#[trigger] views(ls@)[k]) && list_name(views(ls@)[k]) == Some(n) by {
                if local_line(l) && list_name(l) == Some(n) {
                    assert(local_line(views(ls@)[i as int]));
                }
            }
        }
        i += 1;
    }
    proof {
        assert(set@ =~= local_names(lines(text@)));
    }
    set
}

/// The `(name, version)` pairs of `apt list --upgradable` lines
/// (`pkg/suite 2.0 amd64 [upgradable from: 1.0]`), empty versions dropped.
pub open spec fn upgradable_pairs(ls: Seq<Seq<char>>) -> Seq<(Seq<char>, Seq<char>)>
    decreases ls.len(),
{
    if ls.len() == 0 {
        Seq::empty()
    } else {
        let r = upgradable_pairs(ls.drop_last());
        let l = ls.last();
        let cand = if words(l).len() > 1 { words(l)[1] } else { Seq::empty() };
        if list_name(l) is Some && cand.len() > 0 {
            r.push((list_name(l).unwrap(), cand))
        } else {
            r
        }
    }
}

/// The pending upgrades `apt list --upgradable` reports.
pub fn parse_upgradable(text: &str) -> (r: Vec<(String, String)>)
    ensures
        pair_views(r@) == upgradable_pairs(lines(text@)),
{
    let ls = split_lines(&chars_of(text));
    let mut ups: Vec<(String, String)> = Vec::new();
    let mut i: usize = 0;
    while i < ls.len()
        invariant
            i <= ls@.len(),
            views(ls@) == lines(text@),
            pair_views(ups@) == upgradable_pairs(views(ls@).take(i as int)),
        decreases ls@.len() - i,
    {
        let ghost vl = views(ls@);
        proof {
            assert(vl.take(i + 1).drop_last() == vl.take(i as int));
            assert(vl.take(i + 1).last() == ls@[i as int]@);
        }
        let ws = split_words(&ls[i]);
        let cand: Vec<char> = if ws.len() > 1 { ws[1].clone() } else { Vec::new() };
        proof {
            if ws.len() > 1 {
                assert(views(ws@)[1] == ws@[1]@);
            }
        }
        match list_line_name(&ls[i]) {
            Some(name) => {
                if cand.len() > 0 {
                    let ghost before = pair_views(ups@);
                    ups.push((string_of(&name), string_of(&cand)));
                    proof {
                        assert(pair_views(ups@) =~= before.push((name@, cand@)));
                    }
                }
            },
            None => {},
        }
        i += 1;
    }
    proof {
        assert(views(ls@).take(ls@.len() as int) == views(ls@));
    }
    ups
}

// ───────────────────────────── apt history ─────────────────────────────

/// The explicitly requested names of history `Install:` entries, skipping
/// `, automatic` dependencies: each entry's text before its first `:` or
/// space, empty ones dropped.
pub open spec fn targets_of_entries(es: Seq<Seq<char>>) -> Seq<Seq<char>>
    decreases es.len(),
{
    if es.len() == 0 {
        Seq::empty()
    } else {
        let r = targets_of_entries(es.drop_last());
        let e = es.last();
        let head = cut_at(e, ": "@);
        if !contains(e, ", automatic"@) && head.len() > 0 {
            r.push(head)
        } else {
            r
        }
    }
}

/// The explicitly requested names of an apt history `Install:` line, whose
/// entries are separated by `"), "` (versions in parentheses hold commas).
pub open spec fn install_targets(line: Seq<char>) -> Seq<Seq<char>> {
    targets_of_entries(split_on(line, "), "@))
}

/// From an apt history `Install:` line, return the explicitly-requested
/// package names (skipping `, automatic` dependencies).
pub fn parse_install_targets(line: &str) -> (r: Vec<String>)
    ensures
        sviews(r@) == install_targets(line@),
{
    let sep = chars_of("), ");
    let auto = chars_of(", automatic");
    let stops = chars_of(": ");
    proof {
        reveal_strlit("), ");
    }
    let es = split_pieces(&chars_of(line), &sep);
    let mut r: Vec<String> = Vec::new();
    let mut i: usize = 0;
    while i < es.len()
        invariant
            i <= es@.len(),
            views(es@) == split_on(line@, "), "@),
            auto@ == ", automatic"@,
            stops@ == ": "@,
            sviews(r@) == targets_of_entries(views(es@).take(i as int)),
        decreases es@.len() - i,
    {
        let ghost ve = views(es@);
        proof {
            assert(ve.take(i + 1).drop_last() == ve.take(i as int));
            assert(ve.take(i + 1).last() == es@[i as int]@);
        }
        let e = &es[i];
        if !has_infix(e, &auto) {
            let head = cut_at_any(e, &stops);
            if head.len() > 0 {
                let ghost before = sviews(r@);
                r.push(string_of(&head));
                proof {
                    assert(sviews(r@) =~= before.push(head@));
                }
            }
        }
        i += 1;
    }
    proof {
        assert(views(es@).take(es@.len() as int) == views(es@));
    }
    r
}

/// The history entry's lines include a `Commandline:` naming a `.deb`.
pub open spec fn deb_entry(ls: Seq<Seq<char>>) -> bool {
    exists|i: int|
        0 <= i < ls.len() && starts_with(#[trigger] ls[i], "Commandline:"@) && contains(
            ls[i].skip(12),
            ".deb"@,
        )
}

/// The trimmed rest of the entry's last `Install:` line, empty if none.
pub open spec fn install_line(ls: Seq<Seq<char>>) -> Seq<char>
    decreases ls.len(),
{
    if ls.len() == 0 {
        Seq::empty()
    } else if !starts_with(ls.last(), "Commandline:"@) && starts_with(ls.last(), "Install:"@) {
        trim(ls.last().skip(8))
    } else {
        install_line(ls.drop_last())
    }
}

/// The names a history file's `.deb` entries installed, entry by entry.
pub open spec fn deb_targets(es: Seq<Seq<char>>) -> Seq<Seq<char>>
    decreases es.len(),
{
    if es.len() == 0 {
        Seq::empty()
    } else {
        let r = deb_targets(es.drop_last());
        let ls = lines(es.last());
        if deb_entry(ls) {
            r + install_targets(install_line(ls))
        } else {
            r
        }
    }
}

/// The names that the apt history files `files` show installed from a
/// local `.deb`.
pub open spec fn deb_installs(files: Seq<Seq<char>>) -> Set<Seq<char>> {
    Set::new(
        |n: Seq<char>|
            exists|k: int| 0 <= k < files.len() && #[trigger] deb_targets(split_on(files[k], "\n\n"@)).contains(n),
    )
}

/// Whether a history entry is a `.deb` install, and its `Install:` text.
fn scan_entry(entry: &[char]) -> (r: (bool, Vec<char>))
    ensures
        r.0 == deb_entry(lines(entry@)),
        r.1@ == install_line(lines(entry@)),
{
    let ls = split_lines(entry);
    let cmd = chars_of("Commandline:");
    let inst = chars_of("Install:");
    let deb = chars_of(".deb");
    proof {
        reveal_strlit("Commandline:");
        reveal_strlit("Install:");
        assert(cmd@.len() == 12);
        assert(inst@.len() == 8);
    }
    let mut is_deb = false;
    let mut line: Vec<char> = Vec::new();
    let mut i: usize = 0;
    while i < ls.len()
        invariant
            i <= ls@.len(),
            views(ls@) == lines(entry@),
            cmd@ == "Commandline:"@,
            cmd@.len() == 12,
            inst@ == "Install:"@,
            inst@.len() == 8,
            deb@ == ".deb"@,
            is_deb == deb_entry(views(ls@).take(i as int)),
            line@ == install_line(views(ls@).take(i as int)),
        decreases ls@.len() - i,
    {
        let ghost vl = views(ls@);
        let ghost t0 = vl.take(i as int);
        let ghost t1 = vl.take(i + 1);
        proof {
            assert(t1.drop_last() == t0);
            assert(t1.last() == ls@[i as int]@);
            assert(t1[i as int] == ls@[i as int]@);
        }
        let l = &ls[i];
        if has_prefix(l, &cmd) {
            let rest = slice_vec(l, 12, l.len());
            if has_infix(&rest, &deb) {
                is_deb = true;
            }
        } else if has_prefix(l, &inst) {
            line = trim_chars(&slice_vec(l, 8, l.len()));
        }
        proof {
            assert(deb_entry(t1) == (deb_entry(t0) || (starts_with(t1[i as int], "Commandline:"@) && contains(
                t1[i as int].skip(12),
                ".deb"@,
            )))) by {
                if deb_entry(t1) {
                    let j = choose|j: int|
                        0 <= j < t1.len() && starts_with(#[trigger] t1[j], "Commandline:"@) && contains(
                            t1[j].skip(12),
                            ".deb"@,
                        );
                    if j < i {
                        assert(t0[j] == t1[j]);
                    }
                }
                if deb_entry(t0) {
                    let j = choose|j: int|
                        0 <= j < t0.len() && starts_with(#[trigger] t0[j], "Commandline:"@) && contains(
                            t0[j].skip(12),
                            ".deb"@,
                        );
                    assert(t1[j] == t0[j]);
                }
            }
            assert(l@.skip(12) == l@.subrange(12, l@.len() as int));
            assert(l@.skip(8) == l@.subrange(8, l@.len() as int));
        }
        i += 1;
    }
    proof {
        assert(views(ls@).take(ls@.len() as int) == views(ls@));
    }
    (is_deb, line)
}

/// Scan the apt history logs (current, rotated and inflated) for packages
/// installed from a local `.deb` file, so a deliberate sideload can be told
/// apart from a package whose repo simply vanished.
pub fn parse_deb_installs(files: &[String]) -> (r: StringHashSet)
    ensures
        r@ == deb_installs(sviews(files@)),
{
    let sep = chars_of("\n\n");
    proof {
        reveal_strlit("\n\n");
    }
    let mut set = StringHashSet::new();
    let mut k: usize = 0;
    while k < files.len()
        invariant
            k <= files@.len(),
            sep@ == "\n\n"@,
            sep@.len() == 2,
            forall|n: Seq<char>|
                set@.contains(n) <==> exists|j: int|
                    0 <= j < k && #[trigger] deb_targets(split_on(sviews(files@)[j], "\n\n"@)).contains(n),
        decreases files@.len() - k,
    {
        let es = split_pieces(&chars_of(files[k].as_str()), &sep);
        let ghost fk = sviews(files@)[k as int];
        proof {
            assert(fk == files@[k as int]@);
        }
        let ghost set0 = set@;
        let mut i: usize = 0;
        while i < es.len()
            invariant
                i <= es@.len(),
                views(es@) == split_on(fk, "\n\n"@),
                forall|n: Seq<char>|
                    #[trigger] set@.contains(n) <==> (set0.contains(n) || deb_targets(views(es@).take(i as int)).contains(n)),
            decreases es@.len() - i,
        {
            let ghost ve = views(es@);
            proof {
                assert(ve.take(i + 1).drop_last() == ve.take(i as int));
                assert(ve.take(i + 1).last() == es@[i as int]@);
            }
            let (is_deb, line) = scan_entry(&es[i]);
            let ghost set_i = set@;
            proof {
                assert(forall|n: Seq<char>| set_i.contains(n) <==> (set0.contains(n) || deb_targets(ve.take(i as int)).contains(n)));
            }
            if is_deb {
                let targets = parse_install_targets(string_of(&line).as_str());
                let ghost prev = deb_targets(ve.take(i as int));
                let ghost tv = sviews(targets@);
                let ghost set1 = set@;
                let mut t: usize = 0;
                while t < targets.len()
                    invariant
                        t <= targets@.len(),
                        tv == sviews(targets@),
                        forall|n: Seq<char>| #[trigger] set@.contains(n) <==> (set1.contains(n) || tv.take(t as int).contains(n)),
                    decreases targets@.len() - t,
                {
                    let ghost sb = set@;
                    set.insert(targets[t].clone());
                    proof {
                        assert(set@ == sb.insert(targets@[t as int]@));
                        assert(tv.take(t + 1) == tv.take(t as int).push(targets@[t as int]@));
                        assert forall|n: Seq<char>| #[trigger] set@.contains(n) <==> (set1.contains(n) || tv.take(t + 1).contains(n)) by {
                            assert(sb.contains(n) <==> (set1.contains(n) || tv.take(t as int).contains(n)));
                            if tv.take(t + 1).contains(n) && n != targets@[t as int]@ {
                                let j = choose|j: int| 0 <= j < t + 1 && #[trigger] tv.take(t + 1)[j] == n;
                                assert(tv.take(t as int)[j] == n);
                            }
                            if tv.take(t as int).contains(n) {
                                let j = choose|j: int| 0 <= j < t && #[trigger] tv.take(t as int)[j] == n;
                                assert(tv.take(t + 1)[j] == n);
                            }
                            if n == targets@[t as int]@ {
                                assert(tv.take(t + 1)[t as int] == n);
                            }
                        }
                    }
                    t += 1;
                }
                proof {
                    assert(tv.take(targets@.len() as int) == tv);
                    assert(deb_targets(ve.take(i + 1)) == prev + tv);
                    assert forall|n: Seq<char>| (prev + tv).contains(n) <==> (prev.contains(n) || tv.contains(n)) by {
                        if (prev + tv).contains(n) {
                            let j = choose|j: int| 0 <= j < (prev + tv).len() && #[trigger] (prev + tv)[j] == n;
                            if j < prev.len() {
                                assert(prev[j] == n);
                            } else {
                                assert(tv[j - prev.len()] == n);
                            }
                        }
                        if prev.contains(n) {
                            let j = choose|j: int| 0 <= j < prev.len() && #[trigger] prev[j] == n;
                            assert((prev + tv)[j] == n);
                        }
                        if tv.contains(n) {
                            let j = choose|j: int| 0 <= j < tv.len() && #[trigger] tv[j] == n;
                            assert((prev + tv)[prev.len() + j] == n);
                        }
                    }
                }
            } else {
                proof {
                    assert(deb_targets(ve.take(i + 1)) == deb_targets(ve.take(i as int)));
                }
            }
            proof {
                assert forall|n: Seq<char>| #[trigger] set@.contains(n) <==> (set0.contains(n) || deb_targets(ve.take(i + 1)).contains(n)) by {
                    assert(set_i.contains(n) <==> (set0.contains(n) || deb_targets(ve.take(i as int)).contains(n)));
                }
            }
            i += 1;
        }
        proof {
            assert(views(es@).take(es@.len() as int) == views(es@));
            assert forall|n: Seq<char>|
                set@.contains(n) <==> exists|j: int|
                    0 <= j < k + 1 && #[trigger] deb_targets(split_on(sviews(files@)[j], "\n\n"@)).contains(n) by {
                assert(set@.contains(n) <==> (set0.contains(n) || deb_targets(views(es@)).contains(n)));
                assert(set0.contains(n) <==> exists|j: int|
                    0 <= j < k && #[trigger] deb_targets(split_on(sviews(files@)[j], "\n\n"@)).contains(n));
                if deb_targets(split_on(fk, "\n\n"@)).contains(n) {
                    assert(deb_targets(split_on(sviews(files@)[k as int], "\n\n"@)).contains(n));
                }
            }
        }
        k += 1;
    }
    proof {
        assert(set@ =~= deb_installs(sviews(files@)));
    }
    set
}

// ───────────────────────────── dependencies ─────────────────────────────

/// A `Depends`/`Recommends` entry as a bare package name: trimmed, the
/// first alternative kept, the version constraint and the `:arch`
/// qualifier dropped.
pub open spec fn dep_entry_name(raw: Seq<char>) -> Seq<char> {
    let s1 = trim(raw);
    let s2 = match first_match(s1, "|"@) {
        Some(i) => trim(s1.take(i)),
        None => s1,
    };
    let s3 = match first_match(s2, "("@) {
        Some(i) => trim(s2.take(i)),
        None => s2,
    };
    trim(cut_at(s3, ":"@))
}

/// The names of comma-separated dependency entries, empty ones dropped.
pub open spec fn dep_entry_names(es: Seq<Seq<char>>) -> Seq<Seq<char>>
    decreases es.len(),
{
    if es.len() == 0 {
        Seq::empty()
    } else {
        let r = dep_entry_names(es.drop_last());
        let n = dep_entry_name(es.last());
        if n.len() > 0 {
            r.push(n)
        } else {
            r
        }
    }
}

/// The package names of a combined `Depends,Recommends` field.
pub open spec fn dep_field(field: Seq<char>) -> Seq<Seq<char>> {
    dep_entry_names(split_on(field, ","@))
}

/// `s` up to the first `c`, trimmed; all of `s` when there is none.
fn before_char(s: Vec<char>, c: char) -> (r: Vec<char>)
    ensures
        r@ == match first_match(s@, seq![c]) {
            Some(i) => trim(s@.take(i)),
            None => s@,
        },
{
    let p = vec![c];
    proof {
        assert(p@ == seq![c]);
        assert(s@.skip(0) == s@);
        lemma_first_match(s@, seq![c]);
    }
    match find_from(&s, &p, 0) {
        Some(i) => {
            let t = slice_vec(&s, 0, i);
            proof {
                assert(t@ == s@.take(i as int));
            }
            trim_chars(&t)
        },
        None => s,
    }
}

/// Parse a combined `Depends,Recommends` field into bare package names.
///
/// Handles what dpkg packs in: version constraints `(>= 1.2)`,
/// alternatives `a | b` (the first is kept), and multiarch qualifiers
/// `name:amd64` (the arch is dropped so the name matches the package map).
pub fn parse_dep_field(field: &str) -> (r: Vec<String>)
    ensures
        sviews(r@) == dep_field(field@),
{
    let comma = chars_of(",");
    let colon = chars_of(":");
    proof {
        reveal_strlit(",");
    }
    let es = split_pieces(&chars_of(field), &comma);
    let mut r: Vec<String> = Vec::new();
    let mut i: usize = 0;
    while i < es.len()
        invariant
            i <= es@.len(),
            views(es@) == split_on(field@, ","@),
            colon@ == ":"@,
            sviews(r@) == dep_entry_names(views(es@).take(i as int)),
        decreases es@.len() - i,
    {
        let ghost ve = views(es@);
        proof {
            assert(ve.take(i + 1).drop_last() == ve.take(i as int));
            assert(ve.take(i + 1).last() == es@[i as int]@);
            reveal_strlit("|");
            reveal_strlit("(");
            assert("|"@ == seq!['|']);
            assert("("@ == seq!['(']);
        }
        let s1 = trim_chars(&es[i]);
        let s2 = before_char(s1, '|');
        let s3 = before_char(s2, '(');
        let n = trim_chars(&cut_at_any(&s3, &colon));
        if n.len() > 0 {
            let ghost before = sviews(r@);
            r.push(string_of(&n));
            proof {
                assert(sviews(r@) =~= before.push(n@));
            }
        }
        i += 1;
    }
    proof {
        assert(views(es@).take(es@.len() as int) == views(es@));
    }
    r
}

/// One dependency `dep` of `pkg` taken in, once per line and never `pkg`
/// itself.
pub open spec fn dep_step(
    st: (Map<Seq<char>, Seq<Seq<char>>>, Map<Seq<char>, Seq<Seq<char>>>, Set<Seq<char>>),
    pkg: Seq<char>,
    dep: Seq<char>,
) -> (Map<Seq<char>, Seq<Seq<char>>>, Map<Seq<char>, Seq<Seq<char>>>, Set<Seq<char>>) {
    if dep == pkg || st.2.contains(dep) {
        st
    } else {
        (st.0.insert(pkg, list_of(st.0, pkg).push(dep)), st.1.insert(dep, list_of(st.1, dep).push(pkg)), st.2.insert(dep))
    }
}

/// The dependencies `ds` of `pkg` taken in, in order.
pub open spec fn deps_fold(
    st: (Map<Seq<char>, Seq<Seq<char>>>, Map<Seq<char>, Seq<Seq<char>>>, Set<Seq<char>>),
    pkg: Seq<char>,
    ds: Seq<Seq<char>>,
) -> (Map<Seq<char>, Seq<Seq<char>>>, Map<Seq<char>, Seq<Seq<char>>>, Set<Seq<char>>)
    decreases ds.len(),
{
    if ds.len() == 0 {
        st
    } else {
        dep_step(deps_fold(st, pkg, ds.drop_last()), pkg, ds.last())
    }
}

/// Field `i` of a split line, empty past the end.
pub open spec fn piece(f: Seq<Seq<char>>, i: int) -> Seq<char> {
    if 0 <= i < f.len() {
        f[i]
    } else {
        Seq::empty()
    }
}

/// The dependency maps after the `${Package}\t${Depends}\t${Recommends}`
/// lines `ls`.
pub open spec fn dep_lines_fold(ls: Seq<Seq<char>>) -> (Map<Seq<char>, Seq<Seq<char>>>, Map<Seq<char>, Seq<Seq<char>>>)
    decreases ls.len(),
{
    if ls.len() == 0 {
        (Map::empty(), Map::empty())
    } else {
        let g = dep_lines_fold(ls.drop_last());
        let f = splitn(ls.last(), 3, "\t"@);
        if f.len() == 0 || f[0].len() == 0 {
            g
        } else {
            let st = deps_fold((g.0, g.1, Set::empty()), f[0], dep_field(piece(f, 1) + ","@ + piece(f, 2)));
            (st.0, st.1)
        }
    }
}

/// The names of two runs of entries are those of the first, then those of
/// the second.
proof fn lemma_entry_names_concat(x: Seq<Seq<char>>, y: Seq<Seq<char>>)
    ensures
        dep_entry_names(x + y) == dep_entry_names(x) + dep_entry_names(y),
    decreases y.len(),
{
    if y.len() == 0 {
        assert(x + y =~= x);
        assert(dep_entry_names(x) + dep_entry_names(y) =~= dep_entry_names(x));
    } else {
        lemma_entry_names_concat(x, y.drop_last());
        assert((x + y).drop_last() =~= x + y.drop_last());
        assert((x + y).last() == y.last());
        let n = dep_entry_name(y.last());
        if n.len() > 0 {
            assert(dep_entry_names(x) + dep_entry_names(y) =~= (dep_entry_names(x) + dep_entry_names(y.drop_last())).push(n));
        } else {
            assert(dep_entry_names(y) == dep_entry_names(y.drop_last()));
        }
    }
}

/// The names of `d,r` are those of `d`, then those of `r`.
proof fn lemma_dep_field_joined(d: Seq<char>, r: Seq<char>)
    ensures
        dep_field(d + ","@ + r) == dep_field(d) + dep_field(r),
{
    reveal_strlit(",");
    assert(","@ =~= seq![',']);
    lemma_split_char_concat(d, r, ',');
    lemma_entry_names_concat(split_on(d, ","@), split_on(r, ","@));
}

/// What one line's dependencies do to the maps, given that every name
/// already taken from this line is linked both ways: lists only grow, that
/// stays so, and each dependency other than the package itself links the
/// two.
proof fn lemma_deps_fold_links(
    st: (Map<Seq<char>, Seq<Seq<char>>>, Map<Seq<char>, Seq<Seq<char>>>, Set<Seq<char>>),
    pkg: Seq<char>,
    ds: Seq<Seq<char>>,
)
    requires
        forall|y: Seq<char>| #[trigger] st.2.contains(y) ==> list_of(st.0, pkg).contains(y) && list_of(st.1, y).contains(pkg),
    ensures
        ({
            let r = deps_fold(st, pkg, ds);
            &&& forall|n: Seq<char>| #[trigger] starts_list(list_of(st.0, n), list_of(r.0, n))
            &&& forall|n: Seq<char>| #[trigger] starts_list(list_of(st.1, n), list_of(r.1, n))
            &&& forall|y: Seq<char>| #[trigger] r.2.contains(y) ==> list_of(r.0, pkg).contains(y) && list_of(r.1, y).contains(pkg)
            &&& forall|j: int|
                0 <= j < ds.len() && #[trigger] ds[j] != pkg ==> {
                    &&& list_of(r.0, pkg).contains(ds[j])
                    &&& list_of(r.1, ds[j]).contains(pkg)
                }
        }),
    decreases ds.len(),
{
    let r = deps_fold(st, pkg, ds);
    if ds.len() == 0 {
        assert forall|n: Seq<char>| #[trigger] starts_list(list_of(st.0, n), list_of(r.0, n)) by {
            lemma_starts_refl(list_of(st.0, n));
        }
        assert forall|n: Seq<char>| #[trigger] starts_list(list_of(st.1, n), list_of(r.1, n)) by {
            lemma_starts_refl(list_of(st.1, n));
        }
    } else {
        let d0 = ds.drop_last();
        lemma_deps_fold_links(st, pkg, d0);
        let m = deps_fold(st, pkg, d0);
        let dep = ds.last();
        assert(r == dep_step(m, pkg, dep));
        let applies = !(dep == pkg || m.2.contains(dep));
        assert forall|n: Seq<char>| #[trigger] starts_list(list_of(m.0, n), list_of(r.0, n)) by {
            if applies && n == pkg {
                lemma_starts_push(list_of(m.0, n), dep);
            } else {
                lemma_starts_refl(list_of(m.0, n));
            }
        }
        assert forall|n: Seq<char>| #[trigger] starts_list(list_of(m.1, n), list_of(r.1, n)) by {
            if applies && n == dep {
                lemma_starts_push(list_of(m.1, n), pkg);
            } else {
                lemma_starts_refl(list_of(m.1, n));
            }
        }
        assert forall|n: Seq<char>| #[trigger] starts_list(list_of(st.0, n), list_of(r.0, n)) by {
            lemma_starts_trans(list_of(st.0, n), list_of(m.0, n), list_of(r.0, n));
        }
        assert forall|n: Seq<char>| #[trigger] starts_list(list_of(st.1, n), list_of(r.1, n)) by {
            lemma_starts_trans(list_of(st.1, n), list_of(m.1, n), list_of(r.1, n));
        }
        assert forall|y: Seq<char>, x: Seq<char>|
            list_of(m.0, y).contains(x) implies #[trigger] list_of(r.0, y).contains(x) by {
            assert(starts_list(list_of(m.0, y), list_of(r.0, y)));
            lemma_starts_refl(list_of(r.0, y));
            lemma_starts_trans(list_of(m.0, y), list_of(r.0, y), list_of(r.0, y));
        }
        assert forall|y: Seq<char>, x: Seq<char>|
            list_of(m.1, y).contains(x) implies #[trigger] list_of(r.1, y).contains(x) by {
            assert(starts_list(list_of(m.1, y), list_of(r.1, y)));
            lemma_starts_refl(list_of(r.1, y));
            lemma_starts_trans(list_of(m.1, y), list_of(r.1, y), list_of(r.1, y));
        }
        if applies {
            lemma_starts_push(list_of(m.0, pkg), dep);
            lemma_starts_push(list_of(m.1, dep), pkg);
        }
        assert forall|y: Seq<char>| #[trigger] r.2.contains(y) implies list_of(r.0, pkg).contains(y) && list_of(r.1, y).contains(pkg) by {
            if applies && y == dep {
            } else {
                assert(m.2.contains(y));
                assert(list_of(m.0, pkg).contains(y));
                assert(list_of(m.1, y).contains(pkg));
            }
        }
        assert forall|j: int| 0 <= j < ds.len() && #[trigger] ds[j] != pkg implies {
            &&& list_of(r.0, pkg).contains(ds[j])
            &&& list_of(r.1, ds[j]).contains(pkg)
        } by {
            if j < ds.len() - 1 {
                assert(d0[j] == ds[j]);
                assert(list_of(m.0, pkg).contains(d0[j]));
                assert(list_of(m.1, d0[j]).contains(pkg));
            } else {
                assert(ds[j] == dep);
                if !applies {
                    assert(m.2.contains(dep));
                }
            }
        }
    }
}

/// Lines only add to the graph: the lists after some lines start the lists
/// after more.
proof fn lemma_dep_lines_grow(ls: Seq<Seq<char>>)
    requires
        ls.len() > 0,
    ensures
        forall|n: Seq<char>| #[trigger] starts_list(list_of(dep_lines_fold(ls.drop_last()).0, n), list_of(dep_lines_fold(ls).0, n)),
        forall|n: Seq<char>| #[trigger] starts_list(list_of(dep_lines_fold(ls.drop_last()).1, n), list_of(dep_lines_fold(ls).1, n)),
{
    let g = dep_lines_fold(ls.drop_last());
    let h = dep_lines_fold(ls);
    let f = splitn(ls.last(), 3, "\t"@);
    if f.len() == 0 || f[0].len() == 0 {
        assert forall|n: Seq<char>| #[trigger] starts_list(list_of(g.0, n), list_of(h.0, n)) by {
            lemma_starts_refl(list_of(g.0, n));
        }
        assert forall|n: Seq<char>| #[trigger] starts_list(list_of(g.1, n), list_of(h.1, n)) by {
            lemma_starts_refl(list_of(g.1, n));
        }
    } else {
        let st = (g.0, g.1, Set::<Seq<char>>::empty());
        lemma_deps_fold_links(st, f[0], dep_field(piece(f, 1) + ","@ + piece(f, 2)));
        let t = deps_fold(st, f[0], dep_field(piece(f, 1) + ","@ + piece(f, 2)));
        assert(h == (t.0, t.1));
        assert forall|n: Seq<char>| #[trigger] starts_list(list_of(g.0, n), list_of(h.0, n)) by {
            assert(starts_list(list_of(st.0, n), list_of(t.0, n)));
        }
        assert forall|n: Seq<char>| #[trigger] starts_list(list_of(g.1, n), list_of(h.1, n)) by {
            assert(starts_list(list_of(st.1, n), list_of(t.1, n)));
        }
    }
}

/// Both columns make edges: for a `${Package}\t${Depends}\t${Recommends}`
/// line of package `p`, every name that the `Depends` column or the
/// `Recommends` column lists (other than `p` itself) ends up among what `p`
/// depends on, and `p` among what depends on that name, whatever lines
/// follow.
pub proof fn lemma_depends_and_recommends_make_edges(ls: Seq<Seq<char>>, i: int, x: Seq<char>)
    requires
        0 <= i < ls.len(),
        splitn(ls[i], 3, "\t"@).len() > 0,
        splitn(ls[i], 3, "\t"@)[0].len() > 0,
        x != splitn(ls[i], 3, "\t"@)[0],
        dep_field(piece(splitn(ls[i], 3, "\t"@), 1)).contains(x) || dep_field(piece(splitn(ls[i], 3, "\t"@), 2)).contains(
            x,
        ),
    ensures
        list_of(dep_lines_fold(ls).0, splitn(ls[i], 3, "\t"@)[0]).contains(x),
        list_of(dep_lines_fold(ls).1, x).contains(splitn(ls[i], 3, "\t"@)[0]),
    decreases ls.len(),
{
    let f = splitn(ls[i], 3, "\t"@);
    let p = f[0];
    if i < ls.len() - 1 {
        let l0 = ls.drop_last();
        assert(l0[i] == ls[i]);
        lemma_depends_and_recommends_make_edges(l0, i, x);
        lemma_dep_lines_grow(ls);
        let g = dep_lines_fold(l0);
        let h = dep_lines_fold(ls);
        assert(starts_list(list_of(g.0, p), list_of(h.0, p)));
        assert(starts_list(list_of(g.1, x), list_of(h.1, x)));
        lemma_starts_refl(list_of(h.0, p));
        lemma_starts_refl(list_of(h.1, x));
        lemma_starts_trans(list_of(g.0, p), list_of(h.0, p), list_of(h.0, p));
        lemma_starts_trans(list_of(g.1, x), list_of(h.1, x), list_of(h.1, x));
    } else {
        assert(ls[i] == ls.last());
        let g = dep_lines_fold(ls.drop_last());
        let st = (g.0, g.1, Set::<Seq<char>>::empty());
        let ds = dep_field(piece(f, 1) + ","@ + piece(f, 2));
        lemma_dep_field_joined(piece(f, 1), piece(f, 2));
        let j: int = if dep_field(piece(f, 1)).contains(x) {
            choose|j: int| 0 <= j < dep_field(piece(f, 1)).len() && dep_field(piece(f, 1))[j] == x
        } else {
            let k = choose|k: int| 0 <= k < dep_field(piece(f, 2)).len() && dep_field(piece(f, 2))[k] == x;
            dep_field(piece(f, 1)).len() + k
        };
        assert(ds[j] == x);
        lemma_deps_fold_links(st, p, ds);
    }
}

/// Take in the dependencies of one line.
fn add_deps(w: &mut World, pkg: &Vec<char>, ds: &Vec<String>)
    requires
        old(w).wf(),
    ensures
        final(w).wf(),
        ({
            let st = deps_fold((old(w).deps_map(), old(w).rdeps_map(), Set::empty()), pkg@, sviews(ds@));
            final(w).deps_map() == st.0 && final(w).rdeps_map() == st.1
        }),
        final(w).catalog() == old(w).catalog(),
        final(w).names() == old(w).names(),
        final(w).manual_set() == old(w).manual_set(),
        final(w).log() == old(w).log(),
{
    let name = string_of(pkg);
    let mut seen = StringHashSet::new();
    let mut i: usize = 0;
    while i < ds.len()
        invariant
            w.wf(),
            i <= ds@.len(),
            name@ == pkg@,
            ({
                let st = deps_fold((old(w).deps_map(), old(w).rdeps_map(), Set::empty()), pkg@, sviews(ds@).take(i as int));
                w.deps_map() == st.0 && w.rdeps_map() == st.1 && seen@ == st.2
            }),
            w.catalog() == old(w).catalog(),
            w.names() == old(w).names(),
            w.manual_set() == old(w).manual_set(),
            w.log() == old(w).log(),
        decreases ds@.len() - i,
    {
        proof {
            assert(sviews(ds@).take(i + 1).drop_last() == sviews(ds@).take(i as int));
            assert(sviews(ds@).take(i + 1).last() == ds@[i as int]@);
        }
        let d = &ds[i];
        if !d.eq(&name) && !seen.contains(d.as_str()) {
            seen.insert(d.clone());
            w.push_dep(name.as_str(), d.clone());
            w.push_rdep(d.as_str(), name.clone());
        }
        i += 1;
    }
    proof {
        assert(sviews(ds@).take(ds@.len() as int) == sviews(ds@));
    }
}

/// Record the dependency graph (Depends and Recommends) of the
/// `${Package}\t${Depends}\t${Recommends}` dump `text` in `w`.
pub fn parse_dep_lines(w: &mut World, text: &str)
    requires
        old(w).wf(),
        old(w).deps_map() == Map::<Seq<char>, Seq<Seq<char>>>::empty(),
        old(w).rdeps_map() == Map::<Seq<char>, Seq<Seq<char>>>::empty(),
    ensures
        final(w).wf(),
        (final(w).deps_map(), final(w).rdeps_map()) == dep_lines_fold(lines(text@)),
        final(w).catalog() == old(w).catalog(),
        final(w).names() == old(w).names(),
        final(w).manual_set() == old(w).manual_set(),
        final(w).log() == old(w).log(),
{
    let ls = split_lines(&chars_of(text));
    let tab = chars_of("\t");
    proof {
        reveal_strlit("\t");
        assert(tab@.len() == 1);
    }
    let mut i: usize = 0;
    while i < ls.len()
        invariant
            w.wf(),
            i <= ls@.len(),
            views(ls@) == lines(text@),
            tab@ == "\t"@,
            tab@.len() == 1,
            (w.deps_map(), w.rdeps_map()) == dep_lines_fold(views(ls@).take(i as int)),
            w.catalog() == old(w).catalog(),
            w.names() == old(w).names(),
            w.manual_set() == old(w).manual_set(),
            w.log() == old(w).log(),
        decreases ls@.len() - i,
    {
        let ghost vl = views(ls@);
        proof {
            assert(vl.take(i + 1).drop_last() == vl.take(i as int));
            assert(vl.take(i + 1).last() == ls@[i as int]@);
        }
        let f = splitn_pieces(&ls[i], 3, &tab);
        if f.len() > 0 && f[0].len() > 0 {
            let mut combined: Vec<char> = if f.len() > 1 { f[1].clone() } else { Vec::new() };
            combined.push(',');
            let mut third: Vec<char> = if f.len() > 2 { f[2].clone() } else { Vec::new() };
            let ghost c1 = combined@;
            let ghost c2 = third@;
            combined.append(&mut third);
            proof {
                assert(views(f@)[0] == f@[0]@);
                if f.len() > 1 {
                    assert(views(f@)[1] == f@[1]@);
                }
                if f.len() > 2 {
                    assert(views(f@)[2] == f@[2]@);
                }
                reveal_strlit(",");
                assert(combined@ == piece(views(f@), 1) + ","@ + piece(views(f@), 2));
            }
            let ds = parse_dep_field(string_of(&combined).as_str());
            add_deps(w, &f[0], &ds);
        } else {
            proof {
                if f.len() > 0 {
                    assert(views(f@)[0] == f@[0]@);
                }
            }
        }
        i += 1;
    }
    proof {
        assert(views(ls@).take(ls@.len() as int) == views(ls@));
    }
}

// ───────────────────────────── the dpkg log ─────────────────────────────

/// The layout of a dpkg log timestamp.
pub open spec fn dpkg_time_format() -> Seq<char> {
    "%Y-%m-%d %H:%M:%S"@
}

/// The install events of dpkg log lines
/// (`2026-06-14 02:57:01 install pkg:amd64 <none> 1.0`), in log order.
pub open spec fn dpkg_events(ls: Seq<Seq<char>>) -> Seq<(i64, Seq<char>)>
    decreases ls.len(),
{
    if ls.len() == 0 {
        Seq::empty()
    } else {
        let r = dpkg_events(ls.drop_last());
        let ws = words(ls.last());
        if ws.len() >= 4 && ws[2] == "install"@ && naive_utc_seconds(ws[0] + " "@ + ws[1], dpkg_time_format()) is Some {
            r.push((naive_utc_seconds(ws[0] + " "@ + ws[1], dpkg_time_format()).unwrap(), cut_at(ws[3], ":"@)))
        } else {
            r
        }
    }
}

/// The install events of every dpkg log, file after file.
pub open spec fn dpkg_file_events(files: Seq<Seq<char>>) -> Seq<(i64, Seq<char>)>
    decreases files.len(),
{
    if files.len() == 0 {
        Seq::empty()
    } else {
        dpkg_file_events(files.drop_last()) + dpkg_events(lines(files.last()))
    }
}

/// Every `install` event of the dpkg logs `files` (current, rotated and
/// inflated) as `(epoch, package)`, oldest first.
pub fn parse_dpkg_logs(files: &[String]) -> (r: Vec<(i64, String)>)
    ensures
        log_view(r@) == time_sort(dpkg_file_events(sviews(files@))),
{
    let fmt = String::from_str("%Y-%m-%d %H:%M:%S");
    let colon = chars_of(":");
    let mut events: Vec<(i64, String)> = Vec::new();
    let mut k: usize = 0;
    while k < files.len()
        invariant
            k <= files@.len(),
            fmt@ == dpkg_time_format(),
            colon@ == ":"@,
            log_view(events@) == dpkg_file_events(sviews(files@).take(k as int)),
        decreases files@.len() - k,
    {
        let ls = split_lines(&chars_of(files[k].as_str()));
        let ghost base = log_view(events@);
        let mut i: usize = 0;
        while i < ls.len()
            invariant
                i <= ls@.len(),
                views(ls@) == lines(files@[k as int]@),
                fmt@ == dpkg_time_format(),
                colon@ == ":"@,
                log_view(events@) == base + dpkg_events(views(ls@).take(i as int)),
            decreases ls@.len() - i,
        {
            let ghost vl = views(ls@);
            proof {
                assert(vl.take(i + 1).drop_last() == vl.take(i as int));
                assert(vl.take(i + 1).last() == ls@[i as int]@);
                reveal_strlit("install");
            }
            let ws = split_words(&ls[i]);
            proof {
                if ws.len() >= 4 {
                    assert(views(ws@)[0] == ws@[0]@);
                    assert(views(ws@)[1] == ws@[1]@);
                    assert(views(ws@)[2] == ws@[2]@);
                    assert(views(ws@)[3] == ws@[3]@);
                }
            }
            if ws.len() >= 4 && same_text(&ws[2], "install") {
                let mut stamp = string_of(&ws[0]);
                stamp.append(" ");
                stamp.append(string_of(&ws[1]).as_str());
                match parse_naive_utc(stamp.as_str(), fmt.as_str()) {
                    Some(e) => {
                        let ghost before = log_view(events@);
                        let name = cut_at_any(&ws[3], &colon);
                        events.push((e, string_of(&name)));
                        proof {
                            assert(log_view(events@) =~= before.push((e, name@)));
                        }
                    },
                    None => {},
                }
            }
            i += 1;
        }
        proof {
            assert(views(ls@).take(ls@.len() as int) == views(ls@));
            let fv = sviews(files@);
            assert(fv.take(k + 1).drop_last() == fv.take(k as int));
            assert(fv.take(k + 1).last() == files@[k as int]@);
        }
        k += 1;
    }
    proof {
        assert(sviews(files@).take(files@.len() as int) == sviews(files@));
    }
    sort_events(events)
}

// ───────────────────────────── package metadata ─────────────────────────────

/// The extended description after one more continuation line: joined by a
/// space, and only while it holds fewer than 240 bytes.
pub open spec fn add_detail(d: Option<Seq<char>>, extra: Seq<char>) -> Seq<char> {
    let d0 = match d {
        Some(x) => x,
        None => Seq::empty(),
    };
    if utf8_len(d0) < 240 {
        if d0.len() > 0 {
            d0 + " "@ + extra
        } else {
            extra
        }
    } else {
        d0
    }
}

/// The package of a `${Package}\t${Version}\t${Installed-Size}\t${Description}`
/// record's first line, before its manual flag and origin are known.
pub open spec fn meta_record(f: Seq<Seq<char>>) -> PackageView {
    PackageView {
        name: f[0],
        version: f[1],
        candidate: None,
        installed_size: match parse_u64_spec(trim(f[2])) {
            Some(v) => v,
            None => 0,
        },
        description: f[3],
        details: None,
        manual: false,
        source: Source::System,
        remote: None,
        origin: Origin::Unknown,
        install_epoch: None,
        install_date: None,
    }
}

/// One metadata line taken in: a record's first line adds its package;
/// a continuation line (fewer than four tab-separated fields) extends the
/// previous package's extended description.
pub open spec fn meta_step(st: (Map<Seq<char>, PackageView>, Option<Seq<char>>), line: Seq<char>) -> (
    Map<Seq<char>, PackageView>,
    Option<Seq<char>>,
) {
    let f = splitn(line, 4, "\t"@);
    if f.len() < 4 {
        match st.1 {
            Some(name) => {
                let extra = trim(line);
                if extra.len() > 0 && extra != "."@ && st.0.contains_key(name) {
                    (
                        st.0.insert(
                            name,
                            PackageView { details: Some(add_detail(st.0[name].details, extra)), ..st.0[name] },
                        ),
                        st.1,
                    )
                } else {
                    st
                }
            },
            None => st,
        }
    } else if f[0].len() == 0 {
        (st.0, None)
    } else {
        (st.0.insert(f[0], meta_record(f)), Some(f[0]))
    }
}

/// The packages of metadata lines, with the package a continuation line
/// belongs to.
pub open spec fn meta_fold(ls: Seq<Seq<char>>) -> (Map<Seq<char>, PackageView>, Option<Seq<char>>)
    decreases ls.len(),
{
    if ls.len() == 0 {
        (Map::empty(), None)
    } else {
        meta_step(meta_fold(ls.drop_last()), ls.last())
    }
}

/// The extended description grown by `extra`.
fn grow_details(d: &Option<String>, extra: &Vec<char>) -> (r: String)
    ensures
        r@ == add_detail(crate::model::opt_view(*d), extra@),
{
    let d0: Vec<char> = match d {
        Some(x) => chars_of(x.as_str()),
        None => Vec::new(),
    };
    if utf8_shorter(&d0, 240) {
        if d0.len() > 0 {
            let mut s = string_of(&d0);
            s.append(" ");
            s.append(string_of(extra).as_str());
            s
        } else {
            string_of(extra)
        }
    } else {
        string_of(&d0)
    }
}

/// Record the packages of the `dpkg-query` metadata dump `text` in the
/// empty world `w`.
pub fn parse_meta_lines(w: &mut World, text: &str)
    requires
        old(w).wf(),
        old(w).catalog() == Map::<Seq<char>, PackageView>::empty(),
    ensures
        final(w).wf(),
        final(w).catalog() == meta_fold(lines(text@)).0,
        final(w).deps_map() == old(w).deps_map(),
        final(w).rdeps_map() == old(w).rdeps_map(),
        final(w).manual_set() == old(w).manual_set(),
        final(w).log() == old(w).log(),
{
    let ls = split_lines(&chars_of(text));
    let tab = chars_of("\t");
    let dot = chars_of(".");
    proof {
        reveal_strlit("\t");
        assert(tab@.len() == 1);
    }
    let mut last: Option<String> = None;
    let mut i: usize = 0;
    while i < ls.len()
        invariant
            w.wf(),
            i <= ls@.len(),
            views(ls@) == lines(text@),
            tab@ == "\t"@,
            tab@.len() == 1,
            dot@ == "."@,
            w.catalog() == meta_fold(views(ls@).take(i as int)).0,
            crate::model::opt_view(last) == meta_fold(views(ls@).take(i as int)).1,
            w.deps_map() == old(w).deps_map(),
            w.rdeps_map() == old(w).rdeps_map(),
            w.manual_set() == old(w).manual_set(),
            w.log() == old(w).log(),
        decreases ls@.len() - i,
    {
        let ghost vl = views(ls@);
        proof {
            assert(vl.take(i + 1).drop_last() == vl.take(i as int));
            assert(vl.take(i + 1).last() == ls@[i as int]@);
        }
        let f = splitn_pieces(&ls[i], 4, &tab);
        let ghost st = meta_fold(vl.take(i as int));
        proof {
            assert(meta_fold(vl.take(i + 1)) == meta_step(st, ls@[i as int]@));
            assert(views(f@).len() == f@.len());
        }
        if f.len() < 4 {
            match &last {
                Some(name) => {
                    let extra = trim_chars(&ls[i]);
                    if extra.len() > 0 && !same_text(&extra, ".") {
                        match w.package(name.as_str()) {
                            Some(p) => {
                                let mut q = p.copy();
                                q.details = Some(grow_details(&p.details, &extra));
                                proof {
                                    lemma_keyed(*w);
                                    assert(st.0.contains_key(name@));
                                    assert(p@ == st.0[name@]);
                                    assert(p.name@ == name@);
                                    assert(q@ == PackageView {
                                        details: Some(add_detail(st.0[name@].details, trim(ls@[i as int]@))),
                                        ..st.0[name@]
                                    });
                                }
                                w.insert_package(q);
                                proof {
                                    assert(w.catalog() == meta_fold(vl.take(i + 1)).0);
                                }
                            },
                            None => {
                                proof {
                                    assert(!st.0.contains_key(name@));
                                    assert(w.catalog() == meta_fold(vl.take(i + 1)).0);
                                }
                            },
                        }
                    } else {
                        proof {
                            assert(w.catalog() == meta_fold(vl.take(i + 1)).0);
                        }
                    }
                },
                None => {
                    proof {
                        assert(w.catalog() == meta_fold(vl.take(i + 1)).0);
                    }
                },
            }
        } else {
            proof {
                assert(views(f@)[0] == f@[0]@);
                assert(views(f@)[1] == f@[1]@);
                assert(views(f@)[2] == f@[2]@);
                assert(views(f@)[3] == f@[3]@);
            }
            if f[0].len() == 0 {
                last = None;
            } else {
                let size = match parse_u64(&trim_chars(&f[2])) {
                    Some(v) => v,
                    None => 0,
                };
                let p = Package {
                    name: string_of(&f[0]),
                    version: string_of(&f[1]),
                    candidate: None,
                    installed_size: size,
                    description: string_of(&f[3]),
                    details: None,
                    manual: false,
                    source: Source::System,
                    remote: None,
                    origin: Origin::Unknown,
                    install_epoch: None,
                    install_date: None,
                };
                proof {
                    assert(p@ == meta_record(views(f@)));
                }
                w.insert_package(p);
                last = Some(string_of(&f[0]));
                proof {
                    assert(w.catalog() == meta_fold(vl.take(i + 1)).0);
                }
            }
        }
        i += 1;
    }
    proof {
        assert(views(ls@).take(ls@.len() as int) == views(ls@));
    }
}

// ───────────────────────────── package-wide updates ─────────────────────────────

/// Whether each package's name is its key.
pub open spec fn keyed_by_name(cat: Map<Seq<char>, PackageView>) -> bool {
    forall|n: Seq<char>| #[trigger] cat.contains_key(n) ==> cat[n].name == n
}

/// Each package marked manual exactly when `set` holds its name.
pub open spec fn flag_manual(cat: Map<Seq<char>, PackageView>, set: Set<Seq<char>>) -> Map<Seq<char>, PackageView> {
    cat.map_values(|p: PackageView| PackageView { manual: set.contains(p.name), ..p })
}

/// Where each package came from: a repository unless `local` holds it;
/// then a local file if `deb` holds it, else a repository that is gone.
pub open spec fn place_origin(
    cat: Map<Seq<char>, PackageView>,
    local: Set<Seq<char>>,
    deb: Set<Seq<char>>,
) -> Map<Seq<char>, PackageView> {
    cat.map_values(
        |p: PackageView|
            PackageView {
                origin: if !local.contains(p.name) {
                    Origin::Repo
                } else if deb.contains(p.name) {
                    Origin::Local
                } else {
                    Origin::Orphaned
                },
                ..p
            },
    )
}

pub(crate) proof fn lemma_keyed(w: World)
    requires
        w.wf(),
    ensures
        keyed_by_name(w.catalog()),
        forall|n: Seq<char>| w.names().contains(n) <==> w.catalog().contains_key(n),
        w.names().no_duplicates(),
{
    w.lemma_names();
}

/// Mark each package manual exactly when `set` holds its name.
pub(crate) fn set_manual_flags(w: &mut World, set: &StringHashSet)
    requires
        old(w).wf(),
    ensures
        final(w).wf(),
        final(w).catalog() == flag_manual(old(w).catalog(), set@),
        final(w).deps_map() == old(w).deps_map(),
        final(w).rdeps_map() == old(w).rdeps_map(),
        final(w).manual_set() == old(w).manual_set(),
        final(w).log() == old(w).log(),
{
    let ghost c0 = w.catalog();
    let ghost names = w.names();
    proof {
        lemma_keyed(*w);
    }
    let n = w.packages().len();
    let mut i: usize = 0;
    while i < n
        invariant
            w.wf(),
            n == names.len(),
            i <= n,
            w.names() == names,
            names.no_duplicates(),
            forall|x: Seq<char>| names.contains(x) <==> c0.contains_key(x),
            keyed_by_name(c0),
            c0 == old(w).catalog(),
            w.catalog().dom() == c0.dom(),
            forall|k: int| 0 <= k < i ==> #[trigger] w.catalog()[names[k]] == flag_manual(c0, set@)[names[k]],
            forall|k: int| i <= k < n ==> #[trigger] w.catalog()[names[k]] == c0[names[k]],
            w.deps_map() == old(w).deps_map(),
            w.rdeps_map() == old(w).rdeps_map(),
            w.manual_set() == old(w).manual_set(),
            w.log() == old(w).log(),
        decreases n - i,
    {
        let ps = w.packages();
        proof {
            assert(ps@.map_values(|p: Package| p.name@)[i as int] == ps@[i as int].name@);
            assert(names.contains(names[i as int]));
        }
        let mut q = ps[i].copy();
        q.manual = set.contains(q.name.as_str());
        proof {
            assert(w.catalog()[names[i as int]] == c0[names[i as int]]);
            assert(ps@[i as int]@ == w.catalog()[names[i as int]]);
            assert(c0[names[i as int]].name == names[i as int]);
            assert(q@ == flag_manual(c0, set@)[names[i as int]]);
        }
        w.insert_package(q);
        proof {
            assert forall|k: int| 0 <= k < i + 1 implies #[trigger] w.catalog()[names[k]] == flag_manual(c0, set@)[names[k]] by {
                if k < i {
                    assert(names[k] != names[i as int]);
                }
            }
            assert forall|k: int| i + 1 <= k < n implies #[trigger] w.catalog()[names[k]] == c0[names[k]] by {
                assert(names[k] != names[i as int]);
            }
            assert(w.catalog().dom() =~= c0.dom());
        }
        i += 1;
    }
    proof {
        assert(w.catalog() =~= flag_manual(c0, set@)) by {
            assert forall|x: Seq<char>| #[trigger] w.catalog().contains_key(x) implies w.catalog()[x] == flag_manual(c0, set@)[x] by {
                assert(names.contains(x));
                let k = choose|k: int| 0 <= k < names.len() && names[k] == x;
                assert(w.catalog()[names[k]] == flag_manual(c0, set@)[names[k]]);
            }
        }
    }
}

/// Record where each package came from.
fn set_origins(w: &mut World, local: &StringHashSet, deb: &StringHashSet)
    requires
        old(w).wf(),
    ensures
        final(w).wf(),
        final(w).catalog() == place_origin(old(w).catalog(), local@, deb@),
        final(w).deps_map() == old(w).deps_map(),
        final(w).rdeps_map() == old(w).rdeps_map(),
        final(w).manual_set() == old(w).manual_set(),
        final(w).log() == old(w).log(),
{
    let ghost c0 = w.catalog();
    let ghost names = w.names();
    proof {
        lemma_keyed(*w);
    }
    let n = w.packages().len();
    let mut i: usize = 0;
    while i < n
        invariant
            w.wf(),
            n == names.len(),
            i <= n,
            w.names() == names,
            names.no_duplicates(),
            forall|x: Seq<char>| names.contains(x) <==> c0.contains_key(x),
            keyed_by_name(c0),
            c0 == old(w).catalog(),
            w.catalog().dom() == c0.dom(),
            forall|k: int| 0 <= k < i ==> #[trigger] w.catalog()[names[k]] == place_origin(c0, local@, deb@)[names[k]],
            forall|k: int| i <= k < n ==> #[trigger] w.catalog()[names[k]] == c0[names[k]],
            w.deps_map() == old(w).deps_map(),
            w.rdeps_map() == old(w).rdeps_map(),
            w.manual_set() == old(w).manual_set(),
            w.log() == old(w).log(),
        decreases n - i,
    {
        let ps = w.packages();
        proof {
            assert(ps@.map_values(|p: Package| p.name@)[i as int] == ps@[i as int].name@);
            assert(names.contains(names[i as int]));
        }
        let mut q = ps[i].copy();
        q.origin = if !local.contains(q.name.as_str()) {
            Origin::Repo
        } else if deb.contains(q.name.as_str()) {
            Origin::Local
        } else {
            Origin::Orphaned
        };
        proof {
            assert(w.catalog()[names[i as int]] == c0[names[i as int]]);
            assert(ps@[i as int]@ == w.catalog()[names[i as int]]);
            assert(c0[names[i as int]].name == names[i as int]);
            assert(q@ == place_origin(c0, local@, deb@)[names[i as int]]);
        }
        w.insert_package(q);
        proof {
            assert forall|k: int| 0 <= k < i + 1 implies #[trigger] w.catalog()[names[k]] == place_origin(c0, local@, deb@)[names[k]] by {
                if k < i {
                    assert(names[k] != names[i as int]);
                }
            }
            assert forall|k: int| i + 1 <= k < n implies #[trigger] w.catalog()[names[k]] == c0[names[k]] by {
                assert(names[k] != names[i as int]);
            }
            assert(w.catalog().dom() =~= c0.dom());
        }
        i += 1;
    }
    proof {
        assert(w.catalog() =~= place_origin(c0, local@, deb@)) by {
            assert forall|x: Seq<char>| #[trigger] w.catalog().contains_key(x) implies w.catalog()[x] == place_origin(c0, local@, deb@)[x] by {
                assert(names.contains(x));
                let k = choose|k: int| 0 <= k < names.len() && names[k] == x;
                assert(w.catalog()[names[k]] == place_origin(c0, local@, deb@)[names[k]]);
            }
        }
    }
}

/// Each package's earliest logged install time, from events oldest first:
/// the first event for a package without a time sets it.
pub open spec fn date_fold(cat: Map<Seq<char>, PackageView>, log: Seq<(i64, Seq<char>)>) -> Map<Seq<char>, PackageView>
    decreases log.len(),
{
    if log.len() == 0 {
        cat
    } else {
        let c = date_fold(cat, log.drop_last());
        let (e, n) = log.last();
        if c.contains_key(n) && c[n].install_epoch is None {
            c.insert(n, PackageView { install_epoch: Some(e), install_date: Some(crate::backend::date_or_unknown(e)), ..c[n] })
        } else {
            c
        }
    }
}

/// Attach each package's earliest install time from the sorted log.
fn set_install_dates(w: &mut World, log: &[(i64, String)])
    requires
        old(w).wf(),
    ensures
        final(w).wf(),
        final(w).catalog() == date_fold(old(w).catalog(), log_view(log@)),
        final(w).deps_map() == old(w).deps_map(),
        final(w).rdeps_map() == old(w).rdeps_map(),
        final(w).manual_set() == old(w).manual_set(),
        final(w).log() == old(w).log(),
{
    let mut i: usize = 0;
    while i < log.len()
        invariant
            w.wf(),
            i <= log@.len(),
            w.catalog() == date_fold(old(w).catalog(), log_view(log@).take(i as int)),
            w.deps_map() == old(w).deps_map(),
            w.rdeps_map() == old(w).rdeps_map(),
            w.manual_set() == old(w).manual_set(),
            w.log() == old(w).log(),
        decreases log@.len() - i,
    {
        proof {
            assert(log_view(log@).take(i + 1).drop_last() == log_view(log@).take(i as int));
            assert(log_view(log@).take(i + 1).last() == (log@[i as int].0, log@[i as int].1@));
        }
        let e = log[i].0;
        match w.package(log[i].1.as_str()) {
            Some(p) => {
                if p.install_epoch.is_none() {
                    let mut q = p.copy();
                    q.install_epoch = Some(e);
                    q.install_date = Some(epoch_to_date(e));
                    proof {
                        lemma_keyed(*w);
                    }
                    w.insert_package(q);
                }
            },
            None => {},
        }
        i += 1;
    }
    proof {
        assert(log_view(log@).take(log@.len() as int) == log_view(log@));
    }
}

/// The packages the apt world holds, from the raw dumps: metadata, the
/// manual flag, pending upgrades (when that query ran), origins and
/// install dates.
pub open spec fn apt_catalog(
    manual_text: Seq<char>,
    meta_text: Seq<char>,
    upgradable: Option<Seq<char>>,
    installed: Seq<char>,
    history: Seq<Seq<char>>,
    log: Seq<(i64, Seq<char>)>,
) -> Map<Seq<char>, PackageView> {
    let c1 = flag_manual(meta_fold(lines(meta_text)).0, listed_names(lines(manual_text)));
    let c2 = match upgradable {
        Some(u) => with_candidates(c1, upgradable_pairs(lines(u))),
        None => c1,
    };
    let c3 = place_origin(c2, local_names(lines(installed)), deb_installs(history));
    date_fold(c3, log)
}

impl Apt {
    /// Assemble the whole [`World`] from the texts apt and dpkg produced:
    /// `apt-mark showmanual`, the two `dpkg-query -W` dumps (metadata, then
    /// `Depends`/`Recommends`), `apt list --upgradable` (`None` when that
    /// query failed), `apt list --installed`, the apt history files and
    /// the dpkg logs (each already inflated).
    pub fn build_world(
        &self,
        manual_text: &str,
        meta_text: &str,
        dep_text: &str,
        upgradable: Option<&str>,
        installed: &str,
        history: &[String],
        dpkg_logs: &[String],
    ) -> (w: World)
        ensures
            w.wf(),
            w.catalog() == apt_catalog(
                manual_text@,
                meta_text@,
                match upgradable {
                    Some(u) => Some(u@),
                    None => None,
                },
                installed@,
                sviews(history@),
                time_sort(dpkg_file_events(sviews(dpkg_logs@))),
            ),
            w.manual_set() == listed_names(lines(manual_text@)),
            (w.deps_map(), w.rdeps_map()) == dep_lines_fold(lines(dep_text@)),
            w.log() == time_sort(dpkg_file_events(sviews(dpkg_logs@))),
    {
        let manual = parse_name_lines(manual_text);
        let mut w = World::empty();
        proof {
            assert(w.catalog() =~= Map::<Seq<char>, PackageView>::empty());
        }
        parse_meta_lines(&mut w, meta_text);
        set_manual_flags(&mut w, &manual);
        // The manual set is every name apt-mark lists, installed or not.
        w.replace_manual(manual);
        parse_dep_lines(&mut w, dep_text);
        match upgradable {
            Some(u) => {
                let ups = parse_upgradable(u);
                w.apply_candidates(&ups);
            },
            None => {},
        }
        let local = parse_installed_local(installed);
        let deb = parse_deb_installs(history);
        set_origins(&mut w, &local, &deb);
        let log = parse_dpkg_logs(dpkg_logs);
        set_install_dates(&mut w, &log);
        w.set_install_log(log);
        w
    }
}

} // verus!
