//! What the browser shows: the rows of the package list, the dossier
//! above a package's relation list, and the bars around them, as styled
//! text. Laying it out on the screen happens outside the library.

use vstd::prelude::*;
use vstd::string::*;
use crate::model::{World, PackageView, Source, Origin as Provenance};
use crate::text::{sviews, decimal, chars_of, string_of, decimal_u64, slice_vec};
use crate::engine::{format_size, size_text, kernel_name, is_kernel_pkg, age_between, relative_time};
use crate::styled::{Tone, Span, span, lit, line_view, lines_view, pad_right, pad_left, padded_right, padded_left};
use crate::commands::pending::{TextLine, push_lines};
use super::{App, Frame, Origin, Relation};
use super::filter::FilterMode;

verus! {

/// `word`, with an "s" unless `n` is one.
pub open spec fn plural_of(n: nat, word: Seq<char>) -> Seq<char> {
    if n == 1 {
        word
    } else {
        word + "s"@
    }
}

/// Naive English pluralisation for counts: `plural(1, "package")` is
/// "package", `plural(3, "package")` is "packages".
pub fn plural(n: usize, word: &str) -> (s: String)
    ensures
        s@ == plural_of(n as nat, word@),
{
    let mut s = String::from_str(word);
    if n != 1 {
        s.append("s");
    }
    s
}

/// At most `max` characters of `s`: all of it when it fits, else its first
/// `max - 1` characters and an ellipsis (nothing at all when `max` is 0).
pub open spec fn truncated(s: Seq<char>, max: nat) -> Seq<char> {
    if s.len() <= max {
        s
    } else if max == 0 {
        Seq::empty()
    } else {
        s.take(max - 1) + seq!['…']
    }
}

/// Truncate to at most `max` characters, never splitting a character.
pub fn truncate(s: &str, max: usize) -> (r: String)
    ensures
        r@ == truncated(s@, max as nat),
        r@.len() <= max,
{
    let c = chars_of(s);
    if c.len() <= max {
        return string_of(&c);
    }
    if max == 0 {
        return String::new();
    }
    let keep: usize = max - 1;
    let mut r = string_of(&slice_vec(&c, 0, keep));
    r.push('…');
    proof {
        assert(c@.subrange(0, keep as int) == c@.take(keep as int));
    }
    r
}

// ───────────────────────────── the package list ─────────────────────────────

/// The installed package `n`, if any.
pub open spec fn entry(w: World, n: Seq<char>) -> Option<PackageView> {
    if w.catalog().contains_key(n) {
        Some(w.catalog()[n])
    } else {
        None
    }
}

/// One row of the package list: tag, name, upgrade arrow, size and
/// synopsis.
pub open spec fn pkg_row(w: World, name: Seq<char>) -> TextLine {
    let p = entry(w, name);
    let flat = p is Some && p.unwrap().source == Source::Flatpak;
    let tag = if flat {
        ("[F]"@, Tone::Blue)
    } else if w.manual_set().contains(name) {
        ("[M]"@, Tone::Green)
    } else {
        ("[A]"@, Tone::Yellow)
    };
    let up = if w.upgradable(name) {
        ("↑"@, Tone::Cyan)
    } else {
        (" "@, Tone::Plain)
    };
    let size = match p {
        Some(q) => q.installed_size as nat,
        None => 0,
    };
    let d = match p {
        Some(q) => q.description,
        None => Seq::empty(),
    };
    seq![
        tag,
        (" "@, Tone::Plain),
        (pad_right(name, 34), Tone::Plain),
        (" "@, Tone::Plain),
        up,
        (" "@ + pad_left(size_text(size), 9) + "  "@, Tone::Plain),
        (truncated(d, 55), Tone::Dim),
    ]
}

impl App {
    /// One styled row in the package list: tag, name, upgrade arrow, size,
    /// synopsis.
    pub fn pkg_line(&self, name: &str) -> (r: Vec<Span>)
        requires
            self.world.wf(),
        ensures
            line_view(r@) == pkg_row(self.world, name@),
    {
        let p = self.world.package(name);
        let flat = match p {
            Some(q) => q.source == Source::Flatpak,
            None => false,
        };
        let tag = if flat {
            lit("[F]", Tone::Blue)
        } else if self.world.is_manual(name) {
            lit("[M]", Tone::Green)
        } else {
            lit("[A]", Tone::Yellow)
        };
        let up = if self.world.is_upgradable(name) {
            lit("↑", Tone::Cyan)
        } else {
            lit(" ", Tone::Plain)
        };
        let size = match p {
            Some(q) => q.installed_size,
            None => 0,
        };
        let d = match p {
            Some(q) => q.description.clone(),
            None => String::new(),
        };
        let mut sz = String::from_str(" ");
        sz.append(padded_left(format_size(size).as_str(), 9).as_str());
        sz.append("  ");
        let r: Vec<Span> = vec![
            tag,
            lit(" ", Tone::Plain),
            span(padded_right(name, 34), Tone::Plain),
            lit(" ", Tone::Plain),
            up,
            span(sz, Tone::Plain),
            span(truncate(d.as_str(), 55), Tone::Dim),
        ];
        proof {
            assert(line_view(r@) =~= pkg_row(self.world, name@));
        }
        r
    }
}

// ───────────────────────────── the dossier ─────────────────────────────

/// A key on the left of a dossier line, padded to twelve characters.
pub open spec fn key_span(k: Seq<char>) -> (Seq<char>, Tone) {
    ("  "@ + pad_right(k, 12), Tone::Dim)
}

/// What the "why here" line says.
pub open spec fn origin_spans(o: Origin) -> TextLine {
    match o {
        Origin::Manual => seq![("you installed this"@, Tone::Green)],
        Origin::PulledIn(root) => seq![("pulled in by "@, Tone::Yellow), (root@, Tone::BoldYellow)],
        Origin::Untraced => seq![("auto-installed (origin untraced)"@, Tone::Yellow)],
        Origin::NotApplicable => seq![(Seq::empty(), Tone::Plain)],
    }
}

/// The names of `xs` joined by ", ".
pub open spec fn joined(xs: Seq<Seq<char>>) -> Seq<char>
    decreases xs.len(),
{
    if xs.len() == 0 {
        Seq::empty()
    } else if xs.len() == 1 {
        xs[0]
    } else {
        joined(xs.drop_last()) + ", "@ + xs.last()
    }
}

/// The "alongside" text: up to three names, and how many more.
pub open spec fn alongside_text(xs: Seq<Seq<char>>) -> Seq<char> {
    let preview = if xs.len() > 3 { xs.take(3) } else { xs };
    let more = xs.len() - preview.len();
    if more > 0 {
        joined(preview) + ", +"@ + decimal(more as nat) + " more"@
    } else {
        joined(preview)
    }
}

/// The "installed" text: the day and how long ago, the day alone, or
/// "unknown".
pub open spec fn installed_text(p: Option<PackageView>, now: i64) -> Seq<char> {
    match p {
        Some(q) => match (q.install_date, q.install_epoch) {
            (Some(d), Some(e)) => d + " ("@ + age_between(now, e) + ")"@,
            (Some(d), None) => d,
            _ => "unknown"@,
        },
        None => "unknown"@,
    }
}

/// The "source" value, when there is one to show.
pub open spec fn source_span(p: Option<PackageView>) -> Option<(Seq<char>, Tone)> {
    match p {
        Some(q) => if q.source == Source::Flatpak {
            Some(
                (
                    match q.remote {
                        Some(r) => "flatpak ("@ + r + ")"@,
                        None => "flatpak app"@,
                    },
                    Tone::Blue,
                ),
            )
        } else {
            match q.origin {
                Provenance::Repo => Some(("from a repository"@, Tone::Green)),
                Provenance::Local => Some(("installed from a local file"@, Tone::Yellow)),
                Provenance::Orphaned => Some(("not in any repo (repo removed?)"@, Tone::Red)),
                Provenance::Unknown => None,
            }
        },
        None => None,
    }
}

/// The mark after the relation the list below shows.
pub open spec fn showing_mark(shown: bool) -> TextLine {
    if shown {
        seq![("  ← showing below"@, Tone::BoldCyan)]
    } else {
        Seq::empty()
    }
}

/// The package a frame focuses on, empty at the root.
pub open spec fn focus_of(f: Frame) -> Seq<char> {
    match f.focus {
        Some(x) => x@,
        None => Seq::empty(),
    }
}

/// The dossier's first lines: the name (with an upgrade note) and the
/// synopsis.
pub open spec fn dossier_head(w: World, pkg: Seq<char>) -> Seq<TextLine> {
    let p = entry(w, pkg);
    let description = match p {
        Some(q) => q.description,
        None => Seq::empty(),
    };
    seq![
        seq![("  "@ + pkg, Tone::BoldWhite), if w.upgradable(pkg) {
            ("   ↑ upgrade available"@, Tone::Cyan)
        } else {
            (Seq::empty(), Tone::Plain)
        }],
        seq![("  "@ + description, Tone::Dim)],
    ]
}

/// The trimmed extended description, when there is one.
pub open spec fn dossier_details(p: Option<PackageView>) -> Seq<TextLine> {
    match p {
        Some(q) => match q.details {
            Some(d) => seq![seq![("  "@ + truncated(d, 100), Tone::Dim)]],
            None => Seq::empty(),
        },
        None => Seq::empty(),
    }
}

/// The "why here" and "alongside" lines.
pub open spec fn dossier_why(f: Frame) -> Seq<TextLine> {
    seq![seq![key_span("why here"@)] + origin_spans(f.origin)] + if f.alongside@.len() > 0 {
        seq![seq![key_span("alongside"@), (alongside_text(sviews(f.alongside@)), Tone::Plain)]]
    } else {
        Seq::empty()
    }
}

/// The version, size and install lines.
pub open spec fn dossier_facts(p: Option<PackageView>, now: i64) -> Seq<TextLine> {
    let version = match p {
        Some(q) => match q.candidate {
            Some(c) => q.version + "  →  "@ + c,
            None => q.version,
        },
        None => "unknown"@,
    };
    let size = match p {
        Some(q) => q.installed_size as nat,
        None => 0,
    };
    seq![
        seq![key_span("version"@), (version, Tone::Plain)],
        seq![key_span("size"@), (size_text(size), Tone::Plain)],
        seq![key_span("installed"@), (installed_text(p, now), Tone::Plain)],
    ]
}

/// The "source" line, when there is one.
pub open spec fn dossier_source(p: Option<PackageView>) -> Seq<TextLine> {
    match source_span(p) {
        Some(s) => seq![seq![key_span("source"@), s]],
        None => Seq::empty(),
    }
}

/// The two relation lines, the shown one marked.
pub open spec fn dossier_rels(w: World, rel: Relation, pkg: Seq<char>) -> Seq<TextLine> {
    let needed_by = w.rdeps_list(pkg).len();
    let depends_on = w.deps_list(pkg).len();
    let needed_by_text = if needed_by == 0 {
        if kernel_name(pkg) {
            "nothing - but kernel/firmware, do not remove"@
        } else {
            "nothing - safe to remove"@
        }
    } else {
        decimal(needed_by) + " "@ + plural_of(needed_by, "package"@)
    };
    seq![
        seq![key_span("needed by"@), (needed_by_text, Tone::Plain)] + showing_mark(rel == Relation::NeededBy),
        seq![key_span("depends on"@), (decimal(depends_on) + " "@ + plural_of(depends_on, "package"@), Tone::Plain)]
            + showing_mark(rel == Relation::DependsOn),
    ]
}

/// The dossier of the frame `f` of a browser on `w` showing relation `rel`,
/// with ages measured at `now`.
pub open spec fn dossier_text(w: World, rel: Relation, f: Frame, now: i64) -> Seq<TextLine> {
    let pkg = focus_of(f);
    let p = entry(w, pkg);
    dossier_head(w, pkg) + dossier_details(p) + dossier_why(f) + dossier_facts(p, now) + dossier_source(p)
        + dossier_rels(w, rel, pkg)
}

fn head_lines(w: &World, pkg: &str) -> (r: Vec<Vec<Span>>)
    requires
        w.wf(),
    ensures
        lines_view(r@) == dossier_head(*w, pkg@),
{
    let description = match w.package(pkg) {
        Some(q) => q.description.clone(),
        None => String::new(),
    };
    let mut t0 = String::from_str("  ");
    t0.append(pkg);
    let up = if w.is_upgradable(pkg) {
        lit("   ↑ upgrade available", Tone::Cyan)
    } else {
        span(String::new(), Tone::Plain)
    };
    let mut t1 = String::from_str("  ");
    t1.append(description.as_str());
    let l0: Vec<Span> = vec![span(t0, Tone::BoldWhite), up];
    let l1: Vec<Span> = vec![span(t1, Tone::Dim)];
    let r: Vec<Vec<Span>> = vec![l0, l1];
    proof {
        let want = dossier_head(*w, pkg@);
        assert(line_view(r@[0]@) =~= want[0]);
        assert(line_view(r@[1]@) =~= want[1]);
        assert(lines_view(r@) =~= want);
    }
    r
}

fn details_lines(w: &World, pkg: &str) -> (r: Vec<Vec<Span>>)
    requires
        w.wf(),
    ensures
        lines_view(r@) == dossier_details(entry(*w, pkg@)),
{
    let mut r: Vec<Vec<Span>> = Vec::new();
    match w.package(pkg) {
        Some(q) => match &q.details {
            Some(d) => {
                let mut t = String::from_str("  ");
                t.append(truncate(d.as_str(), 100).as_str());
                r.push(vec![span(t, Tone::Dim)]);
                proof {
                    let want = dossier_details(entry(*w, pkg@));
                    assert(line_view(r@[0]@) =~= want[0]);
                    assert(lines_view(r@) =~= want);
                }
            },
            None => {
                proof {
                    assert(lines_view(r@) =~= dossier_details(entry(*w, pkg@)));
                }
            },
        },
        None => {
            proof {
                assert(lines_view(r@) =~= dossier_details(entry(*w, pkg@)));
            }
        },
    }
    r
}

fn why_lines(frame: &Frame) -> (r: Vec<Vec<Span>>)
    ensures
        lines_view(r@) == dossier_why(*frame),
{
    let mut why: Vec<Span> = vec![key("why here")];
    match &frame.origin {
        Origin::Manual => why.push(lit("you installed this", Tone::Green)),
        Origin::PulledIn(root) => {
            why.push(lit("pulled in by ", Tone::Yellow));
            why.push(span(root.clone(), Tone::BoldYellow));
        },
        Origin::Untraced => why.push(lit("auto-installed (origin untraced)", Tone::Yellow)),
        Origin::NotApplicable => why.push(span(String::new(), Tone::Plain)),
    }
    let mut r: Vec<Vec<Span>> = vec![why];
    if frame.alongside.len() > 0 {
        r.push(vec![key("alongside"), span(alongside(&frame.alongside), Tone::Plain)]);
    }
    proof {
        let want = dossier_why(*frame);
        assert(line_view(r@[0]@) =~= want[0]);
        if frame.alongside@.len() > 0 {
            assert(line_view(r@[1]@) =~= want[1]);
        }
        assert(lines_view(r@) =~= want);
    }
    r
}

fn facts_lines(w: &World, pkg: &str, now: i64) -> (r: Vec<Vec<Span>>)
    requires
        w.wf(),
    ensures
        lines_view(r@) == dossier_facts(entry(*w, pkg@), now),
{
    let p = w.package(pkg);
    let version = match p {
        Some(q) => match &q.candidate {
            Some(c) => {
                let mut v = q.version.clone();
                v.append("  →  ");
                v.append(c.as_str());
                v
            },
            None => q.version.clone(),
        },
        None => String::from_str("unknown"),
    };
    let size = match p {
        Some(q) => q.installed_size,
        None => 0,
    };
    let installed = match p {
        Some(q) => match (&q.install_date, q.install_epoch) {
            (Some(d), Some(e)) => {
                let mut t = d.clone();
                t.append(" (");
                t.append(relative_time(now, e).as_str());
                t.append(")");
                t
            },
            (Some(d), None) => d.clone(),
            _ => String::from_str("unknown"),
        },
        None => String::from_str("unknown"),
    };
    let r: Vec<Vec<Span>> = vec![
        vec![key("version"), span(version, Tone::Plain)],
        vec![key("size"), span(format_size(size), Tone::Plain)],
        vec![key("installed"), span(installed, Tone::Plain)],
    ];
    proof {
        let want = dossier_facts(entry(*w, pkg@), now);
        assert(line_view(r@[0]@) =~= want[0]);
        assert(line_view(r@[1]@) =~= want[1]);
        assert(line_view(r@[2]@) =~= want[2]);
        assert(lines_view(r@) =~= want);
    }
    r
}

fn source_lines(w: &World, pkg: &str) -> (r: Vec<Vec<Span>>)
    requires
        w.wf(),
    ensures
        lines_view(r@) == dossier_source(entry(*w, pkg@)),
{
    let p = w.package(pkg);
    let source: Option<Span> = match p {
        Some(q) => if q.source == Source::Flatpak {
            Some(
                match &q.remote {
                    Some(x) => {
                        let mut t = String::from_str("flatpak (");
                        t.append(x.as_str());
                        t.append(")");
                        span(t, Tone::Blue)
                    },
                    None => lit("flatpak app", Tone::Blue),
                },
            )
        } else {
            match q.origin {
                Provenance::Repo => Some(lit("from a repository", Tone::Green)),
                Provenance::Local => Some(lit("installed from a local file", Tone::Yellow)),
                Provenance::Orphaned => Some(lit("not in any repo (repo removed?)", Tone::Red)),
                Provenance::Unknown => None,
            }
        },
        None => None,
    };
    let mut r: Vec<Vec<Span>> = Vec::new();
    match source {
        Some(s) => {
            r.push(vec![key("source"), s]);
            proof {
                let want = dossier_source(entry(*w, pkg@));
                assert(line_view(r@[0]@) =~= want[0]);
                assert(lines_view(r@) =~= want);
            }
        },
        None => {
            proof {
                assert(lines_view(r@) =~= dossier_source(entry(*w, pkg@)));
            }
        },
    }
    r
}

fn rels_lines(w: &World, rel: Relation, pkg: &str) -> (r: Vec<Vec<Span>>)
    requires
        w.wf(),
    ensures
        lines_view(r@) == dossier_rels(*w, rel, pkg@),
{
    let needed_by = w.rdep_count(pkg);
    let deps = w.deps_of(pkg);
    let depends_on = deps.len();
    proof {
        assert(sviews(deps@).len() == deps@.len());
    }
    let needed_by_text = if needed_by == 0 {
        if is_kernel_pkg(pkg) {
            String::from_str("nothing - but kernel/firmware, do not remove")
        } else {
            String::from_str("nothing - safe to remove")
        }
    } else {
        let mut t = string_of(&decimal_u64(needed_by as u64));
        t.append(" ");
        t.append(plural(needed_by, "package").as_str());
        t
    };
    let mut needed: Vec<Span> = vec![key("needed by"), span(needed_by_text, Tone::Plain)];
    if rel == Relation::NeededBy {
        needed.push(lit("  ← showing below", Tone::BoldCyan));
    }
    let mut dt = string_of(&decimal_u64(depends_on as u64));
    dt.append(" ");
    dt.append(plural(depends_on, "package").as_str());
    let mut depends: Vec<Span> = vec![key("depends on"), span(dt, Tone::Plain)];
    if rel == Relation::DependsOn {
        depends.push(lit("  ← showing below", Tone::BoldCyan));
    }
    let r: Vec<Vec<Span>> = vec![needed, depends];
    proof {
        let want = dossier_rels(*w, rel, pkg@);
        assert(line_view(r@[0]@) =~= want[0]);
        assert(line_view(r@[1]@) =~= want[1]);
        assert(lines_view(r@) =~= want);
    }
    r
}

/// A dossier key on the left.
fn key(k: &str) -> (s: Span)
    ensures
        (s.text@, s.tone) == key_span(k@),
{
    let mut t = String::from_str("  ");
    t.append(padded_right(k, 12).as_str());
    span(t, Tone::Dim)
}

/// The names joined by ", ".
fn join_names(xs: &[String]) -> (s: String)
    ensures
        s@ == joined(sviews(xs@)),
{
    let mut s = String::new();
    let mut i: usize = 0;
    while i < xs.len()
        invariant
            i <= xs@.len(),
            s@ == joined(sviews(xs@).take(i as int)),
        decreases xs@.len() - i,
    {
        proof {
            assert(sviews(xs@).take(i + 1).drop_last() == sviews(xs@).take(i as int));
            assert(sviews(xs@).take(i + 1).last() == xs@[i as int]@);
        }
        if i > 0 {
            s.append(", ");
        } else {
            proof {
                assert(sviews(xs@).take(1)[0] == xs@[0]@);
            }
        }
        s.append(xs[i].as_str());
        i += 1;
    }
    proof {
        assert(sviews(xs@).take(xs@.len() as int) == sviews(xs@));
    }
    s
}

/// The "alongside" text of `xs`.
fn alongside(xs: &Vec<String>) -> (s: String)
    ensures
        s@ == alongside_text(sviews(xs@)),
{
    let n = if xs.len() > 3 { 3 } else { xs.len() };
    let preview = &xs.as_slice()[0..n];
    proof {
        assert(sviews(preview@) == if sviews(xs@).len() > 3 { sviews(xs@).take(3) } else { sviews(xs@) });
    }
    let mut s = join_names(preview);
    let more = xs.len() - n;
    if more > 0 {
        s.append(", +");
        s.append(string_of(&decimal_u64(more as u64)).as_str());
        s.append(" more");
    }
    s
}

impl App {
    /// The styled block above a package's relation list, with ages
    /// measured at `now`. Reads the frame's cached origin and "alongside",
    /// so it is cheap to redraw.
    pub fn dossier_lines(&self, frame: &Frame, now: i64) -> (r: Vec<Vec<Span>>)
        requires
            self.world.wf(),
        ensures
            lines_view(r@) == dossier_text(self.world, self.relation, *frame, now),
    {
        let pkg: String = match &frame.focus {
            Some(x) => x.clone(),
            None => String::new(),
        };
        proof {
            assert(pkg@ == focus_of(*frame));
        }
        let w = &self.world;
        let mut lines = head_lines(w, pkg.as_str());
        push_lines(&mut lines, details_lines(w, pkg.as_str()));
        push_lines(&mut lines, why_lines(frame));
        push_lines(&mut lines, facts_lines(w, pkg.as_str(), now));
        push_lines(&mut lines, source_lines(w, pkg.as_str()));
        push_lines(&mut lines, rels_lines(w, self.relation, pkg.as_str()));
        lines
    }

    /// The breadcrumb: "whypkg › firefox › libnss3 …", one step per dossier
    /// on the stack.
    pub fn breadcrumb(&self) -> (r: Vec<Span>)
        ensures
            line_view(r@) == crumbs(self.stack@),
    {
        let mut r: Vec<Span> = vec![lit("whypkg", Tone::BoldCyan)];
        let mut i: usize = 0;
        while i < self.stack.len()
            invariant
                i <= self.stack@.len(),
                line_view(r@) == crumbs(self.stack@.take(i as int)),
            decreases self.stack@.len() - i,
        {
            proof {
                assert(self.stack@.take(i + 1).drop_last() == self.stack@.take(i as int));
                assert(self.stack@.take(i + 1).last() == self.stack@[i as int]);
            }
            match &self.stack[i].focus {
                Some(p) => {
                    let ghost before = line_view(r@);
                    r.push(lit(" › ", Tone::Plain));
                    r.push(span(p.clone(), Tone::Bold));
                    proof {
                        assert(line_view(r@) =~= before + seq![(" › "@, Tone::Plain), (p@, Tone::Bold)]);
                    }
                },
                None => {
                    proof {
                        assert(line_view(r@) + Seq::<(Seq<char>, Tone)>::empty() =~= line_view(r@));
                    }
                },
            }
            i += 1;
        }
        proof {
            assert(self.stack@.take(self.stack@.len() as int) == self.stack@);
        }
        r
    }

    /// The query line, with the active filter on the right.
    pub fn status_line(&self) -> (r: Vec<Span>)
        requires
            self.wf(),
        ensures
            line_view(r@) == status_text(self.filter, self.stack@.last().query@),
    {
        let n = self.stack.len();
        let mode = if self.filter == FilterMode::All {
            lit("  showing: all", Tone::Dim)
        } else {
            let mut t = String::from_str("  showing: ");
            t.append(self.filter.label());
            span(t, Tone::Cyan)
        };
        let r: Vec<Span> = vec![
            lit("  filter ", Tone::Dim),
            span(self.stack[n - 1].query.clone(), Tone::Plain),
            lit("▏", Tone::Cyan),
            mode,
        ];
        proof {
            assert(line_view(r@) =~= status_text(self.filter, self.stack@.last().query@));
        }
        r
    }

    /// The help line under the list.
    pub fn help_line(&self) -> (s: &'static str)
        requires
            self.wf(),
        ensures
            s@ == help_text(self.stack@.last().focus is Some),
    {
        let n = self.stack.len();
        if self.stack[n - 1].focus.is_some() {
            "Enter open · Esc back · ←/→ needs-it / it-needs · Tab filter · Ctrl-G graph · Ctrl-C quit"
        } else {
            "type to filter · Tab filter · Enter open · Ctrl-G graph · Esc quit"
        }
    }
}

/// The breadcrumb of a stack of frames.
pub open spec fn crumbs(fs: Seq<Frame>) -> TextLine
    decreases fs.len(),
{
    if fs.len() == 0 {
        seq![("whypkg"@, Tone::BoldCyan)]
    } else {
        crumbs(fs.drop_last()) + match fs.last().focus {
            Some(p) => seq![(" › "@, Tone::Plain), (p@, Tone::Bold)],
            None => Seq::empty(),
        }
    }
}

/// The query line.
pub open spec fn status_text(f: FilterMode, q: Seq<char>) -> TextLine {
    seq![
        ("  filter "@, Tone::Dim),
        (q, Tone::Plain),
        ("▏"@, Tone::Cyan),
        if f == FilterMode::All {
            ("  showing: all"@, Tone::Dim)
        } else {
            ("  showing: "@ + match f {
                FilterMode::All => "all"@,
                FilterMode::Manual => "manual [M]"@,
                FilterMode::Auto => "auto [A]"@,
                FilterMode::Flatpak => "flatpak [F]"@,
            }, Tone::Cyan)
        },
    ]
}

/// The help line, in a dossier or on the root list.
pub open spec fn help_text(dossier: bool) -> Seq<char> {
    if dossier {
        "Enter open · Esc back · ←/→ needs-it / it-needs · Tab filter · Ctrl-G graph · Ctrl-C quit"@
    } else {
        "type to filter · Tab filter · Enter open · Ctrl-G graph · Esc quit"@
    }
}

} // verus!
