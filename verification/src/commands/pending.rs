//! `whypkg pending`: every package with a pending upgrade, grouped by why
//! it is on the system: kernel and firmware, foundational libraries, apps
//! the user installed, and auto-installed packages traced back (through
//! the reverse-dependency search) to the manual package that pulled them
//! in.
//!
//! The report is built here as styled lines; printing it is left to the
//! caller.

use vstd::prelude::*;
use vstd::string::*;
use crate::text::{sviews, decimal, chars_of, string_of, decimal_u64};
use crate::order::{lex_sorted, lex_sort, lex_lt, sort_strings, chars_lt, lemma_lex_total, lemma_lex_asym,
    lemma_lex_irreflexive, rank_view, rank_sort, sort_ranked, ranked};
use crate::model::{World, PackageView};
use crate::engine::{kernel_name, root_path, bfs_root, bfs_final, is_kernel_pkg, format_size, size_text, FOUNDATION_THRESHOLD};
use crate::styled::{Tone, Span, span, lit, line_view, lines_view, pad_right, pad_left, padded_right, padded_left,
    repeat_char};

verus! {

/// A line of styled text, as plain values.
pub type TextLine = Seq<(Seq<char>, Tone)>;

/// Which parts of the report to show; none set means all of it.
pub struct Args {
    /// Kernel, firmware and microcode updates only.
    pub kernel: bool,
    /// Packages you explicitly installed.
    pub apps: bool,
    /// Auto-installed packages, grouped by what pulled them in.
    pub auto: bool,
    /// One line per package: size and reason, nothing else.
    pub quick: bool,
    /// Top packages by installed size.
    pub sizes: bool,
}

/// Why an upgradable package is on the system.
pub enum Category {
    Kernel,
    Foundation,
    App,
    /// Auto-installed, traced to the manual package that pulled it in.
    PulledIn(String),
    /// Auto-installed, with no manual package found above it.
    Untraced,
}

/// `c` is the category of `pkg`: kernel before foundational library
/// (more than the threshold of reverse dependencies) before an app the
/// user installed; otherwise the manual package that the breadth-first
/// walk of [`bfs_root`] reaches first, at the end of a shortest
/// reverse-dependency chain, or untraced when there is none.
pub open spec fn category_ok(w: World, pkg: Seq<char>, c: Category) -> bool {
    if kernel_name(pkg) {
        c is Kernel
    } else if w.rdeps_list(pkg).len() > FOUNDATION_THRESHOLD {
        c is Foundation
    } else if w.manual_set().contains(pkg) {
        c is App
    } else if exists|p: Seq<Seq<char>>| root_path(w, pkg, p) {
        c matches Category::PulledIn(r) && bfs_final(w, pkg).found == Some(r@) && exists|p: Seq<Seq<char>>|
            #[trigger] root_path(w, pkg, p) && p.last() == r@ && forall|q: Seq<Seq<char>>|
                #[trigger] root_path(w, pkg, q) ==> q.len() >= p.len()
    } else {
        c is Untraced
    }
}

/// A package the user installed is one of "your apps", whatever depends on
/// it or lies above it, unless it is a kernel package or a foundation
/// library; "pulled in by" is only ever said of a package the user did not
/// install, and "your app" only of one the user did.
pub proof fn lemma_manual_is_app(w: World, pkg: Seq<char>, c: Category)
    requires
        category_ok(w, pkg, c),
    ensures
        !kernel_name(pkg) && w.rdeps_list(pkg).len() <= FOUNDATION_THRESHOLD && w.manual_set().contains(pkg)
            ==> c is App,
        c is PulledIn ==> !w.manual_set().contains(pkg),
        c is App ==> w.manual_set().contains(pkg),
{
}

/// Decide a package's category.
pub fn classify(world: &World, pkg: &str) -> (c: Category)
    requires
        world.wf(),
    ensures
        category_ok(*world, pkg@, c),
{
    if is_kernel_pkg(pkg) {
        return Category::Kernel;
    }
    if world.rdep_count(pkg) > FOUNDATION_THRESHOLD {
        return Category::Foundation;
    }
    if world.is_manual(pkg) {
        return Category::App;
    }
    match bfs_root(world, pkg) {
        Some(path) => {
            let n = path.len();
            proof {
                assert(sviews(path@).len() == path@.len());
            }
            let root = path[n - 1].clone();
            proof {
                assert(sviews(path@).last() == root@);
            }
            Category::PulledIn(root)
        },
        None => Category::Untraced,
    }
}

/// The one-word reason a compact view gives.
pub open spec fn reason_text(c: Option<Category>) -> Seq<char> {
    match c {
        Some(Category::Kernel) => "kernel"@,
        Some(Category::Foundation) => "system lib"@,
        Some(Category::App) => "you"@,
        Some(Category::PulledIn(r)) => "← "@ + r@,
        Some(Category::Untraced) => "auto"@,
        None => "auto"@,
    }
}

/// One-word "why is it here" reason for the compact views.
pub fn reason(cat: Option<&Category>) -> (s: String)
    ensures
        s@ == reason_text(match cat {
            Some(c) => Some(*c),
            None => None,
        }),
{
    match cat {
        Some(Category::Kernel) => String::from_str("kernel"),
        Some(Category::Foundation) => String::from_str("system lib"),
        Some(Category::App) => String::from_str("you"),
        Some(Category::PulledIn(root)) => {
            let mut s = String::from_str("← ");
            s.append(root.as_str());
            s
        },
        Some(Category::Untraced) => String::from_str("auto"),
        None => String::from_str("auto"),
    }
}

// ───────────────────────────── package facts ─────────────────────────────

/// The installed package `pkg`, if any.
pub open spec fn pkg_of(w: World, pkg: Seq<char>) -> Option<PackageView> {
    if w.catalog().contains_key(pkg) {
        Some(w.catalog()[pkg])
    } else {
        None
    }
}

/// "old  →  new" for a pending upgrade, the version alone otherwise, and
/// nothing for a package that is not installed.
pub open spec fn version_change_text(w: World, pkg: Seq<char>) -> Seq<char> {
    match pkg_of(w, pkg) {
        None => Seq::empty(),
        Some(p) => match p.candidate {
            Some(c) => p.version + "  →  "@ + c,
            None => p.version,
        },
    }
}

/// The synopsis of `pkg`, empty when it is not installed.
pub open spec fn desc_text(w: World, pkg: Seq<char>) -> Seq<char> {
    match pkg_of(w, pkg) {
        Some(p) => p.description,
        None => Seq::empty(),
    }
}

/// The installed size of `pkg` in KB, `0` when it is not installed.
pub open spec fn size_of(w: World, pkg: Seq<char>) -> nat {
    match pkg_of(w, pkg) {
        Some(p) => p.installed_size as nat,
        None => 0,
    }
}

/// The version change of `pkg`.
pub fn version_change(world: &World, pkg: &str) -> (s: String)
    requires
        world.wf(),
    ensures
        s@ == version_change_text(*world, pkg@),
{
    match world.package(pkg) {
        None => String::new(),
        Some(p) => match &p.candidate {
            Some(c) => {
                let mut s = p.version.clone();
                s.append("  →  ");
                s.append(c.as_str());
                s
            },
            None => p.version.clone(),
        },
    }
}

/// The synopsis of `pkg`.
pub fn desc(world: &World, pkg: &str) -> (s: String)
    requires
        world.wf(),
    ensures
        s@ == desc_text(*world, pkg@),
{
    match world.package(pkg) {
        Some(p) => p.description.clone(),
        None => String::new(),
    }
}

/// The installed size of `pkg` in KB.
pub fn size_kb(world: &World, pkg: &str) -> (n: u64)
    requires
        world.wf(),
    ensures
        n == size_of(*world, pkg@),
{
    match world.package(pkg) {
        Some(p) => p.installed_size,
        None => 0,
    }
}

// ───────────────────────────── layout pieces ─────────────────────────────

/// A section header: a blank line, the bold title, and a rule.
pub open spec fn header_lines(title: Seq<char>) -> Seq<TextLine> {
    seq![
        Seq::empty(),
        seq![("  "@ + title, Tone::BoldWhite)],
        seq![("  "@, Tone::Plain), (Seq::new(58, |i: int| '─'), Tone::Dim)],
    ]
}

fn header(title: String) -> (r: Vec<Vec<Span>>)
    ensures
        lines_view(r@) == header_lines(title@),
{
    let mut t = String::from_str("  ");
    t.append(title.as_str());
    let l1: Vec<Span> = vec![span(t, Tone::BoldWhite)];
    let l2: Vec<Span> = vec![lit("  ", Tone::Plain), span(repeat_char('─', 58), Tone::Dim)];
    let r: Vec<Vec<Span>> = vec![Vec::new(), l1, l2];
    proof {
        assert(lines_view(r@) =~= header_lines(title@)) by {
            assert(line_view(r@[0]@) =~= Seq::<(Seq<char>, Tone)>::empty());
            assert(line_view(r@[1]@) =~= seq![("  "@ + title@, Tone::BoldWhite)]);
            assert(line_view(r@[2]@) =~= seq![("  "@, Tone::Plain), (Seq::new(58, |i: int| '─'), Tone::Dim)]);
        }
    }
    r
}

/// Append `more` to `out`.
pub(crate) fn push_lines(out: &mut Vec<Vec<Span>>, more: Vec<Vec<Span>>)
    ensures
        lines_view(final(out)@) == lines_view(old(out)@) + lines_view(more@),
{
    let ghost m0 = more@;
    let mut more = more;
    out.append(&mut more);
    proof {
        assert(out@ == old(out)@ + m0);
        assert(lines_view(out@) =~= lines_view(old(out)@) + lines_view(m0));
    }
}

/// `"N packages"` in parentheses after `title`.
fn counted(title: &str, n: usize) -> (s: String)
    ensures
        s@ == title@ + "  ("@ + decimal(n as nat) + " packages)"@,
{
    let mut s = String::from_str(title);
    s.append("  (");
    s.append(string_of(&decimal_u64(n as u64)).as_str());
    s.append(" packages)");
    s
}

/// Whether `c` is kernel or foundation.
pub open spec fn is_system(c: Category) -> bool {
    c is Kernel || c is Foundation
}

/// How many of `cs` satisfy `f`.
pub open spec fn count_where(cs: Seq<Category>, f: spec_fn(Category) -> bool) -> nat
    decreases cs.len(),
{
    if cs.len() == 0 {
        0
    } else {
        count_where(cs.drop_last(), f) + if f(cs.last()) {
            1nat
        } else {
            0nat
        }
    }
}

// ───────────────────────────── kernel section ─────────────────────────────

/// The lines of one kernel or system-library entry.
pub open spec fn kernel_item(w: World, pkg: Seq<char>, c: Category) -> Seq<TextLine> {
    let note = if c is Foundation {
        ("  ("@ + decimal(w.rdeps_list(pkg).len()) + " packages depend on this)"@, Tone::Dim)
    } else {
        (Seq::empty(), Tone::Plain)
    };
    seq![
        Seq::empty(),
        seq![("  "@, Tone::Plain), (pad_right(pkg, 32), Tone::Bold), ("  "@, Tone::Plain), (size_text(size_of(w, pkg)), Tone::Plain), note],
        seq![("  "@, Tone::Plain), (desc_text(w, pkg), Tone::Dim)],
        seq![("  "@, Tone::Plain), (version_change_text(w, pkg), Tone::Dim)],
    ]
}

/// The entries of the first packages of `pool` that are kernel or system
/// libraries.
pub open spec fn kernel_items(w: World, pool: Seq<Seq<char>>, cs: Seq<Category>) -> Seq<TextLine>
    decreases pool.len(),
{
    if pool.len() == 0 || cs.len() != pool.len() {
        Seq::empty()
    } else {
        kernel_items(w, pool.drop_last(), cs.drop_last()) + if is_system(cs.last()) {
            kernel_item(w, pool.last(), cs.last())
        } else {
            Seq::empty()
        }
    }
}

/// The kernel, firmware and system-library section.
pub open spec fn kernel_section(w: World, pool: Seq<Seq<char>>, cs: Seq<Category>) -> Seq<TextLine> {
    let n = count_where(cs, |c: Category| is_system(c));
    if n == 0 {
        Seq::empty()
    } else {
        header_lines("KERNEL, FIRMWARE & SYSTEM LIBS"@ + "  ("@ + decimal(n) + " packages)"@) + kernel_items(w, pool, cs)
    }
}

fn kernel_item_lines(world: &World, pkg: &str, c: &Category) -> (r: Vec<Vec<Span>>)
    requires
        world.wf(),
    ensures
        lines_view(r@) == kernel_item(*world, pkg@, *c),
{
    let note = match c {
        Category::Foundation => {
            let mut t = String::from_str("  (");
            t.append(string_of(&decimal_u64(world.rdep_count(pkg) as u64)).as_str());
            t.append(" packages depend on this)");
            span(t, Tone::Dim)
        },
        _ => span(String::new(), Tone::Plain),
    };
    let l1: Vec<Span> = vec![
        lit("  ", Tone::Plain),
        span(padded_right(pkg, 32), Tone::Bold),
        lit("  ", Tone::Plain),
        span(format_size(size_kb(world, pkg)), Tone::Plain),
        note,
    ];
    let l2: Vec<Span> = vec![lit("  ", Tone::Plain), span(desc(world, pkg), Tone::Dim)];
    let l3: Vec<Span> = vec![lit("  ", Tone::Plain), span(version_change(world, pkg), Tone::Dim)];
    let r: Vec<Vec<Span>> = vec![Vec::new(), l1, l2, l3];
    proof {
        assert(lines_view(r@) =~= kernel_item(*world, pkg@, *c)) by {
            assert(line_view(r@[0]@) =~= Seq::<(Seq<char>, Tone)>::empty());
            assert(line_view(r@[1]@) =~= kernel_item(*world, pkg@, *c)[1]);
            assert(line_view(r@[2]@) =~= kernel_item(*world, pkg@, *c)[2]);
            assert(line_view(r@[3]@) =~= kernel_item(*world, pkg@, *c)[3]);
        }
    }
    r
}

fn section_kernel(world: &World, pool: &[String], cats: &[Category]) -> (r: Vec<Vec<Span>>)
    requires
        world.wf(),
        pool@.len() == cats@.len(),
    ensures
        lines_view(r@) == kernel_section(*world, sviews(pool@), cats@),
{
    let mut items: Vec<Vec<Span>> = Vec::new();
    let mut n: usize = 0;
    let mut i: usize = 0;
    while i < pool.len()
        invariant
            world.wf(),
            pool@.len() == cats@.len(),
            i <= pool@.len(),
            n == count_where(cats@.take(i as int), |c: Category| is_system(c)),
            n <= i,
            lines_view(items@) == kernel_items(*world, sviews(pool@).take(i as int), cats@.take(i as int)),
        decreases pool@.len() - i,
    {
        proof {
            assert(sviews(pool@).take(i + 1).drop_last() == sviews(pool@).take(i as int));
            assert(sviews(pool@).take(i + 1).last() == pool@[i as int]@);
            assert(cats@.take(i + 1).drop_last() == cats@.take(i as int));
            assert(cats@.take(i + 1).last() == cats@[i as int]);
        }
        match &cats[i] {
            Category::Kernel | Category::Foundation => {
                push_lines(&mut items, kernel_item_lines(world, pool[i].as_str(), &cats[i]));
                n += 1;
            },
            _ => {
                proof {
                    assert(lines_view(items@) + Seq::<TextLine>::empty() =~= lines_view(items@));
                }
            },
        }
        i += 1;
    }
    proof {
        assert(sviews(pool@).take(pool@.len() as int) == sviews(pool@));
        assert(cats@.take(pool@.len() as int) == cats@);
    }
    if n == 0 {
        return Vec::new();
    }
    let mut r = header(counted("KERNEL, FIRMWARE & SYSTEM LIBS", n));
    push_lines(&mut r, items);
    r
}

// ───────────────────────────── apps section ─────────────────────────────

/// The lines of one app the user installed.
pub open spec fn app_item(w: World, pkg: Seq<char>) -> Seq<TextLine> {
    seq![
        Seq::empty(),
        seq![("  "@, Tone::Plain), (">>"@, Tone::BoldGreen), (" "@, Tone::Plain), (pad_right(pkg, 28), Tone::BoldGreen), ("  "@, Tone::Plain), (size_text(size_of(w, pkg)), Tone::Plain)],
        seq![("  "@, Tone::Plain), (desc_text(w, pkg), Tone::Dim)],
        seq![("  "@, Tone::Plain), (version_change_text(w, pkg), Tone::Dim)],
    ]
}

/// The entries of the first packages of `pool` that are apps.
pub open spec fn app_items(w: World, pool: Seq<Seq<char>>, cs: Seq<Category>) -> Seq<TextLine>
    decreases pool.len(),
{
    if pool.len() == 0 || cs.len() != pool.len() {
        Seq::empty()
    } else {
        app_items(w, pool.drop_last(), cs.drop_last()) + if cs.last() is App {
            app_item(w, pool.last())
        } else {
            Seq::empty()
        }
    }
}

/// The section of apps the user installed.
pub open spec fn apps_section(w: World, pool: Seq<Seq<char>>, cs: Seq<Category>) -> Seq<TextLine> {
    let n = count_where(cs, |c: Category| c is App);
    if n == 0 {
        Seq::empty()
    } else {
        header_lines("YOUR INSTALLED APPS"@ + "  ("@ + decimal(n) + " packages)"@) + seq![
            Seq::empty(),
            seq![("  "@, Tone::Plain), ("Packages you explicitly installed."@, Tone::Dim)],
        ] + app_items(w, pool, cs)
    }
}

fn app_item_lines(world: &World, pkg: &str) -> (r: Vec<Vec<Span>>)
    requires
        world.wf(),
    ensures
        lines_view(r@) == app_item(*world, pkg@),
{
    let l1: Vec<Span> = vec![
        lit("  ", Tone::Plain),
        lit(">>", Tone::BoldGreen),
        lit(" ", Tone::Plain),
        span(padded_right(pkg, 28), Tone::BoldGreen),
        lit("  ", Tone::Plain),
        span(format_size(size_kb(world, pkg)), Tone::Plain),
    ];
    let l2: Vec<Span> = vec![lit("  ", Tone::Plain), span(desc(world, pkg), Tone::Dim)];
    let l3: Vec<Span> = vec![lit("  ", Tone::Plain), span(version_change(world, pkg), Tone::Dim)];
    let r: Vec<Vec<Span>> = vec![Vec::new(), l1, l2, l3];
    proof {
        assert(lines_view(r@) =~= app_item(*world, pkg@)) by {
            assert(line_view(r@[0]@) =~= Seq::<(Seq<char>, Tone)>::empty());
            assert(line_view(r@[1]@) =~= app_item(*world, pkg@)[1]);
            assert(line_view(r@[2]@) =~= app_item(*world, pkg@)[2]);
            assert(line_view(r@[3]@) =~= app_item(*world, pkg@)[3]);
        }
    }
    r
}

fn section_apps(world: &World, pool: &[String], cats: &[Category]) -> (r: Vec<Vec<Span>>)
    requires
        world.wf(),
        pool@.len() == cats@.len(),
    ensures
        lines_view(r@) == apps_section(*world, sviews(pool@), cats@),
{
    let mut items: Vec<Vec<Span>> = Vec::new();
    let mut n: usize = 0;
    let mut i: usize = 0;
    while i < pool.len()
        invariant
            world.wf(),
            pool@.len() == cats@.len(),
            i <= pool@.len(),
            n == count_where(cats@.take(i as int), |c: Category| c is App),
            n <= i,
            lines_view(items@) == app_items(*world, sviews(pool@).take(i as int), cats@.take(i as int)),
        decreases pool@.len() - i,
    {
        proof {
            assert(sviews(pool@).take(i + 1).drop_last() == sviews(pool@).take(i as int));
            assert(sviews(pool@).take(i + 1).last() == pool@[i as int]@);
            assert(cats@.take(i + 1).drop_last() == cats@.take(i as int));
            assert(cats@.take(i + 1).last() == cats@[i as int]);
        }
        match &cats[i] {
            Category::App => {
                push_lines(&mut items, app_item_lines(world, pool[i].as_str()));
                n += 1;
            },
            _ => {
                proof {
                    assert(lines_view(items@) + Seq::<TextLine>::empty() =~= lines_view(items@));
                }
            },
        }
        i += 1;
    }
    proof {
        assert(sviews(pool@).take(pool@.len() as int) == sviews(pool@));
        assert(cats@.take(pool@.len() as int) == cats@);
    }
    if n == 0 {
        return Vec::new();
    }
    let mut r = header(counted("YOUR INSTALLED APPS", n));
    let intro: Vec<Vec<Span>> = vec![
        Vec::new(),
        vec![lit("  ", Tone::Plain), lit("Packages you explicitly installed.", Tone::Dim)],
    ];
    proof {
        assert(lines_view(intro@) =~= seq![
            Seq::<(Seq<char>, Tone)>::empty(),
            seq![("  "@, Tone::Plain), ("Packages you explicitly installed."@, Tone::Dim)],
        ]) by {
            assert(line_view(intro@[0]@) =~= Seq::<(Seq<char>, Tone)>::empty());
            assert(line_view(intro@[1]@) =~= seq![("  "@, Tone::Plain), ("Packages you explicitly installed."@, Tone::Dim)]);
        }
    }
    push_lines(&mut r, intro);
    push_lines(&mut r, items);
    r
}

// ───────────────────────────── auto section ─────────────────────────────

/// The manual packages that pulled in the first packages of a pool, each
/// once, in the order they first appear.
pub open spec fn root_list(cs: Seq<Category>) -> Seq<Seq<char>>
    decreases cs.len(),
{
    if cs.len() == 0 {
        Seq::empty()
    } else {
        let r = root_list(cs.drop_last());
        match cs.last() {
            Category::PulledIn(x) => if r.contains(x@) {
                r
            } else {
                r.push(x@)
            },
            _ => r,
        }
    }
}

/// The packages of `pool` that `root` pulled in, in pool order.
pub open spec fn members_of(pool: Seq<Seq<char>>, cs: Seq<Category>, root: Seq<char>) -> Seq<Seq<char>>
    decreases pool.len(),
{
    if pool.len() == 0 || cs.len() != pool.len() {
        Seq::empty()
    } else {
        let r = members_of(pool.drop_last(), cs.drop_last(), root);
        match cs.last() {
            Category::PulledIn(x) => if x@ == root {
                r.push(pool.last())
            } else {
                r
            },
            _ => r,
        }
    }
}

/// The auto-installed packages of `pool` with no manual package found,
/// in pool order.
pub open spec fn untraced_of(pool: Seq<Seq<char>>, cs: Seq<Category>) -> Seq<Seq<char>>
    decreases pool.len(),
{
    if pool.len() == 0 || cs.len() != pool.len() {
        Seq::empty()
    } else {
        let r = untraced_of(pool.drop_last(), cs.drop_last());
        if cs.last() is Untraced {
            r.push(pool.last())
        } else {
            r
        }
    }
}

/// The groups of pulled-in packages, largest first, groups of one size by
/// the name of their root: each root with the size of its group.
pub open spec fn group_order(pool: Seq<Seq<char>>, cs: Seq<Category>) -> Seq<(u64, Seq<char>)> {
    rank_sort(
        lex_sort(root_list(cs)).map_values(|r: Seq<char>| (members_of(pool, cs, r).len() as u64, r)),
    )
}

/// The lines of one pulled-in (or untraced) package.
pub open spec fn member_item(w: World, pkg: Seq<char>) -> Seq<TextLine> {
    seq![
        Seq::empty(),
        seq![("  "@, Tone::Plain), (pad_right(pkg, 32), Tone::Yellow), ("  "@, Tone::Plain), (size_text(size_of(w, pkg)), Tone::Plain)],
        seq![("  "@, Tone::Plain), (desc_text(w, pkg), Tone::Dim)],
    ]
}

/// The lines of packages, one entry each.
pub open spec fn member_items(w: World, ms: Seq<Seq<char>>) -> Seq<TextLine>
    decreases ms.len(),
{
    if ms.len() == 0 {
        Seq::empty()
    } else {
        member_items(w, ms.drop_last()) + member_item(w, ms.last())
    }
}

/// The lines of the group of `root`, whose `n` members are `ms`.
pub open spec fn group_lines(w: World, root: Seq<char>, n: nat, ms: Seq<Seq<char>>) -> Seq<TextLine> {
    header_lines("PULLED IN BY: "@ + root + "  ("@ + decimal(n) + " packages)"@) + seq![
        seq![("  "@, Tone::Plain), (desc_text(w, root), Tone::Green)],
        seq![("  "@, Tone::Plain), ("All "@ + decimal(n) + " packages below exist because you installed "@ + root + "."@, Tone::Dim)],
    ] + member_items(w, ms)
}

/// The lines of the groups `gs`.
pub open spec fn groups_lines(w: World, pool: Seq<Seq<char>>, cs: Seq<Category>, gs: Seq<(u64, Seq<char>)>) -> Seq<
    TextLine,
>
    decreases gs.len(),
{
    if gs.len() == 0 {
        Seq::empty()
    } else {
        groups_lines(w, pool, cs, gs.drop_last()) + group_lines(
            w,
            gs.last().1,
            gs.last().0 as nat,
            lex_sort(members_of(pool, cs, gs.last().1)),
        )
    }
}

/// The section of auto-installed packages, grouped by what pulled them in,
/// then those with no manual package found.
pub open spec fn auto_section(w: World, pool: Seq<Seq<char>>, cs: Seq<Category>) -> Seq<TextLine> {
    let u = untraced_of(pool, cs);
    groups_lines(w, pool, cs, group_order(pool, cs)) + if u.len() > 0 {
        header_lines("OTHER AUTO-INSTALLED"@ + "  ("@ + decimal(u.len()) + " packages)"@) + seq![
            Seq::empty(),
            seq![("  "@, Tone::Plain), ("Auto-installed, but no manual package found in the dependency chain."@, Tone::Dim)],
        ] + member_items(w, lex_sort(u))
    } else {
        Seq::empty()
    }
}

fn member_item_lines(world: &World, pkg: &str) -> (r: Vec<Vec<Span>>)
    requires
        world.wf(),
    ensures
        lines_view(r@) == member_item(*world, pkg@),
{
    let l1: Vec<Span> = vec![
        lit("  ", Tone::Plain),
        span(padded_right(pkg, 32), Tone::Yellow),
        lit("  ", Tone::Plain),
        span(format_size(size_kb(world, pkg)), Tone::Plain),
    ];
    let l2: Vec<Span> = vec![lit("  ", Tone::Plain), span(desc(world, pkg), Tone::Dim)];
    let r: Vec<Vec<Span>> = vec![Vec::new(), l1, l2];
    proof {
        assert(lines_view(r@) =~= member_item(*world, pkg@)) by {
            assert(line_view(r@[0]@) =~= Seq::<(Seq<char>, Tone)>::empty());
            assert(line_view(r@[1]@) =~= member_item(*world, pkg@)[1]);
            assert(line_view(r@[2]@) =~= member_item(*world, pkg@)[2]);
        }
    }
    r
}

fn member_items_lines(world: &World, ms: &Vec<String>) -> (r: Vec<Vec<Span>>)
    requires
        world.wf(),
    ensures
        lines_view(r@) == member_items(*world, sviews(ms@)),
{
    let mut r: Vec<Vec<Span>> = Vec::new();
    let mut i: usize = 0;
    while i < ms.len()
        invariant
            world.wf(),
            i <= ms@.len(),
            lines_view(r@) == member_items(*world, sviews(ms@).take(i as int)),
        decreases ms@.len() - i,
    {
        proof {
            assert(sviews(ms@).take(i + 1).drop_last() == sviews(ms@).take(i as int));
            assert(sviews(ms@).take(i + 1).last() == ms@[i as int]@);
        }
        push_lines(&mut r, member_item_lines(world, ms[i].as_str()));
        i += 1;
    }
    proof {
        assert(sviews(ms@).take(ms@.len() as int) == sviews(ms@));
    }
    r
}

/// The roots of the pool's pulled-in packages, each once, in the order
/// they first appear.
fn collect_roots(cats: &[Category]) -> (r: Vec<String>)
    ensures
        sviews(r@) == root_list(cats@),
{
    let mut r: Vec<String> = Vec::new();
    let mut i: usize = 0;
    while i < cats.len()
        invariant
            i <= cats@.len(),
            sviews(r@) == root_list(cats@.take(i as int)),
        decreases cats@.len() - i,
    {
        proof {
            assert(cats@.take(i + 1).drop_last() == cats@.take(i as int));
            assert(cats@.take(i + 1).last() == cats@[i as int]);
        }
        match &cats[i] {
            Category::PulledIn(x) => {
                let mut found = false;
                let mut k: usize = 0;
                while k < r.len()
                    invariant
                        k <= r@.len(),
                        found == sviews(r@).take(k as int).contains(x@),
                    decreases r@.len() - k,
                {
                    proof {
                        assert(sviews(r@).take(k + 1) == sviews(r@).take(k as int).push(r@[k as int]@));
                        if sviews(r@).take(k as int).contains(x@) {
                            let j = choose|j: int| 0 <= j < k && #[trigger] sviews(r@).take(k as int)[j] == x@;
                            assert(sviews(r@).take(k + 1)[j] == x@);
                        }
                        if sviews(r@).take(k + 1).contains(x@) && r@[k as int]@ != x@ {
                            let j = choose|j: int| 0 <= j < k + 1 && #[trigger] sviews(r@).take(k + 1)[j] == x@;
                            assert(sviews(r@).take(k as int)[j] == x@);
                        }
                    }
                    if r[k].eq(x) {
                        found = true;
                        proof {
                            assert(sviews(r@).take(k + 1)[k as int] == x@);
                        }
                    }
                    k += 1;
                }
                proof {
                    assert(sviews(r@).take(r@.len() as int) == sviews(r@));
                }
                if !found {
                    let ghost before = sviews(r@);
                    r.push(x.clone());
                    proof {
                        assert(sviews(r@) =~= before.push(x@));
                    }
                }
            },
            _ => {},
        }
        i += 1;
    }
    proof {
        assert(cats@.take(cats@.len() as int) == cats@);
    }
    r
}

/// The packages of the pool that `root` pulled in, in pool order.
fn collect_members(pool: &[String], cats: &[Category], root: &String) -> (r: Vec<String>)
    requires
        pool@.len() == cats@.len(),
    ensures
        sviews(r@) == members_of(sviews(pool@), cats@, root@),
{
    let mut r: Vec<String> = Vec::new();
    let mut i: usize = 0;
    while i < pool.len()
        invariant
            pool@.len() == cats@.len(),
            i <= pool@.len(),
            sviews(r@) == members_of(sviews(pool@).take(i as int), cats@.take(i as int), root@),
        decreases pool@.len() - i,
    {
        proof {
            assert(sviews(pool@).take(i + 1).drop_last() == sviews(pool@).take(i as int));
            assert(sviews(pool@).take(i + 1).last() == pool@[i as int]@);
            assert(cats@.take(i + 1).drop_last() == cats@.take(i as int));
            assert(cats@.take(i + 1).last() == cats@[i as int]);
        }
        match &cats[i] {
            Category::PulledIn(x) => {
                if x.eq(root) {
                    let ghost before = sviews(r@);
                    r.push(pool[i].clone());
                    proof {
                        assert(sviews(r@) =~= before.push(pool@[i as int]@));
                    }
                }
            },
            _ => {},
        }
        i += 1;
    }
    proof {
        assert(sviews(pool@).take(pool@.len() as int) == sviews(pool@));
        assert(cats@.take(pool@.len() as int) == cats@);
    }
    r
}

/// The untraced packages of the pool, in pool order.
fn collect_untraced(pool: &[String], cats: &[Category]) -> (r: Vec<String>)
    requires
        pool@.len() == cats@.len(),
    ensures
        sviews(r@) == untraced_of(sviews(pool@), cats@),
{
    let mut r: Vec<String> = Vec::new();
    let mut i: usize = 0;
    while i < pool.len()
        invariant
            pool@.len() == cats@.len(),
            i <= pool@.len(),
            sviews(r@) == untraced_of(sviews(pool@).take(i as int), cats@.take(i as int)),
        decreases pool@.len() - i,
    {
        proof {
            assert(sviews(pool@).take(i + 1).drop_last() == sviews(pool@).take(i as int));
            assert(sviews(pool@).take(i + 1).last() == pool@[i as int]@);
            assert(cats@.take(i + 1).drop_last() == cats@.take(i as int));
            assert(cats@.take(i + 1).last() == cats@[i as int]);
        }
        match &cats[i] {
            Category::Untraced => {
                let ghost before = sviews(r@);
                r.push(pool[i].clone());
                proof {
                    assert(sviews(r@) =~= before.push(pool@[i as int]@));
                }
            },
            _ => {},
        }
        i += 1;
    }
    proof {
        assert(sviews(pool@).take(pool@.len() as int) == sviews(pool@));
        assert(cats@.take(pool@.len() as int) == cats@);
    }
    r
}

proof fn lemma_members_bound(pool: Seq<Seq<char>>, cs: Seq<Category>, root: Seq<char>)
    ensures
        members_of(pool, cs, root).len() <= pool.len(),
    decreases pool.len(),
{
    if pool.len() > 0 && cs.len() == pool.len() {
        lemma_members_bound(pool.drop_last(), cs.drop_last(), root);
    }
}

fn group_lines_exec(world: &World, root: &String, n: u64, ms: &Vec<String>) -> (r: Vec<Vec<Span>>)
    requires
        world.wf(),
    ensures
        lines_view(r@) == group_lines(*world, root@, n as nat, sviews(ms@)),
{
    let mut title = String::from_str("PULLED IN BY: ");
    title.append(root.as_str());
    title.append("  (");
    title.append(string_of(&decimal_u64(n)).as_str());
    title.append(" packages)");
    let mut r = header(title);
    let mut all = String::from_str("All ");
    all.append(string_of(&decimal_u64(n)).as_str());
    all.append(" packages below exist because you installed ");
    all.append(root.as_str());
    all.append(".");
    let intro: Vec<Vec<Span>> = vec![
        vec![lit("  ", Tone::Plain), span(desc(world, root.as_str()), Tone::Green)],
        vec![lit("  ", Tone::Plain), span(all, Tone::Dim)],
    ];
    proof {
        let want = seq![
            seq![("  "@, Tone::Plain), (desc_text(*world, root@), Tone::Green)],
            seq![("  "@, Tone::Plain), ("All "@ + decimal(n as nat) + " packages below exist because you installed "@ + root@ + "."@, Tone::Dim)],
        ];
        assert(lines_view(intro@) =~= want) by {
            assert(line_view(intro@[0]@) =~= want[0]);
            assert(line_view(intro@[1]@) =~= want[1]);
        }
    }
    push_lines(&mut r, intro);
    push_lines(&mut r, member_items_lines(world, ms));
    r
}

fn section_auto(world: &World, pool: &[String], cats: &[Category]) -> (r: Vec<Vec<Span>>)
    requires
        world.wf(),
        pool@.len() == cats@.len(),
    ensures
        lines_view(r@) == auto_section(*world, sviews(pool@), cats@),
{
    let ghost pv = sviews(pool@);
    let roots = sort_strings(collect_roots(cats));
    let mut groups: Vec<(u64, String)> = Vec::new();
    let mut i: usize = 0;
    while i < roots.len()
        invariant
            pool@.len() == cats@.len(),
            pv == sviews(pool@),
            i <= roots@.len(),
            sviews(roots@) == lex_sort(root_list(cats@)),
            rank_view(groups@) == sviews(roots@).take(i as int).map_values(
                |r: Seq<char>| (members_of(pv, cats@, r).len() as u64, r),
            ),
        decreases roots@.len() - i,
    {
        let ms = collect_members(pool, cats, &roots[i]);
        proof {
            lemma_members_bound(pv, cats@, roots@[i as int]@);
            assert(sviews(ms@).len() == ms@.len());
        }
        let ghost before = rank_view(groups@);
        groups.push((ms.len() as u64, roots[i].clone()));
        proof {
            assert(sviews(roots@).take(i + 1) == sviews(roots@).take(i as int).push(roots@[i as int]@));
            assert(members_of(pv, cats@, roots@[i as int]@).len() == ms@.len());
            assert(rank_view(groups@) == before.push((ms@.len() as u64, roots@[i as int]@)));
            assert(rank_view(groups@) =~= sviews(roots@).take(i + 1).map_values(
                |r: Seq<char>| (members_of(pv, cats@, r).len() as u64, r),
            ));
        }
        i += 1;
    }
    proof {
        assert(sviews(roots@).take(roots@.len() as int) == sviews(roots@));
    }
    let gs = sort_ranked(groups);
    let mut r: Vec<Vec<Span>> = Vec::new();
    let mut k: usize = 0;
    while k < gs.len()
        invariant
            world.wf(),
            pool@.len() == cats@.len(),
            pv == sviews(pool@),
            k <= gs@.len(),
            rank_view(gs@) == group_order(pv, cats@),
            lines_view(r@) == groups_lines(*world, pv, cats@, rank_view(gs@).take(k as int)),
        decreases gs@.len() - k,
    {
        proof {
            assert(rank_view(gs@).take(k + 1).drop_last() == rank_view(gs@).take(k as int));
            assert(rank_view(gs@).take(k + 1).last() == (gs@[k as int].0, gs@[k as int].1@));
        }
        let ms = sort_strings(collect_members(pool, cats, &gs[k].1));
        push_lines(&mut r, group_lines_exec(world, &gs[k].1, gs[k].0, &ms));
        k += 1;
    }
    proof {
        assert(rank_view(gs@).take(gs@.len() as int) == rank_view(gs@));
    }
    let untraced = collect_untraced(pool, cats);
    if untraced.len() > 0 {
        let mut tail = header(counted("OTHER AUTO-INSTALLED", untraced.len()));
        let intro: Vec<Vec<Span>> = vec![
            Vec::new(),
            vec![
                lit("  ", Tone::Plain),
                lit("Auto-installed, but no manual package found in the dependency chain.", Tone::Dim),
            ],
        ];
        proof {
            let want = seq![
                Seq::<(Seq<char>, Tone)>::empty(),
                seq![("  "@, Tone::Plain), ("Auto-installed, but no manual package found in the dependency chain."@, Tone::Dim)],
            ];
            assert(lines_view(intro@) =~= want) by {
                assert(line_view(intro@[0]@) =~= want[0]);
                assert(line_view(intro@[1]@) =~= want[1]);
            }
            assert(sviews(untraced@).len() == untraced@.len());
        }
        push_lines(&mut tail, intro);
        let sorted = sort_strings(untraced);
        push_lines(&mut tail, member_items_lines(world, &sorted));
        push_lines(&mut r, tail);
    } else {
        proof {
            assert(lines_view(r@) + Seq::<TextLine>::empty() =~= lines_view(r@));
        }
    }
    r
}

// ───────────────────────────── sizes ─────────────────────────────

/// The category of `pkg` in the pool: that of its first place.
pub open spec fn cat_of(pool: Seq<Seq<char>>, cs: Seq<Category>, pkg: Seq<char>) -> Option<Category>
    decreases pool.len(),
{
    if pool.len() == 0 || cs.len() == 0 {
        None
    } else if pool[0] == pkg {
        Some(cs[0])
    } else {
        cat_of(pool.drop_first(), cs.drop_first(), pkg)
    }
}

/// The pool by installed size, largest first, packages of one size in
/// pool order.
pub open spec fn by_size(w: World, pool: Seq<Seq<char>>) -> Seq<(u64, Seq<char>)> {
    rank_sort(pool.map_values(|p: Seq<char>| (size_of(w, p) as u64, p)))
}

/// The installed sizes of the pool, added up.
pub open spec fn sum_sizes(w: World, pool: Seq<Seq<char>>) -> nat
    decreases pool.len(),
{
    if pool.len() == 0 {
        0
    } else {
        sum_sizes(w, pool.drop_last()) + size_of(w, pool.last())
    }
}

/// One line of the disk-usage table.
pub open spec fn size_item(w: World, pool: Seq<Seq<char>>, cs: Seq<Category>, pkg: Seq<char>) -> TextLine {
    seq![
        ("  "@ + pad_right(pkg, 34) + "  "@ + pad_left(size_text(size_of(w, pkg)), 10) + "   "@, Tone::Plain),
        (reason_text(cat_of(pool, cs, pkg)), Tone::Dim),
    ]
}

/// One line of the quick view.
pub open spec fn quick_item(w: World, pool: Seq<Seq<char>>, cs: Seq<Category>, pkg: Seq<char>) -> TextLine {
    seq![
        (pad_right(pkg, 36) + "  "@ + pad_left(size_text(size_of(w, pkg)), 10) + "   "@ + reason_text(
            cat_of(pool, cs, pkg),
        ), Tone::Plain),
    ]
}

/// The lines of ranked packages, one each, as `f` lays them out.
pub open spec fn ranked_lines(
    ps: Seq<(u64, Seq<char>)>,
    f: spec_fn(Seq<char>) -> TextLine,
) -> Seq<TextLine> {
    ps.map_values(|e: (u64, Seq<char>)| f(e.1))
}

/// The disk-usage section: the 20 largest packages and the total.
pub open spec fn sizes_section(w: World, pool: Seq<Seq<char>>, cs: Seq<Category>) -> Seq<TextLine> {
    let ranked = by_size(w, pool);
    let top = if ranked.len() > 20 { ranked.take(20) } else { ranked };
    header_lines("DISK USAGE  (top 20 by installed size)"@) + seq![Seq::<(Seq<char>, Tone)>::empty()] + ranked_lines(
        top,
        |p: Seq<char>| size_item(w, pool, cs, p),
    ) + seq![
        Seq::empty(),
        seq![("  "@, Tone::Plain), ("Total: "@ + size_text(sum_sizes(w, pool)) + " across "@ + decimal(pool.len()) + " packages"@, Tone::Bold)],
    ]
}

/// The quick view: one line per package, largest first.
pub open spec fn quick_section(w: World, pool: Seq<Seq<char>>, cs: Seq<Category>) -> Seq<TextLine> {
    ranked_lines(by_size(w, pool), |p: Seq<char>| quick_item(w, pool, cs, p))
}

/// The category of `pkg` in the pool.
fn find_cat<'a>(pool: &[String], cats: &'a [Category], pkg: &String) -> (r: Option<&'a Category>)
    requires
        pool@.len() == cats@.len(),
    ensures
        match cat_of(sviews(pool@), cats@, pkg@) {
            Some(c) => r matches Some(x) && *x == c,
            None => r is None,
        },
{
    let mut i: usize = 0;
    proof {
        assert(sviews(pool@).skip(0) == sviews(pool@));
        assert(cats@.skip(0) == cats@);
    }
    while i < pool.len()
        invariant
            pool@.len() == cats@.len(),
            i <= pool@.len(),
            cat_of(sviews(pool@), cats@, pkg@) == cat_of(sviews(pool@).skip(i as int), cats@.skip(i as int), pkg@),
        decreases pool@.len() - i,
    {
        proof {
            assert(sviews(pool@).skip(i as int)[0] == pool@[i as int]@);
            assert(cats@.skip(i as int)[0] == cats@[i as int]);
            assert(sviews(pool@).skip(i as int).drop_first() == sviews(pool@).skip(i + 1));
            assert(cats@.skip(i as int).drop_first() == cats@.skip(i + 1));
        }
        if pool[i].eq(pkg) {
            return Some(&cats[i]);
        }
        i += 1;
    }
    None
}

/// The pool with each package's size.
fn sized(world: &World, pool: &[String]) -> (r: Vec<(u64, String)>)
    requires
        world.wf(),
    ensures
        rank_view(r@) == sviews(pool@).map_values(|p: Seq<char>| (size_of(*world, p) as u64, p)),
{
    let mut r: Vec<(u64, String)> = Vec::new();
    let mut i: usize = 0;
    while i < pool.len()
        invariant
            world.wf(),
            i <= pool@.len(),
            rank_view(r@) == sviews(pool@).take(i as int).map_values(|p: Seq<char>| (size_of(*world, p) as u64, p)),
        decreases pool@.len() - i,
    {
        let ghost before = rank_view(r@);
        let sz = size_kb(world, pool[i].as_str());
        r.push((sz, pool[i].clone()));
        proof {
            assert(sz == size_of(*world, pool@[i as int]@));
            assert(rank_view(r@) == before.push((sz, pool@[i as int]@)));
            assert(sviews(pool@).take(i + 1) == sviews(pool@).take(i as int).push(pool@[i as int]@));
            assert(rank_view(r@) =~= sviews(pool@).take(i + 1).map_values(
                |p: Seq<char>| (size_of(*world, p) as u64, p),
            ));
        }
        i += 1;
    }
    proof {
        assert(sviews(pool@).take(pool@.len() as int) == sviews(pool@));
    }
    r
}

fn size_item_line(world: &World, pool: &[String], cats: &[Category], pkg: &String) -> (r: Vec<Span>)
    requires
        world.wf(),
        pool@.len() == cats@.len(),
    ensures
        line_view(r@) == size_item(*world, sviews(pool@), cats@, pkg@),
{
    let mut t = String::from_str("  ");
    t.append(padded_right(pkg.as_str(), 34).as_str());
    t.append("  ");
    t.append(padded_left(format_size(size_kb(world, pkg.as_str())).as_str(), 10).as_str());
    t.append("   ");
    let why = reason(find_cat(pool, cats, pkg));
    let r: Vec<Span> = vec![span(t, Tone::Plain), span(why, Tone::Dim)];
    proof {
        assert(line_view(r@) =~= size_item(*world, sviews(pool@), cats@, pkg@));
    }
    r
}

fn quick_item_line(world: &World, pool: &[String], cats: &[Category], pkg: &String) -> (r: Vec<Span>)
    requires
        world.wf(),
        pool@.len() == cats@.len(),
    ensures
        line_view(r@) == quick_item(*world, sviews(pool@), cats@, pkg@),
{
    let mut t = padded_right(pkg.as_str(), 36);
    t.append("  ");
    t.append(padded_left(format_size(size_kb(world, pkg.as_str())).as_str(), 10).as_str());
    t.append("   ");
    t.append(reason(find_cat(pool, cats, pkg)).as_str());
    let r: Vec<Span> = vec![span(t, Tone::Plain)];
    proof {
        assert(line_view(r@) =~= quick_item(*world, sviews(pool@), cats@, pkg@));
    }
    r
}

fn section_sizes(world: &World, pool: &[String], cats: &[Category]) -> (r: Vec<Vec<Span>>)
    requires
        world.wf(),
        pool@.len() == cats@.len(),
        sum_sizes(*world, sviews(pool@)) <= u64::MAX,
    ensures
        lines_view(r@) == sizes_section(*world, sviews(pool@), cats@),
{
    let ghost pv = sviews(pool@);
    let ranked = sort_ranked(sized(world, pool));
    let ghost rv = rank_view(ranked@);
    let mut r = header(String::from_str("DISK USAGE  (top 20 by installed size)"));
    let blank: Vec<Vec<Span>> = vec![Vec::new()];
    proof {
        assert(lines_view(blank@) =~= seq![Seq::<(Seq<char>, Tone)>::empty()]) by {
            assert(line_view(blank@[0]@) =~= Seq::<(Seq<char>, Tone)>::empty());
        }
    }
    push_lines(&mut r, blank);
    let ghost base = lines_view(r@);
    let top: usize = if ranked.len() > 20 { 20 } else { ranked.len() };
    let mut i: usize = 0;
    while i < top
        invariant
            world.wf(),
            pool@.len() == cats@.len(),
            pv == sviews(pool@),
            rv == rank_view(ranked@),
            rv == by_size(*world, pv),
            top <= ranked@.len(),
            i <= top,
            lines_view(r@) == base + ranked_lines(rv.take(i as int), |p: Seq<char>| size_item(*world, pv, cats@, p)),
        decreases top - i,
    {
        let ghost before = lines_view(r@);
        let line = size_item_line(world, pool, cats, &ranked[i].1);
        r.push(line);
        proof {
            assert(rv[i as int] == (ranked@[i as int].0, ranked@[i as int].1@));
            assert(rv.take(i + 1) == rv.take(i as int).push(rv[i as int]));
            assert(lines_view(r@) =~= before.push(size_item(*world, pv, cats@, ranked@[i as int].1@)));
            assert(ranked_lines(rv.take(i + 1), |p: Seq<char>| size_item(*world, pv, cats@, p)) =~= ranked_lines(
                rv.take(i as int),
                |p: Seq<char>| size_item(*world, pv, cats@, p),
            ).push(size_item(*world, pv, cats@, ranked@[i as int].1@)));
        }
        i += 1;
    }
    proof {
        if rv.len() <= 20 {
            assert(rv.take(top as int) == rv);
        }
    }
    let mut total: u64 = 0;
    let mut k: usize = 0;
    while k < pool.len()
        invariant
            world.wf(),
            pv == sviews(pool@),
            k <= pool@.len(),
            sum_sizes(*world, pv) <= u64::MAX,
            total == sum_sizes(*world, pv.take(k as int)),
        decreases pool@.len() - k,
    {
        proof {
            assert(pv.take(k + 1).drop_last() == pv.take(k as int));
            assert(pv.take(k + 1).last() == pool@[k as int]@);
            lemma_sum_prefix(*world, pv, k + 1);
        }
        total = total + size_kb(world, pool[k].as_str());
        k += 1;
    }
    proof {
        assert(pv.take(pool@.len() as int) == pv);
    }
    let mut t = String::from_str("Total: ");
    t.append(format_size(total).as_str());
    t.append(" across ");
    t.append(string_of(&decimal_u64(pool.len() as u64)).as_str());
    t.append(" packages");
    let tail: Vec<Vec<Span>> = vec![Vec::new(), vec![lit("  ", Tone::Plain), span(t, Tone::Bold)]];
    proof {
        let want = seq![
            Seq::<(Seq<char>, Tone)>::empty(),
            seq![("  "@, Tone::Plain), ("Total: "@ + size_text(sum_sizes(*world, pv)) + " across "@ + decimal(pv.len()) + " packages"@, Tone::Bold)],
        ];
        assert(lines_view(tail@) =~= want) by {
            assert(line_view(tail@[0]@) =~= want[0]);
            assert(line_view(tail@[1]@) =~= want[1]);
        }
    }
    push_lines(&mut r, tail);
    r
}

proof fn lemma_sum_prefix(w: World, pool: Seq<Seq<char>>, k: int)
    requires
        0 <= k <= pool.len(),
    ensures
        sum_sizes(w, pool.take(k)) <= sum_sizes(w, pool),
    decreases pool.len() - k,
{
    if k < pool.len() {
        lemma_sum_prefix(w, pool, k + 1);
        assert(pool.take(k + 1).drop_last() == pool.take(k));
    } else {
        assert(pool.take(k) == pool);
    }
}

fn section_quick(world: &World, pool: &[String], cats: &[Category]) -> (r: Vec<Vec<Span>>)
    requires
        world.wf(),
        pool@.len() == cats@.len(),
    ensures
        lines_view(r@) == quick_section(*world, sviews(pool@), cats@),
{
    let ghost pv = sviews(pool@);
    let ranked = sort_ranked(sized(world, pool));
    let ghost rv = rank_view(ranked@);
    let mut r: Vec<Vec<Span>> = Vec::new();
    let mut i: usize = 0;
    while i < ranked.len()
        invariant
            world.wf(),
            pool@.len() == cats@.len(),
            pv == sviews(pool@),
            rv == rank_view(ranked@),
            rv == by_size(*world, pv),
            i <= ranked@.len(),
            lines_view(r@) == ranked_lines(rv.take(i as int), |p: Seq<char>| quick_item(*world, pv, cats@, p)),
        decreases ranked@.len() - i,
    {
        let ghost before = lines_view(r@);
        let line = quick_item_line(world, pool, cats, &ranked[i].1);
        r.push(line);
        proof {
            assert(rv[i as int] == (ranked@[i as int].0, ranked@[i as int].1@));
            assert(rv.take(i + 1) == rv.take(i as int).push(rv[i as int]));
            assert(lines_view(r@) =~= before.push(quick_item(*world, pv, cats@, ranked@[i as int].1@)));
            assert(ranked_lines(rv.take(i + 1), |p: Seq<char>| quick_item(*world, pv, cats@, p)) =~= ranked_lines(
                rv.take(i as int),
                |p: Seq<char>| quick_item(*world, pv, cats@, p),
            ).push(quick_item(*world, pv, cats@, ranked@[i as int].1@)));
        }
        i += 1;
    }
    proof {
        assert(rv.take(ranked@.len() as int) == rv);
    }
    r
}

// ───────────────────────────── the report ─────────────────────────────

/// The report for the upgradable packages `pool` of categories `cs`.
pub open spec fn report_lines(w: World, pool: Seq<Seq<char>>, cs: Seq<Category>, args: Args) -> Seq<TextLine> {
    let all = !(args.kernel || args.apps || args.auto || args.quick || args.sizes);
    if pool.len() == 0 {
        seq![
            Seq::empty(),
            seq![("  "@, Tone::Plain), ("System is fully up to date."@, Tone::Green)],
            Seq::empty(),
        ]
    } else if args.quick {
        quick_section(w, pool, cs)
    } else {
        seq![
            Seq::empty(),
            seq![("whypkg pending"@, Tone::BoldCyan), ("  "@, Tone::Plain), (decimal(pool.len()) + " packages to upgrade"@, Tone::Dim)],
        ] + (if all || args.kernel {
            kernel_section(w, pool, cs)
        } else {
            Seq::empty()
        }) + (if all || args.apps {
            apps_section(w, pool, cs)
        } else {
            Seq::empty()
        }) + (if all || args.auto {
            auto_section(w, pool, cs)
        } else {
            Seq::empty()
        }) + (if all || args.sizes {
            sizes_section(w, pool, cs)
        } else {
            Seq::empty()
        }) + seq![
            Seq::empty(),
            seq![("  upgrade everything       see your package manager (apt upgrade, …)"@, Tone::Dim)],
            seq![("  whypkg --upgradable      browse these interactively"@, Tone::Dim)],
            seq![("  whypkg pending --quick   one line per package"@, Tone::Dim)],
            Seq::empty(),
        ]
    }
}

/// The installed sizes of the upgradable packages fit a `u64` when added
/// up, in any order.
pub open spec fn upgrades_fit(w: World) -> bool {
    forall|pool: Seq<Seq<char>>|
        pool.no_duplicates() && (forall|n: Seq<char>| pool.contains(n) <==> w.upgradable(n)) ==> #[trigger] sum_sizes(w, pool)
            <= u64::MAX
}

/// The report shows the disk-usage section, whose total adds the sizes up:
/// not in the one-line view, and otherwise with `--sizes` or with no
/// section chosen.
pub open spec fn shows_sizes(args: Args) -> bool {
    !args.quick && (args.sizes || !(args.kernel || args.apps || args.auto))
}

/// Classify each package of the pool once.
fn classify_all(world: &World, pool: &[String]) -> (cats: Vec<Category>)
    requires
        world.wf(),
    ensures
        cats@.len() == pool@.len(),
        forall|i: int| 0 <= i < pool@.len() ==> category_ok(*world, #[trigger] pool@[i]@, cats@[i]),
{
    let mut cats: Vec<Category> = Vec::new();
    let mut i: usize = 0;
    while i < pool.len()
        invariant
            world.wf(),
            i <= pool@.len(),
            cats@.len() == i,
            forall|k: int| 0 <= k < i ==> category_ok(*world, #[trigger] pool@[k]@, cats@[k]),
        decreases pool@.len() - i,
    {
        cats.push(classify(world, pool[i].as_str()));
        i += 1;
    }
    cats
}

/// The whole `pending` report for `world`: every package with a pending
/// upgrade, grouped by why it is on the system, as `args` selects.
pub fn report(world: &World, args: &Args) -> (r: Vec<Vec<Span>>)
    requires
        world.wf(),
        shows_sizes(*args) ==> upgrades_fit(*world),
    ensures
        exists|pool: Seq<Seq<char>>, cs: Seq<Category>|
            {
                &&& lex_sorted(pool)
                &&& pool.no_duplicates()
                &&& forall|n: Seq<char>| pool.contains(n) <==> world.upgradable(n)
                &&& cs.len() == pool.len()
                &&& forall|i: int| 0 <= i < pool.len() ==> category_ok(*world, #[trigger] pool[i], cs[i])
                &&& lines_view(r@) == report_lines(*world, pool, cs, *args)
            },
{
    let pool = world.upgradable_names_sorted();
    let cats = classify_all(world, &pool);
    let ghost pv = sviews(pool@);
    proof {
        assert forall|i: int| 0 <= i < pv.len() implies category_ok(*world, #[trigger] pv[i], cats@[i]) by {
            assert(pv[i] == pool@[i]@);
        }
    }
    if pool.len() == 0 {
        let r: Vec<Vec<Span>> = vec![
            Vec::new(),
            vec![lit("  ", Tone::Plain), lit("System is fully up to date.", Tone::Green)],
            Vec::new(),
        ];
        proof {
            let want = report_lines(*world, pv, cats@, *args);
            assert(lines_view(r@) =~= want) by {
                assert(line_view(r@[0]@) =~= want[0]);
                assert(line_view(r@[1]@) =~= want[1]);
                assert(line_view(r@[2]@) =~= want[2]);
            }
        }
        return r;
    }
    if args.quick {
        let r = section_quick(world, &pool, &cats);
        proof {
            assert(lines_view(r@) == report_lines(*world, pv, cats@, *args));
        }
        return r;
    }
    let all = !(args.kernel || args.apps || args.auto || args.quick || args.sizes);
    let mut head = string_of(&decimal_u64(pool.len() as u64));
    head.append(" packages to upgrade");
    let mut r: Vec<Vec<Span>> = vec![
        Vec::new(),
        vec![lit("whypkg pending", Tone::BoldCyan), lit("  ", Tone::Plain), span(head, Tone::Dim)],
    ];
    proof {
        let want = seq![
            Seq::<(Seq<char>, Tone)>::empty(),
            seq![("whypkg pending"@, Tone::BoldCyan), ("  "@, Tone::Plain), (decimal(pv.len()) + " packages to upgrade"@, Tone::Dim)],
        ];
        assert(lines_view(r@) =~= want) by {
            assert(line_view(r@[0]@) =~= want[0]);
            assert(line_view(r@[1]@) =~= want[1]);
        }
    }
    let ghost l0 = lines_view(r@);
    if all || args.kernel {
        push_lines(&mut r, section_kernel(world, &pool, &cats));
    } else {
        proof {
            assert(lines_view(r@) + Seq::<TextLine>::empty() =~= lines_view(r@));
        }
    }
    let ghost l1 = lines_view(r@);
    if all || args.apps {
        push_lines(&mut r, section_apps(world, &pool, &cats));
    } else {
        proof {
            assert(lines_view(r@) + Seq::<TextLine>::empty() =~= lines_view(r@));
        }
    }
    let ghost l2 = lines_view(r@);
    if all || args.auto {
        push_lines(&mut r, section_auto(world, &pool, &cats));
    } else {
        proof {
            assert(lines_view(r@) + Seq::<TextLine>::empty() =~= lines_view(r@));
        }
    }
    let ghost l3 = lines_view(r@);
    if all || args.sizes {
        proof {
            assert(sum_sizes(*world, pv) <= u64::MAX);
        }
        push_lines(&mut r, section_sizes(world, &pool, &cats));
    } else {
        proof {
            assert(lines_view(r@) + Seq::<TextLine>::empty() =~= lines_view(r@));
        }
    }
    let footer: Vec<Vec<Span>> = vec![
        Vec::new(),
        vec![lit("  upgrade everything       see your package manager (apt upgrade, …)", Tone::Dim)],
        vec![lit("  whypkg --upgradable      browse these interactively", Tone::Dim)],
        vec![lit("  whypkg pending --quick   one line per package", Tone::Dim)],
        Vec::new(),
    ];
    proof {
        let want = seq![
            Seq::<(Seq<char>, Tone)>::empty(),
            seq![("  upgrade everything       see your package manager (apt upgrade, …)"@, Tone::Dim)],
            seq![("  whypkg --upgradable      browse these interactively"@, Tone::Dim)],
            seq![("  whypkg pending --quick   one line per package"@, Tone::Dim)],
            Seq::<(Seq<char>, Tone)>::empty(),
        ];
        assert(lines_view(footer@) =~= want) by {
            assert(line_view(footer@[0]@) =~= want[0]);
            assert(line_view(footer@[1]@) =~= want[1]);
            assert(line_view(footer@[2]@) =~= want[2]);
            assert(line_view(footer@[3]@) =~= want[3]);
            assert(line_view(footer@[4]@) =~= want[4]);
        }
    }
    push_lines(&mut r, footer);
    proof {
        let want = report_lines(*world, pv, cats@, *args);
        assert(lines_view(r@) =~= want);
    }
    r
}

} // verus!
