//! `whypkg` (default): the interactive investigator.
//!
//! Fuzzy-find a package, open its dossier (manual or auto, install date,
//! size, upgrade), then navigate: every package it is needed by and
//! everything it depends on is itself selectable, so the thread can be
//! followed inward and outward. Esc pops back up a level.
//!
//! This module holds the browser's state and what each key does to it; the
//! terminal, the drawing and the graph view's layout live outside the
//! library and hand keys in.

pub mod filter;
pub mod graph;
pub mod render;

use vstd::prelude::*;
use vstd::string::*;
use vstd::hash_set::StringHashSet;
use crate::model::World;
use crate::text::sviews;
use crate::engine::{same_session, session_ok, bfs_root, bfs_final, traced_to, untraceable};
use self::filter::{FilterMode, FuzzyMatcher};

verus! {

/// Which side of the dependency relation the dossier's list shows, toggled
/// with ←/→. The two are never mixed in one list.
#[derive(Clone, Copy, PartialEq, Eq, Debug, Structural)]
pub enum Relation {
    /// Packages that depend on the focused one.
    NeededBy,
    /// Packages the focused one depends on.
    DependsOn,
}

/// The other side.
pub open spec fn other_side(r: Relation) -> Relation {
    match r {
        Relation::NeededBy => Relation::DependsOn,
        Relation::DependsOn => Relation::NeededBy,
    }
}

impl Relation {
    /// The other side of the relation.
    pub fn toggle(self) -> (r: Relation)
        ensures
            r == other_side(self),
    {
        match self {
            Relation::NeededBy => Relation::DependsOn,
            Relation::DependsOn => Relation::NeededBy,
        }
    }
}

/// Toggling twice comes back to the side it started from, and toggling
/// always changes the side.
pub proof fn lemma_toggle_involution(r: Relation)
    ensures
        other_side(other_side(r)) == r,
        other_side(r) != r,
{
}

/// Why a focused package is on the system: the headline the tool exists
/// to answer, computed once when a dossier opens.
pub enum Origin {
    /// The root list, or otherwise not applicable.
    NotApplicable,
    /// The user installed this package directly.
    Manual,
    /// Auto-installed; the reverse-dependency search traced it back to
    /// this manual package.
    PulledIn(String),
    /// Auto-installed, with no manual ancestor found.
    Untraced,
}

/// One level of the navigation stack: the root package list, or a
/// package's dossier.
pub struct Frame {
    /// `None` at the root list; the package when viewing a dossier.
    pub focus: Option<String>,
    /// Root-list package names (empty for dossier frames).
    pub pool: Vec<String>,
    /// Dossier: packages that depend on `focus`.
    pub needed_by: Vec<String>,
    /// Dossier: packages `focus` depends on.
    pub depends_on: Vec<String>,
    /// The current fuzzy query.
    pub query: String,
    /// The selected position within the filtered list.
    pub selected: usize,
    /// Packages installed in the same session as `focus`, cached at open.
    pub alongside: Vec<String>,
    /// Where `focus` came from, cached at open.
    pub origin: Origin,
}

/// The browser's state.
pub struct App {
    pub world: World,
    pub matcher: FuzzyMatcher,
    /// The manual/auto/flatpak filter, shared across levels (Tab).
    pub filter: FilterMode,
    /// Which dependency side the dossier list shows (←/→).
    pub relation: Relation,
    pub stack: Vec<Frame>,
}

/// `s` with later repeats dropped, first occurrences in order.
pub open spec fn dedup(s: Seq<Seq<char>>) -> Seq<Seq<char>>
    decreases s.len(),
{
    if s.len() == 0 {
        s
    } else {
        let r = dedup(s.drop_last());
        if r.contains(s.last()) {
            r
        } else {
            r.push(s.last())
        }
    }
}

/// `o` says why `pkg` is here: manual, or traced to the manual package that
/// the breadth-first walk reaches first, at the end of a shortest chain, or
/// untraced.
pub open spec fn origin_ok(w: World, pkg: Seq<char>, o: Origin) -> bool {
    if w.manual_set().contains(pkg) {
        o is Manual
    } else if untraceable(w, pkg) {
        o is Untraced
    } else {
        o matches Origin::PulledIn(r) && traced_to(w, pkg, r@) && bfs_final(w, pkg).found == Some(r@)
    }
}

/// `f` is the dossier frame of `pkg` in `w`.
pub open spec fn dossier_of(w: World, pkg: Seq<char>, f: Frame) -> bool {
    &&& f.focus matches Some(x) && x@ == pkg
    &&& f.pool@.len() == 0
    &&& sviews(f.needed_by@) == dedup(w.rdeps_list(pkg))
    &&& sviews(f.depends_on@) == dedup(w.deps_list(pkg))
    &&& f.query@.len() == 0
    &&& f.selected == 0
    &&& session_ok(w, pkg, sviews(f.alongside@))
    &&& origin_ok(w, pkg, f.origin)
}

/// `b` is `a` with the dossier of `pkg` opened on top.
pub open spec fn opened(a: App, b: App, pkg: Seq<char>) -> bool {
    &&& b.world == a.world
    &&& b.matcher == a.matcher
    &&& b.filter == a.filter
    &&& b.relation == Relation::NeededBy
    &&& b.stack@.len() == a.stack@.len() + 1
    &&& b.stack@.drop_last() == a.stack@
    &&& dossier_of(a.world, pkg, b.stack@.last())
}

impl App {
    /// The browser's state holds together: a well-formed world and at
    /// least the root frame.
    pub open spec fn wf(&self) -> bool {
        &&& self.world.wf()
        &&& self.stack@.len() >= 1
    }

    /// A browser on the root list `pool`.
    pub fn new(world: World, pool: Vec<String>) -> (app: App)
        requires
            world.wf(),
        ensures
            app.wf(),
            app.world == world,
            app.filter == FilterMode::All,
            app.relation == Relation::NeededBy,
            app.stack@.len() == 1,
            app.stack@[0].focus is None,
            app.stack@[0].pool@ == pool@,
            app.stack@[0].query@.len() == 0,
            app.stack@[0].selected == 0,
    {
        let root = Frame {
            focus: None,
            pool,
            needed_by: Vec::new(),
            depends_on: Vec::new(),
            query: String::new(),
            selected: 0,
            alongside: Vec::new(),
            origin: Origin::NotApplicable,
        };
        App {
            world,
            matcher: FuzzyMatcher::new(),
            filter: FilterMode::All,
            relation: Relation::NeededBy,
            stack: vec![root],
        }
    }

    /// Whether any flatpak apps are present (gates the flatpak bucket).
    pub fn has_flatpak(&self) -> (b: bool)
        requires
            self.wf(),
        ensures
            b == exists|n: Seq<char>|
                self.world.pkgs().contains_key(n) && #[trigger] self.world.pkgs()[n].source
                    == crate::model::Source::Flatpak,
    {
        self.world.has_flatpak()
    }

    /// The frame on top of the stack.
    pub fn frame(&self) -> (f: &Frame)
        requires
            self.stack@.len() >= 1,
        ensures
            *f == self.stack@.last(),
    {
        let n = self.stack.len();
        &self.stack[n - 1]
    }

    /// Push the dossier of `pkg`. The two relation lists are kept apart
    /// and the list shows "what needs it" first, so every dossier opens in
    /// the same, origin-oriented direction.
    pub fn open(&mut self, pkg: String)
        requires
            old(self).wf(),
        ensures
            final(self).wf(),
            opened(*old(self), *final(self), pkg@),
    {
        let needed_by = dedup_names(self.world.rdeps_of(pkg.as_str()));
        let depends_on = dedup_names(self.world.deps_of(pkg.as_str()));
        let origin = if self.world.is_manual(pkg.as_str()) {
            Origin::Manual
        } else {
            match bfs_root(&self.world, pkg.as_str()) {
                Some(path) => {
                    let n = path.len();
                    proof {
                        assert(sviews(path@).len() == path@.len());
                        assert(sviews(path@).last() == path@[n - 1]@);
                    }
                    Origin::PulledIn(path[n - 1].clone())
                },
                None => Origin::Untraced,
            }
        };
        let alongside = same_session(&self.world, pkg.as_str());
        self.relation = Relation::NeededBy;
        let f = Frame {
            focus: Some(pkg),
            pool: Vec::new(),
            needed_by,
            depends_on,
            query: String::new(),
            selected: 0,
            alongside,
            origin,
        };
        self.stack.push(f);
        proof {
            assert(self.stack@.drop_last() == old(self).stack@);
        }
    }

    /// The base list of the top frame: the root pool, or in a dossier the
    /// relation side currently shown.
    pub fn base_list(&self) -> (r: &[String])
        requires
            self.stack@.len() >= 1,
        ensures
            r@ == base_of(self.stack@.last(), self.relation),
    {
        let frame = self.frame();
        if frame.focus.is_none() {
            frame.pool.as_slice()
        } else if self.relation == Relation::NeededBy {
            frame.needed_by.as_slice()
        } else {
            frame.depends_on.as_slice()
        }
    }

    /// Keep the selection inside a list of `len` entries.
    pub fn clamp_selection(&mut self, len: usize)
        requires
            old(self).stack@.len() >= 1,
        ensures
            final(self).stack@.len() == old(self).stack@.len(),
            final(self).stack@.drop_last() == old(self).stack@.drop_last(),
            final(self).stack@.last() == (Frame {
                selected: clamped(old(self).stack@.last().selected, len),
                ..old(self).stack@.last()
            }),
            final(self).world == old(self).world,
            final(self).matcher == old(self).matcher,
            final(self).filter == old(self).filter,
            final(self).relation == old(self).relation,
    {
        let n = self.stack.len();
        let sel = self.stack[n - 1].selected;
        let new_sel = if len == 0 {
            0
        } else if sel >= len {
            len - 1
        } else {
            sel
        };
        self.set_selected(new_sel);
    }

    /// Move the selection by `delta` within a list of `len` entries,
    /// stopping at either end; nothing moves in an empty list.
    pub fn move_selection(&mut self, delta: isize, len: usize)
        requires
            old(self).stack@.len() >= 1,
        ensures
            final(self).stack@.len() == old(self).stack@.len(),
            final(self).stack@.drop_last() == old(self).stack@.drop_last(),
            final(self).stack@.last() == (Frame {
                selected: moved(old(self).stack@.last().selected, delta as int, len),
                ..old(self).stack@.last()
            }),
            final(self).world == old(self).world,
            final(self).matcher == old(self).matcher,
            final(self).filter == old(self).filter,
            final(self).relation == old(self).relation,
    {
        let n = self.stack.len();
        let cur = self.stack[n - 1].selected;
        if len == 0 {
            proof {
                assert(self.stack@.last() == Frame { selected: cur, ..self.stack@.last() });
            }
            return;
        }
        let top: i128 = len as i128 - 1;
        let next: i128 = cur as i128 + delta as i128;
        let c: i128 = if next < 0 {
            0
        } else if next > top {
            top
        } else {
            next
        };
        self.set_selected(c as usize);
    }

    /// Set the selection of the top frame.
    fn set_selected(&mut self, sel: usize)
        requires
            old(self).stack@.len() >= 1,
        ensures
            final(self).stack@.len() == old(self).stack@.len(),
            final(self).stack@.drop_last() == old(self).stack@.drop_last(),
            final(self).stack@.last() == (Frame { selected: sel, ..old(self).stack@.last() }),
            final(self).world == old(self).world,
            final(self).matcher == old(self).matcher,
            final(self).filter == old(self).filter,
            final(self).relation == old(self).relation,
    {
        let n = self.stack.len();
        let mut f = self.stack.pop().unwrap();
        f.selected = sel;
        self.stack.push(f);
        proof {
            assert(self.stack@.drop_last() =~= old(self).stack@.drop_last());
        }
    }

    /// Change the top frame's query and reset its selection.
    fn edit_query(&mut self, push: Option<char>)
        requires
            old(self).stack@.len() >= 1,
        ensures
            final(self).stack@.len() == old(self).stack@.len(),
            final(self).stack@.drop_last() == old(self).stack@.drop_last(),
            final(self).stack@.last().query@ == match push {
                Some(c) => old(self).stack@.last().query@.push(c),
                None => if old(self).stack@.last().query@.len() > 0 {
                    old(self).stack@.last().query@.drop_last()
                } else {
                    old(self).stack@.last().query@
                },
            },
            final(self).stack@.last().selected == 0,
            final(self).stack@.last().focus == old(self).stack@.last().focus,
            final(self).stack@.last().pool == old(self).stack@.last().pool,
            final(self).stack@.last().needed_by == old(self).stack@.last().needed_by,
            final(self).stack@.last().depends_on == old(self).stack@.last().depends_on,
            final(self).stack@.last().alongside == old(self).stack@.last().alongside,
            final(self).stack@.last().origin == old(self).stack@.last().origin,
            final(self).world == old(self).world,
            final(self).matcher == old(self).matcher,
            final(self).filter == old(self).filter,
            final(self).relation == old(self).relation,
    {
        let mut f = self.stack.pop().unwrap();
        f.query = match push {
            Some(c) => {
                let mut q = f.query;
                q.push(c);
                q
            },
            None => pop_char(f.query),
        };
        f.selected = 0;
        self.stack.push(f);
        proof {
            assert(self.stack@.drop_last() =~= old(self).stack@.drop_last());
        }
    }

    /// Answer one key of the package list or a dossier (the graph view,
    /// when open, takes its own keys). `visible` is the list on screen.
    ///
    /// Ctrl-C quits; Esc (or Ctrl-[) pops a level and quits at the root;
    /// Enter opens the selected package; Tab cycles the filter (skipping
    /// the flatpak bucket without flatpak apps); ↑/↓ and Ctrl-J/K/N/P move;
    /// ←/→ and Ctrl-H/L flip the dossier's relation; Backspace and typed
    /// characters edit the query; Ctrl-G asks for the graph of the focused
    /// (or selected) package.
    pub fn handle_key(&mut self, key: Key, visible: &[String]) -> (step: Step)
        requires
            old(self).wf(),
        ensures
            final(self).wf(),
            key_effect(*old(self), *final(self), key, sviews(visible@), step),
    {
        let n = self.stack.len();
        let sel = self.stack[n - 1].selected;
        let focused = self.stack[n - 1].focus.is_some();
        if key.ctrl && key.code == KeyCode::Char('c') {
            return Step::Quit;
        }
        if key.code == KeyCode::Esc || (key.ctrl && key.code == KeyCode::Char('[')) {
            if n == 1 {
                return Step::Quit;
            }
            self.stack.pop();
            return Step::Stay;
        }
        match key.code {
            KeyCode::Enter => {
                if sel < visible.len() {
                    proof {
                        assert(sviews(visible@)[sel as int] == visible@[sel as int]@);
                    }
                    self.open(visible[sel].clone());
                }
                Step::Stay
            },
            KeyCode::Tab => {
                let mut f = self.filter.next();
                if f == FilterMode::Flatpak && !self.has_flatpak() {
                    f = f.next();
                }
                self.filter = f;
                self.set_selected(0);
                Step::Stay
            },
            KeyCode::Up => {
                self.move_selection(-1, visible.len());
                Step::Stay
            },
            KeyCode::Down => {
                self.move_selection(1, visible.len());
                Step::Stay
            },
            KeyCode::Left | KeyCode::Right => {
                if focused {
                    self.relation = self.relation.toggle();
                    self.set_selected(0);
                }
                Step::Stay
            },
            KeyCode::Backspace => {
                self.edit_query(None);
                Step::Stay
            },
            KeyCode::Char(c) => {
                if key.ctrl {
                    if c == 'j' || c == 'n' {
                        self.move_selection(1, visible.len());
                        Step::Stay
                    } else if c == 'k' || c == 'p' {
                        self.move_selection(-1, visible.len());
                        Step::Stay
                    } else if (c == 'h' || c == 'l') && focused {
                        self.relation = self.relation.toggle();
                        self.set_selected(0);
                        Step::Stay
                    } else if c == 'g' {
                        match &self.stack[n - 1].focus {
                            Some(p) => Step::Graph(p.clone()),
                            None => if sel < visible.len() {
                                proof {
                                    assert(sviews(visible@)[sel as int] == visible@[sel as int]@);
                                }
                                Step::Graph(visible[sel].clone())
                            } else {
                                Step::Stay
                            },
                        }
                    } else {
                        Step::Stay
                    }
                } else {
                    self.edit_query(Some(c));
                    Step::Stay
                }
            },
            _ => Step::Stay,
        }
    }
}

/// The base list a frame shows for a relation side.
pub open spec fn base_of(f: Frame, r: Relation) -> Seq<String> {
    if f.focus is None {
        f.pool@
    } else if r == Relation::NeededBy {
        f.needed_by@
    } else {
        f.depends_on@
    }
}

/// A selection kept inside a list of `len` entries.
pub open spec fn clamped(sel: usize, len: usize) -> usize {
    if len == 0 {
        0
    } else if sel >= len {
        (len - 1) as usize
    } else {
        sel
    }
}

/// A selection moved by `delta` and held inside `0 .. len`; unchanged in an
/// empty list.
pub open spec fn moved(sel: usize, delta: int, len: usize) -> usize {
    if len == 0 {
        sel
    } else if sel + delta < 0 {
        0
    } else if sel + delta > len - 1 {
        (len - 1) as usize
    } else {
        (sel + delta) as usize
    }
}

/// The text without its last character, as `String::pop` leaves it.
fn pop_char(s: String) -> (r: String)
    ensures
        r@ == if s@.len() > 0 {
            s@.drop_last()
        } else {
            s@
        },
{
    let c = crate::text::chars_of(s.as_str());
    if c.len() == 0 {
        return s;
    }
    crate::text::string_of(&crate::text::slice_vec(&c, 0, c.len() - 1))
}

/// The unique names of `src`, first occurrences in order.
pub fn dedup_names(src: &[String]) -> (r: Vec<String>)
    ensures
        sviews(r@) == dedup(sviews(src@)),
{
    let mut seen = StringHashSet::new();
    let mut r: Vec<String> = Vec::new();
    let mut i: usize = 0;
    while i < src.len()
        invariant
            i <= src@.len(),
            sviews(r@) == dedup(sviews(src@).take(i as int)),
            forall|n: Seq<char>| seen@.contains(n) <==> sviews(r@).contains(n),
        decreases src@.len() - i,
    {
        proof {
            assert(sviews(src@).take(i + 1).drop_last() == sviews(src@).take(i as int));
            assert(sviews(src@).take(i + 1).last() == src@[i as int]@);
        }
        if !seen.contains(src[i].as_str()) {
            let ghost before = sviews(r@);
            seen.insert(src[i].clone());
            r.push(src[i].clone());
            proof {
                assert(sviews(r@) =~= before.push(src@[i as int]@));
                assert forall|n: Seq<char>| seen@.contains(n) <==> sviews(r@).contains(n) by {
                    if n == src@[i as int]@ {
                        assert(sviews(r@)[before.len() as int] == n);
                    } else if sviews(r@).contains(n) {
                        let j = choose|j: int| 0 <= j < sviews(r@).len() && #[trigger] sviews(r@)[j] == n;
                        assert(before[j] == n);
                    } else if before.contains(n) {
                        let j = choose|j: int| 0 <= j < before.len() && #[trigger] before[j] == n;
                        assert(sviews(r@)[j] == n);
                    }
                }
            }
        }
        i += 1;
    }
    proof {
        assert(sviews(src@).take(src@.len() as int) == sviews(src@));
    }
    r
}

// ───────────────────────────── keys ─────────────────────────────

/// A key, as the browser reads it.
#[derive(Clone, Copy, PartialEq, Eq, Debug, Structural)]
pub enum KeyCode {
    Char(char),
    Enter,
    Esc,
    Tab,
    Up,
    Down,
    Left,
    Right,
    Backspace,
    Other,
}

/// A key press, with whether Control was held.
#[derive(Clone, Copy, PartialEq, Eq, Debug, Structural)]
pub struct Key {
    pub code: KeyCode,
    pub ctrl: bool,
}

/// What the browser does after a key.
#[derive(PartialEq, Eq, Debug)]
pub enum Step {
    /// Keep browsing.
    Stay,
    /// Leave the browser.
    Quit,
    /// Open the graph view centred on this package.
    Graph(String),
}

/// `b` is `a` with only the top frame's selection set to `sel`.
pub open spec fn selected_to(a: App, b: App, sel: usize) -> bool {
    &&& b.world == a.world
    &&& b.matcher == a.matcher
    &&& b.filter == a.filter
    &&& b.relation == a.relation
    &&& b.stack@.len() == a.stack@.len()
    &&& b.stack@.drop_last() == a.stack@.drop_last()
    &&& b.stack@.last() == Frame { selected: sel, ..a.stack@.last() }
}

/// The filter after Tab: the next bucket, skipping the flatpak one on a
/// machine without flatpak apps.
pub open spec fn tab_filter(a: App) -> FilterMode {
    let f = self::filter::next_mode(a.filter);
    if f == FilterMode::Flatpak && !(exists|n: Seq<char>|
        a.world.pkgs().contains_key(n) && #[trigger] a.world.pkgs()[n].source == crate::model::Source::Flatpak) {
        self::filter::next_mode(f)
    } else {
        f
    }
}

/// `b` is `a` with the relation flipped and the selection reset, in a
/// dossier; `a` itself on the root list.
pub open spec fn flipped(a: App, b: App) -> bool {
    if a.stack@.last().focus is Some {
        &&& b.relation == other_side(a.relation)
        &&& b.world == a.world
        &&& b.matcher == a.matcher
        &&& b.filter == a.filter
        &&& b.stack@.len() == a.stack@.len()
        &&& b.stack@.drop_last() == a.stack@.drop_last()
        &&& b.stack@.last() == Frame { selected: 0, ..a.stack@.last() }
    } else {
        b == a
    }
}

/// `b` is `a` with the top frame's query edited as `push` says and its
/// selection reset.
pub open spec fn query_edited(a: App, b: App, push: Option<char>) -> bool {
    let q = a.stack@.last().query@;
    &&& b.world == a.world
    &&& b.matcher == a.matcher
    &&& b.filter == a.filter
    &&& b.relation == a.relation
    &&& b.stack@.len() == a.stack@.len()
    &&& b.stack@.drop_last() == a.stack@.drop_last()
    &&& b.stack@.last().query@ == match push {
        Some(c) => q.push(c),
        None => if q.len() > 0 {
            q.drop_last()
        } else {
            q
        },
    }
    &&& b.stack@.last().selected == 0
    &&& b.stack@.last().focus == a.stack@.last().focus
    &&& b.stack@.last().pool == a.stack@.last().pool
    &&& b.stack@.last().needed_by == a.stack@.last().needed_by
    &&& b.stack@.last().depends_on == a.stack@.last().depends_on
    &&& b.stack@.last().alongside == a.stack@.last().alongside
    &&& b.stack@.last().origin == a.stack@.last().origin
}

/// What key `k` does to the browser `a` (leaving `b`) with `vis` on screen,
/// and what comes next.
pub open spec fn key_effect(a: App, b: App, k: Key, vis: Seq<Seq<char>>, step: Step) -> bool {
    let top = a.stack@.last();
    let sel = top.selected;
    if k.ctrl && k.code == KeyCode::Char('c') {
        step is Quit && b == a
    } else if k.code == KeyCode::Esc || (k.ctrl && k.code == KeyCode::Char('[')) {
        if a.stack@.len() == 1 {
            step is Quit && b == a
        } else {
            step is Stay && b == App { stack: b.stack, ..a } && b.stack@ == a.stack@.drop_last()
        }
    } else {
        match k.code {
            KeyCode::Enter => step is Stay && if sel < vis.len() {
                opened(a, b, vis[sel as int])
            } else {
                b == a
            },
            KeyCode::Tab => step is Stay && selected_to(App { filter: tab_filter(a), ..a }, b, 0),
            KeyCode::Up => step is Stay && selected_to(a, b, moved(sel, -1, vis.len() as usize)),
            KeyCode::Down => step is Stay && selected_to(a, b, moved(sel, 1, vis.len() as usize)),
            KeyCode::Left | KeyCode::Right => step is Stay && flipped(a, b),
            KeyCode::Backspace => step is Stay && query_edited(a, b, None),
            KeyCode::Char(c) => if !k.ctrl {
                step is Stay && query_edited(a, b, Some(c))
            } else if c == 'j' || c == 'n' {
                step is Stay && selected_to(a, b, moved(sel, 1, vis.len() as usize))
            } else if c == 'k' || c == 'p' {
                step is Stay && selected_to(a, b, moved(sel, -1, vis.len() as usize))
            } else if c == 'h' || c == 'l' {
                step is Stay && flipped(a, b)
            } else if c == 'g' {
                b == a && match top.focus {
                    Some(p) => step matches Step::Graph(g) && g@ == p@,
                    None => if sel < vis.len() {
                        step matches Step::Graph(g) && g@ == vis[sel as int]
                    } else {
                        step is Stay
                    },
                }
            } else {
                step is Stay && b == a
            },
            _ => step is Stay && b == a,
        }
    }
}

/// Esc undoes Enter: opening a package's dossier and then pressing Esc
/// leaves the stack of frames as it was before.
pub proof fn lemma_escape_undoes_open(a: App, b: App, c: App, pkg: Seq<char>, vis: Seq<Seq<char>>, step: Step)
    requires
        a.stack@.len() >= 1,
        opened(a, b, pkg),
        key_effect(b, c, (Key { code: KeyCode::Esc, ctrl: false }), vis, step),
    ensures
        c.stack@ == a.stack@,
        step is Stay,
        c.world == a.world,
        c.filter == a.filter,
{
}

} // verus!
