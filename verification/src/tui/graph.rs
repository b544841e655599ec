//! What the dependency-graph view keeps besides its picture: which
//! neighbours of the centre it shows on each side, the trail of centres
//! behind "Enter re-centres, Esc retraces", and what each key does there.
//! Placing the nodes on the canvas, and moving between them by their
//! positions, happens outside the library.

use vstd::prelude::*;
use vstd::string::*;
use crate::text::sviews;
use super::{dedup, dedup_names, App, Key, KeyCode, opened};

verus! {

/// How many neighbours a side shows before it turns into a hairball.
pub const PER_SIDE: usize = 16;

/// The neighbours a side shows: the first [`PER_SIDE`] unique names.
pub open spec fn shown_of(names: Seq<Seq<char>>) -> Seq<Seq<char>> {
    let d = dedup(names);
    if d.len() > PER_SIDE {
        d.take(PER_SIDE as int)
    } else {
        d
    }
}

/// How many unique neighbours a side leaves out.
pub open spec fn hidden_of(names: Seq<Seq<char>>) -> nat {
    let d = dedup(names);
    if d.len() > PER_SIDE {
        (d.len() - PER_SIDE) as nat
    } else {
        0
    }
}

/// One side of the graph from the relation list `names`: the unique names
/// it shows, first occurrences in order and at most [`PER_SIDE`] of them,
/// and how many unique names it leaves out.
pub fn graph_side(names: &[String]) -> (r: (Vec<String>, usize))
    ensures
        sviews(r.0@) == shown_of(sviews(names@)),
        r.1 == hidden_of(sviews(names@)),
{
    let mut d = dedup_names(names);
    let n = d.len();
    if n > PER_SIDE {
        let hidden = n - PER_SIDE;
        d.truncate(PER_SIDE);
        proof {
            assert(sviews(d@) =~= dedup(sviews(names@)).take(PER_SIDE as int));
        }
        (d, hidden)
    } else {
        (d, 0)
    }
}

/// Where the graph is centred, and the centres visited before it, oldest
/// first: Enter pushes, Esc pops.
pub struct GraphNav {
    pub center: String,
    pub history: Vec<String>,
}

impl GraphNav {
    /// A graph centred on `center`, with nothing to retrace.
    pub fn new(center: String) -> (g: GraphNav)
        ensures
            g.center == center,
            g.history@.len() == 0,
    {
        GraphNav { center, history: Vec::new() }
    }

    /// Re-centre on `selected`, remembering the current centre so that
    /// [`GraphNav::back`] can return to it. Re-centring on the centre
    /// itself changes nothing, so no pointless step is stored. Says whether
    /// the centre moved.
    pub fn recenter(&mut self, selected: &str) -> (moved: bool)
        ensures
            moved == (selected@ != old(self).center@),
            moved ==> final(self).center@ == selected@ && sviews(final(self).history@) == sviews(
                old(self).history@,
            ).push(old(self).center@),
            !moved ==> *final(self) == *old(self),
    {
        if crate::engine::name_is(selected, self.center.as_str()) {
            return false;
        }
        let prev = self.center.clone();
        self.center = String::from_str(selected);
        let ghost before = sviews(self.history@);
        self.history.push(prev);
        proof {
            assert(sviews(self.history@) =~= before.push(old(self).center@));
        }
        true
    }

    /// Step back to the previous centre and return it; `None`, with nothing
    /// changed, when there is no history left (the caller then closes the
    /// graph).
    pub fn back(&mut self) -> (r: Option<String>)
        ensures
            old(self).history@.len() == 0 ==> r is None && *final(self) == *old(self),
            old(self).history@.len() > 0 ==> (r matches Some(c) && c@ == old(self).history@.last()@
                && final(self).center@ == c@ && final(self).history@ == old(self).history@.drop_last()),
    {
        if self.history.len() == 0 {
            return None;
        }
        match self.history.pop() {
            None => None,
            Some(prev) => {
                self.center = prev.clone();
                Some(prev)
            },
        }
    }
}

/// Digging in and backing out retraces the steps: re-centring on another
/// package, then stepping back, returns to the centre and history there
/// were before.
pub proof fn lemma_back_undoes_recenter(a: GraphNav, b: GraphNav, c: GraphNav, selected: Seq<char>)
    requires
        selected != a.center@,
        b.center@ == selected,
        sviews(b.history@) == sviews(a.history@).push(a.center@),
        b.history@.len() > 0,
        c.center@ == b.history@.last()@,
        c.history@ == b.history@.drop_last(),
    ensures
        c.center@ == a.center@,
        sviews(c.history@) == sviews(a.history@),
{
    assert(sviews(b.history@).last() == b.history@.last()@);
    assert(sviews(c.history@) =~= sviews(b.history@).drop_last());
}

/// What the graph view does after a key.
#[derive(Clone, Copy, PartialEq, Eq, Debug, Structural)]
pub enum GraphStep {
    /// Nothing changed.
    Stay,
    /// The centre changed: lay the graph out again around it.
    Recentred,
    /// Leave the graph for the browser.
    Close,
    /// Leave the browser altogether.
    Quit,
    /// Move the cursor to the column on the left.
    Left,
    /// Move the cursor to the column on the right.
    Right,
    /// Move the cursor up its column.
    Up,
    /// Move the cursor down its column.
    Down,
}

/// What a key does in the graph view, with `sel` the package under the
/// cursor: Ctrl-C quits; Esc (or Ctrl-[) steps back to the previous centre
/// and closes the graph when there is none; Ctrl-G closes it and opens the
/// dossier of `sel`, unless that dossier is already the one on top; `q`
/// closes it; Enter re-centres on `sel`; ←/→/↑/↓ and h/l/k/j move the
/// cursor. Only Ctrl-G touches the browser.
pub open spec fn graph_effect(
    a: App,
    b: App,
    n1: GraphNav,
    n2: GraphNav,
    sel: Seq<char>,
    key: Key,
    s: GraphStep,
) -> bool {
    if key.ctrl && key.code == KeyCode::Char('c') {
        s == GraphStep::Quit && b == a && n2 == n1
    } else if key.code == KeyCode::Esc || (key.ctrl && key.code == KeyCode::Char('[')) {
        &&& b == a
        &&& if n1.history@.len() == 0 {
            s == GraphStep::Close && n2 == n1
        } else {
            &&& s == GraphStep::Recentred
            &&& n2.center@ == n1.history@.last()@
            &&& n2.history@ == n1.history@.drop_last()
        }
    } else if key.ctrl && key.code == KeyCode::Char('g') {
        &&& s == GraphStep::Close
        &&& n2 == n1
        &&& if (a.stack@.last().focus matches Some(f) && f@ == sel) {
            b == a
        } else {
            opened(a, b, sel)
        }
    } else {
        &&& b == a
        &&& if key.code == KeyCode::Char('q') {
            s == GraphStep::Close && n2 == n1
        } else if key.code == KeyCode::Enter {
            if sel == n1.center@ {
                s == GraphStep::Stay && n2 == n1
            } else {
                &&& s == GraphStep::Recentred
                &&& n2.center@ == sel
                &&& sviews(n2.history@) == sviews(n1.history@).push(n1.center@)
            }
        } else if key.code == KeyCode::Left || key.code == KeyCode::Char('h') {
            s == GraphStep::Left && n2 == n1
        } else if key.code == KeyCode::Right || key.code == KeyCode::Char('l') {
            s == GraphStep::Right && n2 == n1
        } else if key.code == KeyCode::Up || key.code == KeyCode::Char('k') {
            s == GraphStep::Up && n2 == n1
        } else if key.code == KeyCode::Down || key.code == KeyCode::Char('j') {
            s == GraphStep::Down && n2 == n1
        } else {
            s == GraphStep::Stay && n2 == n1
        }
    }
}

impl App {
    /// Answer one key of the graph view, whose navigation is `nav` and
    /// whose cursor is on `selected`.
    pub fn graph_key(&mut self, nav: &mut GraphNav, selected: &str, key: Key) -> (s: GraphStep)
        requires
            old(self).wf(),
        ensures
            final(self).wf(),
            graph_effect(*old(self), *final(self), *old(nav), *final(nav), selected@, key, s),
    {
        if key.ctrl && key.code == KeyCode::Char('c') {
            return GraphStep::Quit;
        }
        if key.code == KeyCode::Esc || (key.ctrl && key.code == KeyCode::Char('[')) {
            return match nav.back() {
                Some(_) => GraphStep::Recentred,
                None => GraphStep::Close,
            };
        }
        if key.ctrl && key.code == KeyCode::Char('g') {
            let n = self.stack.len();
            let same = match &self.stack[n - 1].focus {
                Some(f) => crate::engine::name_is(f.as_str(), selected),
                None => false,
            };
            if !same {
                self.open(String::from_str(selected));
            }
            return GraphStep::Close;
        }
        if key.code == KeyCode::Char('q') {
            GraphStep::Close
        } else if key.code == KeyCode::Enter {
            if nav.recenter(selected) {
                GraphStep::Recentred
            } else {
                GraphStep::Stay
            }
        } else if key.code == KeyCode::Left || key.code == KeyCode::Char('h') {
            GraphStep::Left
        } else if key.code == KeyCode::Right || key.code == KeyCode::Char('l') {
            GraphStep::Right
        } else if key.code == KeyCode::Up || key.code == KeyCode::Char('k') {
            GraphStep::Up
        } else if key.code == KeyCode::Down || key.code == KeyCode::Char('j') {
            GraphStep::Down
        } else {
            GraphStep::Stay
        }
    }
}

/// In the graph, Enter on another package and then Esc come back to where
/// the graph was: the same centre and trail, and the browser untouched.
pub proof fn lemma_graph_escape_undoes_enter(
    a: App,
    b: App,
    c: App,
    n1: GraphNav,
    n2: GraphNav,
    n3: GraphNav,
    sel: Seq<char>,
    sel2: Seq<char>,
    s1: GraphStep,
    s2: GraphStep,
)
    requires
        graph_effect(a, b, n1, n2, sel, (Key { code: KeyCode::Enter, ctrl: false }), s1),
        sel != n1.center@,
        graph_effect(b, c, n2, n3, sel2, (Key { code: KeyCode::Esc, ctrl: false }), s2),
    ensures
        s1 == GraphStep::Recentred,
        s2 == GraphStep::Recentred,
        c == a,
        n3.center@ == n1.center@,
        sviews(n3.history@) == sviews(n1.history@),
{
    assert(sviews(n2.history@).len() == n2.history@.len());
    assert(n2.history@.len() > 0);
    lemma_back_undoes_recenter(n1, n2, n3, sel);
}

} // verus!
