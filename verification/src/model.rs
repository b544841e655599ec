//! The in-memory model: one [`Package`] per installed package, and the
//! [`World`] that holds every package and the full dependency graph.
//!
//! A backend builds the world once from a handful of bulk queries; after that
//! every lookup while browsing (reverse dependencies, "why is this here",
//! install dates) is a hash-map hit.

use vstd::prelude::*;
use vstd::hash_map::StringHashMap;
use vstd::hash_set::StringHashSet;
use vstd::string::*;
use crate::text::{sviews, chars_of};
use crate::order::{lex_sorted, sort_strings};
use crate::seqs::lemma_filter;

verus! {

broadcast use vstd::hash_map::group_hash_map_axioms;

/// Which packaging system a package belongs to. The system package manager
/// and Flatpak coexist, so a world can hold both.
#[derive(Clone, Copy, PartialEq, Eq, Debug, Structural)]
pub enum Source {
    /// The distro's package manager (apt, dnf, pacman).
    System,
    /// A Flatpak app or runtime.
    Flatpak,
}

/// Where an installed package came from, as best the backend can tell.
#[derive(Clone, Copy, PartialEq, Eq, Debug, Structural)]
pub enum Origin {
    /// Offered by a currently configured repository.
    Repo,
    /// Installed from a local file.
    Local,
    /// Installed, but no configured repository offers it any more.
    Orphaned,
    /// Could not be determined.
    Unknown,
}

/// Everything known about one installed package.
#[derive(Clone, Debug)]
pub struct Package {
    pub name: String,
    pub version: String,
    /// The version an upgrade would bring, when one is pending.
    pub candidate: Option<String>,
    /// Installed size in KB.
    pub installed_size: u64,
    /// Short synopsis (first line of the description).
    pub description: String,
    /// The extended description, trimmed, when the manager has one.
    pub details: Option<String>,
    /// Explicitly installed by the user, as opposed to pulled in.
    pub manual: bool,
    pub source: Source,
    /// For Flatpak, the remote it came from.
    pub remote: Option<String>,
    pub origin: Origin,
    /// Unix time of installation, from the manager's log.
    pub install_epoch: Option<i64>,
    /// `YYYY-MM-DD` of installation, for display.
    pub install_date: Option<String>,
}

/// A copy of an optional string.
pub fn copy_opt(o: &Option<String>) -> (r: Option<String>)
    ensures
        opt_view(r) == opt_view(*o),
{
    match o {
        Some(s) => Some(s.clone()),
        None => None,
    }
}

impl Package {
    /// A copy holding the same values.
    pub fn copy(&self) -> (r: Package)
        ensures
            r@ == self@,
    {
        Package {
            name: self.name.clone(),
            version: self.version.clone(),
            candidate: copy_opt(&self.candidate),
            installed_size: self.installed_size,
            description: self.description.clone(),
            details: copy_opt(&self.details),
            manual: self.manual,
            source: self.source,
            remote: copy_opt(&self.remote),
            origin: self.origin,
            install_epoch: self.install_epoch,
            install_date: copy_opt(&self.install_date),
        }
    }

    /// A system package with only a name; every other field empty.
    pub fn named(name: String) -> (p: Package)
        ensures
            p.name == name,
            p.version@ == Seq::<char>::empty(),
            p.candidate is None,
            p.installed_size == 0,
            p.description@ == Seq::<char>::empty(),
            p.details is None,
            !p.manual,
            p.source == Source::System,
            p.remote is None,
            p.origin == Origin::Unknown,
            p.install_epoch is None,
            p.install_date is None,
    {
        Package {
            name,
            version: String::new(),
            candidate: None,
            installed_size: 0,
            description: String::new(),
            details: None,
            manual: false,
            source: Source::System,
            remote: None,
            origin: Origin::Unknown,
            install_epoch: None,
            install_date: None,
        }
    }
}

/// What a package holds, as plain values.
pub struct PackageView {
    pub name: Seq<char>,
    pub version: Seq<char>,
    pub candidate: Option<Seq<char>>,
    pub installed_size: u64,
    pub description: Seq<char>,
    pub details: Option<Seq<char>>,
    pub manual: bool,
    pub source: Source,
    pub remote: Option<Seq<char>>,
    pub origin: Origin,
    pub install_epoch: Option<i64>,
    pub install_date: Option<Seq<char>>,
}

/// The text an optional string holds.
pub open spec fn opt_view(o: Option<String>) -> Option<Seq<char>> {
    match o {
        Some(s) => Some(s@),
        None => None,
    }
}

impl View for Package {
    type V = PackageView;

    open spec fn view(&self) -> PackageView {
        PackageView {
            name: self.name@,
            version: self.version@,
            candidate: opt_view(self.candidate),
            installed_size: self.installed_size,
            description: self.description@,
            details: opt_view(self.details),
            manual: self.manual,
            source: self.source,
            remote: opt_view(self.remote),
            origin: self.origin,
            install_epoch: self.install_epoch,
            install_date: opt_view(self.install_date),
        }
    }
}

/// `cat` with each `(name, version)` of `ups` in turn recorded as the
/// pending upgrade of an installed `name`.
pub open spec fn with_candidates(
    cat: Map<Seq<char>, PackageView>,
    ups: Seq<(Seq<char>, Seq<char>)>,
) -> Map<Seq<char>, PackageView>
    decreases ups.len(),
{
    if ups.len() == 0 {
        cat
    } else {
        let c = with_candidates(cat, ups.drop_last());
        let (n, v) = ups.last();
        if c.contains_key(n) {
            c.insert(n, PackageView { candidate: Some(v), ..c[n] })
        } else {
            c
        }
    }
}

/// The views of `(name, version)` pairs.
pub open spec fn pair_views(v: Seq<(String, String)>) -> Seq<(Seq<char>, Seq<char>)> {
    v.map_values(|e: (String, String)| (e.0@, e.1@))
}

/// The list a key maps to, empty when the key is absent.
pub open spec fn list_of(m: Map<Seq<char>, Seq<Seq<char>>>, k: Seq<char>) -> Seq<Seq<char>> {
    if m.contains_key(k) {
        m[k]
    } else {
        Seq::empty()
    }
}

/// `a` is where `b` starts.
pub open spec fn starts_list(a: Seq<Seq<char>>, b: Seq<Seq<char>>) -> bool {
    a.len() <= b.len() && b.take(a.len() as int) == a
}

/// A list starts itself.
pub proof fn lemma_starts_refl(a: Seq<Seq<char>>)
    ensures
        starts_list(a, a),
{
    assert(a.take(a.len() as int) =~= a);
}

/// Where `b` starts and `b` starts `c`, `a` starts `c`; what `a` holds,
/// `c` holds.
pub proof fn lemma_starts_trans(a: Seq<Seq<char>>, b: Seq<Seq<char>>, c: Seq<Seq<char>>)
    requires
        starts_list(a, b),
        starts_list(b, c),
    ensures
        starts_list(a, c),
        forall|x: Seq<char>| a.contains(x) ==> c.contains(x),
{
    assert(c.take(a.len() as int) =~= b.take(a.len() as int));
    assert forall|x: Seq<char>| a.contains(x) implies c.contains(x) by {
        let j = choose|j: int| 0 <= j < a.len() && a[j] == x;
        assert(c[j] == c.take(a.len() as int)[j]);
    }
}

/// A list starts itself with one more name at its end, which it holds.
pub proof fn lemma_starts_push(a: Seq<Seq<char>>, x: Seq<char>)
    ensures
        starts_list(a, a.push(x)),
        a.push(x).contains(x),
        forall|y: Seq<char>| a.contains(y) ==> a.push(x).contains(y),
{
    assert(a.push(x).take(a.len() as int) =~= a);
    assert(a.push(x)[a.len() as int] == x);
    assert forall|y: Seq<char>| a.contains(y) implies a.push(x).contains(y) by {
        let j = choose|j: int| 0 <= j < a.len() && a[j] == y;
        assert(a.push(x)[j] == y);
    }
}

/// A map from a name to a list of names, growable in place.
pub struct Adjacency {
    index: StringHashMap<usize>,
    keys: Vec<String>,
    lists: Vec<Vec<String>>,
}

impl View for Adjacency {
    type V = Map<Seq<char>, Seq<Seq<char>>>;

    closed spec fn view(&self) -> Map<Seq<char>, Seq<Seq<char>>> {
        Map::new(
            |k: Seq<char>| self.index@.contains_key(k),
            |k: Seq<char>| sviews(self.lists@[self.index@[k] as int]@),
        )
    }
}

/// Every name that any of the lists holds, list after list.
pub open spec fn flat_views(ls: Seq<Vec<String>>) -> Seq<Seq<char>>
    decreases ls.len(),
{
    if ls.len() == 0 {
        Seq::empty()
    } else {
        flat_views(ls.drop_last()) + sviews(ls.last()@)
    }
}

proof fn lemma_flat_views(ls: Seq<Vec<String>>, i: int, x: Seq<char>)
    requires
        0 <= i < ls.len(),
        sviews(ls[i]@).contains(x),
    ensures
        flat_views(ls).contains(x),
    decreases ls.len(),
{
    let f = flat_views(ls.drop_last());
    let l = sviews(ls.last()@);
    if i == ls.len() - 1 {
        let j = choose|j: int| 0 <= j < l.len() && l[j] == x;
        assert((f + l)[f.len() + j] == x);
    } else {
        assert(ls.drop_last()[i] == ls[i]);
        lemma_flat_views(ls.drop_last(), i, x);
        let j = choose|j: int| 0 <= j < f.len() && f[j] == x;
        assert((f + l)[j] == x);
    }
}

impl Adjacency {
    /// Every name that any list holds.
    pub closed spec fn values(&self) -> Seq<Seq<char>> {
        flat_views(self.lists@)
    }

    /// Each list's names are among the values.
    pub proof fn lemma_values(&self)
        requires
            self.wf(),
        ensures
            forall|k: Seq<char>, x: Seq<char>| #[trigger] list_of(self@, k).contains(x) ==> self.values().contains(x),
    {
        assert forall|k: Seq<char>, x: Seq<char>| #[trigger] list_of(self@, k).contains(x) implies self.values().contains(x) by {
            if self@.contains_key(k) {
                lemma_flat_views(self.lists@, self.index@[k] as int, x);
            }
        }
    }

    /// The slots and the index agree.
    pub closed spec fn wf(&self) -> bool {
        &&& self.keys@.len() == self.lists@.len()
        &&& forall|i: int|
            0 <= i < self.keys@.len() ==> self.index@.contains_key(#[trigger] self.keys@[i]@)
                && self.index@[self.keys@[i]@] == i
        &&& forall|k: Seq<char>|
            #[trigger] self.index@.contains_key(k) ==> self.index@[k] < self.keys@.len()
                && self.keys@[self.index@[k] as int]@ == k
    }

    /// An empty map.
    pub fn new() -> (a: Adjacency)
        ensures
            a.wf(),
            a@ == Map::<Seq<char>, Seq<Seq<char>>>::empty(),
    {
        let a = Adjacency { index: StringHashMap::new(), keys: Vec::new(), lists: Vec::new() };
        proof {
            assert(a@ =~= Map::<Seq<char>, Seq<Seq<char>>>::empty());
        }
        a
    }

    /// The list stored under `k`, empty when there is none.
    pub fn get(&self, k: &str) -> (r: &[String])
        requires
            self.wf(),
        ensures
            sviews(r@) == list_of(self@, k@),
    {
        match self.index.get(k) {
            Some(i) => self.lists[*i].as_slice(),
            None => {
                let e: &[String] = &[];
                proof {
                    assert(sviews(e@) =~= Seq::<Seq<char>>::empty());
                }
                e
            },
        }
    }

    /// Append `v` to the list under `k`, creating the list when absent.
    pub fn push(&mut self, k: &str, v: String)
        requires
            old(self).wf(),
        ensures
            final(self).wf(),
            final(self)@ == old(self)@.insert(k@, list_of(old(self)@, k@).push(v@)),
    {
        match self.index.get(k) {
            Some(i) => {
                let i = *i;
                let ghost before = self.lists@[i as int]@;
                self.lists[i].push(v);
                proof {
                    assert(sviews(self.lists@[i as int]@) =~= sviews(before).push(v@));
                    assert(self@ =~= old(self)@.insert(k@, list_of(old(self)@, k@).push(v@)));
                }
            },
            None => {
                let n = self.keys.len();
                self.index.insert(String::from_str(k), n);
                self.keys.push(String::from_str(k));
                let mut l: Vec<String> = Vec::new();
                l.push(v);
                self.lists.push(l);
                proof {
                    assert(sviews(self.lists@[n as int]@) =~= seq![v@]);
                    assert(self@ =~= old(self)@.insert(k@, list_of(old(self)@, k@).push(v@)));
                }
            },
        }
    }

    /// Replace the list under `k` with `list`.
    pub fn set(&mut self, k: &str, list: Vec<String>)
        requires
            old(self).wf(),
        ensures
            final(self).wf(),
            final(self)@ == old(self)@.insert(k@, sviews(list@)),
    {
        match self.index.get(k) {
            Some(i) => {
                let i = *i;
                self.lists.set(i, list);
                proof {
                    assert(self@ =~= old(self)@.insert(k@, sviews(list@)));
                }
            },
            None => {
                let n = self.keys.len();
                self.index.insert(String::from_str(k), n);
                self.keys.push(String::from_str(k));
                self.lists.push(list);
                proof {
                    assert(self@ =~= old(self)@.insert(k@, sviews(list@)));
                }
            },
        }
    }
}

/// The complete picture of the system: packages plus the dependency graph.
pub struct World {
    index: StringHashMap<usize>,
    slots: Vec<Package>,
    deps: Adjacency,
    rdeps: Adjacency,
    manual: StringHashSet,
    install_log: Vec<(i64, String)>,
}

/// The views of an install log.
pub open spec fn log_view(v: Seq<(i64, String)>) -> Seq<(i64, Seq<char>)> {
    v.map_values(|e: (i64, String)| (e.0, e.1@))
}

/// The dependencies of `n` that `(depender, dependency)` edges list, in order.
pub open spec fn targets_of(edges: Seq<(&str, &str)>, n: Seq<char>) -> Seq<Seq<char>>
    decreases edges.len(),
{
    if edges.len() == 0 {
        Seq::empty()
    } else {
        let r = targets_of(edges.drop_last(), n);
        if edges.last().0@ == n {
            r.push(edges.last().1@)
        } else {
            r
        }
    }
}

/// The dependers of `n` that `(depender, dependency)` edges list, in order.
pub open spec fn sources_of(edges: Seq<(&str, &str)>, n: Seq<char>) -> Seq<Seq<char>>
    decreases edges.len(),
{
    if edges.len() == 0 {
        Seq::empty()
    } else {
        let r = sources_of(edges.drop_last(), n);
        if edges.last().1@ == n {
            r.push(edges.last().0@)
        } else {
            r
        }
    }
}

impl World {
    /// The index names every package once, by its name.
    pub closed spec fn wf(&self) -> bool {
        &&& self.deps.wf()
        &&& self.rdeps.wf()
        &&& forall|i: int|
            0 <= i < self.slots@.len() ==> self.index@.contains_key(#[trigger] self.slots@[i].name@)
                && self.index@[self.slots@[i].name@] == i
        &&& forall|k: Seq<char>|
            #[trigger] self.index@.contains_key(k) ==> self.index@[k] < self.slots@.len()
                && self.slots@[self.index@[k] as int].name@ == k
    }

    /// Every installed package, keyed by name.
    pub closed spec fn pkgs(&self) -> Map<Seq<char>, Package> {
        Map::new(
            |k: Seq<char>| self.index@.contains_key(k),
            |k: Seq<char>| self.slots@[self.index@[k] as int],
        )
    }

    /// The package names, in the order they were first added.
    pub closed spec fn names(&self) -> Seq<Seq<char>> {
        self.slots@.map_values(|p: Package| p.name@)
    }

    /// `deps[p]`: what `p` depends on.
    pub closed spec fn deps_map(&self) -> Map<Seq<char>, Seq<Seq<char>>> {
        self.deps@
    }

    /// `rdeps[p]`: what depends on `p`.
    pub closed spec fn rdeps_map(&self) -> Map<Seq<char>, Seq<Seq<char>>> {
        self.rdeps@
    }

    /// The names the user installed.
    pub closed spec fn manual_set(&self) -> Set<Seq<char>> {
        self.manual@
    }

    /// Every installed package as plain values, keyed by name.
    pub open spec fn catalog(&self) -> Map<Seq<char>, PackageView> {
        self.pkgs().map_values(|p: Package| p@)
    }

    /// Every install event, as `(epoch, package)`.
    pub closed spec fn log(&self) -> Seq<(i64, Seq<char>)> {
        log_view(self.install_log@)
    }

    /// Every name that some reverse-dependency list holds.
    pub closed spec fn rdep_universe(&self) -> Seq<Seq<char>> {
        self.rdeps.values()
    }

    /// Each reverse-dependency list's names are in the universe.
    pub proof fn lemma_rdep_universe(&self)
        requires
            self.wf(),
        ensures
            forall|n: Seq<char>, x: Seq<char>| #[trigger] self.rdeps_list(n).contains(x) ==> self.rdep_universe().contains(x),
    {
        self.rdeps.lemma_values();
        assert forall|n: Seq<char>, x: Seq<char>| #[trigger] self.rdeps_list(n).contains(x) implies self.rdep_universe().contains(x) by {
            assert(list_of(self.rdeps@, n).contains(x));
        }
    }

    /// What `n` depends on.
    pub open spec fn deps_list(&self, n: Seq<char>) -> Seq<Seq<char>> {
        list_of(self.deps_map(), n)
    }

    /// What depends on `n`.
    pub open spec fn rdeps_list(&self, n: Seq<char>) -> Seq<Seq<char>> {
        list_of(self.rdeps_map(), n)
    }

    /// `n` is installed and has an upgrade waiting.
    pub open spec fn upgradable(&self, n: Seq<char>) -> bool {
        self.pkgs().contains_key(n) && self.pkgs()[n].candidate is Some
    }

    /// The names are those of the packages, each once, each keyed by itself.
    pub proof fn lemma_names(&self)
        requires
            self.wf(),
        ensures
            self.names().no_duplicates(),
            forall|n: Seq<char>| self.names().contains(n) <==> self.pkgs().contains_key(n),
            forall|n: Seq<char>| #[trigger] self.pkgs().contains_key(n) ==> self.pkgs()[n].name@ == n,
    {
        let ns = self.names();
        assert forall|i: int, j: int| 0 <= i < ns.len() && 0 <= j < ns.len() && i != j implies ns[i]
            != ns[j] by {
            assert(ns[i] == self.slots@[i].name@);
            assert(ns[j] == self.slots@[j].name@);
        }
        assert forall|n: Seq<char>| ns.contains(n) <==> self.pkgs().contains_key(n) by {
            if self.pkgs().contains_key(n) {
                let i = self.index@[n] as int;
                assert(ns[i] == n);
            }
            if ns.contains(n) {
                let i = choose|i: int| 0 <= i < ns.len() && ns[i] == n;
                assert(self.slots@[i].name@ == n);
            }
        }
    }

    /// An empty world, for a machine with only Flatpak.
    pub fn empty() -> (w: World)
        ensures
            w.wf(),
            w.pkgs() == Map::<Seq<char>, Package>::empty(),
            w.names() == Seq::<Seq<char>>::empty(),
            w.deps_map() == Map::<Seq<char>, Seq<Seq<char>>>::empty(),
            w.rdeps_map() == Map::<Seq<char>, Seq<Seq<char>>>::empty(),
            w.manual_set() == Set::<Seq<char>>::empty(),
            w.log() == Seq::<(i64, Seq<char>)>::empty(),
    {
        let w = World {
            index: StringHashMap::new(),
            slots: Vec::new(),
            deps: Adjacency::new(),
            rdeps: Adjacency::new(),
            manual: StringHashSet::new(),
            install_log: Vec::new(),
        };
        proof {
            assert(w.pkgs() =~= Map::<Seq<char>, Package>::empty());
            assert(w.names() =~= Seq::<Seq<char>>::empty());
            assert(w.log() =~= Seq::<(i64, Seq<char>)>::empty());
        }
        w
    }

    /// Add `pkg` under its name, replacing any package of that name.
    pub fn insert_package(&mut self, pkg: Package)
        requires
            old(self).wf(),
        ensures
            final(self).wf(),
            final(self).pkgs() == old(self).pkgs().insert(pkg.name@, pkg),
            final(self).catalog() == old(self).catalog().insert(pkg.name@, pkg@),
            final(self).names() == if old(self).pkgs().contains_key(pkg.name@) {
                old(self).names()
            } else {
                old(self).names().push(pkg.name@)
            },
            final(self).deps_map() == old(self).deps_map(),
            final(self).rdeps_map() == old(self).rdeps_map(),
            final(self).manual_set() == old(self).manual_set(),
            final(self).log() == old(self).log(),
    {
        let ghost name = pkg.name@;
        match self.index.get(pkg.name.as_str()) {
            Some(i) => {
                let i = *i;
                self.slots.set(i, pkg);
                proof {
                    assert(self.pkgs() =~= old(self).pkgs().insert(name, pkg));
                    assert(self.catalog() =~= old(self).catalog().insert(name, pkg@));
                    assert(self.names() =~= old(self).names());
                }
            },
            None => {
                let n = self.slots.len();
                self.index.insert(pkg.name.clone(), n);
                self.slots.push(pkg);
                proof {
                    assert(self.pkgs() =~= old(self).pkgs().insert(name, pkg));
                    assert(self.catalog() =~= old(self).catalog().insert(name, pkg@));
                    assert(self.names() =~= old(self).names().push(name));
                }
            },
        }
    }

    /// The package called `name`, if installed.
    pub fn package(&self, name: &str) -> (r: Option<&Package>)
        requires
            self.wf(),
        ensures
            match r {
                Some(p) => self.pkgs().contains_key(name@) && *p == self.pkgs()[name@],
                None => !self.pkgs().contains_key(name@),
            },
    {
        match self.index.get(name) {
            Some(i) => Some(&self.slots[*i]),
            None => None,
        }
    }

    /// The packages in the order they were first added.
    pub fn packages(&self) -> (r: &[Package])
        requires
            self.wf(),
        ensures
            r@.map_values(|p: Package| p.name@) == self.names(),
            forall|i: int| 0 <= i < r@.len() ==> self.pkgs()[#[trigger] r@[i].name@] == r@[i],
    {
        proof {
            assert forall|i: int| 0 <= i < self.slots@.len() implies self.pkgs()[
                #[trigger] self.slots@[i].name@] == self.slots@[i] by {
                assert(self.index@.contains_key(self.slots@[i].name@));
            }
        }
        self.slots.as_slice()
    }

    /// Record a pending upgrade to `candidate` for `name`, if installed.
    pub fn set_candidate(&mut self, name: &str, candidate: String)
        requires
            old(self).wf(),
        ensures
            final(self).wf(),
            final(self).pkgs() == if old(self).pkgs().contains_key(name@) {
                old(self).pkgs().insert(
                    name@,
                    Package { candidate: Some(candidate), ..old(self).pkgs()[name@] },
                )
            } else {
                old(self).pkgs()
            },
            final(self).catalog() == if old(self).catalog().contains_key(name@) {
                old(self).catalog().insert(
                    name@,
                    PackageView { candidate: Some(candidate@), ..old(self).catalog()[name@] },
                )
            } else {
                old(self).catalog()
            },
            final(self).names() == old(self).names(),
            final(self).deps_map() == old(self).deps_map(),
            final(self).rdeps_map() == old(self).rdeps_map(),
            final(self).manual_set() == old(self).manual_set(),
            final(self).log() == old(self).log(),
    {
        match self.index.get(name) {
            Some(i) => {
                let i = *i;
                self.slots[i].candidate = Some(candidate);
                proof {
                    assert(self.catalog() =~= old(self).catalog().insert(
                        name@,
                        PackageView { candidate: Some(candidate@), ..old(self).catalog()[name@] },
                    ));
                    assert(self.pkgs() =~= old(self).pkgs().insert(
                        name@,
                        Package { candidate: Some(candidate), ..old(self).pkgs()[name@] },
                    ));
                    assert(self.names() =~= old(self).names());
                }
            },
            None => {
                proof {
                    assert(self.catalog() =~= old(self).catalog());
                }
            },
        }
    }

    /// Record each `(name, version)` of `ups`, in order, as the pending
    /// upgrade of an installed `name`.
    pub fn apply_candidates(&mut self, ups: &[(String, String)])
        requires
            old(self).wf(),
        ensures
            final(self).wf(),
            final(self).catalog() == with_candidates(old(self).catalog(), pair_views(ups@)),
            final(self).names() == old(self).names(),
            final(self).deps_map() == old(self).deps_map(),
            final(self).rdeps_map() == old(self).rdeps_map(),
            final(self).manual_set() == old(self).manual_set(),
            final(self).log() == old(self).log(),
    {
        let mut i: usize = 0;
        while i < ups.len()
            invariant
                self.wf(),
                i <= ups@.len(),
                self.catalog() == with_candidates(old(self).catalog(), pair_views(ups@).take(i as int)),
                self.names() == old(self).names(),
                self.deps_map() == old(self).deps_map(),
                self.rdeps_map() == old(self).rdeps_map(),
                self.manual_set() == old(self).manual_set(),
                self.log() == old(self).log(),
            decreases ups@.len() - i,
        {
            proof {
                assert(pair_views(ups@).take(i + 1).drop_last() == pair_views(ups@).take(i as int));
                assert(pair_views(ups@).take(i + 1).last() == (ups@[i as int].0@, ups@[i as int].1@));
            }
            self.set_candidate(ups[i].0.as_str(), ups[i].1.clone());
            i += 1;
        }
        proof {
            assert(pair_views(ups@).take(ups@.len() as int) == pair_views(ups@));
        }
    }

    /// Record when `name` was installed, if it is.
    pub fn set_install_epoch(&mut self, name: &str, epoch: Option<i64>)
        requires
            old(self).wf(),
        ensures
            final(self).wf(),
            final(self).pkgs() == if old(self).pkgs().contains_key(name@) {
                old(self).pkgs().insert(
                    name@,
                    Package { install_epoch: epoch, ..old(self).pkgs()[name@] },
                )
            } else {
                old(self).pkgs()
            },
            final(self).names() == old(self).names(),
            final(self).deps_map() == old(self).deps_map(),
            final(self).rdeps_map() == old(self).rdeps_map(),
            final(self).manual_set() == old(self).manual_set(),
            final(self).log() == old(self).log(),
    {
        match self.index.get(name) {
            Some(i) => {
                let i = *i;
                self.slots[i].install_epoch = epoch;
                proof {
                    assert(self.pkgs() =~= old(self).pkgs().insert(
                        name@,
                        Package { install_epoch: epoch, ..old(self).pkgs()[name@] },
                    ));
                    assert(self.names() =~= old(self).names());
                }
            },
            None => {},
        }
    }

    /// Add `name` to the manually installed set.
    pub fn mark_manual(&mut self, name: String)
        requires
            old(self).wf(),
        ensures
            final(self).wf(),
            final(self).manual_set() == old(self).manual_set().insert(name@),
            final(self).pkgs() == old(self).pkgs(),
            final(self).names() == old(self).names(),
            final(self).deps_map() == old(self).deps_map(),
            final(self).rdeps_map() == old(self).rdeps_map(),
            final(self).log() == old(self).log(),
    {
        self.manual.insert(name);
    }

    /// Replace the manually installed set.
    pub fn replace_manual(&mut self, set: StringHashSet)
        requires
            old(self).wf(),
        ensures
            final(self).wf(),
            final(self).manual_set() == set@,
            final(self).pkgs() == old(self).pkgs(),
            final(self).names() == old(self).names(),
            final(self).deps_map() == old(self).deps_map(),
            final(self).rdeps_map() == old(self).rdeps_map(),
            final(self).log() == old(self).log(),
    {
        self.manual = set;
    }

    /// Append `to` to what `from` depends on.
    pub fn push_dep(&mut self, from: &str, to: String)
        requires
            old(self).wf(),
        ensures
            final(self).wf(),
            final(self).deps_map() == old(self).deps_map().insert(
                from@,
                old(self).deps_list(from@).push(to@),
            ),
            final(self).rdeps_map() == old(self).rdeps_map(),
            final(self).pkgs() == old(self).pkgs(),
            final(self).names() == old(self).names(),
            final(self).manual_set() == old(self).manual_set(),
            final(self).log() == old(self).log(),
    {
        self.deps.push(from, to);
    }

    /// Append `from` to what depends on `to`.
    pub fn push_rdep(&mut self, to: &str, from: String)
        requires
            old(self).wf(),
        ensures
            final(self).wf(),
            final(self).rdeps_map() == old(self).rdeps_map().insert(
                to@,
                old(self).rdeps_list(to@).push(from@),
            ),
            final(self).deps_map() == old(self).deps_map(),
            final(self).pkgs() == old(self).pkgs(),
            final(self).names() == old(self).names(),
            final(self).manual_set() == old(self).manual_set(),
            final(self).log() == old(self).log(),
    {
        self.rdeps.push(to, from);
    }

    /// Replace what `name` depends on.
    pub fn set_deps(&mut self, name: &str, list: Vec<String>)
        requires
            old(self).wf(),
        ensures
            final(self).wf(),
            final(self).deps_map() == old(self).deps_map().insert(name@, sviews(list@)),
            final(self).rdeps_map() == old(self).rdeps_map(),
            final(self).pkgs() == old(self).pkgs(),
            final(self).names() == old(self).names(),
            final(self).manual_set() == old(self).manual_set(),
            final(self).log() == old(self).log(),
    {
        self.deps.set(name, list);
    }

    /// Replace what depends on `name`.
    pub fn set_rdeps(&mut self, name: &str, list: Vec<String>)
        requires
            old(self).wf(),
        ensures
            final(self).wf(),
            final(self).rdeps_map() == old(self).rdeps_map().insert(name@, sviews(list@)),
            final(self).deps_map() == old(self).deps_map(),
            final(self).pkgs() == old(self).pkgs(),
            final(self).names() == old(self).names(),
            final(self).manual_set() == old(self).manual_set(),
            final(self).log() == old(self).log(),
    {
        self.rdeps.set(name, list);
    }

    /// Replace the install log.
    pub fn set_install_log(&mut self, log: Vec<(i64, String)>)
        requires
            old(self).wf(),
        ensures
            final(self).wf(),
            final(self).log() == log_view(log@),
            final(self).pkgs() == old(self).pkgs(),
            final(self).names() == old(self).names(),
            final(self).deps_map() == old(self).deps_map(),
            final(self).rdeps_map() == old(self).rdeps_map(),
            final(self).manual_set() == old(self).manual_set(),
    {
        self.install_log = log;
    }

    /// Every install event, oldest first as the backend recorded it.
    pub fn install_log(&self) -> (r: &[(i64, String)])
        ensures
            log_view(r@) == self.log(),
    {
        self.install_log.as_slice()
    }

    /// Whether the user installed `pkg`.
    pub fn is_manual(&self, pkg: &str) -> (b: bool)
        ensures
            b == self.manual_set().contains(pkg@),
    {
        self.manual.contains(pkg)
    }

    /// Whether `pkg` is installed with an upgrade waiting.
    pub fn is_upgradable(&self, pkg: &str) -> (b: bool)
        requires
            self.wf(),
        ensures
            b == self.upgradable(pkg@),
    {
        match self.package(pkg) {
            Some(p) => p.candidate.is_some(),
            None => false,
        }
    }

    /// Packages that depend on `pkg` (what would break if it were removed).
    pub fn rdeps_of(&self, pkg: &str) -> (r: &[String])
        requires
            self.wf(),
        ensures
            sviews(r@) == self.rdeps_list(pkg@),
    {
        self.rdeps.get(pkg)
    }

    /// Packages `pkg` depends on.
    pub fn deps_of(&self, pkg: &str) -> (r: &[String])
        requires
            self.wf(),
        ensures
            sviews(r@) == self.deps_list(pkg@),
    {
        self.deps.get(pkg)
    }

    /// How many packages depend on `pkg`.
    pub fn rdep_count(&self, pkg: &str) -> (n: usize)
        requires
            self.wf(),
        ensures
            n == self.rdeps_list(pkg@).len(),
    {
        self.rdeps.get(pkg).len()
    }

    /// All installed package names, sorted: the default browse pool.
    pub fn all_names_sorted(&self) -> (r: Vec<String>)
        requires
            self.wf(),
        ensures
            lex_sorted(sviews(r@)),
            sviews(r@).no_duplicates(),
            forall|n: Seq<char>| sviews(r@).contains(n) <==> self.pkgs().contains_key(n),
    {
        let mut names: Vec<String> = Vec::new();
        let mut i: usize = 0;
        while i < self.slots.len()
            invariant
                self.wf(),
                i <= self.slots@.len(),
                sviews(names@) == self.names().take(i as int),
            decreases self.slots@.len() - i,
        {
            let ghost before = names@;
            names.push(self.slots[i].name.clone());
            proof {
                assert(self.names()[i as int] == self.slots@[i as int].name@);
                assert(self.names().len() == self.slots@.len());
                assert(sviews(before).len() == before.len());
                assert(before.len() == i);
                assert(names@ == before.push(self.slots@[i as int].name));
                assert forall|j: int| 0 <= j < i + 1 implies #[trigger] sviews(names@)[j] == self.names().take(i + 1)[j] by {
                    if j < i {
                        assert(names@[j] == before[j]);
                        assert(sviews(before)[j] == self.names().take(i as int)[j]);
                        assert(sviews(names@)[j] == names@[j]@);
                        assert(sviews(before)[j] == before[j]@);
                    } else {
                        assert(sviews(names@)[j] == names@[j]@);
                    }
                }
                assert(sviews(names@) =~= self.names().take(i + 1));
            }
            i += 1;
        }
        proof {
            assert(self.names().take(self.slots@.len() as int) == self.names());
            self.lemma_names();
        }
        let r = sort_strings(names);
        proof {
            lemma_same_multiset_distinct(sviews(r@), self.names());
        }
        r
    }

    /// Upgradable package names, sorted: the `--upgradable` browse pool.
    pub fn upgradable_names_sorted(&self) -> (r: Vec<String>)
        requires
            self.wf(),
        ensures
            lex_sorted(sviews(r@)),
            sviews(r@).no_duplicates(),
            forall|n: Seq<char>| sviews(r@).contains(n) <==> self.upgradable(n),
    {
        let mut names: Vec<String> = Vec::new();
        let mut i: usize = 0;
        let ghost up = |n: Seq<char>| self.upgradable(n);
        while i < self.slots.len()
            invariant
                self.wf(),
                i <= self.slots@.len(),
                sviews(names@) == self.names().take(i as int).filter(up),
                up == (|n: Seq<char>| self.upgradable(n)),
            decreases self.slots@.len() - i,
        {
            proof {
                assert(self.names().take(i + 1).drop_last() == self.names().take(i as int));
                assert(self.index@.contains_key(self.slots@[i as int].name@));
                reveal_with_fuel(Seq::filter, 1);
            }
            if self.slots[i].candidate.is_some() {
                names.push(self.slots[i].name.clone());
                proof {
                    assert(sviews(names@) =~= self.names().take(i + 1).filter(up));
                }
            } else {
                proof {
                    assert(sviews(names@) =~= self.names().take(i + 1).filter(up));
                }
            }
            i += 1;
        }
        proof {
            assert(self.names().take(self.slots@.len() as int) == self.names());
            self.lemma_names();
            lemma_filter(self.names(), up);
        }
        let r = sort_strings(names);
        proof {
            lemma_same_multiset_distinct(sviews(r@), self.names().filter(up));
        }
        r
    }

    /// Whether any package is a Flatpak one.
    pub fn has_flatpak(&self) -> (b: bool)
        requires
            self.wf(),
        ensures
            b == exists|n: Seq<char>|
                self.pkgs().contains_key(n) && #[trigger] self.pkgs()[n].source == Source::Flatpak,
    {
        let mut i: usize = 0;
        while i < self.slots.len()
            invariant
                self.wf(),
                i <= self.slots@.len(),
                forall|j: int| 0 <= j < i ==> self.slots@[j].source != Source::Flatpak,
            decreases self.slots@.len() - i,
        {
            if self.slots[i].source == Source::Flatpak {
                proof {
                    let n = self.slots@[i as int].name@;
                    assert(self.pkgs().contains_key(n));
                    assert(self.pkgs()[n] == self.slots@[i as int]);
                }
                return true;
            }
            i += 1;
        }
        proof {
            assert forall|n: Seq<char>| self.pkgs().contains_key(n) implies #[trigger] self.pkgs()[
                n].source != Source::Flatpak by {
                let j = self.index@[n] as int;
                assert(self.slots@[j].source != Source::Flatpak);
            }
        }
        false
    }

    /// A world from `(depender, dependency)` edges: every name mentioned is
    /// installed, the ones in `manual` by the user.
    pub fn from_edges(edges: &[(&str, &str)], manual: &[&str]) -> (w: World)
        ensures
            w.wf(),
            forall|n: Seq<char>| #[trigger] w.pkgs().contains_key(n) <==> (
                (exists|i: int| 0 <= i < edges@.len() && (edges@[i].0@ == n || edges@[i].1@ == n))
                || (exists|i: int| 0 <= i < manual@.len() && manual@[i]@ == n)),
            forall|n: Seq<char>| #[trigger] w.manual_set().contains(n) <==> exists|i: int|
                0 <= i < manual@.len() && manual@[i]@ == n,
            forall|n: Seq<char>| #[trigger] w.pkgs().contains_key(n) ==> w.pkgs()[n].manual
                == w.manual_set().contains(n),
            forall|n: Seq<char>| #[trigger] w.deps_list(n) == targets_of(edges@, n),
            forall|n: Seq<char>| #[trigger] w.rdeps_list(n) == sources_of(edges@, n),
            w.log() == Seq::<(i64, Seq<char>)>::empty(),
    {
        let mut w = World::empty();
        let mut i: usize = 0;
        while i < manual.len()
            invariant
                w.wf(),
                i <= manual@.len(),
                forall|n: Seq<char>| #[trigger] w.manual_set().contains(n) <==> exists|j: int|
                    0 <= j < i && manual@[j]@ == n,
                w.pkgs() == Map::<Seq<char>, Package>::empty(),
                w.deps_map() == Map::<Seq<char>, Seq<Seq<char>>>::empty(),
                w.rdeps_map() == Map::<Seq<char>, Seq<Seq<char>>>::empty(),
                w.log() == Seq::<(i64, Seq<char>)>::empty(),
            decreases manual@.len() - i,
        {
            w.mark_manual(String::from_str(manual[i]));
            proof {
                assert forall|n: Seq<char>| #[trigger] w.manual_set().contains(n) <==> exists|j: int|
                    0 <= j < i + 1 && manual@[j]@ == n by {
                    if n == manual@[i as int]@ {
                        assert(0 <= i < i + 1 && manual@[i as int]@ == n);
                    }
                }
            }
            i += 1;
        }
        let ghost mset = w.manual_set();
        let mut k: usize = 0;
        while k < edges.len()
            invariant
                w.wf(),
                k <= edges@.len(),
                w.manual_set() == mset,
                w.log() == Seq::<(i64, Seq<char>)>::empty(),
                forall|n: Seq<char>| #[trigger] w.pkgs().contains_key(n) <==> exists|j: int|
                    0 <= j < k && (edges@[j].0@ == n || edges@[j].1@ == n),
                forall|n: Seq<char>| #[trigger] w.pkgs().contains_key(n) ==> w.pkgs()[n].manual
                    == mset.contains(n),
                forall|n: Seq<char>| #[trigger] w.deps_list(n) == targets_of(edges@.take(k as int), n),
                forall|n: Seq<char>| #[trigger] w.rdeps_list(n) == sources_of(edges@.take(k as int), n),
            decreases edges@.len() - k,
        {
            proof {
                assert(edges@.take(edges@.len() as int) == edges@);
            }
            let (a, b) = edges[k];
            let ghost before = w;
            let ghost d0 = w.deps_map();
            let ghost r0 = w.rdeps_map();
            w.push_dep(a, String::from_str(b));
            w.push_rdep(b, String::from_str(a));
            ensure_package(&mut w, a);
            ensure_package(&mut w, b);
            proof {
                let t = edges@.take(k + 1);
                assert(t.drop_last() == edges@.take(k as int));
                assert(t.last() == edges@[k as int]);
                assert(a == edges@[k as int].0 && b == edges@[k as int].1);
                assert(w.deps_map() == d0.insert(a@, list_of(d0, a@).push(b@)));
                assert(w.rdeps_map() == r0.insert(b@, list_of(r0, b@).push(a@)));
                assert forall|n: Seq<char>| #[trigger] w.deps_list(n) == targets_of(t, n) by {
                    assert(before.deps_list(n) == targets_of(edges@.take(k as int), n));
                    assert(targets_of(t, n) == if t.last().0@ == n {
                        targets_of(t.drop_last(), n).push(t.last().1@)
                    } else {
                        targets_of(t.drop_last(), n)
                    });
                }
                assert forall|n: Seq<char>| #[trigger] w.rdeps_list(n) == sources_of(t, n) by {
                    assert(before.rdeps_list(n) == sources_of(edges@.take(k as int), n));
                    assert(sources_of(t, n) == if t.last().1@ == n {
                        sources_of(t.drop_last(), n).push(t.last().0@)
                    } else {
                        sources_of(t.drop_last(), n)
                    });
                }
                assert forall|n: Seq<char>| #[trigger] w.pkgs().contains_key(n) <==> exists|j: int|
                    0 <= j < k + 1 && (edges@[j].0@ == n || edges@[j].1@ == n) by {
                    if n == a@ || n == b@ {
                        assert(0 <= k < k + 1 && (edges@[k as int].0@ == n || edges@[k as int].1@ == n));
                    }
                }
            }
            k += 1;
        }
        proof {
            assert(edges@.take(edges@.len() as int) == edges@);
        }
        let mut m: usize = 0;
        while m < manual.len()
            invariant
                w.wf(),
                m <= manual@.len(),
                w.manual_set() == mset,
                forall|n: Seq<char>| #[trigger] mset.contains(n) <==> exists|j: int|
                    0 <= j < manual@.len() && manual@[j]@ == n,
                w.log() == Seq::<(i64, Seq<char>)>::empty(),
                forall|n: Seq<char>| #[trigger] w.pkgs().contains_key(n) <==> (
                    (exists|j: int| 0 <= j < edges@.len() && (edges@[j].0@ == n || edges@[j].1@ == n))
                    || (exists|j: int| 0 <= j < m && manual@[j]@ == n)),
                forall|n: Seq<char>| #[trigger] w.pkgs().contains_key(n) ==> w.pkgs()[n].manual
                    == mset.contains(n),
                forall|n: Seq<char>| #[trigger] w.deps_list(n) == targets_of(edges@, n),
                forall|n: Seq<char>| #[trigger] w.rdeps_list(n) == sources_of(edges@, n),
            decreases manual@.len() - m,
        {
            let ghost before = w;
            ensure_package(&mut w, manual[m]);
            proof {
                assert forall|n: Seq<char>| #[trigger] w.deps_list(n) == targets_of(edges@, n) by {
                    assert(before.deps_list(n) == targets_of(edges@, n));
                }
                assert forall|n: Seq<char>| #[trigger] w.rdeps_list(n) == sources_of(edges@, n) by {
                    assert(before.rdeps_list(n) == sources_of(edges@, n));
                }
                assert forall|n: Seq<char>| #[trigger] w.pkgs().contains_key(n) <==> (
                    (exists|j: int| 0 <= j < edges@.len() && (edges@[j].0@ == n || edges@[j].1@ == n))
                    || (exists|j: int| 0 <= j < m + 1 && manual@[j]@ == n)) by {
                    if n == manual@[m as int]@ {
                        assert(0 <= m < m + 1 && manual@[m as int]@ == n);
                    }
                }
            }
            m += 1;
        }
        proof {
            assert(edges@.take(edges@.len() as int) == edges@);
        }
        w
    }
}

/// Add a bare package for `name` unless one exists; its `manual` flag follows
/// the manual set.
fn ensure_package(w: &mut World, name: &str)
    requires
        old(w).wf(),
    ensures
        final(w).wf(),
        final(w).pkgs().dom() == old(w).pkgs().dom().insert(name@),
        forall|n: Seq<char>| #[trigger] old(w).pkgs().contains_key(n) ==> final(w).pkgs()[n] == old(w).pkgs()[n],
        final(w).pkgs()[name@].manual == (old(w).pkgs().contains_key(name@) && old(w).pkgs()[name@].manual
            || !old(w).pkgs().contains_key(name@) && old(w).manual_set().contains(name@)),
        final(w).deps_map() == old(w).deps_map(),
        final(w).rdeps_map() == old(w).rdeps_map(),
        final(w).manual_set() == old(w).manual_set(),
        final(w).log() == old(w).log(),
{
    if w.package(name).is_none() {
        let mut p = Package::named(String::from_str(name));
        p.manual = w.is_manual(name);
        w.insert_package(p);
        proof {
            assert(final(w).pkgs().dom() =~= old(w).pkgs().dom().insert(name@));
        }
    } else {
        proof {
            assert(old(w).pkgs().dom() =~= old(w).pkgs().dom().insert(name@));
        }
    }
}

/// Two duplicate-free sequences with one multiset hold the same items.
pub proof fn lemma_same_multiset_distinct(a: Seq<Seq<char>>, b: Seq<Seq<char>>)
    requires
        a.to_multiset() == b.to_multiset(),
        b.no_duplicates(),
    ensures
        a.no_duplicates(),
        forall|n: Seq<char>| a.contains(n) <==> b.contains(n),
{
    b.lemma_multiset_has_no_duplicates();
    assert forall|n: Seq<char>| a.contains(n) <==> b.contains(n) by {
        vstd::seq_lib::to_multiset_contains(a, n);
        vstd::seq_lib::to_multiset_contains(b, n);
    }
    a.lemma_multiset_has_no_duplicates_conv();
}

} // verus!
