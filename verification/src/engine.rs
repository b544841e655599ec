//! Distro-agnostic analysis over a [`World`]: the algorithms that turn raw
//! package data into answers (the origin trace, the install-session window,
//! size and age text).

use vstd::prelude::*;
use vstd::hash_map::StringHashMap;
use vstd::hash_set::StringHashSet;
use vstd::string::*;
use crate::model::{World, Package, log_view, lemma_same_multiset_distinct};
use crate::text::{chars_of, has_prefix, sviews, starts_with, decimal, decimal_u64, string_of};
use crate::order::{lex_sorted, sort_strings};

verus! {

broadcast use vstd::hash_map::group_hash_map_axioms;

/// How many reverse dependencies make a package "foundational".
pub const FOUNDATION_THRESHOLD: usize = 25;

/// Kernel, firmware and microcode packages, recognised by name.
pub open spec fn kernel_name(n: Seq<char>) -> bool {
    ||| starts_with(n, "linux-"@)
    ||| n == "intel-microcode"@
    ||| n == "amd64-microcode"@
    ||| starts_with(n, "firmware-"@)
    ||| starts_with(n, "initramfs"@)
}

/// Kernel / firmware / microcode packages: never "safe to remove", and grouped
/// on their own in the report.
pub fn is_kernel_pkg(name: &str) -> (b: bool)
    ensures
        b == kernel_name(name@),
{
    let n = chars_of(name);
    has_prefix(&n, &chars_of("linux-")) || name_is(name, "intel-microcode") || name_is(
        name,
        "amd64-microcode",
    ) || has_prefix(&n, &chars_of("firmware-")) || has_prefix(&n, &chars_of("initramfs"))
}

/// Whether two strings hold the same text.
pub fn name_is(a: &str, b: &str) -> (r: bool)
    ensures
        r == (a@ == b@),
{
    let x = chars_of(a);
    let y = chars_of(b);
    if x.len() != y.len() {
        return false;
    }
    let mut i: usize = 0;
    while i < x.len()
        invariant
            i <= x.len() == y.len(),
            x@ == a@,
            y@ == b@,
            x@.take(i as int) == y@.take(i as int),
        decreases x.len() - i,
    {
        if x[i] != y[i] {
            proof {
                assert(a@[i as int] != b@[i as int]);
            }
            return false;
        }
        proof {
            assert(x@.take(i + 1) == x@.take(i as int).push(x@[i as int]));
            assert(y@.take(i + 1) == y@.take(i as int).push(y@[i as int]));
        }
        i += 1;
    }
    proof {
        assert(x@.take(x.len() as int) == x@);
        assert(y@.take(y.len() as int) == y@);
    }
    true
}

// ───────────────────────────── origin trace ─────────────────────────────

/// `p` walks the reverse-dependency graph: each step goes from a package to
/// something that depends on it.
pub open spec fn rdep_path(w: World, p: Seq<Seq<char>>) -> bool {
    &&& p.len() >= 1
    &&& forall|i: int| #![trigger w.rdeps_list(p[i])] 0 <= i < p.len() - 1 ==> w.rdeps_list(p[i]).contains(p[i + 1])
}

/// `p` leads from `start` outward to a manually installed package other
/// than `start`.
pub open spec fn root_path(w: World, start: Seq<char>, p: Seq<Seq<char>>) -> bool {
    &&& rdep_path(w, p)
    &&& p.len() >= 2
    &&& p[0] == start
    &&& w.manual_set().contains(p.last())
    &&& p.last() != start
}

/// `r` ends a shortest chain from `start` out to a manual package.
pub open spec fn traced_to(w: World, start: Seq<char>, r: Seq<char>) -> bool {
    exists|p: Seq<Seq<char>>|
        #[trigger] root_path(w, start, p) && p.last() == r && forall|q: Seq<Seq<char>>|
            #[trigger] root_path(w, start, q) ==> q.len() >= p.len()
}

/// No chain leads from `start` out to a manual package.
pub open spec fn untraceable(w: World, start: Seq<char>) -> bool {
    forall|p: Seq<Seq<char>>| !root_path(w, start, p)
}

/// Where the breadth-first walk stands: the queue and the position in it,
/// how much of the current package's reverse-dependency list has been
/// read, the packages seen, the package each one was first reached from,
/// and the manual package found, if any.
pub struct BfsState {
    pub queue: Seq<Seq<char>>,
    pub head: int,
    pub k: int,
    pub seen: Set<Seq<char>>,
    pub parent: Map<Seq<char>, Seq<char>>,
    pub found: Option<Seq<char>>,
}

/// The walk before its first step: only `start`, queued and seen.
pub open spec fn bfs_start(start: Seq<char>) -> BfsState {
    BfsState {
        queue: seq![start],
        head: 0,
        k: 0,
        seen: Set::empty().insert(start),
        parent: Map::empty(),
        found: None,
    }
}

/// The walk has stopped: a manual package turned up, or the queue ran out.
pub open spec fn bfs_done(s: BfsState) -> bool {
    s.found is Some || s.head >= s.queue.len()
}

/// One step of the walk: read the next name of the current package's
/// reverse-dependency list, or move on to the next queued package when the
/// list is done. A name not seen before gets the current package as its
/// parent; a manual one ends the walk, any other joins the queue.
pub open spec fn bfs_step(w: World, s: BfsState) -> BfsState {
    if bfs_done(s) || s.head < 0 || s.k < 0 {
        s
    } else {
        let cur = s.queue[s.head];
        let ds = w.rdeps_list(cur);
        if s.k >= ds.len() {
            BfsState { head: s.head + 1, k: 0, ..s }
        } else {
            let d = ds[s.k];
            if s.seen.contains(d) {
                BfsState { k: s.k + 1, ..s }
            } else if w.manual_set().contains(d) {
                BfsState { seen: s.seen.insert(d), parent: s.parent.insert(d, cur), found: Some(d), ..s }
            } else {
                BfsState {
                    queue: s.queue.push(d),
                    k: s.k + 1,
                    seen: s.seen.insert(d),
                    parent: s.parent.insert(d, cur),
                    ..s
                }
            }
        }
    }
}

/// The walk after `n` steps from `s`.
pub open spec fn bfs_run(w: World, s: BfsState, n: nat) -> BfsState
    decreases n,
{
    if n == 0 {
        s
    } else {
        bfs_run(w, bfs_step(w, s), (n - 1) as nat)
    }
}

/// Where the walk from `start` stops.
pub open spec fn bfs_final(w: World, start: Seq<char>) -> BfsState {
    bfs_run(w, bfs_start(start), choose|n: nat| bfs_done(#[trigger] bfs_run(w, bfs_start(start), n)))
}

/// `rev` follows the parent links from its first name until a name that has
/// no parent.
pub open spec fn parent_walk(parent: Map<Seq<char>, Seq<char>>, rev: Seq<Seq<char>>) -> bool {
    &&& rev.len() >= 1
    &&& forall|i: int|
        0 <= i < rev.len() - 1 ==> #[trigger] parent.contains_key(rev[i]) && parent[rev[i]] == rev[i + 1]
    &&& !parent.contains_key(rev.last())
}

/// One more step is a step from where `n` steps lead.
proof fn lemma_run_step(w: World, s: BfsState, n: nat)
    ensures
        bfs_run(w, s, n + 1) == bfs_step(w, bfs_run(w, s, n)),
    decreases n,
{
    assert(bfs_run(w, s, n + 1) == bfs_run(w, bfs_step(w, s), n));
    if n > 0 {
        lemma_run_step(w, bfs_step(w, s), (n - 1) as nat);
        assert(bfs_run(w, s, n) == bfs_run(w, bfs_step(w, s), (n - 1) as nat));
    } else {
        assert(bfs_run(w, bfs_step(w, s), 0) == bfs_step(w, s));
    }
}

/// A stopped walk stays where it is.
proof fn lemma_run_done(w: World, s: BfsState, n: nat)
    requires
        bfs_done(s),
    ensures
        bfs_run(w, s, n) == s,
    decreases n,
{
    if n > 0 {
        lemma_run_done(w, s, (n - 1) as nat);
    }
}

/// `a + b` steps are `b` steps after `a` steps.
proof fn lemma_run_add(w: World, s: BfsState, a: nat, b: nat)
    ensures
        bfs_run(w, s, a + b) == bfs_run(w, bfs_run(w, s, a), b),
    decreases a,
{
    if a > 0 {
        lemma_run_add(w, bfs_step(w, s), (a - 1) as nat, b);
        assert((a + b - 1) as nat == ((a - 1) as nat + b) as nat);
    }
}

/// The walk stops in one place: any two step counts at which it has
/// stopped give the same state.
pub proof fn lemma_bfs_settles(w: World, s: BfsState, a: nat, b: nat)
    requires
        bfs_done(bfs_run(w, s, a)),
        bfs_done(bfs_run(w, s, b)),
    ensures
        bfs_run(w, s, a) == bfs_run(w, s, b),
{
    if a <= b {
        lemma_run_add(w, s, a, (b - a) as nat);
        lemma_run_done(w, bfs_run(w, s, a), (b - a) as nat);
        assert(a + (b - a) as nat == b);
    } else {
        lemma_run_add(w, s, b, (a - b) as nat);
        lemma_run_done(w, bfs_run(w, s, b), (a - b) as nat);
        assert(b + (a - b) as nat == a);
    }
}

/// Once the walk is seen to stop after `n` steps, [`bfs_final`] is that
/// state.
proof fn lemma_final_is(w: World, start: Seq<char>, n: nat)
    requires
        bfs_done(bfs_run(w, bfs_start(start), n)),
    ensures
        bfs_final(w, start) == bfs_run(w, bfs_start(start), n),
{
    let m = choose|m: nat| bfs_done(#[trigger] bfs_run(w, bfs_start(start), m));
    lemma_bfs_settles(w, bfs_start(start), m, n);
}

/// The state of the breadth-first search, as the proofs see it.
pub open spec fn bfs_inv(
    w: World,
    start: Seq<char>,
    q: Seq<Seq<char>>,
    head: int,
    vis: Set<Seq<char>>,
    dist: Map<Seq<char>, int>,
    parent: Map<Seq<char>, Seq<char>>,
) -> bool {
    &&& q.len() >= 1
    &&& q[0] == start
    &&& q.no_duplicates()
    &&& 0 <= head <= q.len()
    &&& forall|n: Seq<char>| vis.contains(n) <==> q.contains(n)
    &&& dist.dom() == vis
    &&& dist[start] == 0
    &&& forall|i: int, j: int| 0 <= i <= j < q.len() ==> dist[q[i]] <= dist[q[j]]
    &&& head < q.len() ==> forall|j: int| 0 <= j < q.len() ==> dist[q[j]] <= dist[q[head]] + 1
    &&& forall|n: Seq<char>| vis.contains(n) && n != start ==> !w.manual_set().contains(n)
    &&& forall|n: Seq<char>| #[trigger] vis.contains(n) && n != start ==> {
        &&& parent.contains_key(n)
        &&& vis.contains(parent[n])
        &&& dist[parent[n]] + 1 == dist[n]
        &&& w.rdeps_list(parent[n]).contains(n)
    }
    &&& !parent.contains_key(start)
    &&& forall|j: int, s: Seq<char>| 0 <= j < head && #[trigger] w.rdeps_list(q[j]).contains(s)
        ==> vis.contains(s) && dist[s] <= dist[q[j]] + 1
}

/// Every visited package has a distance of at least zero.
proof fn lemma_dist_nonneg(
    w: World,
    start: Seq<char>,
    q: Seq<Seq<char>>,
    head: int,
    vis: Set<Seq<char>>,
    dist: Map<Seq<char>, int>,
    parent: Map<Seq<char>, Seq<char>>,
)
    requires
        bfs_inv(w, start, q, head, vis, dist, parent),
    ensures
        forall|j: int| 0 <= j < q.len() ==> dist[#[trigger] q[j]] >= 0,
{
    assert forall|j: int| 0 <= j < q.len() implies dist[#[trigger] q[j]] >= 0 by {
        assert(dist[q[0]] <= dist[q[j]]);
    }
}

/// A visited package whose distance is below that of the package being
/// expanded has already been expanded.
proof fn lemma_expanded(
    w: World,
    start: Seq<char>,
    q: Seq<Seq<char>>,
    head: int,
    vis: Set<Seq<char>>,
    dist: Map<Seq<char>, int>,
    parent: Map<Seq<char>, Seq<char>>,
    n: Seq<char>,
    s: Seq<char>,
)
    requires
        bfs_inv(w, start, q, head, vis, dist, parent),
        head < q.len(),
        vis.contains(n),
        dist[n] < dist[q[head]],
        w.rdeps_list(n).contains(s),
    ensures
        vis.contains(s),
        dist[s] <= dist[n] + 1,
{
    assert(q.contains(n));
    let j = choose|j: int| 0 <= j < q.len() && q[j] == n;
    if j >= head {
        assert(dist[q[head]] <= dist[q[j]]);
    }
    assert(w.rdeps_list(q[j]).contains(s));
}

/// Walking `p` while staying below the current distance keeps to visited
/// packages, one step of distance per step of path.
proof fn lemma_walk_near(
    w: World,
    start: Seq<char>,
    q: Seq<Seq<char>>,
    head: int,
    vis: Set<Seq<char>>,
    dist: Map<Seq<char>, int>,
    parent: Map<Seq<char>, Seq<char>>,
    p: Seq<Seq<char>>,
    i: int,
)
    requires
        bfs_inv(w, start, q, head, vis, dist, parent),
        head < q.len(),
        rdep_path(w, p),
        p[0] == start,
        0 <= i < p.len(),
        i <= dist[q[head]],
    ensures
        vis.contains(p[i]),
        dist[p[i]] <= i,
    decreases i,
{
    if i == 0 {
        assert(q[0] == start);
    } else {
        lemma_walk_near(w, start, q, head, vis, dist, parent, p, i - 1);
        assert(w.rdeps_list(p[i - 1]).contains(p[i]));
        lemma_expanded(w, start, q, head, vis, dist, parent, p[i - 1], p[i]);
    }
}

/// Once the search has stopped at a manual package found from `q[head]`, no
/// path to a manual package is shorter than the one through it.
proof fn lemma_found_is_nearest(
    w: World,
    start: Seq<char>,
    q: Seq<Seq<char>>,
    head: int,
    vis: Set<Seq<char>>,
    dist: Map<Seq<char>, int>,
    parent: Map<Seq<char>, Seq<char>>,
    p: Seq<Seq<char>>,
)
    requires
        bfs_inv(w, start, q, head, vis, dist, parent),
        head < q.len(),
        root_path(w, start, p),
    ensures
        p.len() >= dist[q[head]] + 2,
{
    if p.len() < dist[q[head]] + 2 {
        lemma_walk_near(w, start, q, head, vis, dist, parent, p, p.len() - 1);
        assert(vis.contains(p.last()));
    }
}

/// With the queue empty, walking `p` keeps to visited packages.
proof fn lemma_walk_all(
    w: World,
    start: Seq<char>,
    q: Seq<Seq<char>>,
    vis: Set<Seq<char>>,
    dist: Map<Seq<char>, int>,
    parent: Map<Seq<char>, Seq<char>>,
    p: Seq<Seq<char>>,
    i: int,
)
    requires
        bfs_inv(w, start, q, q.len() as int, vis, dist, parent),
        rdep_path(w, p),
        p[0] == start,
        0 <= i < p.len(),
    ensures
        vis.contains(p[i]),
    decreases i,
{
    if i == 0 {
        assert(q[0] == start);
    } else {
        lemma_walk_all(w, start, q, vis, dist, parent, p, i - 1);
        assert(w.rdeps_list(p[i - 1]).contains(p[i]));
        assert(q.contains(p[i - 1]));
        let j = choose|j: int| 0 <= j < q.len() && q[j] == p[i - 1];
        assert(w.rdeps_list(q[j]).contains(p[i]));
    }
}

/// Once the queue is empty, everything reachable has been visited, so no
/// manual package other than `start` is reachable.
proof fn lemma_exhausted_none(
    w: World,
    start: Seq<char>,
    q: Seq<Seq<char>>,
    vis: Set<Seq<char>>,
    dist: Map<Seq<char>, int>,
    parent: Map<Seq<char>, Seq<char>>,
    p: Seq<Seq<char>>,
)
    requires
        bfs_inv(w, start, q, q.len() as int, vis, dist, parent),
    ensures
        !root_path(w, start, p),
{
    if root_path(w, start, p) {
        lemma_walk_all(w, start, q, vis, dist, parent, p, p.len() - 1);
    }
}

/// The parent links lead back to `start`, each one step closer.
pub open spec fn chain_inv(
    w: World,
    start: Seq<char>,
    vis: Set<Seq<char>>,
    dist: Map<Seq<char>, int>,
    parent: Map<Seq<char>, Seq<char>>,
) -> bool {
    &&& dist.dom() == vis
    &&& vis.contains(start)
    &&& dist[start] == 0
    &&& !parent.contains_key(start)
    &&& forall|n: Seq<char>| #[trigger] vis.contains(n) ==> dist[n] >= 0
    &&& forall|n: Seq<char>| #[trigger] vis.contains(n) && n != start ==> {
        &&& parent.contains_key(n)
        &&& vis.contains(parent[n])
        &&& dist[parent[n]] + 1 == dist[n]
        &&& w.rdeps_list(parent[n]).contains(n)
    }
}

proof fn lemma_chain_from_bfs(
    w: World,
    start: Seq<char>,
    q: Seq<Seq<char>>,
    head: int,
    vis: Set<Seq<char>>,
    dist: Map<Seq<char>, int>,
    parent: Map<Seq<char>, Seq<char>>,
)
    requires
        bfs_inv(w, start, q, head, vis, dist, parent),
    ensures
        chain_inv(w, start, vis, dist, parent),
{
    lemma_dist_nonneg(w, start, q, head, vis, dist, parent);
    assert(vis.contains(start)) by {
        assert(q[0] == start);
    }
    assert forall|n: Seq<char>| #[trigger] vis.contains(n) implies dist[n] >= 0 by {
        let j = choose|j: int| 0 <= j < q.len() && q[j] == n;
        assert(dist[q[j]] >= 0);
    }
}

proof fn lemma_queue_bound(q: Seq<Seq<char>>, u: Set<Seq<char>>)
    requires
        q.no_duplicates(),
        u.finite(),
        forall|j: int| 0 <= j < q.len() ==> u.contains(#[trigger] q[j]),
    ensures
        q.len() <= u.len(),
{
    q.unique_seq_to_set();
    assert(q.to_set().subset_of(u));
    vstd::set_lib::lemma_len_subset(q.to_set(), u);
}

/// The headline answer to "why is this here": walk outward from `start`
/// through what depends on it until a manually installed package turns up,
/// and return the chain `[start, …, root]`. The chain is as short as any:
/// no manual package other than `start` is fewer steps away. Among equally
/// near ones, the root is the first that the breadth-first walk
/// ([`bfs_step`]) reaches, reading each reverse-dependency list in order,
/// and the chain follows the parent links that walk recorded. `None` when
/// no manual package other than `start` can be reached at all.
pub fn bfs_root(world: &World, start: &str) -> (r: Option<Vec<String>>)
    requires
        world.wf(),
    ensures
        match r {
            Some(path) => {
                &&& root_path(*world, start@, sviews(path@))
                &&& forall|p: Seq<Seq<char>>| #[trigger] root_path(*world, start@, p) ==> p.len()
                    >= path@.len()
            },
            None => forall|p: Seq<Seq<char>>| !root_path(*world, start@, p),
        },
        bfs_done(bfs_final(*world, start@)),
        match r {
            Some(path) => {
                &&& bfs_final(*world, start@).found == Some(sviews(path@).last())
                &&& parent_walk(bfs_final(*world, start@).parent, sviews(path@).reverse())
            },
            None => bfs_final(*world, start@).found is None,
        },
{
    let mut visited = StringHashSet::new();
    let mut parent: StringHashMap<String> = StringHashMap::new();
    let mut queue: Vec<String> = Vec::new();
    let ghost mut dist: Map<Seq<char>, int> = Map::empty();
    let ghost w = *world;
    let ghost st = start@;
    let ghost univ = w.rdep_universe().to_set().insert(st);
    let ghost bound = univ.len() as int;
    proof {
        w.lemma_rdep_universe();
        w.rdep_universe().lemma_cardinality_of_set();
    }
    visited.insert(String::from_str(start));
    queue.push(String::from_str(start));
    proof {
        dist = dist.insert(st, 0);
        assert(sviews(queue@) =~= seq![st]);
        assert(dist.dom() =~= visited@);
        assert forall|n: Seq<char>| visited@.contains(n) <==> sviews(queue@).contains(n) by {
            if n == st {
                assert(sviews(queue@)[0] == st);
            }
        }
        assert(parent@.map_values(|s: String| s@) =~= Map::<Seq<char>, Seq<char>>::empty());
        lemma_queue_bound(sviews(queue@), univ);
    }
    let mut head: usize = 0;
    let mut found: Option<String> = None;
    let ghost mut fd: int = 0;
    let ghost mut steps: nat = 0;
    let ghost mut kg: int = 0;
    proof {
        assert(visited@ =~= Set::<Seq<char>>::empty().insert(st));
        assert(bfs_run(w, bfs_start(st), 0) == bfs_start(st));
        assert(bfs_run(w, bfs_start(st), steps) == (BfsState {
            queue: sviews(queue@),
            head: head as int,
            k: kg,
            seen: visited@,
            parent: parent@.map_values(|s: String| s@),
            found: match found { Some(f) => Some(f@), None => None },
        }));
    }
    while head < queue.len() && found.is_none()
        invariant
            world.wf(),
            w == *world,
            st == start@,
            univ == w.rdep_universe().to_set().insert(st),
            univ.finite(),
            bound == univ.len(),
            forall|n: Seq<char>, x: Seq<char>| #[trigger] w.rdeps_list(n).contains(x) ==> w.rdep_universe().contains(x),
            head <= queue@.len() <= bound,
            forall|j: int| 0 <= j < queue@.len() ==> univ.contains(#[trigger] sviews(queue@)[j]),
            found is None ==> bfs_inv(w, st, sviews(queue@), head as int, visited@, dist, parent@.map_values(|s: String| s@)),
            chain_inv(w, st, visited@, dist, parent@.map_values(|s: String| s@)),
            found matches Some(f) ==> {
                &&& w.manual_set().contains(f@)
                &&& f@ != st
                &&& visited@.contains(f@)
                &&& dist[f@] == fd
                &&& forall|p: Seq<Seq<char>>| #[trigger] root_path(w, st, p) ==> p.len() >= fd + 1
            },
            bfs_run(w, bfs_start(st), steps) == (BfsState {
                queue: sviews(queue@),
                head: head as int,
                k: kg,
                seen: visited@,
                parent: parent@.map_values(|s: String| s@),
                found: match found { Some(f) => Some(f@), None => None },
            }),
            found is None ==> kg == 0,
        decreases bound - head + (if found is None { 1int } else { 0int }),
    {
        let cur = queue[head].clone();
        let deps = world.rdeps_of(cur.as_str());
        let mut k: usize = 0;
        while k < deps.len() && found.is_none()
            invariant
                world.wf(),
                w == *world,
                st == start@,
                univ == w.rdep_universe().to_set().insert(st),
                univ.finite(),
                bound == univ.len(),
                forall|n: Seq<char>, x: Seq<char>| #[trigger] w.rdeps_list(n).contains(x) ==> w.rdep_universe().contains(x),
                head < queue@.len() <= bound,
                forall|j: int| 0 <= j < queue@.len() ==> univ.contains(#[trigger] sviews(queue@)[j]),
                cur@ == sviews(queue@)[head as int],
                sviews(deps@) == w.rdeps_list(cur@),
                k <= deps@.len(),
                found is None ==> bfs_inv(w, st, sviews(queue@), head as int, visited@, dist, parent@.map_values(|s: String| s@)),
                found is None ==> forall|s: Seq<char>| #[trigger] sviews(deps@).take(k as int).contains(s) ==> visited@.contains(s)
                    && dist[s] <= dist[cur@] + 1,
                chain_inv(w, st, visited@, dist, parent@.map_values(|s: String| s@)),
                found matches Some(f) ==> {
                    &&& w.manual_set().contains(f@)
                    &&& f@ != st
                    &&& visited@.contains(f@)
                    &&& dist[f@] == fd
                    &&& forall|p: Seq<Seq<char>>| #[trigger] root_path(w, st, p) ==> p.len() >= fd + 1
                },
                bfs_run(w, bfs_start(st), steps) == (BfsState {
                    queue: sviews(queue@),
                    head: head as int,
                    k: k as int,
                    seen: visited@,
                    parent: parent@.map_values(|s: String| s@),
                    found: match found { Some(f) => Some(f@), None => None },
                }),
            decreases deps@.len() - k + (if found is None { 1int } else { 0int }),
        {
            let dep = &deps[k];
            let ghost s0 = bfs_run(w, bfs_start(st), steps);
            proof {
                lemma_run_step(w, bfs_start(st), steps);
                assert(s0.queue[s0.head] == cur@);
                assert(w.rdeps_list(cur@)[k as int] == dep@);
            }
            let ghost q = sviews(queue@);
            let ghost pm = parent@.map_values(|s: String| s@);
            proof {
                assert(sviews(deps@)[k as int] == dep@);
                assert(w.rdeps_list(cur@).contains(dep@));
                lemma_dist_nonneg(w, st, q, head as int, visited@, dist, pm);
            }
            if visited.contains(dep.as_str()) {
                proof {
                    assert(q.contains(dep@));
                    let j = choose|j: int| 0 <= j < q.len() && q[j] == dep@;
                    assert(dist[q[j]] <= dist[q[head as int]] + 1);
                    assert forall|s: Seq<char>| #[trigger] sviews(deps@).take(k + 1).contains(s) implies visited@.contains(s)
                        && dist[s] <= dist[cur@] + 1 by {
                        let i = choose|i: int| 0 <= i < k + 1 && #[trigger] sviews(deps@).take(k + 1)[i] == s;
                        if i < k {
                            assert(sviews(deps@).take(k as int)[i] == s);
                            assert(sviews(deps@).take(k as int).contains(s));
                        } else {
                            assert(s == dep@);
                        }
                    }
                }
                k += 1;
                proof {
                    steps = steps + 1;
                }
            } else {
                let ghost vis0 = visited@;
                let ghost dist0 = dist;
                proof {
                    lemma_chain_from_bfs(w, st, q, head as int, vis0, dist0, pm);
                }
                visited.insert(dep.clone());
                parent.insert(dep.clone(), cur.clone());
                proof {
                    dist = dist.insert(dep@, dist[cur@] + 1);
                    let pm2 = parent@.map_values(|s: String| s@);
                    assert(pm2 =~= pm.insert(dep@, cur@));
                    assert(dep@ != st);
                    assert(dist.dom() =~= visited@);
                    assert(chain_inv(w, st, visited@, dist, pm2));
                }
                if world.is_manual(dep.as_str()) {
                    proof {
                        fd = dist[dep@];
                        assert forall|p: Seq<Seq<char>>| #[trigger] root_path(w, st, p) implies p.len() >= fd + 1 by {
                            lemma_found_is_nearest(w, st, q, head as int, vis0, dist0, pm, p);
                        }
                    }
                    found = Some(dep.clone());
                    proof {
                        steps = steps + 1;
                        assert(bfs_run(w, bfs_start(st), steps) == (BfsState {
                            queue: sviews(queue@),
                            head: head as int,
                            k: k as int,
                            seen: visited@,
                            parent: parent@.map_values(|s: String| s@),
                            found: match found { Some(f) => Some(f@), None => None },
                        }));
                    }
                } else {
                    queue.push(dep.clone());
                    proof {
                        let q2 = sviews(queue@);
                        let pm2 = parent@.map_values(|s: String| s@);
                        assert(q2 =~= q.push(dep@));
                        assert(!q.contains(dep@));
                        assert(univ.contains(dep@));
                        assert forall|j: int| 0 <= j < q2.len() implies univ.contains(#[trigger] q2[j]) by {
                            if j < q.len() {
                                assert(q2[j] == q[j]);
                            }
                        }
                        assert(q2.no_duplicates()) by {
                            assert forall|i: int, j: int| 0 <= i < q2.len() && 0 <= j < q2.len() && i != j implies q2[i] != q2[j] by {
                                if i == q.len() && j < q.len() {
                                    assert(q.contains(q[j]));
                                } else if j == q.len() && i < q.len() {
                                    assert(q.contains(q[i]));
                                }
                            }
                        }
                        lemma_queue_bound(q2, univ);
                        assert forall|n: Seq<char>| visited@.contains(n) <==> q2.contains(n) by {
                            if n == dep@ {
                                assert(q2[q.len() as int] == n);
                            } else if q2.contains(n) {
                                let i = choose|i: int| 0 <= i < q2.len() && q2[i] == n;
                                assert(q[i] == n);
                            } else if q.contains(n) {
                                let i = choose|i: int| 0 <= i < q.len() && q[i] == n;
                                assert(q2[i] == n);
                            }
                        }
                        assert forall|i: int, j: int| 0 <= i <= j < q2.len() implies dist[q2[i]] <= dist[q2[j]] by {
                            if j == q.len() {
                                if i < q.len() {
                                    assert(dist[q[i]] <= dist[q[head as int]] + 1);
                                }
                            }
                        }
                        assert forall|j: int, s: Seq<char>| 0 <= j < head && #[trigger] w.rdeps_list(q2[j]).contains(s)
                            implies visited@.contains(s) && dist[s] <= dist[q2[j]] + 1 by {
                            assert(q2[j] == q[j]);
                        }
                        assert(bfs_inv(w, st, q2, head as int, visited@, dist, pm2));
                        assert forall|s: Seq<char>| #[trigger] sviews(deps@).take(k + 1).contains(s) implies visited@.contains(s)
                            && dist[s] <= dist[cur@] + 1 by {
                            let i = choose|i: int| 0 <= i < k + 1 && #[trigger] sviews(deps@).take(k + 1)[i] == s;
                            if i < k {
                                assert(sviews(deps@).take(k as int)[i] == s);
                                assert(sviews(deps@).take(k as int).contains(s));
                            } else {
                                assert(s == dep@);
                            }
                        }
                    }
                    k += 1;
                    proof {
                        steps = steps + 1;
                        assert(bfs_run(w, bfs_start(st), steps) == (BfsState {
                            queue: sviews(queue@),
                            head: head as int,
                            k: k as int,
                            seen: visited@,
                            parent: parent@.map_values(|s: String| s@),
                            found: match found { Some(f) => Some(f@), None => None },
                        }));
                    }
                }
            }
        }
        if found.is_some() {
            proof {
                kg = k as int;
            }
        }
        if found.is_none() {
            proof {
                let q = sviews(queue@);
                assert(sviews(deps@).take(deps@.len() as int) == sviews(deps@));
                assert forall|j: int, s: Seq<char>| 0 <= j < head + 1 && #[trigger] w.rdeps_list(q[j]).contains(s)
                    implies visited@.contains(s) && dist[s] <= dist[q[j]] + 1 by {
                    if j == head {
                        assert(sviews(deps@).contains(s));
                    }
                }
                lemma_run_step(w, bfs_start(st), steps);
            }
            head += 1;
            proof {
                steps = steps + 1;
                kg = 0;
                assert(bfs_run(w, bfs_start(st), steps) == (BfsState {
                    queue: sviews(queue@),
                    head: head as int,
                    k: kg,
                    seen: visited@,
                    parent: parent@.map_values(|s: String| s@),
                    found: match found { Some(f) => Some(f@), None => None },
                }));
            }
        }
    }
    let f = match found {
        None => {
            proof {
                assert forall|p: Seq<Seq<char>>| !root_path(w, st, p) by {
                    lemma_exhausted_none(w, st, sviews(queue@), visited@, dist, parent@.map_values(|s: String| s@), p);
                }
                lemma_final_is(w, st, steps);
            }
            return None;
        },
        Some(f) => f,
    };
    // Follow the parent links from the root back to `start`.
    let ghost pm = parent@.map_values(|s: String| s@);
    proof {
        lemma_final_is(w, st, steps);
        assert(bfs_final(w, st).parent == pm);
        assert(bfs_final(w, st).found == Some(f@));
    }
    let mut rev: Vec<String> = Vec::new();
    rev.push(f.clone());
    let mut node = f;
    proof {
        assert(sviews(rev@) =~= seq![node@]);
    }
    while parent.contains_key(node.as_str())
        invariant
            chain_inv(w, st, visited@, dist, pm),
            pm == parent@.map_values(|s: String| s@),
            visited@.contains(node@),
            rev@.len() >= 1,
            sviews(rev@).last() == node@,
            dist[node@] == fd - (rev@.len() - 1),
            sviews(rev@)[0] == f@,
            forall|i: int| 0 <= i < rev@.len() - 1 ==> #[trigger] w.rdeps_list(sviews(rev@)[i + 1]).contains(sviews(rev@)[i]),
            forall|i: int|
                0 <= i < rev@.len() - 1 ==> #[trigger] pm.contains_key(sviews(rev@)[i]) && pm[sviews(rev@)[i]] == sviews(rev@)[i + 1],
        decreases dist[node@],
    {
        let next = match parent.get(node.as_str()) {
            Some(p) => p.clone(),
            None => node.clone(),
        };
        proof {
            assert(node@ != st);
            assert(pm[node@] == next@);
        }
        let ghost before = sviews(rev@);
        rev.push(next.clone());
        proof {
            assert(sviews(rev@) =~= before.push(next@));
            assert forall|i: int| 0 <= i < rev@.len() - 1 implies #[trigger] w.rdeps_list(sviews(rev@)[i + 1]).contains(sviews(rev@)[i]) by {
                if i < rev@.len() - 2 {
                    assert(sviews(rev@)[i + 1] == before[i + 1]);
                    assert(sviews(rev@)[i] == before[i]);
                }
            }
            assert forall|i: int| 0 <= i < rev@.len() - 1 implies #[trigger] pm.contains_key(sviews(rev@)[i]) && pm[sviews(rev@)[i]]
                == sviews(rev@)[i + 1] by {
                if i < rev@.len() - 2 {
                    assert(sviews(rev@)[i + 1] == before[i + 1]);
                    assert(sviews(rev@)[i] == before[i]);
                } else {
                    assert(sviews(rev@)[i] == node@);
                }
            }
        }
        node = next;
    }
    proof {
        if node@ != st {
            assert(pm.contains_key(node@));
        }
    }
    // `rev` runs root → start; the answer reads start → root.
    let n = rev.len();
    let mut path: Vec<String> = Vec::new();
    let mut i: usize = 0;
    while i < n
        invariant
            n == rev@.len(),
            i <= n,
            sviews(path@) == sviews(rev@).reverse().take(i as int),
        decreases n - i,
    {
        let ghost before = sviews(path@);
        path.push(rev[n - 1 - i].clone());
        proof {
            assert(sviews(path@) =~= before.push(sviews(rev@)[n - 1 - i]));
            assert(sviews(path@) =~= sviews(rev@).reverse().take(i + 1));
        }
        i += 1;
    }
    proof {
        let rv = sviews(rev@);
        let pv = sviews(path@);
        assert(rv.reverse().take(n as int) == rv.reverse());
        assert(pv == rv.reverse());
        assert(pv[0] == st);
        assert(pv.last() == f@);
        assert forall|j: int| 0 <= j < pv.len() - 1 implies #[trigger] w.rdeps_list(pv[j]).contains(pv[j + 1]) by {
            let i = n - 2 - j;
            assert(pv[j] == rv[i + 1]);
            assert(pv[j + 1] == rv[i]);
        }
        assert(pv.len() == fd + 1);
        assert(root_path(w, st, pv));
        assert(!pm.contains_key(rv.last()));
        assert(pv.reverse() =~= rv);
        assert(parent_walk(pm, pv.reverse()));
    }
    Some(path)
}

// ───────────────────────────── install sessions ─────────────────────────────

/// The names logged within `half` seconds of `anchor`, other than `pkg`.
pub open spec fn window_set(log: Seq<(i64, Seq<char>)>, pkg: Seq<char>, anchor: int, half: int) -> Set<
    Seq<char>,
> {
    Set::new(
        |n: Seq<char>|
            n != pkg && exists|i: int|
                0 <= i < log.len() && #[trigger] log[i].1 == n && anchor - half <= log[i].0 <= anchor
                    + half,
    )
}

/// The window the session heuristic settles on: the widest of three days,
/// one day, twelve hours and six hours that holds at most 20 names, and six
/// hours when none does.
pub open spec fn session_set(log: Seq<(i64, Seq<char>)>, pkg: Seq<char>, anchor: int) -> Set<Seq<char>> {
    if window_set(log, pkg, anchor, 259_200).len() <= 20 {
        window_set(log, pkg, anchor, 259_200)
    } else if window_set(log, pkg, anchor, 86_400).len() <= 20 {
        window_set(log, pkg, anchor, 86_400)
    } else if window_set(log, pkg, anchor, 43_200).len() <= 20 {
        window_set(log, pkg, anchor, 43_200)
    } else {
        window_set(log, pkg, anchor, 21_600)
    }
}

/// When `n` was installed, if it is installed and the time is known.
pub open spec fn anchor_of(w: World, n: Seq<char>) -> Option<i64> {
    if w.pkgs().contains_key(n) {
        w.pkgs()[n].install_epoch
    } else {
        None
    }
}

/// The names logged within `half` seconds of `anchor` other than `pkg`,
/// each once, in code-point order.
fn collect_window(log: &[(i64, String)], pkg: &str, anchor: i64, half: i64) -> (r: Vec<String>)
    ensures
        lex_sorted(sviews(r@)),
        sviews(r@).no_duplicates(),
        sviews(r@).to_set() == window_set(log_view(log@), pkg@, anchor as int, half as int),
{
    let lo: i128 = anchor as i128 - half as i128;
    let hi: i128 = anchor as i128 + half as i128;
    let mut seen = StringHashSet::new();
    let mut out: Vec<String> = Vec::new();
    let ghost lv = log_view(log@);
    let mut k: usize = 0;
    while k < log.len()
        invariant
            k <= log@.len(),
            lv == log_view(log@),
            lo == anchor - half,
            hi == anchor + half,
            sviews(out@).no_duplicates(),
            forall|n: Seq<char>| seen@.contains(n) <==> sviews(out@).contains(n),
            forall|n: Seq<char>|
                sviews(out@).contains(n) <==> (n != pkg@ && exists|i: int|
                    0 <= i < k && #[trigger] lv[i].1 == n && lo <= lv[i].0 <= hi),
        decreases log@.len() - k,
    {
        let e = log[k].0;
        let name = &log[k].1;
        let ghost out0 = sviews(out@);
        proof {
            assert(lv[k as int].1 == name@);
            assert(lv[k as int].0 == e);
        }
        let inside = lo <= e as i128 && e as i128 <= hi;
        if inside && !name_is(name.as_str(), pkg) && !seen.contains(name.as_str()) {
            seen.insert(name.clone());
            out.push(name.clone());
            proof {
                let out1 = sviews(out@);
                assert(out1 =~= out0.push(name@));
                assert forall|i: int, j: int| 0 <= i < out1.len() && 0 <= j < out1.len() && i != j implies out1[i]
                    != out1[j] by {
                    if i == out0.len() && j < out0.len() {
                        assert(out0.contains(out0[j]));
                    } else if j == out0.len() && i < out0.len() {
                        assert(out0.contains(out0[i]));
                    }
                }
                assert forall|n: Seq<char>| seen@.contains(n) <==> out1.contains(n) by {
                    if n == name@ {
                        assert(out1[out0.len() as int] == n);
                    } else if out1.contains(n) {
                        let i = choose|i: int| 0 <= i < out1.len() && out1[i] == n;
                        assert(out0[i] == n);
                    } else if out0.contains(n) {
                        let i = choose|i: int| 0 <= i < out0.len() && out0[i] == n;
                        assert(out1[i] == n);
                    }
                }
                assert forall|n: Seq<char>|
                    out1.contains(n) <==> (n != pkg@ && exists|i: int|
                        0 <= i < k + 1 && #[trigger] lv[i].1 == n && lo <= lv[i].0 <= hi) by {
                    if n == name@ {
                        assert(out1[out0.len() as int] == n);
                    } else {
                        if out1.contains(n) {
                            let i = choose|i: int| 0 <= i < out1.len() && out1[i] == n;
                            assert(out0[i] == n);
                        } else if out0.contains(n) {
                            let i = choose|i: int| 0 <= i < out0.len() && out0[i] == n;
                            assert(out1[i] == n);
                        }
                    }
                }
            }
        } else {
            proof {
                assert forall|n: Seq<char>|
                    out0.contains(n) <==> (n != pkg@ && exists|i: int|
                        0 <= i < k + 1 && #[trigger] lv[i].1 == n && lo <= lv[i].0 <= hi) by {
                    if n == name@ && n != pkg@ && inside {
                        assert(seen@.contains(n));
                    }
                }
            }
        }
        k += 1;
    }
    let r = sort_strings(out);
    proof {
        lemma_same_multiset_distinct(sviews(r@), sviews(out@));
        assert(sviews(r@).to_set() =~= window_set(lv, pkg@, anchor as int, half as int));
    }
    r
}

/// `r` is what [`same_session`] gives for `pkg`: nothing without an install
/// time, else the names of [`session_set`], each once, in code-point order.
pub open spec fn session_ok(w: World, pkg: Seq<char>, r: Seq<Seq<char>>) -> bool {
    match anchor_of(w, pkg) {
        None => r.len() == 0,
        Some(a) => {
            &&& lex_sorted(r)
            &&& r.no_duplicates()
            &&& r.to_set() == session_set(w.log(), pkg, a as int)
        },
    }
}

/// Packages installed around the same time as `pkg`, a strong clue to what
/// it was installed alongside: the names logged in the window that
/// [`session_set`] picks around `pkg`'s install time, without `pkg` itself,
/// each once, in code-point order. Empty when `pkg` is not installed or its
/// install time is unknown.
pub fn same_session(world: &World, pkg: &str) -> (r: Vec<String>)
    requires
        world.wf(),
    ensures
        session_ok(*world, pkg@, sviews(r@)),
{
    let anchor = match world.package(pkg) {
        Some(p) => match p.install_epoch {
            Some(e) => e,
            None => {
                return Vec::new();
            },
        },
        None => {
            return Vec::new();
        },
    };
    let log = world.install_log();
    let r = collect_window(log, pkg, anchor, 259_200);
    proof {
        sviews(r@).unique_seq_to_set();
    }
    if r.len() <= 20 {
        return r;
    }
    let r = collect_window(log, pkg, anchor, 86_400);
    proof {
        sviews(r@).unique_seq_to_set();
    }
    if r.len() <= 20 {
        return r;
    }
    let r = collect_window(log, pkg, anchor, 43_200);
    proof {
        sviews(r@).unique_seq_to_set();
    }
    if r.len() <= 20 {
        return r;
    }
    collect_window(log, pkg, anchor, 21_600)
}

// ───────────────────────────── ages and sizes ─────────────────────────────

/// `"s"` unless `n` is one.
pub open spec fn plural_s(n: int) -> Seq<char> {
    if n == 1 {
        Seq::empty()
    } else {
        "s"@
    }
}

/// A rough "how long ago" for an age of `secs` seconds.
pub open spec fn age_text(secs: int) -> Seq<char> {
    let days = secs / 86_400;
    if secs < 0 {
        "in the future"@
    } else if days == 0 {
        "today"@
    } else if days == 1 {
        "yesterday"@
    } else if days <= 6 {
        decimal(days as nat) + " days ago"@
    } else if days <= 29 {
        decimal((days / 7) as nat) + " week"@ + plural_s(days / 7) + " ago"@
    } else if days <= 364 {
        decimal((days / 30) as nat) + " month"@ + plural_s(days / 30) + " ago"@
    } else {
        decimal((days / 365) as nat) + " year"@ + plural_s(days / 365) + " ago"@
    }
}

/// The age of `epoch` seen from `now`, as [`age_text`] puts it.
pub open spec fn age_between(now: i64, epoch: i64) -> Seq<char> {
    age_text(now - epoch)
}

/// `n` in decimal, then `unit`, pluralised, then `" ago"`.
fn count_ago(n: u64, unit: &str) -> (s: String)
    ensures
        s@ == decimal(n as nat) + unit@ + plural_s(n as int) + " ago"@,
{
    let mut s = string_of(&decimal_u64(n));
    s.append(unit);
    if n != 1 {
        s.append("s");
    }
    s.append(" ago");
    proof {
        if n == 1 {
            assert(decimal(n as nat) + unit@ + plural_s(n as int) =~= decimal(n as nat) + unit@);
        }
    }
    s
}

/// A rough "how long ago" for the Unix time `epoch`, seen from the moment
/// `now` (both Unix seconds), which the caller reads from the clock: "today",
/// "yesterday", "3 days ago", "2 weeks ago", "1 year ago", or "in the
/// future".
pub fn relative_time(now: i64, epoch: i64) -> (s: String)
    ensures
        s@ == age_text(now - epoch),
{
    let secs: i128 = now as i128 - epoch as i128;
    if secs < 0 {
        return String::from_str("in the future");
    }
    let days: i128 = secs / 86_400;
    proof {
        assert(days <= 0x1_0000_0000_0000_0000);
    }
    if days == 0 {
        String::from_str("today")
    } else if days == 1 {
        String::from_str("yesterday")
    } else if days <= 6 {
        let mut s = string_of(&decimal_u64(days as u64));
        s.append(" days ago");
        s
    } else if days <= 29 {
        let s = count_ago((days / 7) as u64, " week");
        s
    } else if days <= 364 {
        count_ago((days / 30) as u64, " month")
    } else {
        count_ago((days / 365) as u64, " year")
    }
}

/// `n / d` rounded to the nearest whole number, ties to the even one.
pub open spec fn div_round_even(n: nat, d: nat) -> nat {
    let q = n / d;
    let r = n % d;
    if 2 * r > d || (2 * r == d && q % 2 == 1) {
        q + 1
    } else {
        q
    }
}

/// An installed size of `kb` KB as text: `"n/a"` for nothing, whole KB
/// below 1024, and MB with one decimal (rounded to nearest, ties to even)
/// from there.
pub open spec fn size_text(kb: nat) -> Seq<char> {
    if kb == 0 {
        "n/a"@
    } else if kb >= 1024 {
        let t = div_round_even(kb * 10, 1024);
        decimal(t / 10) + "."@ + decimal(t % 10) + " MB"@
    } else {
        decimal(kb) + " KB"@
    }
}

/// Format an installed size given in KB into a compact human string.
pub fn format_size(kb: u64) -> (s: String)
    ensures
        s@ == size_text(kb as nat),
{
    if kb == 0 {
        String::from_str("n/a")
    } else if kb >= 1024 {
        let n: u128 = kb as u128 * 10;
        let mut t: u128 = n / 1024;
        let r: u128 = n % 1024;
        if 2 * r > 1024 || (2 * r == 1024 && t % 2 == 1) {
            t = t + 1;
        }
        proof {
            assert(t == div_round_even(kb as nat * 10, 1024));
        }
        let mut s = string_of(&decimal_u64((t / 10) as u64));
        s.append(".");
        s.append(string_of(&decimal_u64((t % 10) as u64)).as_str());
        s.append(" MB");
        s
    } else {
        let mut s = string_of(&decimal_u64(kb));
        s.append(" KB");
        s
    }
}

} // verus!
