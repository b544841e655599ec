//! The manual/auto/flatpak filter and the fuzzy match that narrows the
//! list.

use vstd::prelude::*;
use vstd::string::*;
use crate::model::{World, PackageView, Source};
use crate::text::{sviews, chars_of, utf8_len, utf8_shorter};
use crate::order::{rank_view, rank_sort, sort_ranked};
use super::{App, base_of};

verus! {

/// Which packages the list shows, cycled with Tab. The buckets are
/// disjoint: manual and auto are system packages only, flatpak is its own
/// group. The fuzzy query composes on top.
#[derive(Clone, Copy, PartialEq, Eq, Debug, Structural)]
pub enum FilterMode {
    All,
    Manual,
    Auto,
    Flatpak,
}

/// The bucket after `m`.
pub open spec fn next_mode(m: FilterMode) -> FilterMode {
    match m {
        FilterMode::All => FilterMode::Manual,
        FilterMode::Manual => FilterMode::Auto,
        FilterMode::Auto => FilterMode::Flatpak,
        FilterMode::Flatpak => FilterMode::All,
    }
}

/// `n` is a flatpak app or runtime of `w`.
pub open spec fn is_flatpak(w: World, n: Seq<char>) -> bool {
    w.pkgs().contains_key(n) && w.pkgs()[n].source == Source::Flatpak
}

/// `n` belongs in bucket `m`.
pub open spec fn in_bucket(w: World, m: FilterMode, n: Seq<char>) -> bool {
    match m {
        FilterMode::All => true,
        FilterMode::Manual => w.manual_set().contains(n) && !is_flatpak(w, n),
        FilterMode::Auto => !w.manual_set().contains(n) && !is_flatpak(w, n),
        FilterMode::Flatpak => is_flatpak(w, n),
    }
}

impl FilterMode {
    /// Whether `name` belongs in this bucket.
    pub fn matches(self, world: &World, name: &str) -> (b: bool)
        requires
            world.wf(),
        ensures
            b == in_bucket(*world, self, name@),
    {
        let flat = match world.package(name) {
            Some(p) => p.source == Source::Flatpak,
            None => false,
        };
        match self {
            FilterMode::All => true,
            FilterMode::Manual => world.is_manual(name) && !flat,
            FilterMode::Auto => !world.is_manual(name) && !flat,
            FilterMode::Flatpak => flat,
        }
    }

    /// The next bucket: all, manual, auto, flatpak, and round again.
    pub fn next(self) -> (m: FilterMode)
        ensures
            m == next_mode(self),
    {
        match self {
            FilterMode::All => FilterMode::Manual,
            FilterMode::Manual => FilterMode::Auto,
            FilterMode::Auto => FilterMode::Flatpak,
            FilterMode::Flatpak => FilterMode::All,
        }
    }

    /// The bucket's name on the status line.
    pub fn label(self) -> (s: &'static str)
        ensures
            s@ == match self {
                FilterMode::All => "all"@,
                FilterMode::Manual => "manual [M]"@,
                FilterMode::Auto => "auto [A]"@,
                FilterMode::Flatpak => "flatpak [F]"@,
            },
    {
        match self {
            FilterMode::All => "all",
            FilterMode::Manual => "manual [M]",
            FilterMode::Auto => "auto [A]",
            FilterMode::Flatpak => "flatpak [F]",
        }
    }
}

/// Tab comes back to the bucket it started from after four presses, and
/// every press changes the bucket.
pub proof fn lemma_next_cycles(m: FilterMode)
    ensures
        next_mode(next_mode(next_mode(next_mode(m)))) == m,
        next_mode(m) != m,
{
}

/// The buckets split the packages: every name is in exactly one of the
/// manual, auto and flatpak buckets, and in "all".
pub proof fn lemma_buckets_partition(w: World, n: Seq<char>)
    ensures
        in_bucket(w, FilterMode::All, n),
        in_bucket(w, FilterMode::Manual, n) || in_bucket(w, FilterMode::Auto, n) || in_bucket(w, FilterMode::Flatpak, n),
        !(in_bucket(w, FilterMode::Manual, n) && in_bucket(w, FilterMode::Auto, n)),
        !(in_bucket(w, FilterMode::Manual, n) && in_bucket(w, FilterMode::Flatpak, n)),
        !(in_bucket(w, FilterMode::Auto, n) && in_bucket(w, FilterMode::Flatpak, n)),
{
}

// ───────────────────────────── fuzzy matching ─────────────────────────────

/// nucleo's `Matcher`, declared so that the library can hold one; it is
/// opaque here.
#[verifier::external_type_specification]
#[verifier::external_body]
pub struct ExMatcher(nucleo_matcher::Matcher);

/// `nucleo_matcher::Matcher::new(Config::DEFAULT)`: a matcher with the
/// default configuration. Nothing is stated of it.
#[verifier::external_body]
pub(crate) fn new_matcher() -> (m: nucleo_matcher::Matcher) {
    nucleo_matcher::Matcher::new(nucleo_matcher::Config::DEFAULT)
}

/// A fuzzy matcher of nucleo's default configuration.
pub struct FuzzyMatcher {
    inner: nucleo_matcher::Matcher,
}

impl FuzzyMatcher {
    /// A matcher of the default configuration.
    pub fn new() -> (m: FuzzyMatcher) {
        FuzzyMatcher { inner: new_matcher() }
    }
}

/// The score nucleo gives `haystack` for the query `query`, parsed with
/// case ignored and smart normalisation, by a matcher of the default
/// configuration; `None` when it does not match.
pub uninterp spec fn fuzzy_score(query: Seq<char>, haystack: Seq<char>) -> Option<u32>;

/// How many spaces `q` holds.
pub open spec fn spaces_in(q: Seq<char>) -> nat
    decreases q.len(),
{
    if q.len() == 0 {
        0
    } else {
        spaces_in(q.drop_last()) + if q.last() == ' ' { 1nat } else { 0nat }
    }
}

/// The most spaces a query may hold for nucleo to add up its words' scores.
pub open spec fn space_limit() -> nat {
    65536
}

/// `Pattern::parse(query, CaseMatching::Ignore, Normalization::Smart)`
/// scored against `haystack` with `matcher`. The contract names the result
/// [`fuzzy_score`] and says nothing more of it.
///
/// nucleo asserts that the haystack it scores is at most `u32::MAX` long,
/// measured in bytes when it takes the haystack as ASCII and in characters
/// otherwise; a haystack of at most `u32::MAX` UTF-8 bytes meets both.
/// It also adds the `u16` scores of the query's words in a `u32`; it splits
/// words only at (unescaped) spaces, so a query with at most 65 536 spaces
/// has at most 65 537 words, and 65 537 times `u16::MAX` is `u32::MAX`.
/// `requires` leaves the other inputs out.
#[verifier::external_body]
fn score_with(matcher: &mut nucleo_matcher::Matcher, query: &str, haystack: &str) -> (r: Option<u32>)
    requires
        utf8_len(haystack@) <= u32::MAX,
        spaces_in(query@) <= space_limit(),
    ensures
        r == fuzzy_score(query@, haystack@),
{
    let pattern = nucleo_matcher::pattern::Pattern::parse(
        query,
        nucleo_matcher::pattern::CaseMatching::Ignore,
        nucleo_matcher::pattern::Normalization::Smart,
    );
    let mut buf = Vec::new();
    pattern.score(nucleo_matcher::Utf32Str::new(haystack, &mut buf), matcher)
}

/// What the query is matched against: the name, then the synopsis and the
/// extended description when there are any, so a flatpak app is found by
/// its friendly name and any package by words of its synopsis.
pub open spec fn haystack_of(w: World, n: Seq<char>) -> Seq<char> {
    if w.catalog().contains_key(n) {
        let p = w.catalog()[n];
        let h = if p.description.len() > 0 {
            n + " "@ + p.description
        } else {
            n
        };
        match p.details {
            Some(d) => h + " "@ + d,
            None => h,
        }
    } else {
        n
    }
}

/// The text a query is matched against starts with the package's name and,
/// when it has a synopsis, the synopsis after a space: a query that matches
/// the description finds the package. Only the extended description may
/// follow.
pub proof fn lemma_haystack_holds_description(w: World, n: Seq<char>)
    ensures
        haystack_of(w, n).len() >= n.len(),
        haystack_of(w, n).take(n.len() as int) == n,
        w.catalog().contains_key(n) && w.catalog()[n].description.len() > 0 ==> {
            let pre = n + " "@ + w.catalog()[n].description;
            &&& haystack_of(w, n).len() >= pre.len()
            &&& haystack_of(w, n).take(pre.len() as int) == pre
        },
        w.catalog().contains_key(n) && w.catalog()[n].details is None && w.catalog()[n].description.len() > 0
            ==> haystack_of(w, n) == n + " "@ + w.catalog()[n].description,
{
    let h = haystack_of(w, n);
    if w.catalog().contains_key(n) {
        let p = w.catalog()[n];
        let h0 = if p.description.len() > 0 { n + " "@ + p.description } else { n };
        assert(h0.take(n.len() as int) =~= n);
        match p.details {
            Some(d) => {
                assert(h == h0 + " "@ + d);
                assert(h.take(h0.len() as int) =~= h0);
                assert(h.take(n.len() as int) =~= n);
            },
            None => {
                assert(h.take(h0.len() as int) =~= h0);
            },
        }
    } else {
        assert(h.take(n.len() as int) =~= n);
    }
}

/// The haystack of `name`.
fn haystack(world: &World, name: &String) -> (h: String)
    requires
        world.wf(),
    ensures
        h@ == haystack_of(*world, name@),
{
    match world.package(name.as_str()) {
        Some(p) => {
            let mut h = name.clone();
            if !p.description.as_str().is_empty() {
                h.append(" ");
                h.append(p.description.as_str());
            }
            match &p.details {
                Some(d) => {
                    h.append(" ");
                    h.append(d.as_str());
                },
                None => {},
            }
            h
        },
        None => name.clone(),
    }
}

/// The names of `base` in bucket `m`, in order.
pub open spec fn bucket_list(w: World, m: FilterMode, base: Seq<Seq<char>>) -> Seq<Seq<char>>
    decreases base.len(),
{
    if base.len() == 0 {
        base
    } else {
        let r = bucket_list(w, m, base.drop_last());
        if in_bucket(w, m, base.last()) {
            r.push(base.last())
        } else {
            r
        }
    }
}

/// The names of `names` the query matches, with their scores, in order.
/// A haystack longer than nucleo takes (over `u32::MAX` bytes) is left out,
/// and a query of more than 65 536 spaces, whose word scores nucleo could
/// not add up in a `u32`, matches nothing.
pub open spec fn scored(w: World, q: Seq<char>, names: Seq<Seq<char>>) -> Seq<(u64, Seq<char>)>
    decreases names.len(),
{
    if names.len() == 0 {
        Seq::empty()
    } else {
        let r = scored(w, q, names.drop_last());
        let h = haystack_of(w, names.last());
        if utf8_len(h) <= u32::MAX && spaces_in(q) <= space_limit() && fuzzy_score(q, h) is Some {
            r.push((fuzzy_score(q, h).unwrap() as u64, names.last()))
        } else {
            r
        }
    }
}

/// The list on screen for the base `base`: the names in the bucket, in
/// their natural order with no query, else those the query matches, best
/// score first, ties in their natural order.
pub open spec fn visible_list(w: World, m: FilterMode, q: Seq<char>, base: Seq<Seq<char>>) -> Seq<Seq<char>> {
    let b = bucket_list(w, m, base);
    if q.len() == 0 {
        b
    } else {
        rank_sort(scored(w, q, b)).map_values(|e: (u64, Seq<char>)| e.1)
    }
}

/// A query too long for nucleo to score matches nothing.
proof fn lemma_long_query_scores_nothing(w: World, q: Seq<char>, names: Seq<Seq<char>>)
    requires
        spaces_in(q) > space_limit(),
    ensures
        scored(w, q, names).len() == 0,
    decreases names.len(),
{
    if names.len() > 0 {
        lemma_long_query_scores_nothing(w, q, names.drop_last());
    }
}

/// How many spaces `q` holds.
fn count_spaces(q: &[char]) -> (n: usize)
    ensures
        n == spaces_in(q@),
{
    let mut n: usize = 0;
    let mut i: usize = 0;
    while i < q.len()
        invariant
            i <= q@.len(),
            n == spaces_in(q@.take(i as int)),
            n <= i,
        decreases q@.len() - i,
    {
        proof {
            assert(q@.take(i + 1).drop_last() == q@.take(i as int));
            assert(q@.take(i + 1).last() == q@[i as int]);
        }
        if q[i] == ' ' {
            n += 1;
        }
        i += 1;
    }
    proof {
        assert(q@.take(q@.len() as int) == q@);
    }
    n
}

impl App {
    /// The current base list, filtered by the bucket and ranked by the
    /// fuzzy query. A query of more than 65 536 spaces matches nothing.
    pub fn filtered(&mut self) -> (r: Vec<String>)
        requires
            old(self).wf(),
        ensures
            final(self).wf(),
            final(self).world == old(self).world,
            final(self).filter == old(self).filter,
            final(self).relation == old(self).relation,
            final(self).stack == old(self).stack,
            sviews(r@) == visible_list(
                old(self).world,
                old(self).filter,
                old(self).stack@.last().query@,
                sviews(base_of(old(self).stack@.last(), old(self).relation)),
            ),
            spaces_in(old(self).stack@.last().query@) > space_limit() ==> r@.len() == 0,
    {
        let ghost w = self.world;
        let mode = self.filter;
        let base = self.base_list();
        let ghost bv = sviews(base@);
        let mut kept: Vec<String> = Vec::new();
        let mut i: usize = 0;
        while i < base.len()
            invariant
                self.wf(),
                w == self.world,
                self.filter == old(self).filter,
                self.relation == old(self).relation,
                self.stack == old(self).stack,
                mode == old(self).filter,
                bv == sviews(base@),
                bv == sviews(base_of(old(self).stack@.last(), old(self).relation)),
                i <= base@.len(),
                sviews(kept@) == bucket_list(w, mode, bv.take(i as int)),
            decreases base@.len() - i,
        {
            proof {
                assert(bv.take(i + 1).drop_last() == bv.take(i as int));
                assert(bv.take(i + 1).last() == base@[i as int]@);
            }
            if mode.matches(&self.world, base[i].as_str()) {
                let ghost before = sviews(kept@);
                kept.push(base[i].clone());
                proof {
                    assert(sviews(kept@) =~= before.push(base@[i as int]@));
                }
            }
            i += 1;
        }
        proof {
            assert(bv.take(base@.len() as int) == bv);
        }
        let n = self.stack.len();
        let query = self.stack[n - 1].query.clone();
        if query.as_str().is_empty() {
            return kept;
        }
        let ghost kv = sviews(kept@);
        let short_query = count_spaces(&chars_of(query.as_str())) <= 65536;
        let mut hits: Vec<(u64, String)> = Vec::new();
        let mut k: usize = 0;
        while k < kept.len()
            invariant
                self.world == w,
                w.wf(),
                self.stack@.len() >= 1,
                self.filter == old(self).filter,
                self.relation == old(self).relation,
                self.stack == old(self).stack,
                kv == sviews(kept@),
                k <= kept@.len(),
                rank_view(hits@) == scored(w, query@, kv.take(k as int)),
                short_query == (spaces_in(query@) <= space_limit()),
            decreases kept@.len() - k,
        {
            proof {
                assert(kv.take(k + 1).drop_last() == kv.take(k as int));
                assert(kv.take(k + 1).last() == kept@[k as int]@);
            }
            let h = haystack(&self.world, &kept[k]);
            let hc = chars_of(h.as_str());
            if utf8_shorter(&hc, 0x1_0000_0000) && short_query {
                match score_with(&mut self.matcher.inner, query.as_str(), h.as_str()) {
                    Some(s) => {
                        let ghost before = rank_view(hits@);
                        hits.push((s as u64, kept[k].clone()));
                        proof {
                            assert(rank_view(hits@) =~= before.push((s as u64, kept@[k as int]@)));
                        }
                    },
                    None => {},
                }
            }
            k += 1;
        }
        proof {
            assert(kv.take(kept@.len() as int) == kv);
        }
        let ranked = sort_ranked(hits);
        let mut r: Vec<String> = Vec::new();
        let mut j: usize = 0;
        while j < ranked.len()
            invariant
                j <= ranked@.len(),
                sviews(r@) == rank_view(ranked@).take(j as int).map_values(|e: (u64, Seq<char>)| e.1),
            decreases ranked@.len() - j,
        {
            let ghost before = sviews(r@);
            r.push(ranked[j].1.clone());
            proof {
                assert(rank_view(ranked@)[j as int] == (ranked@[j as int].0, ranked@[j as int].1@));
                assert(sviews(r@) =~= before.push(ranked@[j as int].1@));
                assert(rank_view(ranked@).take(j + 1) == rank_view(ranked@).take(j as int).push(
                    rank_view(ranked@)[j as int],
                ));
                assert(sviews(r@) =~= rank_view(ranked@).take(j + 1).map_values(|e: (u64, Seq<char>)| e.1));
            }
            j += 1;
        }
        proof {
            assert(rank_view(ranked@).take(ranked@.len() as int) == rank_view(ranked@));
            if spaces_in(query@) > space_limit() {
                lemma_long_query_scores_nothing(w, query@, kv);
                assert(sviews(r@).len() == 0);
            }
        }
        r
    }
}

} // verus!
