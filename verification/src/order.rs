//! Orderings and sorts: strings by code point (the order `String`'s `Ord`
//! uses), and stable sorts of keyed records.

use vstd::prelude::*;
use crate::text::{chars_of, sviews};

verus! {

/// Lexicographic order on character sequences, by code point.
pub open spec fn lex_lt(a: Seq<char>, b: Seq<char>) -> bool
    decreases a.len(),
{
    if a.len() == 0 {
        b.len() > 0
    } else if b.len() == 0 {
        false
    } else if a[0] != b[0] {
        a[0] < b[0]
    } else {
        lex_lt(a.drop_first(), b.drop_first())
    }
}

/// `a` sorts no later than `b`.
pub open spec fn lex_le(a: Seq<char>, b: Seq<char>) -> bool {
    a == b || lex_lt(a, b)
}

/// Every earlier item sorts no later than every later one.
pub open spec fn lex_sorted(s: Seq<Seq<char>>) -> bool {
    forall|i: int, j: int| 0 <= i < j < s.len() ==> lex_le(s[i], s[j])
}

pub proof fn lemma_lex_irreflexive(a: Seq<char>)
    ensures
        !lex_lt(a, a),
    decreases a.len(),
{
    if a.len() > 0 {
        lemma_lex_irreflexive(a.drop_first());
    }
}

pub proof fn lemma_lex_trans(a: Seq<char>, b: Seq<char>, c: Seq<char>)
    requires
        lex_lt(a, b),
        lex_lt(b, c),
    ensures
        lex_lt(a, c),
    decreases a.len(),
{
    if a.len() > 0 && b.len() > 0 && c.len() > 0 && a[0] == b[0] && b[0] == c[0] {
        lemma_lex_trans(a.drop_first(), b.drop_first(), c.drop_first());
    }
}

pub proof fn lemma_lex_total(a: Seq<char>, b: Seq<char>)
    ensures
        a == b || lex_lt(a, b) || lex_lt(b, a),
    decreases a.len(),
{
    if a.len() > 0 && b.len() > 0 {
        if a[0] == b[0] {
            lemma_lex_total(a.drop_first(), b.drop_first());
            if a.drop_first() == b.drop_first() {
                assert(a =~= seq![a[0]] + a.drop_first());
                assert(b =~= seq![b[0]] + b.drop_first());
            }
        }
    } else if a.len() == 0 && b.len() == 0 {
        assert(a =~= b);
    }
}

pub proof fn lemma_lex_asym(a: Seq<char>, b: Seq<char>)
    requires
        lex_lt(a, b),
    ensures
        !lex_lt(b, a),
        a != b,
{
    if lex_lt(b, a) {
        lemma_lex_trans(a, b, a);
        lemma_lex_irreflexive(a);
    }
    lemma_lex_irreflexive(a);
}

/// `a < b` in the order of `String`'s `Ord`.
pub fn chars_lt(a: &[char], b: &[char]) -> (r: bool)
    ensures
        r == lex_lt(a@, b@),
{
    let mut i: usize = 0;
    proof {
        assert(a@.skip(0) == a@);
        assert(b@.skip(0) == b@);
    }
    while i < a.len() && i < b.len() && a[i] == b[i]
        invariant
            i <= a.len(),
            i <= b.len(),
            lex_lt(a@, b@) == lex_lt(a@.skip(i as int), b@.skip(i as int)),
        decreases a.len() - i,
    {
        proof {
            assert(a@.skip(i as int).drop_first() == a@.skip(i + 1));
            assert(b@.skip(i as int).drop_first() == b@.skip(i + 1));
        }
        i += 1;
    }
    proof {
        assert(a@.skip(i as int).len() == a.len() - i);
        assert(b@.skip(i as int).len() == b.len() - i);
    }
    if i == a.len() {
        i < b.len()
    } else if i == b.len() {
        false
    } else {
        a[i] < b[i]
    }
}

/// Where `x` goes in the sorted `s` so that equal items keep their order:
/// after every item that does not sort after it.
pub open spec fn lex_upper(s: Seq<Seq<char>>, x: Seq<char>) -> nat
    decreases s.len(),
{
    if s.len() == 0 {
        0
    } else if lex_lt(x, s.last()) {
        lex_upper(s.drop_last(), x)
    } else {
        s.len()
    }
}

/// Insertion sort, the specification of a stable sort by `lex_le`.
pub open spec fn lex_sort(s: Seq<Seq<char>>) -> Seq<Seq<char>>
    decreases s.len(),
{
    if s.len() == 0 {
        s
    } else {
        let r = lex_sort(s.drop_last());
        r.insert(lex_upper(r, s.last()) as int, s.last())
    }
}

proof fn lemma_lex_upper(s: Seq<Seq<char>>, x: Seq<char>, p: int)
    requires
        lex_sorted(s),
        0 <= p <= s.len(),
        forall|i: int| 0 <= i < p ==> !lex_lt(x, #[trigger] s[i]),
        forall|i: int| p <= i < s.len() ==> lex_lt(x, #[trigger] s[i]),
    ensures
        lex_upper(s, x) == p,
    decreases s.len(),
{
    if s.len() > 0 {
        if p < s.len() {
            assert(lex_lt(x, s.last()));
            assert(lex_sorted(s.drop_last()));
            lemma_lex_upper(s.drop_last(), x, p);
        } else {
            assert(!lex_lt(x, s[s.len() - 1]));
        }
    }
}

proof fn lemma_insert_sorted(s: Seq<Seq<char>>, x: Seq<char>, p: int)
    requires
        lex_sorted(s),
        0 <= p <= s.len(),
        forall|i: int| 0 <= i < p ==> !lex_lt(x, #[trigger] s[i]),
        forall|i: int| p <= i < s.len() ==> lex_lt(x, #[trigger] s[i]),
    ensures
        lex_sorted(s.insert(p, x)),
{
    let t = s.insert(p, x);
    assert forall|i: int, j: int| 0 <= i < j < t.len() implies lex_le(t[i], t[j]) by {
        if i < p && j == p {
            lemma_lex_total(s[i], x);
        } else if i == p && j > p {
            assert(t[j] == s[j - 1]);
        } else if i < p && j > p {
            assert(t[j] == s[j - 1]);
        } else if i > p {
            assert(t[i] == s[i - 1] && t[j] == s[j - 1]);
        }
    }
}

proof fn lemma_lex_sort_props(s: Seq<Seq<char>>)
    ensures
        lex_sorted(lex_sort(s)),
        lex_sort(s).to_multiset() == s.to_multiset(),
        lex_sort(s).len() == s.len(),
    decreases s.len(),
{
    if s.len() > 0 {
        let r = lex_sort(s.drop_last());
        lemma_lex_sort_props(s.drop_last());
        let x = s.last();
        let p = lex_upper(r, x) as int;
        lemma_upper_splits(r, x);
        lemma_insert_sorted(r, x, p);
        vstd::seq_lib::to_multiset_insert(r, p, x);
        vstd::seq_lib::to_multiset_build(s.drop_last(), x);
        assert(s == s.drop_last().push(x));
    }
}

proof fn lemma_upper_splits(s: Seq<Seq<char>>, x: Seq<char>)
    requires
        lex_sorted(s),
    ensures
        lex_upper(s, x) <= s.len(),
        forall|i: int| 0 <= i < lex_upper(s, x) ==> !lex_lt(x, #[trigger] s[i]),
        forall|i: int| lex_upper(s, x) <= i < s.len() ==> lex_lt(x, #[trigger] s[i]),
    decreases s.len(),
{
    if s.len() > 0 {
        if lex_lt(x, s.last()) {
            let t = s.drop_last();
            assert(lex_sorted(t));
            lemma_upper_splits(t, x);
            assert forall|i: int| 0 <= i < lex_upper(s, x) implies !lex_lt(x, #[trigger] s[i]) by {
                assert(s[i] == t[i]);
            }
            assert forall|i: int| lex_upper(s, x) <= i < s.len() implies lex_lt(x, #[trigger] s[i]) by {
                if i < s.len() - 1 {
                    assert(s[i] == t[i]);
                }
            }
        } else {
            assert forall|i: int| 0 <= i < s.len() implies !lex_lt(x, #[trigger] s[i]) by {
                if lex_lt(x, s[i]) && i < s.len() - 1 {
                    assert(lex_le(s[i], s.last()));
                    if s[i] != s.last() {
                        lemma_lex_trans(x, s[i], s.last());
                    }
                }
            }
        }
    }
}

/// Strings in the order `Vec::sort` leaves them (stable, by code point).
pub fn sort_strings(v: Vec<String>) -> (r: Vec<String>)
    ensures
        sviews(r@) == lex_sort(sviews(v@)),
        lex_sorted(sviews(r@)),
        sviews(r@).to_multiset() == sviews(v@).to_multiset(),
        r@.len() == v@.len(),
{
    let mut r: Vec<String> = Vec::new();
    let mut keys: Vec<Vec<char>> = Vec::new();
    let mut i: usize = 0;
    while i < v.len()
        invariant
            i <= v.len(),
            r@.len() == keys@.len(),
            forall|k: int| 0 <= k < keys@.len() ==> #[trigger] keys@[k]@ == r@[k]@,
            sviews(r@) == lex_sort(sviews(v@).take(i as int)),
        decreases v.len() - i,
    {
        let ghost s = sviews(r@);
        proof {
            lemma_lex_sort_props(sviews(v@).take(i as int));
        }
        let x = chars_of(v[i].as_str());
        // binary search for the first item that sorts after `x`
        let mut lo: usize = 0;
        let mut hi: usize = r.len();
        while lo < hi
            invariant
                0 <= lo <= hi <= r@.len(),
                r@.len() == keys@.len(),
                s == sviews(r@),
                lex_sorted(s),
                forall|k: int| 0 <= k < keys@.len() ==> #[trigger] keys@[k]@ == r@[k]@,
                forall|k: int| 0 <= k < lo ==> !lex_lt(x@, #[trigger] s[k]),
                forall|k: int| hi <= k < s.len() ==> lex_lt(x@, #[trigger] s[k]),
            decreases hi - lo,
        {
            let mid = lo + (hi - lo) / 2;
            if chars_lt(&x, &keys[mid]) {
                proof {
                    assert forall|k: int| mid <= k < s.len() implies lex_lt(x@, #[trigger] s[k]) by {
                        if k > mid && !lex_lt(x@, s[k]) {
                            assert(lex_le(s[mid as int], s[k]));
                            lemma_lex_total(x@, s[k]);
                            if s[mid as int] != s[k] {
                                if x@ == s[k] {
                                    lemma_lex_asym(s[mid as int], s[k]);
                                } else {
                                    lemma_lex_trans(x@, s[mid as int], s[k]);
                                }
                            }
                        }
                    }
                }
                hi = mid;
            } else {
                proof {
                    assert forall|k: int| 0 <= k < mid + 1 implies !lex_lt(x@, #[trigger] s[k]) by {
                        if k < mid && lex_lt(x@, s[k]) {
                            assert(lex_le(s[k], s[mid as int]));
                            if s[k] != s[mid as int] {
                                lemma_lex_trans(x@, s[k], s[mid as int]);
                            }
                        }
                    }
                }
                lo = mid + 1;
            }
        }
        proof {
            lemma_lex_upper(s, x@, lo as int);
            assert(sviews(v@).take(i + 1).drop_last() == sviews(v@).take(i as int));
            assert(sviews(v@).take(i + 1).last() == v@[i as int]@);
        }
        let item = v[i].clone();
        let ghost old_r = r@;
        let ghost old_keys = keys@;
        r.insert(lo, item);
        keys.insert(lo, x);
        proof {
            assert(sviews(r@) =~= s.insert(lo as int, v@[i as int]@));
            assert forall|k: int| 0 <= k < keys@.len() implies #[trigger] keys@[k]@ == r@[k]@ by {
                if k > lo {
                    assert(keys@[k] == old_keys[k - 1]);
                    assert(r@[k] == old_r[k - 1]);
                }
            }
        }
        i += 1;
    }
    proof {
        assert(sviews(v@).take(v.len() as int) == sviews(v@));
        lemma_lex_sort_props(sviews(v@));
    }
    r
}

// ───────────────────────────── events by time ─────────────────────────────

/// Every earlier event is no later than every later one.
pub open spec fn events_sorted(s: Seq<(i64, Seq<char>)>) -> bool {
    forall|i: int, j: int| 0 <= i < j < s.len() ==> s[i].0 <= s[j].0
}

/// Where an event at time `t` goes in the sorted `s` so that events of one
/// time keep their order: after every event no later than `t`.
pub open spec fn time_upper(s: Seq<(i64, Seq<char>)>, t: i64) -> nat
    decreases s.len(),
{
    if s.len() == 0 {
        0
    } else if t < s.last().0 {
        time_upper(s.drop_last(), t)
    } else {
        s.len()
    }
}

/// Insertion sort by time, the specification of a stable sort by time.
pub open spec fn time_sort(s: Seq<(i64, Seq<char>)>) -> Seq<(i64, Seq<char>)>
    decreases s.len(),
{
    if s.len() == 0 {
        s
    } else {
        let r = time_sort(s.drop_last());
        r.insert(time_upper(r, s.last().0) as int, s.last())
    }
}

proof fn lemma_time_upper(s: Seq<(i64, Seq<char>)>, t: i64, p: int)
    requires
        events_sorted(s),
        0 <= p <= s.len(),
        forall|i: int| 0 <= i < p ==> (#[trigger] s[i]).0 <= t,
        forall|i: int| p <= i < s.len() ==> t < (#[trigger] s[i]).0,
    ensures
        time_upper(s, t) == p,
    decreases s.len(),
{
    if s.len() > 0 {
        if p < s.len() {
            assert(t < s[s.len() - 1].0);
            lemma_time_upper(s.drop_last(), t, p);
        } else {
            assert(s[s.len() - 1].0 <= t);
        }
    }
}

proof fn lemma_time_upper_splits(s: Seq<(i64, Seq<char>)>, t: i64)
    requires
        events_sorted(s),
    ensures
        time_upper(s, t) <= s.len(),
        forall|i: int| 0 <= i < time_upper(s, t) ==> (#[trigger] s[i]).0 <= t,
        forall|i: int| time_upper(s, t) <= i < s.len() ==> t < (#[trigger] s[i]).0,
    decreases s.len(),
{
    if s.len() > 0 {
        let d = s.drop_last();
        if t < s.last().0 {
            lemma_time_upper_splits(d, t);
            assert forall|i: int| 0 <= i < time_upper(s, t) implies (#[trigger] s[i]).0 <= t by {
                assert(s[i] == d[i]);
            }
            assert forall|i: int| time_upper(s, t) <= i < s.len() implies t < (#[trigger] s[i]).0 by {
                if i < s.len() - 1 {
                    assert(s[i] == d[i]);
                }
            }
        } else {
            assert forall|i: int| 0 <= i < s.len() implies (#[trigger] s[i]).0 <= t by {
                assert(s[i].0 <= s[s.len() - 1].0);
            }
        }
    }
}

proof fn lemma_time_sort_props(s: Seq<(i64, Seq<char>)>)
    ensures
        events_sorted(time_sort(s)),
        time_sort(s).to_multiset() == s.to_multiset(),
        time_sort(s).len() == s.len(),
    decreases s.len(),
{
    if s.len() > 0 {
        let r = time_sort(s.drop_last());
        lemma_time_sort_props(s.drop_last());
        let x = s.last();
        let p = time_upper(r, x.0) as int;
        lemma_time_upper_splits(r, x.0);
        let t = r.insert(p, x);
        assert forall|i: int, j: int| 0 <= i < j < t.len() implies t[i].0 <= t[j].0 by {
            if i < p && j == p {
                assert(r[i].0 <= x.0);
            } else if i == p && j > p {
                assert(t[j] == r[j - 1]);
            } else if i < p && j > p {
                assert(t[j] == r[j - 1]);
            } else if i > p {
                assert(t[i] == r[i - 1] && t[j] == r[j - 1]);
            }
        }
        vstd::seq_lib::to_multiset_insert(r, p, x);
        vstd::seq_lib::to_multiset_build(s.drop_last(), x);
        assert(s == s.drop_last().push(x));
    }
}

/// Install events in the order a stable sort by time leaves them: oldest
/// first, events of one second in the order they came.
pub fn sort_events(v: Vec<(i64, String)>) -> (r: Vec<(i64, String)>)
    ensures
        r@.map_values(|e: (i64, String)| (e.0, e.1@)) == time_sort(v@.map_values(|e: (i64, String)| (e.0, e.1@))),
        events_sorted(r@.map_values(|e: (i64, String)| (e.0, e.1@))),
{
    let ghost vv = v@.map_values(|e: (i64, String)| (e.0, e.1@));
    let mut r: Vec<(i64, String)> = Vec::new();
    let mut i: usize = 0;
    while i < v.len()
        invariant
            i <= v.len(),
            vv == v@.map_values(|e: (i64, String)| (e.0, e.1@)),
            r@.map_values(|e: (i64, String)| (e.0, e.1@)) == time_sort(vv.take(i as int)),
        decreases v.len() - i,
    {
        let ghost s = r@.map_values(|e: (i64, String)| (e.0, e.1@));
        proof {
            lemma_time_sort_props(vv.take(i as int));
        }
        let t = v[i].0;
        let mut lo: usize = 0;
        let mut hi: usize = r.len();
        while lo < hi
            invariant
                0 <= lo <= hi <= r@.len(),
                s == r@.map_values(|e: (i64, String)| (e.0, e.1@)),
                events_sorted(s),
                forall|k: int| 0 <= k < lo ==> (#[trigger] s[k]).0 <= t,
                forall|k: int| hi <= k < s.len() ==> t < (#[trigger] s[k]).0,
            decreases hi - lo,
        {
            let mid = lo + (hi - lo) / 2;
            proof {
                assert(s[mid as int].0 == r@[mid as int].0);
            }
            if t < r[mid].0 {
                proof {
                    assert forall|k: int| mid <= k < s.len() implies t < (#[trigger] s[k]).0 by {
                        assert(s[mid as int].0 <= s[k].0);
                    }
                }
                hi = mid;
            } else {
                proof {
                    assert forall|k: int| 0 <= k < mid + 1 implies (#[trigger] s[k]).0 <= t by {
                        assert(s[k].0 <= s[mid as int].0);
                    }
                }
                lo = mid + 1;
            }
        }
        let item = (v[i].0, v[i].1.clone());
        proof {
            lemma_time_upper(s, t, lo as int);
            assert(vv.take(i + 1).drop_last() == vv.take(i as int));
            assert(vv.take(i + 1).last() == vv[i as int]);
        }
        r.insert(lo, item);
        proof {
            assert(r@.map_values(|e: (i64, String)| (e.0, e.1@)) =~= s.insert(lo as int, vv[i as int]));
        }
        i += 1;
    }
    proof {
        assert(vv.take(v.len() as int) == vv);
        lemma_time_sort_props(vv);
    }
    r
}

// ───────────────────────────── items by rank ─────────────────────────────

/// Every earlier item ranks no lower than every later one.
pub open spec fn ranked(s: Seq<(u64, Seq<char>)>) -> bool {
    forall|i: int, j: int| 0 <= i < j < s.len() ==> s[i].0 >= s[j].0
}

/// Where an item of rank `k` goes in the ranked `s` so that items of one
/// rank keep their order: after every item ranked no lower than `k`.
pub open spec fn rank_upper(s: Seq<(u64, Seq<char>)>, k: u64) -> nat
    decreases s.len(),
{
    if s.len() == 0 {
        0
    } else if s.last().0 < k {
        rank_upper(s.drop_last(), k)
    } else {
        s.len()
    }
}

/// Insertion sort by rank, highest first: the specification of a stable
/// sort by descending rank.
pub open spec fn rank_sort(s: Seq<(u64, Seq<char>)>) -> Seq<(u64, Seq<char>)>
    decreases s.len(),
{
    if s.len() == 0 {
        s
    } else {
        let r = rank_sort(s.drop_last());
        r.insert(rank_upper(r, s.last().0) as int, s.last())
    }
}

proof fn lemma_rank_upper(s: Seq<(u64, Seq<char>)>, k: u64, p: int)
    requires
        ranked(s),
        0 <= p <= s.len(),
        forall|i: int| 0 <= i < p ==> (#[trigger] s[i]).0 >= k,
        forall|i: int| p <= i < s.len() ==> (#[trigger] s[i]).0 < k,
    ensures
        rank_upper(s, k) == p,
    decreases s.len(),
{
    if s.len() > 0 {
        if p < s.len() {
            assert(s[s.len() - 1].0 < k);
            lemma_rank_upper(s.drop_last(), k, p);
        } else {
            assert(s[s.len() - 1].0 >= k);
        }
    }
}

proof fn lemma_rank_upper_splits(s: Seq<(u64, Seq<char>)>, k: u64)
    requires
        ranked(s),
    ensures
        rank_upper(s, k) <= s.len(),
        forall|i: int| 0 <= i < rank_upper(s, k) ==> (#[trigger] s[i]).0 >= k,
        forall|i: int| rank_upper(s, k) <= i < s.len() ==> (#[trigger] s[i]).0 < k,
    decreases s.len(),
{
    if s.len() > 0 {
        let d = s.drop_last();
        if s.last().0 < k {
            lemma_rank_upper_splits(d, k);
            assert forall|i: int| 0 <= i < rank_upper(s, k) implies (#[trigger] s[i]).0 >= k by {
                assert(s[i] == d[i]);
            }
            assert forall|i: int| rank_upper(s, k) <= i < s.len() implies (#[trigger] s[i]).0 < k by {
                if i < s.len() - 1 {
                    assert(s[i] == d[i]);
                }
            }
        } else {
            assert forall|i: int| 0 <= i < s.len() implies (#[trigger] s[i]).0 >= k by {
                assert(s[i].0 >= s[s.len() - 1].0);
            }
        }
    }
}

/// The rank sort is ranked and holds the same items.
pub proof fn lemma_rank_sort_props(s: Seq<(u64, Seq<char>)>)
    ensures
        ranked(rank_sort(s)),
        rank_sort(s).to_multiset() == s.to_multiset(),
        rank_sort(s).len() == s.len(),
    decreases s.len(),
{
    if s.len() > 0 {
        let r = rank_sort(s.drop_last());
        lemma_rank_sort_props(s.drop_last());
        let x = s.last();
        let p = rank_upper(r, x.0) as int;
        lemma_rank_upper_splits(r, x.0);
        let t = r.insert(p, x);
        assert forall|i: int, j: int| 0 <= i < j < t.len() implies t[i].0 >= t[j].0 by {
            if i < p && j == p {
                assert(r[i].0 >= x.0);
            } else if i == p && j > p {
                assert(t[j] == r[j - 1]);
            } else if i < p && j > p {
                assert(t[j] == r[j - 1]);
            } else if i > p {
                assert(t[i] == r[i - 1] && t[j] == r[j - 1]);
            }
        }
        vstd::seq_lib::to_multiset_insert(r, p, x);
        vstd::seq_lib::to_multiset_build(s.drop_last(), x);
        assert(s == s.drop_last().push(x));
    }
}

/// The views of ranked names.
pub open spec fn rank_view(v: Seq<(u64, String)>) -> Seq<(u64, Seq<char>)> {
    v.map_values(|e: (u64, String)| (e.0, e.1@))
}

/// Names in the order a stable sort by descending rank leaves them:
/// highest first, names of one rank in the order they came.
pub fn sort_ranked(v: Vec<(u64, String)>) -> (r: Vec<(u64, String)>)
    ensures
        rank_view(r@) == rank_sort(rank_view(v@)),
{
    let ghost vv = rank_view(v@);
    let mut r: Vec<(u64, String)> = Vec::new();
    let mut i: usize = 0;
    while i < v.len()
        invariant
            i <= v.len(),
            vv == rank_view(v@),
            rank_view(r@) == rank_sort(vv.take(i as int)),
        decreases v.len() - i,
    {
        let ghost s = rank_view(r@);
        proof {
            lemma_rank_sort_props(vv.take(i as int));
        }
        let k = v[i].0;
        let mut lo: usize = 0;
        let mut hi: usize = r.len();
        while lo < hi
            invariant
                0 <= lo <= hi <= r@.len(),
                s == rank_view(r@),
                ranked(s),
                forall|j: int| 0 <= j < lo ==> (#[trigger] s[j]).0 >= k,
                forall|j: int| hi <= j < s.len() ==> k > (#[trigger] s[j]).0,
            decreases hi - lo,
        {
            let mid = lo + (hi - lo) / 2;
            proof {
                assert(s[mid as int].0 == r@[mid as int].0);
            }
            if r[mid].0 < k {
                proof {
                    assert forall|j: int| mid <= j < s.len() implies k > (#[trigger] s[j]).0 by {
                        assert(s[mid as int].0 >= s[j].0);
                    }
                }
                hi = mid;
            } else {
                proof {
                    assert forall|j: int| 0 <= j < mid + 1 implies (#[trigger] s[j]).0 >= k by {
                        assert(s[j].0 >= s[mid as int].0);
                    }
                }
                lo = mid + 1;
            }
        }
        let item = (v[i].0, v[i].1.clone());
        proof {
            lemma_rank_upper(s, k, lo as int);
            assert(vv.take(i + 1).drop_last() == vv.take(i as int));
            assert(vv.take(i + 1).last() == vv[i as int]);
        }
        r.insert(lo, item);
        proof {
            assert(rank_view(r@) =~= s.insert(lo as int, vv[i as int]));
        }
        i += 1;
    }
    proof {
        assert(vv.take(v.len() as int) == vv);
    }
    r
}

} // verus!
