//! Facts about filtering and mapping sequences that several modules share.

use vstd::prelude::*;

verus! {

/// What a filter keeps, and that it keeps no duplicates of its own.
pub proof fn lemma_filter<A>(s: Seq<A>, p: spec_fn(A) -> bool)
    ensures
        forall|x: A| #[trigger] s.filter(p).contains(x) <==> s.contains(x) && p(x),
        s.no_duplicates() ==> s.filter(p).no_duplicates(),
    decreases s.len(),
{
    reveal_with_fuel(Seq::filter, 1);
    if s.len() > 0 {
        let t = s.drop_last();
        lemma_filter(t, p);
        assert(s == t.push(s.last()));
        assert forall|x: A| #[trigger] s.filter(p).contains(x) <==> s.contains(x) && p(x) by {
            if s.contains(x) && p(x) {
                let i = choose|i: int| 0 <= i < s.len() && s[i] == x;
                if i < t.len() {
                    assert(t[i] == x);
                    assert(t.contains(x));
                }
            }
            if s.filter(p).contains(x) {
                if p(s.last()) {
                    let f = t.filter(p).push(s.last());
                    let i = choose|i: int| 0 <= i < f.len() && f[i] == x;
                    if i < f.len() - 1 {
                        assert(t.filter(p)[i] == x);
                        assert(t.filter(p).contains(x));
                    } else {
                        assert(s[s.len() - 1] == x);
                    }
                } else {
                    assert(t.filter(p).contains(x));
                }
                if t.contains(x) {
                    let i = choose|i: int| 0 <= i < t.len() && t[i] == x;
                    assert(s[i] == x);
                }
            }
        }
        if s.no_duplicates() {
            assert(t.no_duplicates()) by {
                assert forall|i: int, j: int| 0 <= i < t.len() && 0 <= j < t.len() && i != j implies t[i]
                    != t[j] by {
                    assert(s[i] == t[i] && s[j] == t[j]);
                }
            }
            if p(s.last()) {
                let f = t.filter(p).push(s.last());
                assert(!t.contains(s.last())) by {
                    if t.contains(s.last()) {
                        let i = choose|i: int| 0 <= i < t.len() && t[i] == s.last();
                        assert(s[i] == s[s.len() - 1]);
                    }
                }
                assert forall|i: int, j: int| 0 <= i < f.len() && 0 <= j < f.len() && i != j implies f[i]
                    != f[j] by {
                    if i == f.len() - 1 && j < f.len() - 1 {
                        assert(t.filter(p).contains(f[j]));
                    } else if j == f.len() - 1 && i < f.len() - 1 {
                        assert(t.filter(p).contains(f[i]));
                    }
                }
            }
        }
    }
}

} // verus!
