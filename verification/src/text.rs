//! Text primitives over `Seq<char>`: the shapes package-manager output takes
//! (lines, tab- and space-separated fields, prefixes, decimal numbers).

use vstd::prelude::*;
use vstd::string::*;

verus! {

/// `String::push`: the string with `ch` appended, as std documents it.
pub assume_specification[ String::push ](s: &mut String, ch: char)
    ensures
        final(s)@ == old(s)@.push(ch),
;

// ───────────────────────────── specifications ─────────────────────────────

/// Unicode `White_Space`, the property `char::is_whitespace` tests.
pub open spec fn is_ws(c: char) -> bool {
    let u = c as u32;
    ||| (0x9 <= u && u <= 0xd)
    ||| u == 0x20
    ||| u == 0x85
    ||| u == 0xa0
    ||| u == 0x1680
    ||| (0x2000 <= u && u <= 0x200a)
    ||| u == 0x2028
    ||| u == 0x2029
    ||| u == 0x202f
    ||| u == 0x205f
    ||| u == 0x3000
}

/// `p` occurs in `s` at position `i`.
pub open spec fn matches_at(s: Seq<char>, p: Seq<char>, i: int) -> bool {
    0 <= i && i + p.len() <= s.len() && s.subrange(i, i + p.len()) == p
}

/// `s` begins with `p`.
pub open spec fn starts_with(s: Seq<char>, p: Seq<char>) -> bool {
    matches_at(s, p, 0)
}

/// `s` ends with `p`.
pub open spec fn ends_with(s: Seq<char>, p: Seq<char>) -> bool {
    matches_at(s, p, s.len() - p.len())
}

/// `p` occurs somewhere in `s`.
pub open spec fn contains(s: Seq<char>, p: Seq<char>) -> bool {
    exists|i: int| matches_at(s, p, i)
}

/// The position of the first occurrence of `p` in `s`, if any.
pub open spec fn first_match(s: Seq<char>, p: Seq<char>) -> Option<int>
    decreases s.len(),
{
    if s.len() < p.len() {
        None
    } else if s.take(p.len() as int) == p {
        Some(0)
    } else if s.len() == 0 {
        None
    } else {
        match first_match(s.drop_first(), p) {
            Some(i) => Some(i + 1),
            None => None,
        }
    }
}

/// The pieces of `s` between the (non-overlapping, left-to-right) occurrences
/// of the non-empty pattern `p`, as `str::split` yields them.
pub open spec fn split_on(s: Seq<char>, p: Seq<char>) -> Seq<Seq<char>>
    decreases s.len(),
{
    if p.len() == 0 {
        seq![s]
    } else {
        match first_match(s, p) {
            Some(i) => if 0 <= i && i + p.len() <= s.len() {
                seq![s.take(i)] + split_on(s.skip(i + p.len()), p)
            } else {
                seq![s]
            },
            None => seq![s],
        }
    }
}

/// `str::splitn(n, p)`: at most `n` pieces, the last holding the rest.
pub open spec fn splitn(s: Seq<char>, n: nat, p: Seq<char>) -> Seq<Seq<char>>
    decreases n,
{
    if n == 0 {
        seq![]
    } else if n == 1 || p.len() == 0 {
        seq![s]
    } else {
        match first_match(s, p) {
            Some(i) => if 0 <= i && i + p.len() <= s.len() {
                seq![s.take(i)] + splitn(s.skip(i + p.len()), (n - 1) as nat, p)
            } else {
                seq![s]
            },
            None => seq![s],
        }
    }
}

/// `str::split_once(p)`: the text before and after the first occurrence.
pub open spec fn split_once(s: Seq<char>, p: Seq<char>) -> Option<(Seq<char>, Seq<char>)> {
    match first_match(s, p) {
        Some(i) => Some((s.take(i), s.skip(i + p.len()))),
        None => None,
    }
}

/// Drop one trailing `'\r'`.
pub open spec fn strip_cr(s: Seq<char>) -> Seq<char> {
    if s.len() > 0 && s.last() == '\r' {
        s.drop_last()
    } else {
        s
    }
}

/// `str::lines`: split at `'\n'`, a `'\r'` before it is dropped, and a final
/// newline does not start an empty last line.
pub open spec fn lines(s: Seq<char>) -> Seq<Seq<char>>
    decreases s.len(),
{
    if s.len() == 0 {
        seq![]
    } else {
        match first_match(s, seq!['\n']) {
            Some(i) => if 0 <= i && i < s.len() {
                seq![strip_cr(s.take(i))] + lines(s.skip(i + 1))
            } else {
                seq![s]
            },
            None => seq![s],
        }
    }
}

/// How many whitespace characters `s` starts with.
pub open spec fn lead_ws(s: Seq<char>) -> nat
    decreases s.len(),
{
    if s.len() > 0 && is_ws(s[0]) {
        1 + lead_ws(s.drop_first())
    } else {
        0
    }
}

/// How many whitespace characters `s` ends with.
pub open spec fn trail_ws(s: Seq<char>) -> nat
    decreases s.len(),
{
    if s.len() > 0 && is_ws(s.last()) {
        1 + trail_ws(s.drop_last())
    } else {
        0
    }
}

/// `str::trim_start`.
pub open spec fn trim_start(s: Seq<char>) -> Seq<char> {
    s.skip(lead_ws(s) as int)
}

/// `str::trim`: both ends stripped of whitespace.
pub open spec fn trim(s: Seq<char>) -> Seq<char> {
    let t = trim_start(s);
    t.take(t.len() - trail_ws(t))
}

/// How many non-whitespace characters `s` starts with.
pub open spec fn word_len(s: Seq<char>) -> nat
    decreases s.len(),
{
    if s.len() > 0 && !is_ws(s[0]) {
        1 + word_len(s.drop_first())
    } else {
        0
    }
}

/// `str::split_whitespace`: the maximal runs of non-whitespace characters.
pub open spec fn words(s: Seq<char>) -> Seq<Seq<char>>
    decreases s.len(),
{
    let t = trim_start(s);
    if t.len() == 0 || t.len() > s.len() {
        seq![]
    } else {
        let n = word_len(t);
        if n == 0 || n > t.len() {
            seq![]
        } else {
            seq![t.take(n as int)] + words(t.skip(n as int))
        }
    }
}

/// The views of a sequence of character vectors.
pub open spec fn views(v: Seq<Vec<char>>) -> Seq<Seq<char>> {
    v.map_values(|x: Vec<char>| x@)
}

/// The views of a sequence of strings.
pub open spec fn sviews(v: Seq<String>) -> Seq<Seq<char>> {
    v.map_values(|x: String| x@)
}

// ───────────────────────────── lemmas ─────────────────────────────

/// `first_match` is the least position where `p` occurs.
pub proof fn lemma_first_match(s: Seq<char>, p: Seq<char>)
    ensures
        match first_match(s, p) {
            Some(i) => matches_at(s, p, i) && forall|j: int| 0 <= j < i ==> !matches_at(s, p, j),
            None => forall|j: int| !matches_at(s, p, j),
        },
    decreases s.len(),
{
    if s.len() < p.len() {
    } else if s.take(p.len() as int) == p {
        assert(s.subrange(0, p.len() as int) == s.take(p.len() as int));
    } else if s.len() == 0 {
        assert forall|j: int| !matches_at(s, p, j) by {
            if matches_at(s, p, j) {
                assert(j == 0);
                assert(s.subrange(0, p.len() as int) == s.take(p.len() as int));
            }
        }
    } else {
        let t = s.drop_first();
        lemma_first_match(t, p);
        assert(!matches_at(s, p, 0)) by {
            assert(s.subrange(0, p.len() as int) == s.take(p.len() as int));
        }
        assert forall|j: int| 0 < j implies #[trigger] matches_at(s, p, j) == matches_at(t, p, j - 1) by {
            if j + p.len() <= s.len() {
                assert(s.subrange(j, j + p.len()) == t.subrange(j - 1, j - 1 + p.len()));
            }
        }
        match first_match(t, p) {
            Some(i) => {
                assert(matches_at(s, p, i + 1));
                assert forall|j: int| 0 <= j < i + 1 implies !matches_at(s, p, j) by {
                    if j > 0 {
                        assert(!matches_at(t, p, j - 1));
                    }
                }
            },
            None => {
                assert forall|j: int| !matches_at(s, p, j) by {
                    if j > 0 {
                        assert(!matches_at(t, p, j - 1));
                    }
                }
            },
        }
    }
}

/// Any position of `p` and nothing earlier pins `first_match`.
pub proof fn lemma_first_match_is(s: Seq<char>, p: Seq<char>, i: int)
    requires
        matches_at(s, p, i),
        forall|j: int| 0 <= j < i ==> !matches_at(s, p, j),
    ensures
        first_match(s, p) == Some(i),
{
    lemma_first_match(s, p);
    match first_match(s, p) {
        Some(k) => {
            if k < i {
                assert(!matches_at(s, p, k));
            } else if k > i {
                assert(!matches_at(s, p, i));
            }
        },
        None => {},
    }
}

/// No occurrence pins `first_match` to `None`.
pub proof fn lemma_first_match_none(s: Seq<char>, p: Seq<char>)
    requires
        forall|j: int| 0 <= j ==> !matches_at(s, p, j),
    ensures
        first_match(s, p) is None,
{
    lemma_first_match(s, p);
    if let Some(k) = first_match(s, p) {
        assert(matches_at(s, p, k));
    }
}

// ───────────────────────────── executable ─────────────────────────────

/// `char::is_whitespace`.
pub fn char_is_ws(c: char) -> (b: bool)
    ensures
        b == is_ws(c),
{
    let u = c as u32;
    (0x9 <= u && u <= 0xd) || u == 0x20 || u == 0x85 || u == 0xa0 || u == 0x1680 || (0x2000 <= u
        && u <= 0x200a) || u == 0x2028 || u == 0x2029 || u == 0x202f || u == 0x205f || u == 0x3000
}

/// The characters of `s`, in order.
pub fn chars_of(s: &str) -> (v: Vec<char>)
    ensures
        v@ == s@,
{
    let mut v: Vec<char> = Vec::new();
    for c in it: s.chars()
        invariant
            v@ == it.seq().take(it.index() as int),
            it.seq() == s@,
    {
        v.push(c);
    }
    v
}

/// A `String` holding exactly `v`.
pub fn string_of(v: &[char]) -> (s: String)
    ensures
        s@ == v@,
{
    let mut s = String::new();
    let mut i: usize = 0;
    while i < v.len()
        invariant
            i <= v.len(),
            s@ == v@.take(i as int),
        decreases v.len() - i,
    {
        s.push(v[i]);
        proof {
            assert(v@.take(i + 1) == v@.take(i as int).push(v@[i as int]));
        }
        i += 1;
    }
    proof {
        assert(v@.take(v.len() as int) == v@);
    }
    s
}

/// A copy of `v[lo..hi]`.
pub fn slice_vec(v: &[char], lo: usize, hi: usize) -> (r: Vec<char>)
    requires
        lo <= hi <= v.len(),
    ensures
        r@ == v@.subrange(lo as int, hi as int),
{
    let mut r: Vec<char> = Vec::new();
    let mut i = lo;
    while i < hi
        invariant
            lo <= i <= hi <= v.len(),
            r@ == v@.subrange(lo as int, i as int),
        decreases hi - i,
    {
        r.push(v[i]);
        proof {
            assert(v@.subrange(lo as int, i + 1) == v@.subrange(lo as int, i as int).push(v@[i as int]));
        }
        i += 1;
    }
    r
}

/// Whether `p` occurs in `s` at position `i`.
pub fn match_at(s: &[char], p: &[char], i: usize) -> (b: bool)
    ensures
        b == matches_at(s@, p@, i as int),
{
    if i > s.len() || p.len() > s.len() - i {
        return false;
    }
    let mut k: usize = 0;
    while k < p.len()
        invariant
            k <= p.len(),
            i + p.len() <= s.len(),
            forall|j: int| 0 <= j < k ==> s@[i + j] == p@[j],
        decreases p.len() - k,
    {
        if s[i + k] != p[k] {
            proof {
                assert(s@.subrange(i as int, i + p.len())[k as int] != p@[k as int]);
            }
            return false;
        }
        k += 1;
    }
    proof {
        assert(s@.subrange(i as int, i + p.len()) =~= p@);
    }
    true
}

/// The first position at or after `from` where `p` occurs.
pub fn find_from(s: &[char], p: &[char], from: usize) -> (r: Option<usize>)
    requires
        from <= s.len(),
    ensures
        match first_match(s@.skip(from as int), p@) {
            Some(i) => r == Some((from + i) as usize),
            None => r is None,
        },
{
    let ghost t = s@.skip(from as int);
    let mut i = from;
    while p.len() <= s.len() - i
        invariant
            from <= i <= s.len(),
            t == s@.skip(from as int),
            forall|j: int| 0 <= j < i - from ==> !matches_at(t, p@, j),
        decreases s.len() - i,
    {
        if match_at(s, p, i) {
            proof {
                assert(s@.subrange(i as int, i + p.len()) == t.subrange(i - from, i - from + p.len()));
                lemma_first_match_is(t, p@, i - from);
            }
            return Some(i);
        }
        proof {
            if p.len() == 0 {
                assert(s@.subrange(i as int, i as int) =~= p@);
            }
            assert(!matches_at(t, p@, i - from)) by {
                if i + p.len() <= s.len() {
                    assert(s@.subrange(i as int, i + p.len()) == t.subrange(i - from, i - from + p.len()));
                }
            }
        }
        i += 1;
    }
    proof {
        assert forall|j: int| 0 <= j implies !matches_at(t, p@, j) by {
            if j >= i - from {
                assert(j + p.len() > t.len());
            }
        }
        lemma_first_match_none(t, p@);
    }
    None
}

/// Whether `s` begins with `p`.
pub fn has_prefix(s: &[char], p: &[char]) -> (b: bool)
    ensures
        b == starts_with(s@, p@),
{
    match_at(s, p, 0)
}

/// Whether `p` occurs in `s`.
pub fn has_infix(s: &[char], p: &[char]) -> (b: bool)
    ensures
        b == contains(s@, p@),
{
    let r = find_from(s, p, 0);
    proof {
        assert(s@.skip(0) == s@);
        lemma_first_match(s@, p@);
    }
    r.is_some()
}


proof fn lemma_views_push(r: Seq<Vec<char>>, x: Vec<char>)
    ensures
        views(r.push(x)) == views(r).push(x@),
{
    assert(views(r.push(x)) =~= views(r).push(x@));
}

/// `str::split(p)` for a non-empty pattern.
pub fn split_pieces(s: &[char], p: &[char]) -> (r: Vec<Vec<char>>)
    requires
        p.len() > 0,
    ensures
        views(r@) == split_on(s@, p@),
{
    let mut r: Vec<Vec<char>> = Vec::new();
    let mut start: usize = 0;
    proof {
        assert(s@.skip(0) == s@);
        assert(views(r@) + split_on(s@, p@) =~= split_on(s@, p@));
    }
    loop
        invariant
            p.len() > 0,
            start <= s.len(),
            views(r@) + split_on(s@.skip(start as int), p@) == split_on(s@, p@),
        decreases s.len() - start,
    {
        let ghost t = s@.skip(start as int);
        match find_from(s, p, start) {
            Some(i) => {
                proof {
                    lemma_first_match(t, p@);
                    assert(t.take(i - start) == s@.subrange(start as int, i as int));
                    assert(t.skip(i - start + p.len()) == s@.skip(i + p.len()));
                }
                let piece = slice_vec(s, start, i);
                proof {
                    lemma_views_push(r@, piece);
                    assert(views(r@.push(piece)) + split_on(s@.skip(i + p.len()), p@) =~= views(r@)
                        + split_on(t, p@));
                }
                r.push(piece);
                start = i + p.len();
            },
            None => {
                let piece = slice_vec(s, start, s.len());
                proof {
                    assert(t == s@.subrange(start as int, s.len() as int));
                    lemma_views_push(r@, piece);
                    assert(views(r@.push(piece)) =~= views(r@) + split_on(t, p@));
                }
                r.push(piece);
                return r;
            },
        }
    }
}

/// `str::splitn(n, p)` for a non-empty pattern.
pub fn splitn_pieces(s: &[char], n: usize, p: &[char]) -> (r: Vec<Vec<char>>)
    requires
        p.len() > 0,
    ensures
        views(r@) == splitn(s@, n as nat, p@),
{
    let mut r: Vec<Vec<char>> = Vec::new();
    let mut start: usize = 0;
    let mut left: usize = n;
    proof {
        assert(s@.skip(0) == s@);
        assert(views(r@) + splitn(s@, n as nat, p@) =~= splitn(s@, n as nat, p@));
    }
    loop
        invariant
            p.len() > 0,
            start <= s.len(),
            views(r@) + splitn(s@.skip(start as int), left as nat, p@) == splitn(s@, n as nat, p@),
        decreases left,
    {
        let ghost t = s@.skip(start as int);
        if left == 0 {
            proof {
                assert(views(r@) =~= views(r@) + splitn(t, 0, p@));
            }
            return r;
        }
        if left == 1 {
            let piece = slice_vec(s, start, s.len());
            proof {
                assert(t == s@.subrange(start as int, s.len() as int));
                lemma_views_push(r@, piece);
                assert(views(r@.push(piece)) =~= views(r@) + splitn(t, 1, p@));
            }
            r.push(piece);
            return r;
        }
        match find_from(s, p, start) {
            Some(i) => {
                proof {
                    lemma_first_match(t, p@);
                    assert(t.take(i - start) == s@.subrange(start as int, i as int));
                    assert(t.skip(i - start + p.len()) == s@.skip(i + p.len()));
                }
                let piece = slice_vec(s, start, i);
                proof {
                    lemma_views_push(r@, piece);
                    assert(views(r@.push(piece)) + splitn(s@.skip(i + p.len()), (left - 1) as nat, p@)
                        =~= views(r@) + splitn(t, left as nat, p@));
                }
                r.push(piece);
                start = i + p.len();
                left = left - 1;
            },
            None => {
                let piece = slice_vec(s, start, s.len());
                proof {
                    assert(t == s@.subrange(start as int, s.len() as int));
                    lemma_views_push(r@, piece);
                    assert(views(r@.push(piece)) =~= views(r@) + splitn(t, left as nat, p@));
                }
                r.push(piece);
                return r;
            },
        }
    }
}

/// `str::split_once(p)`.
pub fn split_once_at(s: &[char], p: &[char]) -> (r: Option<(Vec<char>, Vec<char>)>)
    ensures
        match split_once(s@, p@) {
            Some((a, b)) => r is Some && r.unwrap().0@ == a && r.unwrap().1@ == b,
            None => r is None,
        },
{
    proof {
        assert(s@.skip(0) == s@);
        lemma_first_match(s@, p@);
    }
    match find_from(s, p, 0) {
        Some(i) => {
            let a = slice_vec(s, 0, i);
            let b = slice_vec(s, i + p.len(), s.len());
            proof {
                assert(a@ == s@.take(i as int));
                assert(b@ == s@.skip(i + p.len()));
            }
            Some((a, b))
        },
        None => None,
    }
}

/// `str::lines`.
pub fn split_lines(s: &[char]) -> (r: Vec<Vec<char>>)
    ensures
        views(r@) == lines(s@),
{
    let mut r: Vec<Vec<char>> = Vec::new();
    let mut start: usize = 0;
    let nl = ['\n'];
    proof {
        assert(nl@ == seq!['\n']);
        assert(s@.skip(0) == s@);
        assert(views(r@) + lines(s@) =~= lines(s@));
    }
    while start < s.len()
        invariant
            start <= s.len(),
            nl@ == seq!['\n'],
            views(r@) + lines(s@.skip(start as int)) == lines(s@),
        decreases s.len() - start,
    {
        let ghost t = s@.skip(start as int);
        match find_from(s, &nl, start) {
            Some(i) => {
                proof {
                    lemma_first_match(t, nl@);
                    assert(t.take(i - start) == s@.subrange(start as int, i as int));
                    assert(t.skip(i - start + 1) == s@.skip(i + 1));
                }
                let mut hi = i;
                if hi > start && s[hi - 1] == '\r' {
                    hi = hi - 1;
                }
                let piece = slice_vec(s, start, hi);
                proof {
                    assert(piece@ == strip_cr(t.take(i - start)));
                    lemma_views_push(r@, piece);
                    assert(views(r@.push(piece)) + lines(s@.skip(i + 1)) =~= views(r@) + lines(t));
                }
                r.push(piece);
                start = i + 1;
            },
            None => {
                let piece = slice_vec(s, start, s.len());
                proof {
                    assert(t == s@.subrange(start as int, s.len() as int));
                    lemma_views_push(r@, piece);
                    assert(views(r@.push(piece)) =~= views(r@) + lines(t));
                    assert(s@.skip(s.len() as int) =~= Seq::<char>::empty());
                }
                r.push(piece);
                start = s.len();
            },
        }
    }
    proof {
        assert(s@.skip(start as int) =~= Seq::<char>::empty());
        assert(views(r@) =~= views(r@) + lines(s@.skip(start as int)));
    }
    r
}

proof fn lemma_lead_ws_step(s: Seq<char>, k: int)
    requires
        0 <= k < s.len(),
    ensures
        lead_ws(s.skip(k)) == if is_ws(s[k]) { 1 + lead_ws(s.skip(k + 1)) } else { 0 },
        word_len(s.skip(k)) == if !is_ws(s[k]) { 1 + word_len(s.skip(k + 1)) } else { 0 },
{
    assert(s.skip(k).drop_first() == s.skip(k + 1));
}

/// The end of the whitespace run that starts at `from`.
fn skip_ws(s: &[char], from: usize) -> (j: usize)
    requires
        from <= s.len(),
    ensures
        from <= j <= s.len(),
        j == from + lead_ws(s@.skip(from as int)),
        j < s.len() ==> !is_ws(s@[j as int]),
{
    let mut j = from;
    while j < s.len() && char_is_ws(s[j])
        invariant
            from <= j <= s.len(),
            lead_ws(s@.skip(from as int)) == (j - from) + lead_ws(s@.skip(j as int)),
        decreases s.len() - j,
    {
        proof {
            lemma_lead_ws_step(s@, j as int);
        }
        j += 1;
    }
    proof {
        if j < s.len() {
            lemma_lead_ws_step(s@, j as int);
        } else {
            assert(s@.skip(j as int).len() == 0);
        }
    }
    j
}

/// The end of the non-whitespace run that starts at `from`.
fn skip_word(s: &[char], from: usize) -> (j: usize)
    requires
        from <= s.len(),
    ensures
        from <= j <= s.len(),
        j == from + word_len(s@.skip(from as int)),
        j < s.len() ==> is_ws(s@[j as int]),
{
    let mut j = from;
    while j < s.len() && !char_is_ws(s[j])
        invariant
            from <= j <= s.len(),
            word_len(s@.skip(from as int)) == (j - from) + word_len(s@.skip(j as int)),
        decreases s.len() - j,
    {
        proof {
            lemma_lead_ws_step(s@, j as int);
        }
        j += 1;
    }
    proof {
        if j < s.len() {
            lemma_lead_ws_step(s@, j as int);
        } else {
            assert(s@.skip(j as int).len() == 0);
        }
    }
    j
}

/// `str::split_whitespace`.
pub fn split_words(s: &[char]) -> (r: Vec<Vec<char>>)
    ensures
        views(r@) == words(s@),
{
    let mut r: Vec<Vec<char>> = Vec::new();
    let mut pos: usize = 0;
    proof {
        assert(s@.skip(0) == s@);
        assert(views(r@) + words(s@) =~= words(s@));
    }
    loop
        invariant
            pos <= s.len(),
            views(r@) + words(s@.skip(pos as int)) == words(s@),
        decreases s.len() - pos,
    {
        let ghost u = s@.skip(pos as int);
        let a = skip_ws(s, pos);
        proof {
            assert(trim_start(u) == s@.skip(a as int));
        }
        if a == s.len() {
            proof {
                assert(views(r@) =~= views(r@) + words(u));
            }
            return r;
        }
        let b = skip_word(s, a);
        proof {
            lemma_lead_ws_step(s@, a as int);
            assert(s@.skip(a as int).take(b - a) == s@.subrange(a as int, b as int));
            assert(s@.skip(a as int).skip(b - a) == s@.skip(b as int));
        }
        let w = slice_vec(s, a, b);
        proof {
            lemma_views_push(r@, w);
            assert(views(r@.push(w)) + words(s@.skip(b as int)) =~= views(r@) + words(u));
        }
        r.push(w);
        pos = b;
    }
}

proof fn lemma_trail_ws_step(s: Seq<char>, a: int, e: int)
    requires
        0 <= a < e <= s.len(),
    ensures
        trail_ws(s.subrange(a, e)) == if is_ws(s[e - 1]) { 1 + trail_ws(s.subrange(a, e - 1)) } else { 0 },
{
    assert(s.subrange(a, e).drop_last() == s.subrange(a, e - 1));
}

/// `str::trim`.
pub fn trim_chars(s: &[char]) -> (r: Vec<char>)
    ensures
        r@ == trim(s@),
{
    let a = skip_ws(s, 0);
    let mut e = s.len();
    proof {
        assert(s@.skip(0) == s@);
        assert(s@.skip(a as int) == s@.subrange(a as int, s.len() as int));
    }
    while e > a && char_is_ws(s[e - 1])
        invariant
            a <= e <= s.len(),
            a == lead_ws(s@),
            trail_ws(s@.skip(a as int)) == (s.len() - e) + trail_ws(s@.subrange(a as int, e as int)),
        decreases e,
    {
        proof {
            lemma_trail_ws_step(s@, a as int, e as int);
        }
        e -= 1;
    }
    proof {
        if e > a {
            lemma_trail_ws_step(s@, a as int, e as int);
        } else {
            assert(s@.subrange(a as int, e as int).len() == 0);
        }
        assert(trim_start(s@).take(e - a) =~= s@.subrange(a as int, e as int));
    }
    slice_vec(s, a, e)
}

// ───────────────────────────── numbers ─────────────────────────────

/// An ASCII decimal digit.
pub open spec fn is_digit(c: char) -> bool {
    48 <= (c as u32) && (c as u32) <= 57
}

/// Every character of `s` is a decimal digit.
pub open spec fn all_digits(s: Seq<char>) -> bool {
    forall|i: int| 0 <= i < s.len() ==> is_digit(#[trigger] s[i])
}

/// The number a run of decimal digits spells.
pub open spec fn digits_value(s: Seq<char>) -> nat
    decreases s.len(),
{
    if s.len() == 0 {
        0
    } else {
        digits_value(s.drop_last()) * 10 + ((s.last() as u32) - 48) as nat
    }
}

/// `s` without one leading `'+'`.
pub open spec fn unsigned_body(s: Seq<char>) -> Seq<char> {
    if s.len() > 0 && s[0] == '+' {
        s.drop_first()
    } else {
        s
    }
}

/// `u64::from_str`: an optional `'+'`, then one or more digits, in range.
pub open spec fn parse_u64_spec(s: Seq<char>) -> Option<u64> {
    let d = unsigned_body(s);
    if d.len() > 0 && all_digits(d) && digits_value(d) <= u64::MAX {
        Some(digits_value(d) as u64)
    } else {
        None
    }
}

/// `i64::from_str`: an optional sign, then one or more digits, in range.
pub open spec fn parse_i64_spec(s: Seq<char>) -> Option<i64> {
    if s.len() > 0 && s[0] == '-' {
        let d = s.drop_first();
        if d.len() > 0 && all_digits(d) && digits_value(d) <= 0x8000_0000_0000_0000 {
            Some((0 - digits_value(d)) as i64)
        } else {
            None
        }
    } else {
        let d = unsigned_body(s);
        if d.len() > 0 && all_digits(d) && digits_value(d) <= i64::MAX {
            Some(digits_value(d) as i64)
        } else {
            None
        }
    }
}

/// The decimal digits of `n`, most significant first, without leading zeros.
pub open spec fn decimal(n: nat) -> Seq<char>
    decreases n,
{
    if n < 10 {
        seq![(n + 48) as char]
    } else {
        decimal(n / 10).push(((n % 10) + 48) as char)
    }
}

/// The decimal text of a signed number.
pub open spec fn decimal_int(n: int) -> Seq<char> {
    if n < 0 {
        seq!['-'] + decimal((0 - n) as nat)
    } else {
        decimal(n as nat)
    }
}

/// Digits `s[from..to]` as a number, or `None` past `limit`.
fn digits_upto(s: &[char], from: usize, limit: u64) -> (r: Option<u64>)
    requires
        from <= s.len(),
        limit >= 9,
    ensures
        ({
            let d = s@.skip(from as int);
            match r {
                Some(v) => d.len() > 0 && all_digits(d) && v == digits_value(d) && v <= limit,
                None => !(d.len() > 0 && all_digits(d) && digits_value(d) <= limit),
            }
        }),
{
    let ghost d = s@.skip(from as int);
    if from == s.len() {
        return None;
    }
    let mut v: u64 = 0;
    let mut i = from;
    while i < s.len()
        invariant
            from <= i <= s.len(),
            d == s@.skip(from as int),
            all_digits(s@.subrange(from as int, i as int)),
            v == digits_value(s@.subrange(from as int, i as int)),
            v <= limit,
            limit >= 9,
        decreases s.len() - i,
    {
        let c = s[i];
        proof {
            assert(s@.subrange(from as int, i + 1).drop_last() == s@.subrange(from as int, i as int));
            assert(s@.subrange(from as int, i + 1).last() == c);
        }
        let cu = c as u32;
        if !(48 <= cu && cu <= 57) {
            proof {
                assert(d[i - from] == c);
            }
            return None;
        }
        let dv = (cu - 48) as u64;
        assert(dv <= 9);
        if v > (limit - dv) / 10 {
            proof {
                assert(v * 10 + dv > limit) by (nonlinear_arith)
                    requires v > (limit - dv) / 10, dv <= limit;
                assert(d.take(i - from + 1) == s@.subrange(from as int, i + 1));
                assert(d.take(d.len() as int) == d);
                if all_digits(d) {
                    lemma_digits_value_prefix_grows(d, i - from + 1, s.len() - from);
                }
            }
            return None;
        }
        proof {
            assert(v * 10 + dv <= limit) by (nonlinear_arith)
                requires v <= (limit - dv) / 10, dv <= limit;
        }
        v = v * 10 + dv;
        i += 1;
        proof {
            assert(all_digits(s@.subrange(from as int, i as int))) by {
                assert forall|k: int| 0 <= k < i - from implies is_digit(
                    #[trigger] s@.subrange(from as int, i as int)[k],
                ) by {
                    if k < i - 1 - from {
                        assert(s@.subrange(from as int, i - 1)[k] == s@.subrange(from as int, i as int)[k]);
                    }
                }
            }
        }
    }
    proof {
        assert(s@.subrange(from as int, i as int) == d);
    }
    Some(v)
}

pub proof fn lemma_digits_value_prefix_grows(d: Seq<char>, a: int, b: int)
    requires
        0 <= a <= b <= d.len(),
        all_digits(d.take(b)),
    ensures
        digits_value(d.take(a)) <= digits_value(d.take(b)),
    decreases b - a,
{
    if a < b {
        lemma_digits_value_prefix_grows(d, a, b - 1);
        assert(d.take(b).drop_last() == d.take(b - 1));
        assert(all_digits(d.take(b - 1))) by {
            assert forall|k: int| 0 <= k < b - 1 implies is_digit(#[trigger] d.take(b - 1)[k]) by {
                assert(d.take(b)[k] == d.take(b - 1)[k]);
            }
        }
        assert(is_digit(d.take(b)[b - 1]));
    }
}

/// `u64::from_str`.
pub fn parse_u64(s: &[char]) -> (r: Option<u64>)
    ensures
        r == parse_u64_spec(s@),
{
    let from: usize = if s.len() > 0 && s[0] == '+' { 1 } else { 0 };
    proof {
        assert(unsigned_body(s@) == s@.skip(from as int));
    }
    digits_upto(s, from, u64::MAX)
}

/// `i64::from_str`.
pub fn parse_i64(s: &[char]) -> (r: Option<i64>)
    ensures
        r == parse_i64_spec(s@),
{
    if s.len() > 0 && s[0] == '-' {
        proof {
            assert(s@.drop_first() == s@.skip(1));
        }
        match digits_upto(s, 1, 0x8000_0000_0000_0000) {
            Some(v) => {
                if v == 0x8000_0000_0000_0000 {
                    Some(i64::MIN)
                } else {
                    Some(-(v as i64))
                }
            },
            None => None,
        }
    } else {
        let from: usize = if s.len() > 0 && s[0] == '+' { 1 } else { 0 };
        proof {
            assert(unsigned_body(s@) == s@.skip(from as int));
        }
        match digits_upto(s, from, i64::MAX as u64) {
            Some(v) => Some(v as i64),
            None => None,
        }
    }
}

/// The decimal digits of `n`.
pub fn decimal_u64(n: u64) -> (r: Vec<char>)
    ensures
        r@ == decimal(n as nat),
    decreases n,
{
    if n < 10 {
        let mut r = Vec::new();
        r.push(((n as u32) + 48) as u8 as char);
        proof {
            assert(r@ =~= decimal(n as nat));
        }
        r
    } else {
        let mut r = decimal_u64(n / 10);
        r.push((((n % 10) as u32) + 48) as u8 as char);
        r
    }
}

/// The decimal text of `n`, with a leading `'-'` when negative.
pub fn decimal_i64(n: i64) -> (r: Vec<char>)
    ensures
        r@ == decimal_int(n as int),
{
    if n < 0 {
        let m: u64 = if n == i64::MIN { 0x8000_0000_0000_0000 } else { (-n) as u64 };
        let d = decimal_u64(m);
        let mut r = Vec::new();
        r.push('-');
        let mut i: usize = 0;
        while i < d.len()
            invariant
                i <= d.len(),
                r@ == seq!['-'] + d@.take(i as int),
            decreases d.len() - i,
        {
            r.push(d[i]);
            proof {
                assert(d@.take(i + 1) == d@.take(i as int).push(d@[i as int]));
                assert(seq!['-'] + d@.take(i + 1) =~= (seq!['-'] + d@.take(i as int)).push(d@[i as int]));
            }
            i += 1;
        }
        proof {
            assert(d@.take(d.len() as int) == d@);
        }
        r
    } else {
        decimal_u64(n as u64)
    }
}

/// Ten to the power `n`.
pub open spec fn pow10(n: nat) -> nat
    decreases n,
{
    if n == 0 {
        1
    } else {
        10 * pow10((n - 1) as nat)
    }
}

/// A run of `n` digits spells a number below ten to the `n`.
pub proof fn lemma_digits_value_bound(d: Seq<char>)
    requires
        all_digits(d),
    ensures
        digits_value(d) < pow10(d.len()),
    decreases d.len(),
{
    if d.len() > 0 {
        let t = d.drop_last();
        assert(all_digits(t)) by {
            assert forall|k: int| 0 <= k < t.len() implies is_digit(#[trigger] t[k]) by {
                assert(t[k] == d[k]);
            }
        }
        lemma_digits_value_bound(t);
        assert(is_digit(d[d.len() - 1]));
    }
}

/// Whether `a` holds exactly the characters of `b`.
pub fn same_text(a: &[char], b: &str) -> (r: bool)
    ensures
        r == (a@ == b@),
{
    let y = chars_of(b);
    if a.len() != y.len() {
        return false;
    }
    let mut i: usize = 0;
    while i < a.len()
        invariant
            i <= a.len() == y.len(),
            y@ == b@,
            a@.take(i as int) == y@.take(i as int),
        decreases a.len() - i,
    {
        if a[i] != y[i] {
            proof {
                assert(a@[i as int] != b@[i as int]);
            }
            return false;
        }
        proof {
            assert(a@.take(i + 1) == a@.take(i as int).push(a@[i as int]));
            assert(y@.take(i + 1) == y@.take(i as int).push(y@[i as int]));
        }
        i += 1;
    }
    proof {
        assert(a@.take(a.len() as int) == a@);
        assert(y@.take(y.len() as int) == y@);
    }
    true
}

/// `s` up to (not including) its first character that is one of `stops`,
/// as `s.split(stops).next()` gives it.
pub open spec fn cut_at(s: Seq<char>, stops: Seq<char>) -> Seq<char>
    decreases s.len(),
{
    if s.len() == 0 || stops.contains(s[0]) {
        Seq::empty()
    } else {
        seq![s[0]] + cut_at(s.drop_first(), stops)
    }
}

/// `s` without every leading `c`, as `trim_start_matches(c)` leaves it.
pub open spec fn strip_leading(s: Seq<char>, c: char) -> Seq<char>
    decreases s.len(),
{
    if s.len() > 0 && s[0] == c {
        strip_leading(s.drop_first(), c)
    } else {
        s
    }
}

/// The text before the first character of `s` that is one of `stops`.
pub fn cut_at_any(s: &[char], stops: &[char]) -> (r: Vec<char>)
    ensures
        r@ == cut_at(s@, stops@),
{
    let mut i: usize = 0;
    proof {
        assert(s@.skip(0) == s@);
    }
    while i < s.len()
        invariant
            i <= s.len(),
            cut_at(s@, stops@) == s@.take(i as int) + cut_at(s@.skip(i as int), stops@),
        decreases s.len() - i,
    {
        let c = s[i];
        let mut hit = false;
        let mut k: usize = 0;
        while k < stops.len()
            invariant
                k <= stops.len(),
                hit == stops@.take(k as int).contains(c),
            decreases stops.len() - k,
        {
            proof {
                assert(stops@.take(k + 1) == stops@.take(k as int).push(stops@[k as int]));
                if stops@.take(k as int).contains(c) {
                    let j = choose|j: int| 0 <= j < k && stops@.take(k as int)[j] == c;
                    assert(stops@.take(k + 1)[j] == c);
                }
            }
            if stops[k] == c {
                hit = true;
                proof {
                    assert(stops@.take(k + 1)[k as int] == c);
                }
            }
            k += 1;
        }
        proof {
            assert(stops@.take(stops.len() as int) == stops@);
            assert(s@.skip(i as int)[0] == c);
        }
        if hit {
            proof {
                assert(cut_at(s@.skip(i as int), stops@) == Seq::<char>::empty());
                assert(s@.take(i as int) + Seq::<char>::empty() == s@.take(i as int));
            }
            return slice_vec(s, 0, i);
        }
        proof {
            assert(s@.skip(i as int).drop_first() == s@.skip(i + 1));
            assert(s@.take(i + 1) == s@.take(i as int).push(c));
            assert(s@.take(i as int) + (seq![c] + cut_at(s@.skip(i + 1), stops@)) =~= s@.take(i + 1) + cut_at(
                s@.skip(i + 1),
                stops@,
            ));
        }
        i += 1;
    }
    proof {
        assert(s@.skip(i as int).len() == 0);
        assert(s@.take(i as int) == s@);
        assert(s@ + Seq::<char>::empty() == s@);
    }
    slice_vec(s, 0, s.len())
}

/// `s` without its leading `c`s.
pub fn strip_leading_chars(s: &[char], c: char) -> (r: Vec<char>)
    ensures
        r@ == strip_leading(s@, c),
{
    let mut i: usize = 0;
    proof {
        assert(s@.skip(0) == s@);
    }
    while i < s.len() && s[i] == c
        invariant
            i <= s.len(),
            strip_leading(s@, c) == strip_leading(s@.skip(i as int), c),
        decreases s.len() - i,
    {
        proof {
            assert(s@.skip(i as int).drop_first() == s@.skip(i + 1));
        }
        i += 1;
    }
    slice_vec(s, i, s.len())
}

/// `str::split` yields at least one piece.
pub proof fn lemma_split_on_nonempty(s: Seq<char>, p: Seq<char>)
    ensures
        split_on(s, p).len() >= 1,
{
}

/// The first match of a one-character pattern is the first position that
/// holds the character; there is none when no position does.
pub proof fn lemma_first_match_char(s: Seq<char>, c: char)
    ensures
        match first_match(s, seq![c]) {
            Some(i) => 0 <= i < s.len() && s[i] == c && forall|j: int| 0 <= j < i ==> s[j] != c,
            None => forall|j: int| 0 <= j < s.len() ==> s[j] != c,
        },
    decreases s.len(),
{
    if s.len() < 1 {
    } else if s.take(1) == seq![c] {
        assert(s[0] == s.take(1)[0]);
    } else {
        assert(s[0] != c) by {
            if s[0] == c {
                assert(s.take(1) =~= seq![c]);
            }
        }
        let t = s.drop_first();
        lemma_first_match_char(t, c);
        match first_match(t, seq![c]) {
            Some(i) => {
                assert(s[i + 1] == t[i]);
                assert forall|j: int| 0 <= j < i + 1 implies s[j] != c by {
                    if j > 0 {
                        assert(s[j] == t[j - 1]);
                    }
                }
            },
            None => {
                assert forall|j: int| 0 <= j < s.len() implies s[j] != c by {
                    if j > 0 {
                        assert(s[j] == t[j - 1]);
                    }
                }
            },
        }
    }
}

/// No piece of a split at one character holds that character.
pub proof fn lemma_split_char_pieces(s: Seq<char>, c: char)
    ensures
        forall|k: int, j: int|
            0 <= k < split_on(s, seq![c]).len() && 0 <= j < split_on(s, seq![c])[k].len() ==> #[trigger] split_on(
                s,
                seq![c],
            )[k][j] != c,
    decreases s.len(),
{
    let p = seq![c];
    lemma_first_match_char(s, c);
    match first_match(s, p) {
        Some(i) => {
            let rest = s.skip(i + 1);
            lemma_split_char_pieces(rest, c);
            let ps = split_on(s, p);
            assert(ps == seq![s.take(i)] + split_on(rest, p));
            assert forall|k: int, j: int| 0 <= k < ps.len() && 0 <= j < ps[k].len() implies #[trigger] ps[k][j]
                != c by {
                if k == 0 {
                    assert(ps[0] == s.take(i));
                    assert(ps[0][j] == s[j]);
                } else {
                    assert(ps[k] == split_on(rest, p)[k - 1]);
                }
            }
        },
        None => {
            assert(split_on(s, p) == seq![s]);
        },
    }
}

/// Splitting `a`, `c`, `b` at `c` gives the pieces of `a`, then those of
/// `b`.
pub proof fn lemma_split_char_concat(a: Seq<char>, b: Seq<char>, c: char)
    ensures
        split_on(a + seq![c] + b, seq![c]) == split_on(a, seq![c]) + split_on(b, seq![c]),
    decreases a.len(),
{
    let p = seq![c];
    let s = a + p + b;
    lemma_first_match_char(a, c);
    lemma_first_match_char(s, c);
    match first_match(a, p) {
        Some(i) => {
            assert(s[i] == a[i]);
            match first_match(s, p) {
                Some(k) => {
                    if k < i {
                        assert(s[k] == a[k]);
                    }
                    assert(k == i);
                },
                None => {},
            }
            assert(s.take(i) =~= a.take(i));
            assert(s.skip(i + 1) =~= a.skip(i + 1) + p + b);
            lemma_split_char_concat(a.skip(i + 1), b, c);
            assert(split_on(s, p) == seq![a.take(i)] + split_on(a.skip(i + 1) + p + b, p));
            assert(split_on(a, p) == seq![a.take(i)] + split_on(a.skip(i + 1), p));
            assert(split_on(s, p) =~= split_on(a, p) + split_on(b, p));
        },
        None => {
            let n = a.len() as int;
            assert(s[n] == c);
            match first_match(s, p) {
                Some(k) => {
                    if k < n {
                        assert(s[k] == a[k]);
                    }
                    assert(k == n);
                },
                None => {},
            }
            assert(s.take(n) =~= a);
            assert(s.skip(n + 1) =~= b);
            assert(split_on(a, p) == seq![a]);
            assert(split_on(s, p) =~= split_on(a, p) + split_on(b, p));
        },
    }
}

/// Two pieces free of `c`, joined by `c`, split back into the two.
pub proof fn lemma_split_char_two(a: Seq<char>, b: Seq<char>, c: char)
    requires
        forall|j: int| 0 <= j < a.len() ==> a[j] != c,
        forall|j: int| 0 <= j < b.len() ==> b[j] != c,
    ensures
        split_on(a + seq![c] + b, seq![c]) == seq![a, b],
{
    let p = seq![c];
    let s = a + p + b;
    let n = a.len() as int;
    assert(s[n] == c);
    lemma_first_match_char(s, c);
    lemma_first_match_char(b, c);
    match first_match(b, p) {
        Some(i) => {
            assert(b[i] == c);
        },
        None => {},
    }
    assert(split_on(b, p) == seq![b]);
    match first_match(s, p) {
        Some(i) => {
            if i < n {
                assert(s[i] == a[i]);
            }
            assert(i == n);
            assert(s.take(i) =~= a);
            assert(s.skip(i + 1) =~= b);
            assert(split_on(s, p) == seq![a] + seq![b]);
            assert(seq![a] + seq![b] =~= seq![a, b]);
        },
        None => {},
    }
}

/// How many bytes `c` takes in UTF-8.
pub open spec fn char_utf8_len(c: char) -> nat {
    let u = c as u32;
    if u < 0x80 {
        1
    } else if u < 0x800 {
        2
    } else if u < 0x10000 {
        3
    } else {
        4
    }
}

/// How many bytes `s` takes in UTF-8, the length `String::len` reports.
pub open spec fn utf8_len(s: Seq<char>) -> nat
    decreases s.len(),
{
    if s.len() == 0 {
        0
    } else {
        utf8_len(s.drop_last()) + char_utf8_len(s.last())
    }
}

proof fn lemma_utf8_len_prefix(s: Seq<char>, i: int, j: int)
    requires
        0 <= i <= j <= s.len(),
    ensures
        utf8_len(s.take(i)) <= utf8_len(s.take(j)),
    decreases j - i,
{
    if i < j {
        lemma_utf8_len_prefix(s, i, j - 1);
        assert(s.take(j).drop_last() == s.take(j - 1));
    }
}

/// Whether `s` takes fewer than `limit` bytes in UTF-8.
pub fn utf8_shorter(s: &[char], limit: u64) -> (r: bool)
    ensures
        r == (utf8_len(s@) < limit),
{
    if limit == 0 {
        return false;
    }
    let mut n: u64 = 0;
    let mut i: usize = 0;
    while i < s.len()
        invariant
            i <= s.len(),
            n == utf8_len(s@.take(i as int)),
            n < limit,
        decreases s.len() - i,
    {
        let u = s[i] as u32;
        let w: u64 = if u < 0x80 { 1 } else if u < 0x800 { 2 } else if u < 0x10000 { 3 } else { 4 };
        proof {
            assert(s@.take(i + 1).drop_last() == s@.take(i as int));
            assert(s@.take(i + 1).last() == s@[i as int]);
        }
        if w >= limit - n {
            proof {
                lemma_utf8_len_prefix(s@, i + 1, s@.len() as int);
                assert(s@.take(s@.len() as int) == s@);
            }
            return false;
        }
        n = n + w;
        i += 1;
    }
    proof {
        assert(s@.take(s@.len() as int) == s@);
    }
    limit > 0 && n < limit
}

} // verus!
