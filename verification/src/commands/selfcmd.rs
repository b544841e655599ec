//! `whypkg self`: managing the installed binary itself.
//!
//! `self update` reinstalls through `cargo install whypkg --force`; `self
//! check` asks the registry for the latest release through `cargo search`.
//! The commands run outside this library; here are the decisions: what to
//! do for a subcommand, what a search printed, and whether a release is
//! newer than another.

use vstd::prelude::*;
use vstd::string::*;
use crate::text::{
    lines, trim, cut_at, starts_with, parse_u64_spec, chars_of, string_of, slice_vec, cut_at_any,
    split_lines, trim_chars, has_prefix, parse_u64, same_text,
};

verus! {

/// What `self` can do.
pub enum Cmd {
    /// Reinstall the latest release from crates.io.
    Update(UpdateArgs),
    /// Ask crates.io whether a newer release exists, installing nothing.
    Check,
}

/// Options of `self update`.
pub struct UpdateArgs {
    /// Skip the confirmation prompt.
    pub yes: bool,
}

/// The first step of a `self` subcommand.
#[derive(PartialEq, Eq, Debug, Structural)]
pub enum SelfStep {
    /// Ask the user before reinstalling.
    Confirm,
    /// Reinstall right away.
    Install,
    /// Look for a newer release.
    Check,
}

/// What to do first for `cmd`: an update asks for confirmation unless
/// `--yes` was given.
pub fn run(cmd: Cmd) -> (s: SelfStep)
    ensures
        s == match cmd {
            Cmd::Update(args) => if args.yes {
                SelfStep::Install
            } else {
                SelfStep::Confirm
            },
            Cmd::Check => SelfStep::Check,
        },
{
    match cmd {
        Cmd::Update(args) => if args.yes {
            SelfStep::Install
        } else {
            SelfStep::Confirm
        },
        Cmd::Check => SelfStep::Check,
    }
}

/// An answer to the prompt that says yes: "y" or "yes" in any case, around
/// blanks. Anything else, a bare Enter included, says no.
pub open spec fn says_yes(answer: Seq<char>) -> bool {
    let t = trim(answer);
    ||| (t.len() == 1 && (t[0] == 'y' || t[0] == 'Y'))
    ||| (t.len() == 3 && (t[0] == 'y' || t[0] == 'Y') && (t[1] == 'e' || t[1] == 'E') && (t[2] == 's'
        || t[2] == 'S'))
}

/// Whether the answer to the prompt is a yes.
pub fn accepts(answer: &str) -> (b: bool)
    ensures
        b == says_yes(answer@),
{
    let t = trim_chars(&chars_of(answer));
    if t.len() == 1 {
        t[0] == 'y' || t[0] == 'Y'
    } else if t.len() == 3 {
        (t[0] == 'y' || t[0] == 'Y') && (t[1] == 'e' || t[1] == 'E') && (t[2] == 's' || t[2] == 'S')
    } else {
        false
    }
}

// ───────────────────────────── versions ─────────────────────────────

/// `s.split(stops)`: the pieces between characters that are `stops`.
pub open spec fn split_any(s: Seq<char>, stops: Seq<char>) -> Seq<Seq<char>>
    decreases s.len(),
{
    let h = cut_at(s, stops);
    if h.len() < s.len() {
        seq![h] + split_any(s.skip(h.len() + 1 as int), stops)
    } else {
        seq![s]
    }
}

/// The numbers of a dotted version: its `.`/`-` separated fields, each
/// read as a `u64`, `0` when it is none.
pub open spec fn version_fields(v: Seq<char>) -> Seq<u64> {
    split_any(v, ".-"@).map_values(
        |p: Seq<char>|
            match parse_u64_spec(p) {
                Some(x) => x,
                None => 0,
            },
    )
}

/// `a > b` in the order of `Vec<u64>`: field by field, a longer list
/// beating its own prefix.
pub open spec fn fields_gt(a: Seq<u64>, b: Seq<u64>) -> bool
    decreases a.len(),
{
    if a.len() == 0 {
        false
    } else if b.len() == 0 {
        true
    } else if a[0] != b[0] {
        a[0] > b[0]
    } else {
        fields_gt(a.drop_first(), b.drop_first())
    }
}

/// Release `a` is newer than release `b`.
pub open spec fn is_newer(a: Seq<char>, b: Seq<char>) -> bool {
    fields_gt(version_fields(a), version_fields(b))
}

proof fn lemma_cut_at_prefix(s: Seq<char>, stops: Seq<char>)
    ensures
        cut_at(s, stops).len() <= s.len(),
        cut_at(s, stops) == s.take(cut_at(s, stops).len() as int),
        cut_at(s, stops).len() < s.len() ==> stops.contains(s[cut_at(s, stops).len() as int]),
    decreases s.len(),
{
    if s.len() > 0 && !stops.contains(s[0]) {
        lemma_cut_at_prefix(s.drop_first(), stops);
        let t = cut_at(s.drop_first(), stops);
        assert(seq![s[0]] + t =~= s.take(t.len() + 1 as int));
        if t.len() + 1 < s.len() {
            assert(s[t.len() + 1 as int] == s.drop_first()[t.len() as int]);
        }
    } else if s.len() > 0 {
        assert(s.take(0) =~= Seq::<char>::empty());
    }
}

/// The fields of `v` split at any of `stops`.
fn split_any_pieces(s: &[char], stops: &[char]) -> (r: Vec<Vec<char>>)
    ensures
        r@.map_values(|x: Vec<char>| x@) == split_any(s@, stops@),
{
    let mut r: Vec<Vec<char>> = Vec::new();
    let mut pos: usize = 0;
    proof {
        assert(s@.skip(0) == s@);
        assert(r@.map_values(|x: Vec<char>| x@) + split_any(s@, stops@) =~= split_any(s@, stops@));
    }
    loop
        invariant
            pos <= s.len(),
            r@.map_values(|x: Vec<char>| x@) + split_any(s@.skip(pos as int), stops@) == split_any(s@, stops@),
        decreases s.len() - pos,
    {
        let rest = slice_vec(s, pos, s.len());
        proof {
            assert(rest@ == s@.skip(pos as int));
            lemma_cut_at_prefix(rest@, stops@);
        }
        let h = cut_at_any(&rest, stops);
        let ghost before = r@.map_values(|x: Vec<char>| x@);
        if h.len() < rest.len() {
            let next = pos + h.len() + 1;
            proof {
                assert(rest@.skip(h.len() + 1) == s@.skip(next as int));
            }
            r.push(h);
            proof {
                assert(r@.map_values(|x: Vec<char>| x@) =~= before.push(h@));
                assert(before.push(h@) + split_any(s@.skip(next as int), stops@) =~= before + (seq![h@]
                    + split_any(s@.skip(next as int), stops@)));
            }
            pos = next;
        } else {
            r.push(rest);
            proof {
                assert(r@.map_values(|x: Vec<char>| x@) =~= before.push(s@.skip(pos as int)));
                assert(before.push(s@.skip(pos as int)) =~= before + seq![s@.skip(pos as int)]);
            }
            return r;
        }
    }
}

/// The numbers of a dotted version, field by field.
fn fields(v: &str) -> (r: Vec<u64>)
    ensures
        r@ == version_fields(v@),
{
    let ps = split_any_pieces(&chars_of(v), &chars_of(".-"));
    let ghost pv = ps@.map_values(|x: Vec<char>| x@);
    let mut r: Vec<u64> = Vec::new();
    let mut i: usize = 0;
    while i < ps.len()
        invariant
            i <= ps@.len(),
            pv == ps@.map_values(|x: Vec<char>| x@),
            pv == split_any(v@, ".-"@),
            r@ == pv.take(i as int).map_values(
                |p: Seq<char>|
                    match parse_u64_spec(p) {
                        Some(x) => x,
                        None => 0,
                    },
            ),
        decreases ps@.len() - i,
    {
        let x = match parse_u64(&ps[i]) {
            Some(x) => x,
            None => 0,
        };
        r.push(x);
        proof {
            assert(pv[i as int] == ps@[i as int]@);
            assert(pv.take(i + 1) == pv.take(i as int).push(pv[i as int]));
            assert(r@ =~= pv.take(i + 1).map_values(
                |p: Seq<char>|
                    match parse_u64_spec(p) {
                        Some(x) => x,
                        None => 0,
                    },
            ));
        }
        i += 1;
    }
    proof {
        assert(pv.take(ps@.len() as int) == pv);
    }
    r
}

/// Compare dotted versions field by field, so `0.10.0` correctly beats
/// `0.9.9` where a plain string compare would not.
pub fn newer(a: &str, b: &str) -> (r: bool)
    ensures
        r == is_newer(a@, b@),
{
    let x = fields(a);
    let y = fields(b);
    let mut i: usize = 0;
    proof {
        assert(x@.skip(0) == x@);
        assert(y@.skip(0) == y@);
    }
    while i < x.len() && i < y.len() && x[i] == y[i]
        invariant
            i <= x.len(),
            i <= y.len(),
            fields_gt(x@, y@) == fields_gt(x@.skip(i as int), y@.skip(i as int)),
        decreases x.len() - i,
    {
        proof {
            assert(x@.skip(i as int).drop_first() == x@.skip(i + 1));
            assert(y@.skip(i as int).drop_first() == y@.skip(i + 1));
        }
        i += 1;
    }
    proof {
        assert(x@.skip(i as int).len() == x.len() - i);
        assert(y@.skip(i as int).len() == y.len() - i);
    }
    if i == x.len() {
        false
    } else if i == y.len() {
        true
    } else {
        x[i] > y[i]
    }
}

proof fn lemma_fields_gt_irreflexive(a: Seq<u64>)
    ensures
        !fields_gt(a, a),
    decreases a.len(),
{
    if a.len() > 0 {
        lemma_fields_gt_irreflexive(a.drop_first());
    }
}

proof fn lemma_fields_gt_asym(a: Seq<u64>, b: Seq<u64>)
    requires
        fields_gt(a, b),
    ensures
        !fields_gt(b, a),
    decreases a.len(),
{
    if a.len() > 0 && b.len() > 0 && a[0] == b[0] {
        lemma_fields_gt_asym(a.drop_first(), b.drop_first());
    }
}

proof fn lemma_fields_gt_trans(a: Seq<u64>, b: Seq<u64>, c: Seq<u64>)
    requires
        fields_gt(a, b),
        fields_gt(b, c),
    ensures
        fields_gt(a, c),
    decreases a.len(),
{
    if a.len() > 0 && b.len() > 0 && c.len() > 0 && a[0] == b[0] && b[0] == c[0] {
        lemma_fields_gt_trans(a.drop_first(), b.drop_first(), c.drop_first());
    }
}

/// "Newer" is a strict order on releases: no release is newer than
/// itself, of two releases at most one is newer than the other, and a
/// release newer than one that is newer than a third is newer than that
/// third.
pub proof fn lemma_newer_is_strict(a: Seq<char>, b: Seq<char>, c: Seq<char>)
    ensures
        !is_newer(a, a),
        is_newer(a, b) ==> !is_newer(b, a),
        is_newer(a, b) && is_newer(b, c) ==> is_newer(a, c),
{
    lemma_fields_gt_irreflexive(version_fields(a));
    if is_newer(a, b) {
        lemma_fields_gt_asym(version_fields(a), version_fields(b));
        if is_newer(b, c) {
            lemma_fields_gt_trans(version_fields(a), version_fields(b), version_fields(c));
        }
    }
}

// ───────────────────────────── the registry ─────────────────────────────

/// What `cargo search` prints for an exact match begins with this.
pub open spec fn search_prefix() -> Seq<char> {
    "whypkg = \""@
}

/// The version a `cargo search` line names, when it is the crate's line
/// (`whypkg = "X.Y.Z"    # description`).
pub open spec fn line_version(l: Seq<char>) -> Option<Seq<char>> {
    if starts_with(l, search_prefix()) {
        Some(cut_at(l.skip(search_prefix().len() as int), "\""@))
    } else {
        None
    }
}

/// The version of the first line that names one.
pub open spec fn first_version(ls: Seq<Seq<char>>) -> Option<Seq<char>>
    decreases ls.len(),
{
    if ls.len() == 0 {
        None
    } else if line_version(ls[0]) is Some {
        line_version(ls[0])
    } else {
        first_version(ls.drop_first())
    }
}

/// The latest release from a `cargo search whypkg --limit 1` run: its
/// trimmed error output when it failed, else the version of the crate's
/// line, or an error when no line names it.
pub open spec fn search_outcome(success: bool, stdout: Seq<char>, stderr: Seq<char>) -> Result<Seq<char>, Seq<char>> {
    if !success {
        Err(trim(stderr))
    } else {
        match first_version(lines(stdout)) {
            Some(v) => Ok(v),
            None => Err("the registry did not list `whypkg`"@),
        }
    }
}

/// Read the latest release from what `cargo search` printed.
pub fn latest_from_search(success: bool, stdout: &str, stderr: &str) -> (r: Result<String, String>)
    ensures
        match search_outcome(success, stdout@, stderr@) {
            Ok(v) => r matches Ok(s) && s@ == v,
            Err(e) => r matches Err(s) && s@ == e,
        },
{
    if !success {
        return Err(string_of(&trim_chars(&chars_of(stderr))));
    }
    let ls = split_lines(&chars_of(stdout));
    let prefix = chars_of("whypkg = \"");
    let quote = chars_of("\"");
    proof {
        reveal_strlit("whypkg = \"");
        assert(prefix@.len() == 10);
    }
    let mut i: usize = 0;
    proof {
        assert(ls@.map_values(|x: Vec<char>| x@).skip(0) == ls@.map_values(|x: Vec<char>| x@));
    }
    while i < ls.len()
        invariant
            success,
            i <= ls@.len(),
            ls@.map_values(|x: Vec<char>| x@) == lines(stdout@),
            prefix@ == search_prefix(),
            prefix@.len() == 10,
            quote@ == "\""@,
            first_version(lines(stdout@)) == first_version(lines(stdout@).skip(i as int)),
        decreases ls@.len() - i,
    {
        let ghost rest = lines(stdout@).skip(i as int);
        proof {
            assert(rest[0] == ls@[i as int]@);
            assert(rest.drop_first() == lines(stdout@).skip(i + 1));
        }
        let l = &ls[i];
        if has_prefix(l, &prefix) {
            let tail = slice_vec(l, 10, l.len());
            let v = cut_at_any(&tail, &quote);
            proof {
                assert(tail@ == l@.skip(10));
            }
            return Ok(string_of(&v));
        }
        i += 1;
    }
    proof {
        assert(lines(stdout@).skip(i as int).len() == 0);
    }
    Err(String::from_str("the registry did not list `whypkg`"))
}

/// What `self check` found.
pub enum CheckOutcome {
    /// A newer release exists.
    Available(String),
    /// The installed release is the latest.
    Latest,
    /// The registry could not be asked.
    Failed(String),
}

/// Compare the latest release with the installed one `current`.
pub fn check_outcome(latest: Result<String, String>, current: &str) -> (o: CheckOutcome)
    ensures
        match latest {
            Ok(l) => if is_newer(l@, current@) {
                o matches CheckOutcome::Available(x) && x@ == l@
            } else {
                o is Latest
            },
            Err(e) => o matches CheckOutcome::Failed(x) && x@ == e@,
        },
{
    match latest {
        Ok(l) => if newer(l.as_str(), current) {
            CheckOutcome::Available(l)
        } else {
            CheckOutcome::Latest
        },
        Err(e) => CheckOutcome::Failed(e),
    }
}

} // verus!
