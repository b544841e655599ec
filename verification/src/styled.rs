//! Styled text, as plain values: what the report prints and what the
//! browser draws, each piece with the tone it is shown in. The terminal
//! and the screen turn tones into colours; the words and the layout are
//! decided here.

use vstd::prelude::*;
use vstd::string::*;
use crate::text::{chars_of, string_of};

verus! {

/// How a piece of text is shown.
#[derive(Clone, Copy, PartialEq, Eq, Debug, Structural)]
pub enum Tone {
    Plain,
    Dim,
    Bold,
    Green,
    BoldGreen,
    Yellow,
    BoldYellow,
    Red,
    Blue,
    Cyan,
    BoldCyan,
    BoldWhite,
}

/// A piece of text in one tone.
pub struct Span {
    pub text: String,
    pub tone: Tone,
}

/// The views of a line's pieces.
pub open spec fn line_view(l: Seq<Span>) -> Seq<(Seq<char>, Tone)> {
    l.map_values(|s: Span| (s.text@, s.tone))
}

/// The views of lines.
pub open spec fn lines_view(ls: Seq<Vec<Span>>) -> Seq<Seq<(Seq<char>, Tone)>> {
    ls.map_values(|l: Vec<Span>| line_view(l@))
}

/// A piece of text.
pub fn span(text: String, tone: Tone) -> (s: Span)
    ensures
        s.text@ == text@,
        s.tone == tone,
{
    Span { text, tone }
}

/// A piece of literal text.
pub fn lit(text: &str, tone: Tone) -> (s: Span)
    ensures
        s.text@ == text@,
        s.tone == tone,
{
    Span { text: String::from_str(text), tone }
}

/// `n` spaces.
pub open spec fn spaces(n: nat) -> Seq<char> {
    Seq::new(n, |i: int| ' ')
}

/// `s` followed by spaces up to `w` characters, as `{:<w}` lays it out.
pub open spec fn pad_right(s: Seq<char>, w: nat) -> Seq<char> {
    if s.len() >= w {
        s
    } else {
        s + spaces((w - s.len()) as nat)
    }
}

/// `s` after spaces up to `w` characters, as `{:>w}` lays it out.
pub open spec fn pad_left(s: Seq<char>, w: nat) -> Seq<char> {
    if s.len() >= w {
        s
    } else {
        spaces((w - s.len()) as nat) + s
    }
}

/// `s` padded on the right to `w` characters.
pub fn padded_right(s: &str, w: usize) -> (r: String)
    ensures
        r@ == pad_right(s@, w as nat),
{
    let c = chars_of(s);
    let mut r = string_of(&c);
    if c.len() < w {
        let mut k: usize = c.len();
        while k < w
            invariant
                c.len() <= k <= w,
                r@ == s@ + spaces((k - c.len()) as nat),
            decreases w - k,
        {
            r.push(' ');
            proof {
                assert(s@ + spaces((k + 1 - c.len()) as nat) =~= (s@ + spaces((k - c.len()) as nat)).push(' '));
            }
            k += 1;
        }
    }
    r
}

/// `s` padded on the left to `w` characters.
pub fn padded_left(s: &str, w: usize) -> (r: String)
    ensures
        r@ == pad_left(s@, w as nat),
{
    let c = chars_of(s);
    if c.len() >= w {
        return string_of(&c);
    }
    let mut r = String::new();
    let mut k: usize = c.len();
    while k < w
        invariant
            c.len() <= k <= w,
            r@ == spaces((k - c.len()) as nat),
        decreases w - k,
    {
        r.push(' ');
        proof {
            assert(spaces((k + 1 - c.len()) as nat) =~= spaces((k - c.len()) as nat).push(' '));
        }
        k += 1;
    }
    r.append(s);
    r
}

/// `n` copies of `c`.
pub fn repeat_char(c: char, n: usize) -> (r: String)
    ensures
        r@ == Seq::new(n as nat, |i: int| c),
{
    let mut r = String::new();
    let mut k: usize = 0;
    while k < n
        invariant
            k <= n,
            r@ == Seq::new(k as nat, |i: int| c),
        decreases n - k,
    {
        r.push(c);
        proof {
            assert(Seq::new((k + 1) as nat, |i: int| c) =~= Seq::new(k as nat, |i: int| c).push(c));
        }
        k += 1;
    }
    r
}

} // verus!
