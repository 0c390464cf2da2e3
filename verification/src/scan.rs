//! The cuts and searches of [`crate::text`], on characters in memory.
use crate::text;
use vstd::prelude::*;
use vstd::slice::slice_subrange;

verus! {

/// `String::push` of std: one character is appended at the end.
pub assume_specification[ String::push ](s: &mut String, c: char)
    ensures
        final(s)@ == old(s)@.push(c),
;

/// The characters of `s`.
pub(crate) fn to_chars(s: &str) -> (out: Vec<char>)
    ensures
        out@ == s@,
{
    let mut out: Vec<char> = Vec::new();
    for c in it: s.chars()
        invariant
            it.seq() == s@,
            out@ == s@.take(it.index()),
    {
        out.push(c);
        assert(out@ =~= s@.take(it.index() + 1));
    }
    assert(s@.take(s@.len() as int) =~= s@);
    out
}

/// The text that the characters of `s` make up.
pub(crate) fn to_text(s: &[char]) -> (out: String)
    ensures
        out@ == s@,
{
    let mut out = String::new();
    let mut i: usize = 0;
    while i < s.len()
        invariant
            i <= s.len(),
            out@ == s@.take(i as int),
        decreases s.len() - i,
    {
        out.push(s[i]);
        i += 1;
        assert(out@ =~= s@.take(i as int));
    }
    assert(s@.take(s@.len() as int) =~= s@);
    out
}

/// Whether two texts are the same.
pub(crate) fn same(a: &str, b: &str) -> (r: bool)
    ensures
        r == (a@ == b@),
{
    let x = a.to_owned();
    let y = b.to_owned();
    x == y
}

pub(crate) fn is_space(c: char) -> (r: bool)
    ensures
        r == text::is_space(c),
{
    ('\t' <= c && c <= '\r') || c == ' ' || c == '\u{85}' || c == '\u{a0}' || c == '\u{1680}' || (
    '\u{2000}' <= c && c <= '\u{200a}') || ('\u{2028}' <= c && c <= '\u{2029}') || c == '\u{202f}'
        || c == '\u{205f}' || c == '\u{3000}'
}

/// The position of the first `x` in `s`, or its length where there is none.
pub(crate) fn find_char(s: &[char], x: char) -> (n: usize)
    ensures
        n == text::span(s@, text::other_than(x)),
        n <= s@.len(),
        forall|i: int| 0 <= i < n ==> s@[i] != x,
        n < s@.len() ==> s@[n as int] == x,
{
    let mut n: usize = 0;
    while n < s.len() && s[n] != x
        invariant
            n <= s.len(),
            forall|i: int| 0 <= i < n ==> s@[i] != x,
        decreases s.len() - n,
    {
        n += 1;
    }
    proof {
        text::lemma_span_unique(s@, text::other_than(x), n as int);
    }
    n
}

pub(crate) fn trim_start(s: &[char]) -> (r: &[char])
    ensures
        r@ == text::trim_start(s@),
{
    let mut n: usize = 0;
    while n < s.len() && is_space(s[n])
        invariant
            n <= s.len(),
            forall|i: int| 0 <= i < n ==> text::is_space(#[trigger] s@[i]),
        decreases s.len() - n,
    {
        n += 1;
    }
    proof {
        text::lemma_span_unique(s@, text::space(), n as int);
    }
    slice_subrange(s, n, s.len())
}

pub(crate) fn trim(s: &[char]) -> (r: &[char])
    ensures
        r@ == text::trim(s@),
{
    let t = trim_start(s);
    let mut n: usize = t.len();
    assert(t@.take(n as int) =~= t@);
    while n > 0 && is_space(t[n - 1])
        invariant
            n <= t.len(),
            text::trim_end(t@.take(n as int)) == text::trim_end(t@),
        decreases n,
    {
        assert(t@.take(n as int).drop_last() =~= t@.take(n - 1));
        n -= 1;
    }
    slice_subrange(t, 0, n)
}

pub(crate) fn lines<'a>(s: &'a [char]) -> (out: Vec<&'a [char]>)
    ensures
        text::slice_views(out@) == text::lines(s@),
{
    let mut out: Vec<&'a [char]> = Vec::new();
    let mut rest: &'a [char] = s;
    assert(text::slice_views(out@) + text::lines(rest@) =~= text::lines(s@));
    while rest.len() > 0
        invariant
            text::slice_views(out@) + text::lines(rest@) == text::lines(s@),
        decreases rest.len(),
    {
        let n: usize = find_char(rest, '\n');
        let ghost before = text::slice_views(out@);
        let ghost this = rest@;
        if n < rest.len() {
            let line = if n > 0 && rest[n - 1] == '\r' {
                slice_subrange(rest, 0, n - 1)
            } else {
                slice_subrange(rest, 0, n)
            };
            assert(line@ =~= text::without_cr(this.take(n as int)));
            out.push(line);
            rest = slice_subrange(rest, n + 1, rest.len());
            assert(rest@ =~= this.skip(n + 1));
            assert(text::slice_views(out@) =~= before.push(line@));
            assert(text::slice_views(out@) + text::lines(rest@) =~= before + text::lines(this));
        } else {
            out.push(rest);
            assert(text::slice_views(out@) =~= before.push(this));
            rest = slice_subrange(rest, n, rest.len());
            assert(text::slice_views(out@) + text::lines(rest@) =~= before + text::lines(this));
        }
    }
    assert(text::slice_views(out@) + text::lines(rest@) =~= text::slice_views(out@));
    out
}

pub(crate) fn pieces<'a>(s: &'a [char], sep: char) -> (out: Vec<&'a [char]>)
    ensures
        text::slice_views(out@) == text::pieces(s@, sep),
        out@.len() >= 1,
{
    let mut out: Vec<&'a [char]> = Vec::new();
    let mut rest: &'a [char] = s;
    let mut n: usize = find_char(rest, sep);
    assert(text::slice_views(out@) + text::pieces(rest@, sep) =~= text::pieces(s@, sep));
    while n < rest.len()
        invariant
            n == text::span(rest@, text::other_than(sep)),
            n <= rest@.len(),
            text::slice_views(out@) + text::pieces(rest@, sep) == text::pieces(s@, sep),
        decreases rest.len(),
    {
        let ghost before = text::slice_views(out@);
        let ghost this = rest@;
        let piece = slice_subrange(rest, 0, n);
        out.push(piece);
        rest = slice_subrange(rest, n + 1, rest.len());
        assert(piece@ =~= this.take(n as int));
        assert(rest@ =~= this.skip(n + 1));
        assert(text::slice_views(out@) =~= before.push(piece@));
        assert(text::slice_views(out@) + text::pieces(rest@, sep) =~= before + text::pieces(
            this,
            sep,
        ));
        n = find_char(rest, sep);
    }
    let ghost before = text::slice_views(out@);
    out.push(rest);
    assert(text::slice_views(out@) =~= before + text::pieces(rest@, sep));
    out
}

pub(crate) fn words<'a>(s: &'a [char]) -> (out: Vec<&'a [char]>)
    ensures
        text::slice_views(out@) == text::words(s@),
{
    let mut out: Vec<&'a [char]> = Vec::new();
    let mut rest: &'a [char] = trim_start(s);
    proof {
        lemma_trim_start_idempotent(s@);
        assert(text::slice_views(out@) + text::words(rest@) =~= text::words(s@));
    }
    while rest.len() > 0
        invariant
            rest@ == text::trim_start(rest@),
            text::slice_views(out@) + text::words(rest@) == text::words(s@),
        decreases rest.len(),
    {
        let ghost before = text::slice_views(out@);
        let ghost this = rest@;
        let mut n: usize = 0;
        while n < rest.len() && !is_space(rest[n])
            invariant
                n <= rest.len(),
                forall|i: int| 0 <= i < n ==> !text::is_space(#[trigger] rest@[i]),
            decreases rest.len() - n,
        {
            n += 1;
        }
        proof {
            text::lemma_span_unique(rest@, text::ink(), n as int);
            text::lemma_span(this, text::space());
            assert(text::span(this, text::space()) == 0) by {
                assert(text::trim_start(this).len() == this.len());
            }
        }
        let word = slice_subrange(rest, 0, n);
        let after = slice_subrange(rest, n, rest.len());
        out.push(word);
        rest = trim_start(after);
        proof {
            text::lemma_span(after@, text::space());
            lemma_trim_start_idempotent(after@);
            assert(word@ =~= this.take(n as int));
            assert(after@ =~= this.skip(n as int));
            assert(text::slice_views(out@) =~= before.push(word@));
            assert(text::slice_views(out@) + text::words(after@) =~= before + text::words(this));
        }
    }
    assert(text::slice_views(out@) + text::words(rest@) =~= text::slice_views(out@));
    out
}

/// Leading white space that is gone leaves none to remove, and what the words
/// of a text are does not depend on it.
proof fn lemma_trim_start_idempotent(s: Seq<char>)
    ensures
        text::trim_start(text::trim_start(s)) == text::trim_start(s),
        text::words(text::trim_start(s)) == text::words(s),
{
    let t = text::trim_start(s);
    text::lemma_span(s, text::space());
    assert(t.len() > 0 ==> t[0] == s[text::span(s, text::space()) as int]);
    text::lemma_span_unique(t, text::space(), 0);
    assert(t.skip(0) =~= t);
}

/// Whether `pat` stands in `s` at position `i`.
pub(crate) fn occurs_at(s: &[char], pat: &[char], i: usize) -> (r: bool)
    ensures
        r == text::occurs_at(s@, pat@, i as int),
{
    if i > s.len() || pat.len() > s.len() - i {
        return false;
    }
    let mut k: usize = 0;
    while k < pat.len()
        invariant
            k <= pat.len(),
            i + pat.len() <= s.len(),
            forall|j: int| 0 <= j < k ==> s@[i + j] == pat@[j],
        decreases pat.len() - k,
    {
        if s[i + k] != pat[k] {
            assert(s@.subrange(i as int, i + pat@.len())[k as int] != pat@[k as int]);
            return false;
        }
        k += 1;
    }
    assert(s@.subrange(i as int, i + pat@.len()) =~= pat@);
    true
}

pub(crate) fn starts_with(s: &[char], pat: &str) -> (r: bool)
    ensures
        r == text::starts_with(s@, pat@),
{
    let p = to_chars(pat);
    occurs_at(s, p.as_slice(), 0)
}

pub(crate) fn find(s: &[char], pat: &str) -> (r: Option<usize>)
    ensures
        match r {
            Some(i) => text::find(s@, pat@) == Some(i as int) && i + pat@.len() <= s@.len(),
            None => text::find(s@, pat@) is None,
        },
{
    let p = to_chars(pat);
    let mut i: usize = 0;
    while i < s.len() && !occurs_at(s, p.as_slice(), i)
        invariant
            i <= s@.len(),
            p@ == pat@,
            forall|j: int| 0 <= j < i ==> !#[trigger] text::occurs_at(s@, pat@, j),
        decreases s.len() - i,
    {
        i += 1;
    }
    proof {
        text::lemma_find(s@, pat@);
    }
    if occurs_at(s, p.as_slice(), i) {
        Some(i)
    } else {
        None
    }
}

pub(crate) fn contains(s: &[char], pat: &str) -> (r: bool)
    ensures
        r == text::contains(s@, pat@),
{
    let at = find(s, pat);
    proof {
        text::lemma_find(s@, pat@);
    }
    at.is_some()
}

pub(crate) fn rfind(s: &[char], c: char) -> (r: Option<usize>)
    ensures
        match r {
            Some(i) => text::rfind(s@, c) == Some(i as int) && i < s@.len(),
            None => text::rfind(s@, c) is None,
        },
{
    let mut n: usize = s.len();
    assert(s@.take(n as int) =~= s@);
    while n > 0
        invariant
            n <= s.len(),
            text::rfind(s@.take(n as int), c) == text::rfind(s@, c),
        decreases n,
    {
        if s[n - 1] == c {
            return Some(n - 1);
        }
        assert(s@.take(n as int).drop_last() =~= s@.take(n - 1));
        n -= 1;
    }
    None
}

} // verus!
