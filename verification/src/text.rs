//! Text as sequences of characters: the cuts and searches that the parsers
//! share, each with the sequence it yields as its contract.
use vstd::prelude::*;

verus! {

/// Whether `c` has the Unicode property `White_Space`.
pub open spec fn is_space(c: char) -> bool {
    ||| '\t' <= c <= '\r'
    ||| c == ' '
    ||| c == '\u{85}'
    ||| c == '\u{a0}'
    ||| c == '\u{1680}'
    ||| '\u{2000}' <= c <= '\u{200a}'
    ||| '\u{2028}' <= c <= '\u{2029}'
    ||| c == '\u{202f}'
    ||| c == '\u{205f}'
    ||| c == '\u{3000}'
}

/// The predicate [`is_space`] as a value.
pub open spec fn space() -> spec_fn(char) -> bool {
    |c: char| is_space(c)
}

/// The predicate that holds of every character without `White_Space`.
pub open spec fn ink() -> spec_fn(char) -> bool {
    |c: char| !is_space(c)
}

/// The predicate that holds of every character but `x`.
pub open spec fn other_than(x: char) -> spec_fn(char) -> bool {
    |c: char| c != x
}

/// The length of the longest prefix of `s` whose characters all satisfy `p`.
pub open spec fn span(s: Seq<char>, p: spec_fn(char) -> bool) -> nat
    decreases s.len(),
{
    if s.len() == 0 || !p(s[0]) {
        0
    } else {
        1 + span(s.skip(1), p)
    }
}

/// `s` without its leading white space.
pub open spec fn trim_start(s: Seq<char>) -> Seq<char> {
    s.skip(span(s, space()) as int)
}

/// `s` without its trailing white space.
pub open spec fn trim_end(s: Seq<char>) -> Seq<char>
    decreases s.len(),
{
    if s.len() > 0 && is_space(s.last()) {
        trim_end(s.drop_last())
    } else {
        s
    }
}

/// `s` without its leading and trailing white space.
pub open spec fn trim(s: Seq<char>) -> Seq<char> {
    trim_end(trim_start(s))
}

/// `s` without one trailing carriage return, where it has one.
pub open spec fn without_cr(s: Seq<char>) -> Seq<char> {
    if s.len() > 0 && s.last() == '\r' {
        s.drop_last()
    } else {
        s
    }
}

/// The lines of `s`: each ends at a line feed, with the carriage return right
/// before it left out too, and the last one may end with the text instead.
pub open spec fn lines(s: Seq<char>) -> Seq<Seq<char>>
    decreases s.len(),
{
    let n = span(s, other_than('\n')) as int;
    if s.len() == 0 {
        seq![]
    } else if n >= s.len() {
        seq![s]
    } else {
        seq![without_cr(s.take(n))] + lines(s.skip(n + 1))
    }
}

/// The pieces of `s` between the occurrences of `sep`; always one more than
/// there are occurrences.
pub open spec fn pieces(s: Seq<char>, sep: char) -> Seq<Seq<char>>
    decreases s.len(),
{
    let n = span(s, other_than(sep)) as int;
    if n >= s.len() {
        seq![s]
    } else {
        seq![s.take(n)] + pieces(s.skip(n + 1), sep)
    }
}

/// The runs of characters of `s` that white space separates.
pub open spec fn words(s: Seq<char>) -> Seq<Seq<char>>
    decreases s.len(),
{
    let t = trim_start(s);
    if t.len() == 0 {
        seq![]
    } else {
        let n = span(t, ink()) as int;
        proof {
            lemma_span(s, space());
            lemma_span(t, ink());
            assert(t[0] == s[span(s, space()) as int]);
        }
        seq![t.take(n)] + words(t.skip(n))
    }
}

/// Whether `pat` stands in `s` at position `i`.
pub open spec fn occurs_at(s: Seq<char>, pat: Seq<char>, i: int) -> bool {
    &&& 0 <= i
    &&& i + pat.len() <= s.len()
    &&& s.subrange(i, i + pat.len()) == pat
}

/// Whether `s` begins with `pat`.
pub open spec fn starts_with(s: Seq<char>, pat: Seq<char>) -> bool {
    occurs_at(s, pat, 0)
}

/// Whether `pat` stands somewhere in `s`.
pub open spec fn contains(s: Seq<char>, pat: Seq<char>) -> bool {
    exists|i: int| occurs_at(s, pat, i)
}

/// The first position at which `pat` stands in `s`.
pub open spec fn find(s: Seq<char>, pat: Seq<char>) -> Option<int>
    decreases s.len(),
{
    if occurs_at(s, pat, 0) {
        Some(0)
    } else if s.len() == 0 {
        None
    } else {
        match find(s.skip(1), pat) {
            Some(i) => Some(i + 1),
            None => None,
        }
    }
}

/// The last position of `c` in `s`.
pub open spec fn rfind(s: Seq<char>, c: char) -> Option<int>
    decreases s.len(),
{
    if s.len() == 0 {
        None
    } else if s.last() == c {
        Some(s.len() - 1)
    } else {
        rfind(s.drop_last(), c)
    }
}

/// `parts` one after the other, with `sep` between each two.
pub open spec fn join(parts: Seq<Seq<char>>, sep: Seq<char>) -> Seq<char>
    decreases parts.len(),
{
    if parts.len() == 0 {
        seq![]
    } else if parts.len() == 1 {
        parts[0]
    } else {
        join(parts.drop_last(), sep) + sep + parts.last()
    }
}

/// What the slices of `v` hold.
pub open spec fn slice_views(v: Seq<&[char]>) -> Seq<Seq<char>> {
    Seq::new(v.len(), |i: int| v[i]@)
}

/// What the texts of `v` hold.
pub open spec fn string_views(v: Seq<String>) -> Seq<Seq<char>> {
    Seq::new(v.len(), |i: int| v[i]@)
}

/// What an optional text holds.
pub open spec fn text_view(s: Option<String>) -> Option<Seq<char>> {
    match s {
        Some(s) => Some(s@),
        None => None,
    }
}

/// What [`span`] measures: all of the prefix satisfies `p`, and what follows it
/// does not.
pub proof fn lemma_span(s: Seq<char>, p: spec_fn(char) -> bool)
    ensures
        span(s, p) <= s.len(),
        forall|i: int| 0 <= i < span(s, p) ==> p(#[trigger] s[i]),
        span(s, p) < s.len() ==> !p(s[span(s, p) as int]),
    decreases s.len(),
{
    if s.len() == 0 || !p(s[0]) {
    } else {
        lemma_span(s.skip(1), p);
        assert forall|i: int| 0 <= i < span(s, p) implies p(#[trigger] s[i]) by {
            if i > 0 {
                assert(s.skip(1)[i - 1] == s[i]);
            }
        }
        if span(s, p) < s.len() {
            assert(s.skip(1)[span(s.skip(1), p) as int] == s[span(s, p) as int]);
        }
    }
}

/// Only one length is that of the longest prefix that satisfies `p`.
pub proof fn lemma_span_unique(s: Seq<char>, p: spec_fn(char) -> bool, n: int)
    requires
        0 <= n <= s.len(),
        forall|i: int| 0 <= i < n ==> p(#[trigger] s[i]),
        n < s.len() ==> !p(s[n]),
    ensures
        span(s, p) == n,
{
    lemma_span(s, p);
    let m = span(s, p) as int;
    if m < n {
        assert(p(s[m]));
    } else if n < m {
        assert(p(s[n]));
    }
}

/// What [`find`] yields is an occurrence, and none stands before it.
pub proof fn lemma_find(s: Seq<char>, pat: Seq<char>)
    ensures
        match find(s, pat) {
            Some(i) => occurs_at(s, pat, i) && forall|j: int|
                0 <= j < i ==> !#[trigger] occurs_at(s, pat, j),
            None => forall|j: int| !#[trigger] occurs_at(s, pat, j),
        },
    decreases s.len(),
{
    if occurs_at(s, pat, 0) {
    } else if s.len() == 0 {
    } else {
        lemma_find(s.skip(1), pat);
        assert forall|j: int| j >= 1 implies #[trigger] occurs_at(s, pat, j) == occurs_at(
            s.skip(1),
            pat,
            j - 1,
        ) by {
            if j + pat.len() <= s.len() {
                assert(s.subrange(j, j + pat.len()) =~= s.skip(1).subrange(j - 1, j - 1 + pat.len()));
            }
        }
        match find(s.skip(1), pat) {
            Some(i) => {
                assert(occurs_at(s, pat, i + 1));
            },
            None => {},
        }
    }
}

/// An occurrence that none precedes is what [`find`] yields.
pub proof fn lemma_find_unique(s: Seq<char>, pat: Seq<char>, i: int)
    requires
        occurs_at(s, pat, i),
        forall|j: int| 0 <= j < i ==> !#[trigger] occurs_at(s, pat, j),
    ensures
        find(s, pat) == Some(i),
{
    lemma_find(s, pat);
}

/// A join begins with its first part.
pub proof fn lemma_join_first(parts: Seq<Seq<char>>, sep: Seq<char>)
    requires
        parts.len() >= 2,
    ensures
        join(parts, sep) == parts[0] + sep + join(parts.skip(1), sep),
    decreases parts.len(),
{
    if parts.len() == 2 {
        assert(join(parts.drop_last(), sep) == parts[0]);
        assert(parts.skip(1)[0] == parts[1]);
        assert(join(parts.skip(1), sep) == parts[1]);
    } else {
        lemma_join_first(parts.drop_last(), sep);
        assert(parts.drop_last().skip(1) =~= parts.skip(1).drop_last());
        assert(join(parts, sep) =~= parts[0] + sep + join(parts.skip(1), sep));
    }
}

/// Parts that were joined with a character that none of them holds are the pieces
/// of the whole.
pub proof fn lemma_pieces_of_join(parts: Seq<Seq<char>>, sep: char)
    requires
        parts.len() >= 1,
        forall|i: int, j: int|
            0 <= i < parts.len() && 0 <= j < parts[i].len() ==> #[trigger] parts[i][j] != sep,
    ensures
        pieces(join(parts, seq![sep]), sep) == parts,
    decreases parts.len(),
{
    let s = join(parts, seq![sep]);
    let first = parts[0];
    if parts.len() == 1 {
        assert forall|j: int| 0 <= j < s.len() implies other_than(sep)(#[trigger] s[j]) by {
            assert(parts[0][j] != sep);
        }
        lemma_span_unique(s, other_than(sep), s.len() as int);
        assert(parts =~= seq![s]);
    } else {
        lemma_join_first(parts, seq![sep]);
        let rest = parts.skip(1);
        assert forall|i: int, j: int|
            0 <= i < rest.len() && 0 <= j < rest[i].len() implies #[trigger] rest[i][j] != sep by {
            assert(parts[i + 1][j] != sep);
        }
        lemma_pieces_of_join(rest, sep);
        assert forall|j: int| 0 <= j < first.len() implies other_than(sep)(#[trigger] s[j]) by {
            assert(parts[0][j] != sep);
        }
        lemma_span_unique(s, other_than(sep), first.len() as int);
        assert(s.take(first.len() as int) =~= first);
        assert(s.skip(first.len() as int + 1) =~= join(rest, seq![sep]));
        assert(parts =~= seq![first] + rest);
    }
}

/// A text without the separator is its only piece.
pub proof fn lemma_one_piece(s: Seq<char>, sep: char)
    requires
        forall|j: int| 0 <= j < s.len() ==> #[trigger] s[j] != sep,
    ensures
        pieces(s, sep) == seq![s],
{
    lemma_span_unique(s, other_than(sep), s.len() as int);
}

/// The lines of a text behind one that ends with a line feed come behind its
/// lines.
pub proof fn lemma_lines_of_sum(x: Seq<char>, y: Seq<char>)
    requires
        x.len() > 0,
        x.last() == '\n',
    ensures
        lines(x + y) == lines(x) + lines(y),
    decreases x.len(),
{
    let p = other_than('\n');
    let n = span(x, p) as int;
    lemma_span(x, p);
    if n == x.len() {
        assert(p(x[n - 1]));
    }
    assert forall|i: int| 0 <= i < n implies p(#[trigger] (x + y)[i]) by {
        assert(p(x[i]));
    }
    lemma_span_unique(x + y, p, n);
    let rest = x.skip(n + 1);
    assert((x + y).take(n) =~= x.take(n));
    assert((x + y).skip(n + 1) =~= rest + y);
    let first = seq![without_cr(x.take(n))];
    assert(lines(x) == first + lines(rest));
    assert(lines(x + y) == first + lines(rest + y));
    if rest.len() > 0 {
        assert(rest.last() == x.last());
        lemma_lines_of_sum(rest, y);
    } else {
        assert(rest + y =~= y);
        assert(lines(rest) =~= seq![]);
    }
    assert(first + (lines(rest) + lines(y)) =~= first + lines(rest) + lines(y));
    assert(lines(rest + y) == lines(rest) + lines(y));
}

/// White space around a text that neither begins nor ends with any is what
/// trimming leaves out.
pub proof fn lemma_trim(a: Seq<char>, s: Seq<char>, b: Seq<char>)
    requires
        forall|i: int| 0 <= i < a.len() ==> is_space(#[trigger] a[i]),
        forall|i: int| 0 <= i < b.len() ==> is_space(#[trigger] b[i]),
        s.len() > 0,
        !is_space(s[0]),
        !is_space(s.last()),
    ensures
        trim_start(a + s + b) == s + b,
        trim(a + s + b) == s,
{
    let t = a + s + b;
    assert forall|i: int| 0 <= i < a.len() implies space()(#[trigger] t[i]) by {
        assert(t[i] == a[i]);
    }
    assert(t[a.len() as int] == s[0]);
    lemma_span_unique(t, space(), a.len() as int);
    assert(trim_start(t) =~= s + b);
    lemma_trim_end(s, b);
}

proof fn lemma_trim_end(s: Seq<char>, b: Seq<char>)
    requires
        forall|i: int| 0 <= i < b.len() ==> is_space(#[trigger] b[i]),
        s.len() > 0,
        !is_space(s.last()),
    ensures
        trim_end(s + b) == s,
    decreases b.len(),
{
    if b.len() > 0 {
        assert((s + b).last() == b.last());
        assert((s + b).drop_last() =~= s + b.drop_last());
        lemma_trim_end(s, b.drop_last());
    } else {
        assert(s + b =~= s);
    }
}

/// What stands in a text without the white space around it stands in the text.
pub proof fn lemma_trim_holds(s: Seq<char>, pat: Seq<char>)
    requires
        contains(trim(s), pat),
    ensures
        contains(s, pat),
{
    let i = choose|i: int| occurs_at(trim(s), pat, i);
    let n = span(s, space()) as int;
    lemma_span(s, space());
    lemma_trim_end_is_prefix(trim_start(s));
    assert(s.subrange(n + i, n + i + pat.len()) =~= trim(s).subrange(i, i + pat.len()));
    assert(occurs_at(s, pat, n + i));
}

proof fn lemma_trim_end_is_prefix(s: Seq<char>)
    ensures
        trim_end(s).len() <= s.len(),
        trim_end(s) == s.take(trim_end(s).len() as int),
    decreases s.len(),
{
    if s.len() > 0 && is_space(s.last()) {
        lemma_trim_end_is_prefix(s.drop_last());
        let n = trim_end(s).len() as int;
        assert(s.drop_last().take(n) =~= s.take(n));
    } else {
        assert(s.take(s.len() as int) =~= s);
    }
}

/// A word with white space before it, and with white space or nothing behind it,
/// is the first one.
pub proof fn lemma_first_word(gap: Seq<char>, word: Seq<char>, rest: Seq<char>)
    requires
        forall|i: int| 0 <= i < gap.len() ==> is_space(#[trigger] gap[i]),
        word.len() > 0,
        forall|i: int| 0 <= i < word.len() ==> !is_space(#[trigger] word[i]),
        rest.len() > 0 ==> is_space(rest[0]),
    ensures
        words(gap + word + rest) == seq![word] + words(rest),
{
    let s = gap + word + rest;
    assert forall|i: int| 0 <= i < gap.len() implies space()(#[trigger] s[i]) by {
        assert(s[i] == gap[i]);
    }
    assert(s[gap.len() as int] == word[0]);
    lemma_span_unique(s, space(), gap.len() as int);
    let t = trim_start(s);
    assert(t =~= word + rest);
    assert forall|i: int| 0 <= i < word.len() implies ink()(#[trigger] t[i]) by {
        assert(t[i] == word[i]);
    }
    lemma_span_unique(t, ink(), word.len() as int);
    assert(t.take(word.len() as int) =~= word);
    assert(t.skip(word.len() as int) =~= rest);
}

} // verus!
