//! What the cuts of text, the numbers and the addresses are, told by characters.
use crate::ip::{
    colons, embedded, ip_of, ip_text, is_v4_mapped, last_octets, lemma_ip_reads_back,
    longest_zeros, parts_of, segment_of, segment_texts, segments_of, segments_text, v4_of, v4_text,
    zeros, zeros_at, IpView,
};
use crate::numeral::{
    decimal, digit_char, digit_of, is_numeral, lemma_numeral_value, numeral, unsigned, value,
};
use crate::pattern::{
    is_addr_char, is_bracketed_char, is_digit, is_dotted_char, is_proto, MAPPING, PROCESS, RULE,
};
use crate::text::{
    contains, find, is_space, join, lemma_find, lemma_join_first, lemma_one_piece, lemma_span,
    lemma_span_unique, lines, occurs_at, other_than, pieces, rfind, space, span, starts_with, trim,
    trim_end, trim_start, words,
};
use vstd::prelude::*;

verus! {

/// White space is these code points and no other.
pub proof fn white_space_is_these_code_points(c: char)
    ensures
        is_space(c) <==> {
            let n = c as int;
            ||| 9 <= n <= 13
            ||| n == 32
            ||| n == 133
            ||| n == 160
            ||| n == 5760
            ||| 8192 <= n <= 8202
            ||| n == 8232
            ||| n == 8233
            ||| n == 8239
            ||| n == 8287
            ||| n == 12288
        },
{
}

/// What a text begins with is its prefix, and what stands in it stands in it with
/// something before and something behind.
pub proof fn searches_find_what_is_there(a: Seq<char>, pat: Seq<char>, b: Seq<char>, s: Seq<char>)
    ensures
        starts_with(s, pat) <==> pat.is_prefix_of(s),
        contains(a + pat + b, pat),
        contains(s, pat) <==> find(s, pat) is Some,
        match find(s, pat) {
            Some(i) => {
                &&& 0 <= i <= s.len() - pat.len()
                &&& s == s.take(i) + pat + s.skip(i + pat.len())
                &&& forall|j: int| 0 <= j < i ==> !pat.is_prefix_of(#[trigger] s.skip(j))
            },
            None => forall|j: int|
                0 <= j <= s.len() ==> !pat.is_prefix_of(#[trigger] s.skip(j)),
        },
{
    let n = pat.len() as int;
    if n <= s.len() {
        assert(s.subrange(0, 0 + n) =~= s.subrange(0, n));
    }
    let t = a + pat + b;
    assert(t.subrange(a.len() as int, a.len() + n) =~= pat);
    assert(occurs_at(t, pat, a.len() as int));
    lemma_find(s, pat);
    assert forall|j: int| 0 <= j <= s.len() implies (pat.is_prefix_of(#[trigger] s.skip(j))
        <==> occurs_at(s, pat, j)) by {
        if j + n <= s.len() {
            assert(s.skip(j).subrange(0, n) =~= s.subrange(j, j + n));
        }
    }
    if let Some(i) = find(s, pat) {
        assert(s =~= s.take(i) + s.subrange(i, i + n) + s.skip(i + n));
    }
}

/// The last position of a character is that behind which it does not stand.
pub proof fn the_last_one_is_the_last(a: Seq<char>, c: char, b: Seq<char>)
    requires
        forall|i: int| 0 <= i < b.len() ==> #[trigger] b[i] != c,
    ensures
        rfind(a + seq![c] + b, c) == Some(a.len() as int),
        rfind(b, c) is None,
    decreases b.len(),
{
    let s = a + seq![c] + b;
    if b.len() > 0 {
        assert(s.last() == b.last());
        assert(b.last() == b[b.len() - 1]);
        assert(s.drop_last() =~= a + seq![c] + b.drop_last());
        the_last_one_is_the_last(a, c, b.drop_last());
    } else {
        assert(s.last() == c);
    }
}

/// A join of no parts is empty, of one part is that part, and with one part more
/// has the separator and that part behind it.
pub proof fn a_join_goes_part_by_part(parts: Seq<Seq<char>>, part: Seq<char>, sep: Seq<char>)
    ensures
        join(seq![], sep).len() == 0,
        join(seq![part], sep) == part,
        parts.len() > 0 ==> join(parts.push(part), sep) == join(parts, sep) + sep + part,
{
    assert(parts.push(part).drop_last() =~= parts);
}

/// Trimming leaves nothing of white space, and takes none but white space from the
/// front.
pub proof fn trimming_takes_white_space_alone(blank: Seq<char>, s: Seq<char>)
    requires
        forall|i: int| 0 <= i < blank.len() ==> is_space(#[trigger] blank[i]),
        s.len() > 0 ==> !is_space(s[0]),
    ensures
        trim_start(blank + s) == s,
        trim(blank).len() == 0,
        words(blank).len() == 0,
{
    let t = blank + s;
    let n = blank.len() as int;
    assert forall|i: int| 0 <= i < n implies space()(#[trigger] t[i]) by {
        assert(t[i] == blank[i]);
    }
    assert forall|i: int| 0 <= i < n implies space()(#[trigger] blank[i]) by {}
    if s.len() > 0 {
        assert(t[n] == s[0]);
    }
    lemma_span_unique(t, space(), n);
    lemma_span_unique(blank, space(), n);
    assert(t.skip(n) =~= s);
    assert(trim_start(blank) =~= seq![]);
    assert(trim_end(seq![]) =~= seq![]);
}

/// A line ends at its line feed, with one carriage return before it left out; the
/// last line may end with the text, and keeps what it ends with.
pub proof fn lines_end_at_line_feeds(line: Seq<char>)
    requires
        forall|i: int| 0 <= i < line.len() ==> #[trigger] line[i] != '\n',
    ensures
        lines(line) == if line.len() == 0 {
            seq![]
        } else {
            seq![line]
        },
        lines(line + seq!['\n']) == if line.len() > 0 && line.last() == '\r' {
            seq![line.drop_last()]
        } else {
            seq![line]
        },
{
    let t = line + seq!['\n'];
    let n = line.len() as int;
    let p = other_than('\n');
    assert forall|i: int| 0 <= i < n implies p(#[trigger] t[i]) by {
        assert(t[i] == line[i]);
    }
    lemma_span_unique(line, p, n);
    lemma_span_unique(t, p, n);
    assert(t.take(n) =~= line);
    assert(t.skip(n + 1) =~= seq![]);
    reveal_with_fuel(lines, 2);
    assert(lines(t) =~= if line.len() > 0 && line.last() == '\r' {
        seq![line.drop_last()]
    } else {
        seq![line]
    });
}

/// The pieces of a text, joined again, are the text.
pub proof fn pieces_make_up_the_text(s: Seq<char>, sep: char)
    ensures
        pieces(s, sep).len() > 0,
        join(pieces(s, sep), seq![sep]) == s,
    decreases s.len(),
{
    let n = span(s, other_than(sep)) as int;
    lemma_span(s, other_than(sep));
    if n < s.len() {
        let rest = s.skip(n + 1);
        let p = pieces(s, sep);
        pieces_make_up_the_text(rest, sep);
        assert(p.skip(1) =~= pieces(rest, sep));
        lemma_join_first(p, seq![sep]);
        assert(s[n] == sep);
        assert(s =~= s.take(n) + seq![sep] + rest);
    }
}

/// The digits of a number in base ten are worth ten times what all but the last
/// are, and the last.
pub proof fn numbers_go_digit_by_digit(s: Seq<char>, c: char)
    ensures
        value(seq![], 10) == 0,
        '0' <= c <= '9' ==> value(s.push(c), 10) == value(s, 10) * 10 + (c as int - '0' as int),
        is_numeral(s, 10) <==> s.len() > 0 && forall|i: int|
            0 <= i < s.len() ==> '0' <= #[trigger] s[i] <= '9',
{
    assert(s.push(c).drop_last() =~= s);
    if is_numeral(s, 10) {
        assert forall|i: int| 0 <= i < s.len() implies '0' <= #[trigger] s[i] <= '9' by {
            assert(digit_of(s[i]) < 10);
        }
    }
}

/// The digits of a number in base sixteen are worth sixteen times what all but the
/// last are, and the last, in either case.
pub proof fn base_sixteen_goes_digit_by_digit(s: Seq<char>, c: char)
    ensures
        value(seq![], 16) == 0,
        '0' <= c <= '9' ==> value(s.push(c), 16) == value(s, 16) * 16 + (c as int - '0' as int),
        'a' <= c <= 'f' ==> value(s.push(c), 16) == value(s, 16) * 16 + 10 + (c as int
            - 'a' as int),
        'A' <= c <= 'F' ==> value(s.push(c), 16) == value(s, 16) * 16 + 10 + (c as int
            - 'A' as int),
{
    assert(s.push(c).drop_last() =~= s);
}

/// A text is a number exactly where it is digits, with or without a plus sign, and
/// is worth no more than the largest number.
pub proof fn a_number_is_told_by_its_digits(s: Seq<char>, max: nat)
    ensures
        (s.len() == 0 || s[0] != '+') ==> unsigned(s, max) == if s.len() > 0 && (forall|i: int|
            0 <= i < s.len() ==> '0' <= #[trigger] s[i] <= '9') && value(s, 10) <= max {
            Some(value(s, 10))
        } else {
            None
        },
        unsigned(seq!['+'] + s, max) == if s.len() > 0 && (forall|i: int|
            0 <= i < s.len() ==> '0' <= #[trigger] s[i] <= '9') && value(s, 10) <= max {
            Some(value(s, 10))
        } else {
            None
        },
{
    numbers_go_digit_by_digit(s, '0');
    assert((seq!['+'] + s).skip(1) =~= s);
}

/// A number is written with the digits of its base, in lower case, and does not
/// begin with a zero unless it is zero; read digit by digit it is that number.
pub proof fn a_number_is_written_without_leading_zeros(n: nat)
    ensures
        forall|i: int| 0 <= i < decimal(n).len() ==> '0' <= #[trigger] decimal(n)[i] <= '9',
        value(decimal(n), 10) == n,
        decimal(n).len() > 0,
        decimal(n)[0] == '0' <==> n == 0,
        forall|i: int|
            0 <= i < numeral(n, 16).len() ==> {
                ||| '0' <= #[trigger] numeral(n, 16)[i] <= '9'
                ||| 'a' <= numeral(n, 16)[i] <= 'f'
            },
        value(numeral(n, 16), 16) == n,
        numeral(n, 16)[0] == '0' <==> n == 0,
{
    lemma_numeral_value(n, 10);
    lemma_numeral_value(n, 16);
    assert forall|i: int| 0 <= i < decimal(n).len() implies '0' <= #[trigger] decimal(n)[i]
        <= '9' by {
        assert(digit_of(decimal(n)[i]) < 10);
    }
    lemma_first_digit(n, 10);
    lemma_first_digit(n, 16);
}

proof fn lemma_first_digit(n: nat, radix: nat)
    requires
        radix == 10 || radix == 16,
    ensures
        numeral(n, radix).len() > 0,
        numeral(n, radix)[0] == '0' <==> n == 0,
        forall|i: int|
            0 <= i < numeral(n, radix).len() ==> {
                ||| '0' <= #[trigger] numeral(n, radix)[i] <= '9'
                ||| 'a' <= numeral(n, radix)[i] <= 'f'
            },
    decreases n,
{
    if n >= radix {
        assert(n / radix < n && n / radix > 0 && n % radix < radix) by (nonlinear_arith)
            requires
                n >= radix,
                radix >= 2,
        ;
        lemma_first_digit(n / radix, radix);
        let s = numeral(n, radix);
        let front = numeral(n / radix, radix);
        assert(s == front.push(digit_char(n % radix)));
        assert forall|i: int| 0 <= i < s.len() implies {
            ||| '0' <= #[trigger] s[i] <= '9'
            ||| 'a' <= s[i] <= 'f'
        } by {
            if i < front.len() {
                assert(s[i] == front[i]);
            }
        }
    }
}

/// Digits without a leading zero are how their number is written.
proof fn lemma_only_spelling(t: Seq<char>)
    requires
        is_numeral(t, 10),
        t[0] == '0' ==> t.len() == 1,
    ensures
        t == decimal(value(t, 10)),
    decreases t.len(),
{
    let front = t.drop_last();
    let d = digit_of(t.last());
    assert(digit_of(t[t.len() - 1]) < 10);
    if t.len() == 1 {
        assert(value(front, 10) == 0);
        assert(value(t, 10) == d);
        assert(t =~= seq![digit_char(d)]);
    } else {
        assert(front[0] == t[0]);
        assert forall|i: int| 0 <= i < front.len() implies digit_of(#[trigger] front[i]) < 10 by {
            assert(front[i] == t[i]);
        }
        lemma_only_spelling(front);
        let v = value(front, 10);
        if v == 0 {
            assert(decimal(0)[0] == '0');
        }
        assert(value(t, 10) == v * 10 + d);
        assert((v * 10 + d) / 10 == v && (v * 10 + d) % 10 == d);
        assert(t =~= front.push(digit_char(d)));
    }
}

/// An address of version 4 is written in one way: its four bytes in base ten, with
/// dots between them, and nothing else reads as it.
pub proof fn a_v4_address_has_one_spelling(s: Seq<char>, octets: Seq<u8>)
    ensures
        ip_of(s) == Some(IpView::V4(octets)) <==> octets.len() == 4 && s == decimal(
            octets[0] as nat,
        ) + seq!['.'] + decimal(octets[1] as nat) + seq!['.'] + decimal(octets[2] as nat) + seq![
            '.',
        ] + decimal(octets[3] as nat),
        octets.len() == 4 ==> ip_text(IpView::V4(octets)) == decimal(octets[0] as nat) + seq!['.']
            + decimal(octets[1] as nat) + seq!['.'] + decimal(octets[2] as nat) + seq!['.']
            + decimal(octets[3] as nat),
{
    if octets.len() == 4 {
        lemma_ip_reads_back(IpView::V4(octets));
    }
    if ip_of(s) == Some(IpView::V4(octets)) {
        lemma_v4_spelling(s);
    }
}

proof fn lemma_v4_spelling(s: Seq<char>)
    requires
        v4_of(s) is Some,
    ensures
        (v4_of(s)->0).len() == 4,
        s == v4_text(v4_of(s)->0),
        forall|i: int| 0 <= i < s.len() ==> {
            ||| '0' <= #[trigger] s[i] <= '9'
            ||| s[i] == '.'
        },
{
    let p = pieces(s, '.');
    let o = v4_of(s)->0;
    pieces_make_up_the_text(s, '.');
    lemma_only_spelling(p[0]);
    lemma_only_spelling(p[1]);
    lemma_only_spelling(p[2]);
    lemma_only_spelling(p[3]);
    let dot = seq!['.'];
    reveal_with_fuel(join, 5);
    assert(p.drop_last().drop_last().drop_last()[0] == p[0]);
    assert(p.drop_last().drop_last().last() == p[1]);
    assert(p.drop_last().last() == p[2]);
    assert(join(p, dot) =~= p[0] + dot + p[1] + dot + p[2] + dot + p[3]);
    assert forall|i: int| 0 <= i < s.len() implies {
        ||| '0' <= #[trigger] s[i] <= '9'
        ||| s[i] == '.'
    } by {
        let a = p[0].len();
        let b = p[1].len();
        let c = p[2].len();
        if i < a {
            assert(s[i] == p[0][i] && digit_of(p[0][i]) < 10);
        } else if i == a {
        } else if i < a + 1 + b {
            assert(s[i] == p[1][i - a - 1] && digit_of(p[1][i - a - 1]) < 10);
        } else if i == a + 1 + b {
        } else if i < a + b + c + 2 {
            assert(s[i] == p[2][i - a - b - 2] && digit_of(p[2][i - a - b - 2]) < 10);
        } else if i == a + b + c + 2 {
        } else {
            assert(s[i] == p[3][i - a - b - c - 3] && digit_of(p[3][i - a - b - c - 3]) < 10);
        }
    }
}

/// Whether a text is a group of an address of version 6: one to four digits of base
/// sixteen, in either case.
pub open spec fn is_group(s: Seq<char>) -> bool {
    &&& 1 <= s.len() <= 4
    &&& forall|i: int|
        0 <= i < s.len() ==> {
            ||| '0' <= #[trigger] s[i] <= '9'
            ||| 'a' <= s[i] <= 'f'
            ||| 'A' <= s[i] <= 'F'
        }
}

/// Whether texts are groups, the last of which may be an address of version 4
/// where `v4_allowed` says so.
pub open spec fn are_groups(p: Seq<Seq<char>>, v4_allowed: bool) -> bool {
    forall|i: int|
        0 <= i < p.len() ==> is_group(#[trigger] p[i]) || (i == p.len() - 1 && v4_allowed
            && ip_of(p[i]) is Some && ip_of(p[i])->0 is V4)
}

/// What groups are worth: each one segment, and an address of version 4 at the end
/// two, of two bytes each.
pub open spec fn groups_worth(p: Seq<Seq<char>>) -> Seq<u16> {
    if p.len() > 0 && !is_group(p.last()) {
        Seq::new((p.len() - 1) as nat, |i: int| value(p[i], 16) as u16) + match ip_of(p.last()) {
            Some(IpView::V4(octets)) => seq![
                (octets[0] * 256 + octets[1]) as u16,
                (octets[2] * 256 + octets[3]) as u16,
            ],
            _ => seq![],
        }
    } else {
        Seq::new(p.len(), |i: int| value(p[i], 16) as u16)
    }
}

proof fn lemma_group(s: Seq<char>)
    ensures
        segment_of(s) is Some <==> is_group(s),
        is_group(s) ==> segment_of(s) == Some(value(s, 16) as u16) && v4_of(s) is None,
        v4_of(s) is Some <==> ip_of(s) is Some && ip_of(s)->0 is V4,
        v4_of(s) is Some ==> ip_of(s) == Some(IpView::V4(v4_of(s)->0)),
{
    if segment_of(s) is Some {
        assert forall|i: int| 0 <= i < s.len() implies {
            ||| '0' <= #[trigger] s[i] <= '9'
            ||| 'a' <= s[i] <= 'f'
            ||| 'A' <= s[i] <= 'F'
        } by {
            assert(digit_of(s[i]) < 16);
        }
    }
    if is_group(s) {
        assert forall|i: int| 0 <= i < s.len() implies #[trigger] s[i] != '.' && digit_of(s[i])
            < 16 by {}
        lemma_one_piece(s, '.');
    }
}

#[verifier::spinoff_prover]
#[verifier::rlimit(60)]
proof fn lemma_parts(p: Seq<Seq<char>>, v4_allowed: bool)
    ensures
        parts_of(p, v4_allowed) == if are_groups(p, v4_allowed) {
            Some(groups_worth(p))
        } else {
            None
        },
    decreases p.len(),
{
    if p.len() == 0 {
        assert(groups_worth(p) =~= seq![]);
    } else {
        let rest = p.skip(1);
        lemma_group(p[0]);
        lemma_parts(rest, v4_allowed);
        if p.len() == 1 {
            assert(rest =~= seq![]);
            assert(groups_worth(rest) =~= seq![]);
            if is_group(p[0]) {
                assert(seq![value(p[0], 16) as u16] + groups_worth(rest) =~= groups_worth(p));
            } else if v4_of(p[0]) is Some {
                assert(groups_worth(p) =~= embedded(v4_of(p[0])->0));
            } else {
                assert(!is_group(p[0]));
            }
        } else {
            assert(rest.last() == p.last());
            if are_groups(p, v4_allowed) {
                assert(is_group(p[0]));
                assert forall|i: int| 0 <= i < rest.len() implies is_group(#[trigger] rest[i]) || (i
                    == rest.len() - 1 && v4_allowed && ip_of(rest[i]) is Some
                    && ip_of(rest[i])->0 is V4) by {
                    assert(rest[i] == p[i + 1]);
                }
                assert(seq![value(p[0], 16) as u16] + groups_worth(rest) =~= groups_worth(p));
            } else if is_group(p[0]) && are_groups(rest, v4_allowed) {
                assert forall|i: int| 0 <= i < p.len() implies is_group(#[trigger] p[i]) || (i
                    == p.len() - 1 && v4_allowed && ip_of(p[i]) is Some && ip_of(p[i])->0 is V4) by {
                    if i > 0 {
                        assert(rest[i - 1] == p[i]);
                    }
                }
            }
        }
    }
}

/// The groups of a text: those between its colons, and none where it is empty.
pub open spec fn groups(s: Seq<char>) -> Seq<Seq<char>> {
    if s.len() == 0 {
        seq![]
    } else {
        pieces(s, ':')
    }
}

/// A text is an address of version 6 exactly where it is eight groups between
/// colons, or up to seven with two colons in place of the missing ones, which are
/// zero; the last group may be an address of version 4, which counts for two.
pub proof fn a_v6_address_is_told_by_its_groups(s: Seq<char>)
    ensures
        ip_of(s) is Some && ip_of(s)->0 is V4 || ip_of(s) == match find(s, seq![':', ':']) {
            None => if are_groups(groups(s), true) && groups_worth(groups(s)).len() == 8 {
                Some(IpView::V6(groups_worth(groups(s))))
            } else {
                None
            },
            Some(i) => {
                let head = groups(s.take(i));
                let tail = groups(s.skip(i + 2));
                let n = groups_worth(head).len() + groups_worth(tail).len();
                if are_groups(head, false) && are_groups(tail, true) && n <= 7 {
                    Some(
                        IpView::V6(
                            groups_worth(head) + Seq::new((8 - n) as nat, |k: int| 0u16)
                                + groups_worth(tail),
                        ),
                    )
                } else {
                    None
                }
            },
        },
{
    assert(colons() == seq![':', ':']);
    lemma_segments(s, true);
    if let Some(i) = find(s, colons()) {
        lemma_segments(s.take(i), false);
        lemma_segments(s.skip(i + 2), true);
        let n = groups_worth(groups(s.take(i))).len() + groups_worth(groups(s.skip(i + 2))).len();
        if n <= 7 {
            assert(zeros((8 - n) as nat) =~= Seq::new((8 - n) as nat, |k: int| 0u16));
        }
    }
}

proof fn lemma_segments(s: Seq<char>, v4_allowed: bool)
    ensures
        segments_of(s, v4_allowed) == if are_groups(groups(s), v4_allowed) {
            Some(groups_worth(groups(s)))
        } else {
            None
        },
{
    if s.len() == 0 {
        assert(groups_worth(groups(s)) =~= seq![]);
    } else {
        lemma_parts(pieces(s, ':'), v4_allowed);
    }
}

/// Whether `n` segments in a row are zero from position `i` on.
pub open spec fn are_zero(segments: Seq<u16>, i: int, n: int) -> bool {
    &&& 0 <= i
    &&& 0 <= n
    &&& i + n <= segments.len()
    &&& forall|j: int| i <= j < i + n ==> #[trigger] segments[j] == 0
}

/// Whether a run of zeros is the first of the longest ones.
pub open spec fn is_first_longest(segments: Seq<u16>, start: int, run: int) -> bool {
    &&& are_zero(segments, start, run)
    &&& forall|i: int| !#[trigger] are_zero(segments, i, run + 1)
    &&& forall|i: int| i < start ==> !#[trigger] are_zero(segments, i, run)
}

/// Some segments in base sixteen, with colons between them.
pub open spec fn written_segments(segments: Seq<u16>) -> Seq<char> {
    join(Seq::new(segments.len(), |i: int| numeral(segments[i] as nat, 16)), seq![':'])
}

/// An address of version 6 is written as its segments, with two colons in place of
/// the first of the longest runs of zeros where that is two or more, unless it
/// stands for an address of version 4, which is then written behind `::ffff:`.
pub proof fn a_v6_address_hides_its_first_longest_zeros(segments: Seq<u16>, start: int, run: int)
    requires
        segments.len() == 8,
    ensures
        are_zero(segments, 0, 5) && segments[5] == 0xffff ==> ip_text(IpView::V6(segments))
            == "::ffff:"@ + ip_text(
            IpView::V4(
                seq![
                    (segments[6] / 256) as u8,
                    (segments[6] % 256) as u8,
                    (segments[7] / 256) as u8,
                    (segments[7] % 256) as u8,
                ],
            ),
        ),
        !(are_zero(segments, 0, 5) && segments[5] == 0xffff) && run >= 2 && is_first_longest(
            segments,
            start,
            run,
        ) ==> ip_text(IpView::V6(segments)) == written_segments(segments.take(start)) + seq![
            ':',
            ':',
        ] + written_segments(segments.skip(start + run)),
        (forall|i: int| !#[trigger] are_zero(segments, i, 2)) ==> ip_text(IpView::V6(segments))
            == written_segments(segments),
{
    let best = longest_zeros(segments, 8);
    let most = zeros_at(segments, best) as int;
    lemma_best(segments, 8);
    lemma_run(segments, best);
    assert(is_v4_mapped(segments) <==> are_zero(segments, 0, 5) && segments[5] == 0xffff) by {
        if is_v4_mapped(segments) {
            assert(are_zero(segments, 0, 5));
        }
        if are_zero(segments, 0, 5) {
            assert(segments[0] == 0 && segments[1] == 0 && segments[2] == 0 && segments[3] == 0
                && segments[4] == 0);
        }
    }
    assert(last_octets(segments) == seq![
        (segments[6] / 256) as u8,
        (segments[6] % 256) as u8,
        (segments[7] / 256) as u8,
        (segments[7] % 256) as u8,
    ]);
    lemma_written(segments);
    if run >= 2 && is_first_longest(segments, start, run) {
        lemma_run(segments, start);
        assert(start < 8);
        assert(zeros_at(segments, start) >= run) by {
            lemma_run_covers(segments, start, run);
        }
        assert(most >= zeros_at(segments, start));
        if most > run {
            assert(are_zero(segments, best, run + 1));
        }
        assert(most == run);
        assert(are_zero(segments, best, run));
        if best > start {
            assert(zeros_at(segments, start) == most);
        }
        assert(best == start);
        lemma_written(segments.take(start));
        lemma_written(segments.skip(start + run));
    }
    if forall|i: int| !#[trigger] are_zero(segments, i, 2) {
        if most >= 2 {
            assert(are_zero(segments, best, 2));
        }
        assert(!are_zero(segments, 0, 2));
        if are_zero(segments, 0, 5) {
            assert(are_zero(segments, 0, 2));
        }
    }
}

proof fn lemma_written(segments: Seq<u16>)
    ensures
        segments_text(segments) == written_segments(segments),
{
    assert(segment_texts(segments) =~= Seq::new(
        segments.len(),
        |i: int| numeral(segments[i] as nat, 16),
    ));
}

proof fn lemma_run(segments: Seq<u16>, i: int)
    requires
        0 <= i <= segments.len(),
    ensures
        are_zero(segments, i, zeros_at(segments, i) as int),
        !are_zero(segments, i, zeros_at(segments, i) as int + 1),
    decreases segments.len() - i,
{
    if i < segments.len() && segments[i] == 0 {
        lemma_run(segments, i + 1);
        let n = zeros_at(segments, i + 1) as int;
        if are_zero(segments, i, n + 2) {
            assert(are_zero(segments, i + 1, n + 1));
        }
    } else if are_zero(segments, i, 1) {
        assert(segments[i] == 0);
    }
}

proof fn lemma_run_covers(segments: Seq<u16>, i: int, n: int)
    requires
        are_zero(segments, i, n),
    ensures
        zeros_at(segments, i) >= n,
    decreases n,
{
    if n > 0 {
        assert(segments[i] == 0);
        assert(are_zero(segments, i + 1, n - 1));
        lemma_run_covers(segments, i + 1, n - 1);
    }
}

/// Of the first positions, none has a longer run of zeros than the one chosen, and
/// none before it has one as long.
proof fn lemma_best(segments: Seq<u16>, n: nat)
    requires
        1 <= n <= segments.len(),
    ensures
        0 <= longest_zeros(segments, n) < n,
        forall|i: int|
            0 <= i < n ==> #[trigger] zeros_at(segments, i) <= zeros_at(
                segments,
                longest_zeros(segments, n),
            ),
        forall|i: int|
            0 <= i < longest_zeros(segments, n) ==> #[trigger] zeros_at(segments, i) < zeros_at(
                segments,
                longest_zeros(segments, n),
            ),
    decreases n,
{
    if n > 1 {
        lemma_best(segments, (n - 1) as nat);
    }
}

/// The expressions that the parsers match with, and what their classes of
/// characters stand for.
pub proof fn patterns_are_these(c: char, s: Seq<char>)
    ensures
        RULE@ == "^(?:([0-9a-fA-F:.]+)\\s+)?(\\d+)/(tcp|udp)"@,
        PROCESS@ == "users:\\(\\(\"([^\"]+)\",pid=(\\d+)"@,
        MAPPING@ == "(?:(\\[[0-9a-fA-F:]+\\]|[0-9.]+)):(\\d+)->\\d+/(tcp|udp)"@,
        is_addr_char(c) <==> ('0' <= c <= '9' || 'a' <= c <= 'f' || 'A' <= c <= 'F' || c == ':' || c
            == '.'),
        is_bracketed_char(c) <==> ('0' <= c <= '9' || 'a' <= c <= 'f' || 'A' <= c <= 'F' || c
            == ':'),
        is_dotted_char(c) <==> ('0' <= c <= '9' || c == '.'),
        '0' <= c <= '9' ==> is_digit(c),
        is_digit(c) && c <= '\u{7f}' ==> '0' <= c <= '9',
        is_proto(s) <==> s == "tcp"@ || s == "udp"@,
{
    reveal_strlit("tcp");
    reveal_strlit("udp");
    assert("tcp"@ =~= seq!['t', 'c', 'p']);
    assert("udp"@ =~= seq!['u', 'd', 'p']);
}

} // verus!
